use lilith::id_vec::{IdSparseVec, TaskId, ThreadId, WindowId};

#[test]
fn insert_hands_out_consecutive_ids() {
    let mut v: IdSparseVec<WindowId, &str> = IdSparseVec::new();
    let a = v.insert("a");
    let b = v.insert("b");
    assert_eq!(a, WindowId(0));
    assert_eq!(b, WindowId(1));
    assert_eq!(v.get(a), Some(&"a"));
    assert_eq!(v.get(b), Some(&"b"));
    assert_eq!(v.get(WindowId(2)), None);
}

#[test]
fn remove_returns_the_value_and_frees_the_id() {
    let mut v: IdSparseVec<ThreadId, u32> = IdSparseVec::new();
    let a = v.insert(10);
    let b = v.insert(20);
    assert_eq!(v.remove(a), 10);
    assert_eq!(v.get(a), None);
    assert_eq!(v.get(b), Some(&20));
}

#[test]
fn freed_ids_are_reused_oldest_first() {
    let mut v: IdSparseVec<TaskId, u32> = IdSparseVec::new();
    let a = v.insert(1);
    let b = v.insert(2);
    let c = v.insert(3);
    v.remove(b);
    v.remove(a);
    assert_eq!(v.insert(4), b);
    assert_eq!(v.insert(5), a);
    assert_eq!(v.insert(6), TaskId(3));
    assert_eq!(v.get(c), Some(&3));
}

#[test]
fn insert_then_remove_round_trips() {
    let mut v: IdSparseVec<TaskId, u32> = IdSparseVec::new();
    v.insert(7);
    let id = v.insert(8);
    assert_eq!(v.remove(id), 8);
    assert_eq!(v.get(TaskId(0)), Some(&7));
    assert_eq!(v.get(id), None);
}

#[test]
fn get_mut_changes_the_value() {
    let mut v: IdSparseVec<WindowId, u32> = IdSparseVec::new();
    let a = v.insert(1);
    *v.get_mut(a).unwrap() = 42;
    assert_eq!(v.get(a), Some(&42));
    assert!(v.get_mut(WindowId(9)).is_none());
}

#[test]
fn get_mut_2_needs_two_distinct_present_ids() {
    let mut v: IdSparseVec<WindowId, u32> = IdSparseVec::new();
    let a = v.insert(1);
    let b = v.insert(2);
    {
        let (x, y) = v.get_mut_2(a, b).unwrap();
        *x += 10;
        *y += 20;
    }
    assert_eq!(v.get(a), Some(&11));
    assert_eq!(v.get(b), Some(&22));
    assert!(v.get_mut_2(a, a).is_none());
    assert!(v.get_mut_2(a, WindowId(5)).is_none());
    let (y, x) = v.get_mut_2(b, a).unwrap();
    assert_eq!((*y, *x), (22, 11));
}
