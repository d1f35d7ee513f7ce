use std::collections::VecDeque;
use vstd::prelude::*;

verus! {

/// Identifiers handed out by an [`IdSparseVec`]: a typed wrapper around a slot index.
pub trait SparseId: Copy {
    spec fn id_index(&self) -> nat;

    fn from_index(index: usize) -> (id: Self)
        ensures
            id.id_index() == index,
    ;

    fn index(&self) -> (i: usize)
        ensures
            i == self.id_index(),
    ;

    proof fn lemma_index_injective(a: Self, b: Self)
        requires
            a.id_index() == b.id_index(),
        ensures
            a == b,
    ;
}

/// Identifies a window of a screen.
#[derive(Debug, Clone, Copy, PartialEq, Eq, Hash, Structural)]
pub struct WindowId(pub usize);

/// Identifies a kernel thread.
#[derive(Debug, Clone, Copy, PartialEq, Eq, Hash, Structural)]
pub struct ThreadId(pub usize);

/// Identifies an asynchronous task.
#[derive(Debug, Clone, Copy, PartialEq, Eq, Hash, Structural)]
pub struct TaskId(pub usize);

impl SparseId for WindowId {
    open spec fn id_index(&self) -> nat {
        self.0 as nat
    }

    fn from_index(index: usize) -> (id: Self) {
        WindowId(index)
    }

    fn index(&self) -> (i: usize) {
        self.0
    }

    proof fn lemma_index_injective(a: Self, b: Self) {
    }
}

impl SparseId for ThreadId {
    open spec fn id_index(&self) -> nat {
        self.0 as nat
    }

    fn from_index(index: usize) -> (id: Self) {
        ThreadId(index)
    }

    fn index(&self) -> (i: usize) {
        self.0
    }

    proof fn lemma_index_injective(a: Self, b: Self) {
    }
}

impl SparseId for TaskId {
    open spec fn id_index(&self) -> nat {
        self.0 as nat
    }

    fn from_index(index: usize) -> (id: Self) {
        TaskId(index)
    }

    fn index(&self) -> (i: usize) {
        self.0
    }

    proof fn lemma_index_injective(a: Self, b: Self) {
    }
}

/// A vector of optional values addressed by identifiers; freed identifiers are reused first
/// in first-in first-out order.
pub struct IdSparseVec<I, T> {
    list: Vec<Option<T>>,
    free: VecDeque<I>,
}

impl<I: SparseId, T> IdSparseVec<I, T> {
    /// The value stored under each index.
    pub closed spec fn view(&self) -> Map<nat, T> {
        Map::new(
            |i: nat| i < self.list@.len() && self.list@[i as int] is Some,
            |i: nat| self.list@[i as int].unwrap(),
        )
    }

    /// Number of slots ever handed out.
    pub closed spec fn slot_count(&self) -> nat {
        self.list@.len()
    }

    /// Freed identifiers waiting for reuse, oldest first.
    pub closed spec fn free_ids(&self) -> Seq<I> {
        self.free@
    }

    pub closed spec fn wf(&self) -> bool {
        &&& forall|k: int|
            0 <= k < self.free@.len() ==> (#[trigger] self.free@[k]).id_index() < self.list@.len()
                && self.list@[self.free@[k].id_index() as int] is None
        &&& forall|j: int, k: int|
            0 <= j < k < self.free@.len() ==> (#[trigger] self.free@[j]).id_index() != (
            #[trigger] self.free@[k]).id_index()
    }

    pub fn new() -> (v: Self)
        ensures
            v.wf(),
            v@ == Map::<nat, T>::empty(),
            v.slot_count() == 0,
            v.free_ids().len() == 0,
    {
        let v = IdSparseVec { list: Vec::new(), free: VecDeque::new() };
        assert(v@ =~= Map::<nat, T>::empty());
        v
    }

    pub fn get(&self, id: I) -> (r: Option<&T>)
        ensures
            match r {
                Some(x) => self@.contains_key(id.id_index()) && self@[id.id_index()] == *x,
                None => !self@.contains_key(id.id_index()),
            },
    {
        let i = id.index();
        if i < self.list.len() {
            match &self.list[i] {
                Some(x) => Some(x),
                None => None,
            }
        } else {
            None
        }
    }

    pub fn get_mut(&mut self, id: I) -> (r: Option<&mut T>)
        ensures
            final(self).slot_count() == old(self).slot_count(),
            final(self).free_ids() == old(self).free_ids(),
            old(self).wf() ==> final(self).wf(),
            match r {
                Some(x) => old(self)@.contains_key(id.id_index()) && old(self)@[id.id_index()] == *x
                    && final(self)@ == old(self)@.insert(id.id_index(), *final(x)),
                None => !old(self)@.contains_key(id.id_index()) && final(self)@ == old(self)@,
            },
    {
        let i = id.index();
        if i < self.list.len() {
            let slice = self.list.as_mut_slice();
            match &mut slice[i] {
                Some(x) => Some(x),
                None => None,
            }
        } else {
            None
        }
    }

    /// Mutable access to two different entries at once.
    pub fn get_mut_2(&mut self, id1: I, id2: I) -> (r: Option<(&mut T, &mut T)>)
        ensures
            final(self).slot_count() == old(self).slot_count(),
            final(self).free_ids() == old(self).free_ids(),
            old(self).wf() ==> final(self).wf(),
            match r {
                Some((x, y)) => {
                    &&& id1.id_index() != id2.id_index()
                    &&& old(self)@.contains_key(id1.id_index())
                    &&& old(self)@.contains_key(id2.id_index())
                    &&& old(self)@[id1.id_index()] == *x
                    &&& old(self)@[id2.id_index()] == *y
                    &&& final(self)@ == old(self)@.insert(id1.id_index(), *final(x)).insert(id2.id_index(), *final(y))
                },
                None => final(self)@ == old(self)@ && !(id1.id_index() != id2.id_index()
                    && old(self)@.contains_key(id1.id_index()) && old(self)@.contains_key(id2.id_index())),
            },
    {
        let i = id1.index();
        let j = id2.index();
        let n = self.list.len();
        if i == j || i >= n || j >= n {
            return None;
        }
        let slice = self.list.as_mut_slice();
        if i < j {
            let (a, b) = slice.split_at_mut(j);
            match (&mut a[i], &mut b[0]) {
                (Some(x), Some(y)) => Some((x, y)),
                _ => None,
            }
        } else {
            let (a, b) = slice.split_at_mut(i);
            match (&mut b[0], &mut a[j]) {
                (Some(x), Some(y)) => Some((x, y)),
                _ => None,
            }
        }
    }

    /// Stores `value` under a fresh identifier: the oldest freed one if any, else a new slot.
    pub fn insert(&mut self, value: T) -> (id: I)
        requires
            old(self).wf(),
        ensures
            final(self).wf(),
            !old(self)@.contains_key(id.id_index()),
            final(self)@ == old(self)@.insert(id.id_index(), value),
            old(self).free_ids().len() > 0 ==> id == old(self).free_ids()[0]
                && final(self).free_ids() == old(self).free_ids().drop_first()
                && final(self).slot_count() == old(self).slot_count(),
            old(self).free_ids().len() == 0 ==> id.id_index() == old(self).slot_count()
                && final(self).free_ids() == old(self).free_ids()
                && final(self).slot_count() == old(self).slot_count() + 1,
    {
        match self.free.pop_front() {
            Some(id) => {
                proof {
                    assert(old(self).free@[0] == id);
                }
                let i = id.index();
                self.list.set(i, Some(value));
                proof {
                    assert forall|k: int| 0 <= k < self.free@.len() implies (#[trigger] self.free@[k]).id_index() < self.list@.len()
                        && self.list@[self.free@[k].id_index() as int] is None by {
                        assert(self.free@[k] == old(self).free@[k + 1]);
                        assert(old(self).free@[0].id_index() != old(self).free@[k + 1].id_index());
                    }
                    assert forall|a: int, b: int| 0 <= a < b < self.free@.len() implies (#[trigger] self.free@[a]).id_index() != (
                        #[trigger] self.free@[b]).id_index() by {
                        assert(self.free@[a] == old(self).free@[a + 1]);
                        assert(self.free@[b] == old(self).free@[b + 1]);
                    }
                    assert(self@ =~= old(self)@.insert(id.id_index(), value));
                }
                id
            },
            None => {
                let id = I::from_index(self.list.len());
                self.list.push(Some(value));
                proof {
                    assert forall|k: int| 0 <= k < self.free@.len() implies (#[trigger] self.free@[k]).id_index() < self.list@.len()
                        && self.list@[self.free@[k].id_index() as int] is None by {
                    }
                    assert(self@ =~= old(self)@.insert(id.id_index(), value));
                }
                id
            },
        }
    }

    /// Takes the value stored under `index` out and queues the identifier for reuse.
    pub fn remove(&mut self, index: I) -> (v: T)
        requires
            old(self).wf(),
            old(self)@.contains_key(index.id_index()),
        ensures
            final(self).wf(),
            v == old(self)@[index.id_index()],
            final(self)@ == old(self)@.remove(index.id_index()),
            final(self).free_ids() == old(self).free_ids().push(index),
            final(self).slot_count() == old(self).slot_count(),
    {
        let i = index.index();
        let mut slot: Option<T> = None;
        self.list.set_and_swap(i, &mut slot);
        self.free.push_back(index);
        proof {
            assert forall|k: int| 0 <= k < self.free@.len() implies (#[trigger] self.free@[k]).id_index() < self.list@.len()
                && self.list@[self.free@[k].id_index() as int] is None by {
                if k < old(self).free@.len() {
                    assert(self.free@[k] == old(self).free@[k]);
                }
            }
            assert forall|a: int, b: int| 0 <= a < b < self.free@.len() implies (#[trigger] self.free@[a]).id_index() != (
                #[trigger] self.free@[b]).id_index() by {
                assert(self.free@[a] == old(self).free@[a]);
                if b < old(self).free@.len() {
                    assert(self.free@[b] == old(self).free@[b]);
                }
            }
            assert(self@ =~= old(self)@.remove(index.id_index()));
        }
        slot.unwrap()
    }
}

/// Removing the identifier that `insert` just returned gives the inserted value back and
/// leaves the map as it was before the insertion.
pub proof fn lemma_insert_then_remove<T>(before: Map<nat, T>, key: nat, value: T)
    requires
        !before.contains_key(key),
    ensures
        before.insert(key, value).contains_key(key),
        before.insert(key, value)[key] == value,
        before.insert(key, value).remove(key) == before,
{
    assert(before.insert(key, value).remove(key) =~= before);
}

} // verus!
