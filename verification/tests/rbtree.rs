use lilith::rbtree::{Color, RbNode, RbTree};

/// Walks the tree from its root and checks the red-black rules: no red node has a red child,
/// every path down passes as many black nodes, and each node's key lies between those of its
/// subtrees. Returns the black height.
fn check_node(node: Option<&RbNode<u64>>, min: Option<u64>, max: Option<u64>) -> u32 {
    match node {
        None => 1,
        Some(n) => {
            let v = *n.value();
            if let Some(lo) = min {
                assert!(v >= lo);
            }
            if let Some(hi) = max {
                assert!(v <= hi);
            }
            if n.color == Color::Red {
                assert!(n.left().map_or(true, |c| c.color == Color::Black));
                assert!(n.right().map_or(true, |c| c.color == Color::Black));
            }
            let l = check_node(n.left(), min, Some(v));
            let r = check_node(n.right(), Some(v), max);
            assert_eq!(l, r);
            l + if n.color == Color::Black { 1 } else { 0 }
        }
    }
}

fn check_tree(tree: &RbTree<u64>) {
    assert!(tree.check());
    let root = tree.head().as_deref();
    if let Some(r) = root {
        assert_eq!(r.color, Color::Black);
    }
    check_node(root, None, None);
}

fn values(tree: &RbTree<u64>) -> Vec<u64> {
    tree.iter().into_iter().copied().collect()
}

#[test]
fn rbtree_insertion_keeps_balance_and_order() {
    let mut rng = fastrand::Rng::with_seed(42);
    for _ in 0..10 {
        let mut tree: RbTree<u64> = RbTree::new();
        let mut expected: Vec<u64> = Vec::new();
        for _ in 0..1000 {
            let v = rng.u64(0..100);
            tree.insert(v);
            expected.push(v);
            check_tree(&tree);
        }
        expected.sort();
        assert_eq!(values(&tree), expected);
    }
}

#[test]
fn rbtree_deletions_keep_balance_and_order() {
    let mut rng = fastrand::Rng::with_seed(42);
    for _ in 0..10 {
        let mut tree: RbTree<u64> = RbTree::new();
        let mut expected: Vec<u64> = Vec::new();
        for _ in 0..1000 {
            let v = rng.u64(0..100);
            tree.insert(v);
            expected.push(v);
        }
        expected.sort();
        while !expected.is_empty() {
            let i = rng.usize(0..expected.len());
            let k = expected.remove(i);
            assert_eq!(tree.remove(k), Some(k));
            check_tree(&tree);
            assert_eq!(values(&tree), expected);
        }
        assert!(tree.head().is_none());
    }
}

#[test]
fn empty_tree() {
    let mut tree: RbTree<u64> = RbTree::new();
    assert!(tree.head().is_none());
    assert!(tree.check());
    assert!(tree.iter().is_empty());
    assert_eq!(tree.find(3), None);
    assert_eq!(tree.remove(3), None);
}

#[test]
fn find_returns_a_value_with_the_key() {
    let mut tree: RbTree<u64> = RbTree::new();
    for v in [50u64, 20, 80, 10, 30, 70, 90, 20] {
        tree.insert(v);
    }
    assert_eq!(tree.find(30), Some(&30));
    assert_eq!(tree.find(20), Some(&20));
    assert_eq!(tree.find(90), Some(&90));
    assert_eq!(tree.find(55), None);
    assert_eq!(tree.find(0), None);
    assert_eq!(values(&tree), vec![10, 20, 20, 30, 50, 70, 80, 90]);
}

#[test]
fn remove_of_a_missing_key_changes_nothing() {
    let mut tree: RbTree<u64> = RbTree::new();
    for v in [5u64, 1, 9] {
        tree.insert(v);
    }
    assert_eq!(tree.remove(4), None);
    assert_eq!(values(&tree), vec![1, 5, 9]);
    check_tree(&tree);
}

#[test]
fn remove_of_a_repeated_key_removes_one() {
    let mut tree: RbTree<u64> = RbTree::new();
    for v in [7u64, 7, 3, 7] {
        tree.insert(v);
    }
    assert_eq!(tree.remove(7), Some(7));
    assert_eq!(values(&tree), vec![3, 7, 7]);
    assert_eq!(tree.remove(7), Some(7));
    assert_eq!(tree.remove(7), Some(7));
    assert_eq!(tree.remove(7), None);
    assert_eq!(values(&tree), vec![3]);
}

#[test]
fn remove_undoes_insert_of_a_new_key() {
    let mut tree: RbTree<u64> = RbTree::new();
    for v in [40u64, 10, 60, 10, 30] {
        tree.insert(v);
    }
    let before = values(&tree);
    tree.insert(25);
    assert_eq!(values(&tree), vec![10, 10, 25, 30, 40, 60]);
    assert_eq!(tree.remove(25), Some(25));
    assert_eq!(values(&tree), before);
    check_tree(&tree);
}

#[test]
fn ascending_inserts_stay_balanced() {
    let mut tree: RbTree<u64> = RbTree::new();
    for v in 0..512u64 {
        tree.insert(v);
        check_tree(&tree);
    }
    // A red-black tree of n nodes has black height at most log2(n + 1) + 1.
    let bh = check_node(tree.head().as_deref(), None, None);
    assert!(bh <= 11);
    assert_eq!(values(&tree), (0..512).collect::<Vec<u64>>());
}

#[test]
fn node_accessors() {
    let n = RbNode::new(12u64);
    assert_eq!(*n.value(), 12);
    assert_eq!(n.color, Color::Red);
    assert!(n.left().is_none());
    assert!(n.right().is_none());
    assert_eq!(n.into_value(), 12);

    let mut tree: RbTree<u64> = RbTree::new();
    tree.insert(2);
    tree.insert(1);
    tree.insert(3);
    let root = tree.head().as_deref().unwrap();
    assert_eq!(*root.value(), 2);
    assert_eq!(root.left().map(|c| *c.value()), Some(1));
    assert_eq!(root.right().map(|c| *c.value()), Some(3));
}
