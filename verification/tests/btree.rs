use nitro::btree::{BTree, Leaf, Node};

#[test]
fn btree_test_btree_insert() {
    let mut btree = BTree::new(4);
    btree.insert(10, "A");
    btree.insert(20, "B");
    btree.insert(5, "C");

    assert_eq!(btree.size(), 3);
    assert!(!btree.is_empty());
}

#[test]
fn btree_test_leaf_split() {
    let mut leaf = Leaf::new(2);
    leaf.insert(10, "A");
    leaf.insert(20, "B");
    let new_leaf = leaf.insert(5, "C");
    assert!(new_leaf.is_some());
    assert_eq!(new_leaf.unwrap().size(), 1);
    assert_eq!(leaf.size(), 2);
}

#[test]
fn full_root_splits_under_a_counting_branch() {
    let mut btree = BTree::new(2);
    btree.insert(1, 'a');
    btree.insert(2, 'b');
    assert!(btree.root.is_leaf());
    btree.insert(3, 'c');
    assert!(btree.root.is_branch());
    // the new root has no keys and counts from zero
    assert_eq!(btree.size(), 0);
    assert!(btree.is_empty());
    assert_eq!(btree.root.min_key(), Some(&1));
    assert_eq!(btree.root.max_key(), Some(&3));
    btree.insert(4, 'd');
    assert_eq!(btree.size(), 1);
    assert_eq!(btree.find(&4), None);
    assert_eq!(btree.remove(&4), None);
}

#[test]
fn leaf_keeps_keys_sorted() {
    let mut leaf = Leaf::new(8);
    for k in [5u64, 1, 9, 3] {
        assert!(leaf.insert(k, k * 10).is_none());
    }
    assert_eq!(leaf.keys, vec![1, 3, 5, 9]);
    assert_eq!(leaf.values, vec![10, 30, 50, 90]);
    assert_eq!(leaf.min_key(), Some(&1));
    assert_eq!(leaf.max_key(), Some(&9));
    let n = Node::new_leaf(leaf);
    assert!(!n.is_empty());
    assert_eq!(n.size(), 4);
}
