use nitro::change_sorter::{partition_point, ChangeTree};

#[test]
fn test_partition() {
    assert_eq!(partition_point(&vec![5, 12], 4), 0);

    let p = vec![10, 20, 40];
    assert_eq!(partition_point(&p, 9), 0);
    assert_eq!(partition_point(&p, 10), 1);
    assert_eq!(partition_point(&p, 10), 1);
}

#[test]
fn test_change_tree_prepend() {
    let mut tree = ChangeTree::new();
    tree.insert(0, 0);
    tree.insert(0, 1);
    tree.insert(0, 2);
    tree.insert(0, 3);

    assert_eq!(tree.size(), 4);

    if let Some(iter) = tree.iter_from(0) {
        assert_eq!(iter, vec![3, 2, 1, 0]);
    }
}

#[test]
fn test_change_tree_append() {
    let mut tree = ChangeTree::new();
    tree.insert(0, 0);
    tree.insert(1, 1);
    tree.insert(2, 2);
    tree.insert(3, 3);

    assert_eq!(tree.size(), 4);

    if let Some(iter) = tree.iter_from(0) {
        assert_eq!(iter, vec![0, 1, 2, 3]);
    }
}

#[test]
fn test_change_tree_insert_random() {
    let mut tree = ChangeTree::new();
    for k in 0..5usize {
        tree.insert(k, k as u64);
    }

    assert_eq!(tree.size(), 5);
    tree.insert(2, 6);

    assert_eq!(tree.index_of(&6).unwrap(), 2);
    assert_eq!(tree.index_of(&2).unwrap(), 3);
    assert_eq!(tree.at_index(3).unwrap(), &2);

    if let Some(iter) = tree.iter_from(2) {
        assert_eq!(iter, vec![6, 2, 3, 4]);
    }
}

#[test]
fn test_change_tree_insert_random1() {
    for order in 2..5 {
        let mut tree = ChangeTree::with_order(order);
        for k in 0..5usize {
            tree.insert(k, k as u64);
        }

        assert_eq!(tree.size(), 5);
        tree.insert(2, 6);

        assert_eq!(tree.index_of(&6).unwrap(), 2);
        assert_eq!(tree.index_of(&2).unwrap(), 3);
        assert_eq!(tree.at_index(3).unwrap(), &2);

        if let Some(iter) = tree.iter_from(2) {
            assert_eq!(iter, vec![6, 2, 3, 4]);
        }
    }
}

#[test]
fn test_change_tree_insert_random2() {
    let mut tree = ChangeTree::with_order(6);
    for k in 0..50usize {
        tree.insert(k, k as u64);
    }

    tree.insert(10, 51);

    assert_eq!(tree.index_of(&10).unwrap(), 11);

    tree.insert(20, 52);

    assert_eq!(tree.index_of(&20).unwrap(), 22);
}

#[test]
fn change_tree_finds_values_after_many_splits() {
    let mut tree = ChangeTree::with_order(3);
    for k in 0..40usize {
        tree.insert(0, k as u64);
    }
    assert_eq!(tree.size(), 40);
    for k in 0..40u64 {
        assert_eq!(tree.index_of(&k), Some(39 - k as usize));
        assert_eq!(tree.at_index(39 - k as usize), Some(&k));
    }
    assert!(tree.contains(&7));
    assert!(!tree.contains(&99));
    assert_eq!(tree.index_of(&99), None);
    assert_eq!(tree.at_index(40), None);
    assert_eq!(tree.iter_from(38), Some(vec![1, 0]));
    assert_eq!(tree.iter_from(40), Some(vec![]));
}

#[test]
fn change_tree_compress_rewrites_dirty_refs() {
    let mut tree = ChangeTree::new();
    tree.insert(0, 5);
    tree.insert(0, 6);
    tree.dirty.insert(5);
    tree.compress();
    assert!(tree.dirty.is_empty());
    assert_eq!(tree.refs.get(&5).unwrap().index, 1);
    assert_eq!(tree.refs.get(&5).unwrap().mapper, 0);
    assert_eq!(tree.refs.get(&6).unwrap().mapper, 2);
}

#[test]
fn change_tree_values_change_in_place() {
    let mut tree = ChangeTree::with_order(3);
    for k in 0..20usize {
        tree.insert(k, k as u64);
    }
    if let Some(v) = tree.at_index_mut(7) {
        *v = 100;
    }
    assert_eq!(tree.at_index(7), Some(&100));
    assert_eq!(tree.at_index(6), Some(&6));
    assert_eq!(tree.at_index(8), Some(&8));
    assert!(tree.at_index_mut(20).is_none());
    assert_eq!(tree.size(), 20);
}
