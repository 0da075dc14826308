use nitro::change_btree::{BTree, Leaf};
use rand::rngs::StdRng;
use rand::seq::SliceRandom;
use rand::SeedableRng;

#[test]
fn change_btree_test_btree_insert() {
    let mut btree = BTree::new(4);
    btree.insert(10, "A");
    btree.insert(20, "B");
    btree.insert(5, "C");

    assert_eq!(btree.size(), 3);
    assert!(!btree.is_empty());
}

#[test]
fn change_btree_test_leaf_split() {
    let mut leaf = Leaf::new(2);
    leaf.insert(10, "A");
    leaf.insert(20, "B");
    let new_leaf = leaf.insert(5, "C");
    assert!(new_leaf.is_some());
    assert_eq!(new_leaf.unwrap().1.size(), 1);
    assert_eq!(leaf.size(), 2);
}

#[test]
fn test_branch_split() {
    let mut tree = BTree::new(2);
    tree.insert(10, "A");
    tree.insert(20, "B");
    assert!(tree.root.is_leaf());

    tree.insert(30, "C");
    assert!(tree.root.is_branch());
    assert_eq!(tree.size(), 3);

    tree.insert(5, "D");
    tree.insert(7, "E");
    tree.insert(6, "F");

    // split should occur here
    tree.insert(22, "G");

    assert_eq!(tree.find(&10), Some(&"A"));
    assert_eq!(tree.find(&5), Some(&"D"));
    assert_eq!(tree.find(&30), Some(&"C"));

    assert_eq!(tree.size(), 7);
    assert_eq!(tree.at_index(0), Some(&"D"));
    assert_eq!(tree.at_index(1), Some(&"F"));
    assert_eq!(tree.at_index(2), Some(&"E"));
    assert_eq!(tree.at_index(3), Some(&"A"));
    assert_eq!(tree.at_index(4), Some(&"B"));
    assert_eq!(tree.at_index(5), Some(&"G"));
    assert_eq!(tree.at_index(6), Some(&"C"));
}

#[test]
fn test_btree_iter() {
    for i in 0..100 {
        for order in 2..10 {
            let mut tree = BTree::new(order);

            let mut keys = (0..100u64).collect::<Vec<_>>();
            let sorted_keys = keys.clone();

            let mut rng = StdRng::seed_from_u64(i);
            keys.shuffle(&mut rng);

            for i in keys.iter() {
                tree.insert(*i, i);
            }

            let items = tree.iter().iter().map(|(k, _)| *k).collect::<Vec<_>>();

            assert_eq!(items.len(), keys.len());
            assert_eq!(items, sorted_keys);
        }
    }
}

#[test]
fn change_btree_separator_key_is_routed_left() {
    // order 2: inserting 10, 20, 30 splits the root leaf at 20; 20 becomes a separator
    // and routing sends it to the left child, which does not hold it
    let mut tree = BTree::new(2);
    tree.insert(10, "A");
    tree.insert(20, "B");
    tree.insert(30, "C");
    assert_eq!(tree.find(&20), None);
    assert_eq!(tree.find(&30), Some(&"C"));
    assert_eq!(tree.index_of(&30), Some(1));
    assert_eq!(tree.index_of(&10), Some(0));
}

#[test]
fn change_btree_kept_count_lags_without_split() {
    // a non-splitting insert below a branch does not update the branch count
    let mut tree = BTree::new(2);
    tree.insert(10, "A");
    tree.insert(20, "B");
    tree.insert(30, "C");
    tree.insert(5, "D");
    assert_eq!(tree.size(), 3);
    assert_eq!(tree.iter().len(), 4);
}

#[test]
fn change_btree_equal_keys_newest_first() {
    let mut tree = BTree::new(4);
    tree.insert(7, "old");
    tree.insert(7, "new");
    assert_eq!(tree.find(&7), Some(&"new"));
    let values = tree.iter().iter().map(|(_, v)| **v).collect::<Vec<_>>();
    assert_eq!(values, vec!["new", "old"]);
}

#[test]
fn change_btree_remove_is_a_no_op() {
    let mut tree = BTree::new(3);
    tree.insert(1, 'a');
    assert_eq!(tree.remove(&1), None);
    assert_eq!(tree.find(&1), Some(&'a'));
}

#[test]
fn change_btree_find_mut_changes_the_found_value() {
    let mut tree = BTree::new(2);
    let keys = [10u64, 20, 30, 5, 7, 25];
    for k in keys {
        tree.insert(k, k * 100);
    }
    assert!(tree.root.is_branch());
    let before: Vec<Option<u64>> = keys.iter().map(|k| tree.find(k).copied()).collect();
    assert_eq!(before[3], Some(500));
    if let Some(v) = tree.find_mut(&5) {
        *v = 1;
    } else {
        panic!("key 5 not found");
    }
    assert_eq!(tree.find(&5), Some(&1));
    for (i, k) in keys.iter().enumerate() {
        if *k != 5 {
            assert_eq!(tree.find(k).copied(), before[i]);
        }
    }
    assert!(tree.find_mut(&99).is_none());
    let all: Vec<u64> = tree.iter().iter().map(|(k, _)| *k).collect();
    assert_eq!(all, vec![5, 7, 10, 20, 25, 30]);
}

#[test]
fn change_btree_at_index_mut_changes_the_value_at_a_position() {
    let mut tree = BTree::new(4);
    tree.insert(3, "c");
    tree.insert(1, "a");
    tree.insert(2, "b");
    if let Some(v) = tree.at_index_mut(1) {
        *v = "x";
    }
    assert_eq!(tree.at_index(1), Some(&"x"));
    assert_eq!(tree.find(&2), Some(&"x"));
    assert!(tree.at_index_mut(3).is_none());
}
