use nitro::index::btree::{BTree, LeafNode, Node};

#[test]
fn insert_into_leaf() {
    let mut left = LeafNode {
        keys: Vec::with_capacity(5),
        values: Vec::with_capacity(5),
        capacity: 5,
    };

    left.insert(1, 1);
    left.insert(3, 3);
    left.insert(5, 5);
    left.insert(7, 7);

    assert_eq!(left.keys, vec![1, 3, 5, 7]);
}

#[test]
fn insert_into_leaf_with_split() {
    let mut left = LeafNode {
        keys: Vec::with_capacity(4),
        values: Vec::with_capacity(4),
        capacity: 4,
    };

    left.insert(1, 1);
    left.insert(3, 3);
    left.insert(5, 5);
    let right = left.insert(7, 7);

    assert_eq!(left.keys, vec![1, 3]);

    let right = right.unwrap().1;
    if let Node::Leaf(right) = right {
        assert_eq!(right.keys, vec![5, 7]);
    } else {
        panic!("right node is not leaf");
    }
}

#[test]
fn insert_into_btree() {
    let mut tree = BTree::new(4);

    tree.insert(1, 1);
    tree.insert(3, 3);
    tree.insert(5, 5);
    tree.insert(7, 7);

    assert_eq!(tree.size(), 4);
}

#[test]
fn split_puts_the_new_key_into_the_right_part() {
    let mut leaf = LeafNode::with_capacity(4);
    leaf.insert(10, 'a');
    leaf.insert(20, 'b');
    leaf.insert(30, 'c');
    // the leaf would fill: it splits at two and the key goes right, below the others
    let (k, right) = leaf.insert(5, 'd').unwrap();
    assert_eq!(k, 20);
    assert_eq!(leaf.keys, vec![10, 20]);
    match right {
        Node::Leaf(r) => {
            assert_eq!(r.keys, vec![5, 30]);
            assert_eq!(r.values, vec!['d', 'c']);
        }
        Node::Internal(_) => panic!("right node is not leaf"),
    }
}

#[test]
fn lookups_walk_the_counts() {
    let mut tree = BTree::new(4);
    for k in [1u64, 3, 5, 7] {
        tree.insert(k, k * 10);
    }
    // root is internal over [1, 3] and [5, 7]
    assert!(matches!(tree.root, Node::Internal(_)));
    assert_eq!(tree.at_index(0), Some(&10));
    assert_eq!(tree.at_index(2), Some(&50));
    assert_eq!(tree.at_index(3), Some(&70));
    assert_eq!(tree.at_index(4), None);
    assert_eq!(tree.index_of(&3), Some(1));
    // past every key only the last child is searched, without the count before it
    assert_eq!(tree.index_of(&7), Some(1));
    assert_eq!(tree.index_of(&4), None);
    tree.insert(9, 90);
    assert_eq!(tree.size(), 5);
}
