use mindb::btree::{Btree, BtreeNode};
use mindb::storage::btree::{Btree as KeyValueTree, Node};

#[test]
fn btree_insert_then_search_finds_every_key() {
    let mut tree = Btree::create(2);
    for k in [50, 20, 80, 10, 30, 70, 90, 60, 40, 25, 35, 45, 5, 15, 65, 75, 85, 95] {
        tree.insert(k);
    }
    for k in [50, 20, 80, 10, 30, 70, 90, 60, 40, 25, 35, 45, 5, 15, 65, 75, 85, 95] {
        let (node, i) = tree.search(k).expect("inserted key is found");
        assert!(i < 3);
        let _ = node;
    }
    assert!(tree.search(1).is_none());
    assert!(tree.search(100).is_none());
}

#[test]
fn btree_accepts_repeated_keys() {
    let mut tree = Btree::create(3);
    for _ in 0..10 {
        tree.insert(7);
    }
    tree.insert(3);
    assert!(tree.search(7).is_some());
    assert!(tree.search(3).is_some());
    assert!(tree.search(4).is_none());
}

#[test]
fn btree_empty_tree_finds_nothing() {
    let tree = Btree::create(2);
    assert!(tree.search(0).is_none());
}

#[test]
fn btree_node_leaf_insert_search_remove() {
    let mut leaf = BtreeNode::new(true);
    assert!(!leaf.is_full(3));
    for k in [4, 1, 3, 2, 5] {
        leaf.insert_non_full(k, 3);
    }
    assert!(leaf.is_full(3));
    for k in 1..=5 {
        let (node, i) = leaf.search(k).unwrap();
        assert_eq!(i as i64, k - 1);
        let _ = node;
    }
    assert!(leaf.remove(3, 3));
    assert!(leaf.search(3).is_none());
    assert!(!leaf.remove(3, 3));
    assert!(!leaf.remove(42, 3));
    assert!(leaf.search(4).is_some());
    assert!(!leaf.is_full(3));
}

#[test]
fn btree_node_remove_one_of_repeated_keys() {
    let mut leaf = BtreeNode::new(true);
    leaf.insert_non_full(9, 2);
    leaf.insert_non_full(9, 2);
    assert!(leaf.remove(9, 2));
    assert!(leaf.search(9).is_some());
    assert!(leaf.remove(9, 2));
    assert!(leaf.search(9).is_none());
}

#[test]
fn key_value_tree_keeps_keys_sorted() {
    let mut tree: KeyValueTree<&str> = KeyValueTree::new(2);
    for (k, v) in [(5, "e"), (1, "a"), (9, "i"), (3, "c"), (7, "g"), (2, "b"), (8, "h"), (4, "d"), (6, "f")] {
        tree.insert(k, v);
    }
    assert_eq!(tree.keys_in_order(), vec![1, 2, 3, 4, 5, 6, 7, 8, 9]);
    assert_eq!(
        tree.in_order(),
        vec![(1, "a"), (2, "b"), (3, "c"), (4, "d"), (5, "e"), (6, "f"), (7, "g"), (8, "h"), (9, "i")]
    );
    assert_eq!(tree.search(3), Some(&"c"));
    assert_eq!(tree.search(10), None);
}

#[test]
fn key_value_tree_in_order_pairs_match_lookups() {
    let mut tree: KeyValueTree<u64> = KeyValueTree::new(2);
    for k in [10i64, 20, 30, 40, 50, 60, 70] {
        tree.insert(k, k as u64);
    }
    tree.insert(70, 700);
    let pairs = tree.in_order();
    let keys: Vec<i64> = pairs.iter().map(|(k, _)| *k).collect();
    assert!(keys.windows(2).all(|w| w[0] <= w[1]));
    for (i, (k, v)) in pairs.iter().enumerate() {
        if i == 0 || pairs[i - 1].0 < *k {
            assert_eq!(tree.search(*k), Some(v));
        }
    }
    assert_eq!(tree.search(70), Some(&700));
    assert_eq!(tree.keys_in_order(), vec![10, 20, 30, 40, 50, 60, 70]);
}

#[test]
fn key_value_leaf_reinsert_replaces_value() {
    let mut n: Node<&str> = Node::new(true);
    n.insert_not_full(5, "a", 3);
    n.insert_not_full(1, "b", 3);
    n.insert_not_full(3, "c", 3);
    n.insert_not_full(1, "z", 3);
    let mut v = vec![];
    n.keys_in_order(&mut v);
    assert_eq!(v, vec![1, 3, 5]);
    assert_eq!(n.search(1), Some(&"z"));
    assert_eq!(n.search(3), Some(&"c"));
    assert_eq!(n.search(5), Some(&"a"));
    assert_eq!(n.search(2), None);
}

#[test]
fn btree_remove_keeps_the_rest_in_order() {
    let mut root = BtreeNode::new(true);
    for k in [4, 1, 3] {
        root.insert_non_full(k, 2);
    }
    assert!(root.remove(3, 2));
    assert!(root.search(3).is_none());
    assert!(root.search(1).is_some() && root.search(4).is_some());
    assert!(!root.remove(7, 2));
}
