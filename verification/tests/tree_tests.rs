use bplus_tree::{BPlusInterior, BPlusLeaf, BPlusNode, BPlusTree};
use bplus_tree::shape::{INTERIOR_SPLIT, LEAF_SPLIT, MAX_KEYS, MIN_KEYS, ORDER};

fn leaf_keys(node: &BPlusNode<u64, u64>) -> Vec<u64> {
    match node {
        BPlusNode::Leaf(leaf) => leaf.keys.clone(),
        BPlusNode::Interior(_) => panic!("expected a leaf"),
    }
}

fn interior(node: &BPlusNode<u64, u64>) -> &BPlusInterior<u64, u64> {
    match node {
        BPlusNode::Interior(inner) => inner,
        BPlusNode::Leaf(_) => panic!("expected an interior node"),
    }
}

fn ascending(keys: &Vec<u64>) -> bool {
    keys.windows(2).all(|w| w[0] < w[1])
}

/// Checks every invariant below `node` and returns the depth of its leaves.
fn check(node: &BPlusNode<u64, u64>, lo: Option<u64>, hi: Option<u64>, is_root: bool) -> usize {
    let keys = match node {
        BPlusNode::Leaf(leaf) => &leaf.keys,
        BPlusNode::Interior(inner) => &inner.keys,
    };
    assert!(ascending(keys));
    assert!(keys.len() <= MAX_KEYS);
    assert!(keys.len() >= 1);
    if !is_root {
        assert!(keys.len() >= MIN_KEYS);
    }
    for k in keys.iter() {
        if let Some(l) = lo {
            assert!(l <= *k);
        }
        if let Some(h) = hi {
            assert!(*k < h);
        }
    }
    match node {
        BPlusNode::Leaf(leaf) => {
            assert_eq!(leaf.keys.len(), leaf.values.len());
            1
        }
        BPlusNode::Interior(inner) => {
            assert_eq!(inner.children.len(), inner.keys.len() + 1);
            let mut depth = 0;
            for (i, child) in inner.children.iter().enumerate() {
                let clo = if i == 0 { lo } else { Some(inner.keys[i - 1]) };
                let chi = if i == inner.keys.len() { hi } else { Some(inner.keys[i]) };
                let d = check(child, clo, chi, false);
                if i == 0 {
                    depth = d;
                }
                assert_eq!(d, depth);
            }
            depth + 1
        }
    }
}

fn check_tree(tree: &BPlusTree<u64, u64>) -> usize {
    match tree.root() {
        None => 0,
        Some(root) => check(root, None, None, true),
    }
}

#[test]
fn test_new() {
    let bpt = BPlusTree::<u64, u64>::new();
    assert!(bpt.root().is_none());
    assert!(bpt.is_empty());
}

#[test]
fn test_insert() {
    let mut bpt = BPlusTree::<u64, u64>::new();

    let k = 7 as u64;
    let v = 14 as u64;

    bpt.insert(&k, &v);
    assert_eq!(bpt.get(&k), Some(14));
    assert!(!bpt.is_empty());
}

#[test]
fn constants_follow_the_order() {
    assert_eq!(ORDER, 5);
    assert_eq!(MAX_KEYS, 4);
    assert_eq!(MIN_KEYS, 2);
    assert_eq!(LEAF_SPLIT, 3);
    assert_eq!(INTERIOR_SPLIT, 2);
}

#[test]
fn four_keys_stay_in_one_leaf() {
    let mut tree = BPlusTree::<u64, u64>::new();
    for k in 1..=4u64 {
        tree.insert(&k, &(k * 10));
    }
    let root = tree.root().unwrap();
    assert_eq!(leaf_keys(root), vec![1, 2, 3, 4]);
    match root {
        BPlusNode::Leaf(leaf) => assert_eq!(leaf.values, vec![10, 20, 30, 40]),
        BPlusNode::Interior(_) => panic!("expected a leaf"),
    }
    assert_eq!(tree.height(), 1);
}

#[test]
fn fifth_key_splits_the_root_leaf() {
    let mut tree = BPlusTree::<u64, u64>::new();
    for k in 1..=5u64 {
        tree.insert(&k, &(k * 10));
    }
    let root = interior(tree.root().unwrap());
    assert_eq!(root.keys, vec![4]);
    assert_eq!(root.children.len(), 2);
    assert_eq!(leaf_keys(&root.children[0]), vec![1, 2, 3]);
    assert_eq!(leaf_keys(&root.children[1]), vec![4, 5]);
    assert_eq!(tree.get(&4), Some(40));
    assert_eq!(tree.height(), 2);
    assert_eq!(check_tree(&tree), 2);
}

#[test]
fn twenty_five_ascending_keys_reach_three_levels() {
    let mut tree = BPlusTree::<u64, u64>::new();
    let n = ((MAX_KEYS + 1) * (MAX_KEYS + 1)) as u64;
    for k in 0..n {
        tree.insert(&k, &(k + 100));
        check_tree(&tree);
    }
    assert!(tree.height() >= 3);
    assert_eq!(tree.height(), check_tree(&tree));
    for k in 0..n {
        assert_eq!(tree.get(&k), Some(k + 100));
    }
    assert_eq!(tree.get(&n), None);
}

#[test]
fn interior_split_moves_the_middle_key_up() {
    // Ascending keys fill the rightmost leaf each time; the root takes in a
    // separator on every leaf split and overflows on the fifth.
    let mut tree = BPlusTree::<u64, u64>::new();
    for k in 1..=17u64 {
        tree.insert(&k, &k);
    }
    // Leaves: [1,2,3] [4,5,6] [7,8,9] [10,11,12] [13,14,15] [16,17].
    let root = interior(tree.root().unwrap());
    assert_eq!(root.keys, vec![10]);
    let left = interior(&root.children[0]);
    let right = interior(&root.children[1]);
    assert_eq!(left.keys, vec![4, 7]);
    assert_eq!(right.keys, vec![13, 16]);
    assert_eq!(left.children.len(), 3);
    assert_eq!(right.children.len(), 3);
    assert_eq!(leaf_keys(&left.children[2]), vec![7, 8, 9]);
    assert_eq!(leaf_keys(&right.children[0]), vec![10, 11, 12]);
    assert_eq!(leaf_keys(&right.children[2]), vec![16, 17]);
    assert_eq!(tree.height(), 3);
    assert_eq!(check_tree(&tree), 3);
}

#[test]
fn empty_tree_has_no_level_and_no_entry() {
    let tree = BPlusTree::<u64, u64>::new();
    assert_eq!(tree.height(), 0);
    assert_eq!(tree.get(&0), None);
    assert!(tree.is_empty());
    assert_eq!(check_tree(&tree), 0);
}

#[test]
fn last_value_stored_under_a_key_is_found() {
    let entries: Vec<(u64, u64)> =
        vec![(5, 1), (3, 2), (9, 3), (5, 4), (1, 5), (7, 6), (3, 7), (8, 8), (2, 9), (6, 10)];
    let mut tree = BPlusTree::<u64, u64>::new();
    for (k, v) in entries.iter() {
        tree.insert(k, v);
    }
    for (i, (k, v)) in entries.iter().enumerate() {
        let stored_again = entries[i + 1..].iter().any(|e| e.0 == *k);
        if stored_again {
            assert!(tree.get(k).is_some());
            assert_ne!(tree.get(k), Some(*v));
        } else {
            assert_eq!(tree.get(k), Some(*v));
        }
    }
    assert_eq!(tree.get(&5), Some(4));
    assert_eq!(tree.get(&3), Some(7));
}

#[test]
fn a_tree_of_two_levels_holds_at_most_twenty_entries() {
    // At every height the number of entries stays within what that height
    // can hold.
    let mut tree = BPlusTree::<u64, u64>::new();
    let mut stored = 0;
    for k in 0..60u64 {
        tree.insert(&k, &k);
        stored += 1;
        let h = tree.height();
        let mut capacity = MAX_KEYS;
        for _ in 1..h {
            capacity *= ORDER;
        }
        assert!(stored <= capacity);
    }
}

#[test]
fn lookup_misses_are_none() {
    let mut tree = BPlusTree::<u64, u64>::new();
    assert_eq!(tree.get(&1), None);
    for k in [10u64, 20, 30, 40, 50, 60] {
        tree.insert(&k, &k);
    }
    assert_eq!(tree.get(&5), None);
    assert_eq!(tree.get(&25), None);
    assert_eq!(tree.get(&45), None);
    assert_eq!(tree.get(&70), None);
    assert_eq!(tree.get(&40), Some(40));
}

#[test]
fn storing_under_a_present_key_replaces_the_value() {
    let mut tree = BPlusTree::<u64, u64>::new();
    for k in 1..=9u64 {
        tree.insert(&k, &k);
    }
    let before = check_tree(&tree);
    tree.insert(&4, &400);
    tree.insert(&9, &900);
    tree.insert(&1, &100);
    assert_eq!(tree.get(&4), Some(400));
    assert_eq!(tree.get(&9), Some(900));
    assert_eq!(tree.get(&1), Some(100));
    assert_eq!(tree.get(&5), Some(5));
    assert_eq!(check_tree(&tree), before);
    let root = interior(tree.root().unwrap());
    assert_eq!(root.keys, vec![4, 7]);
    assert_eq!(leaf_keys(&root.children[1]), vec![4, 5, 6]);
}

#[test]
fn descending_and_mixed_orders_keep_the_invariants() {
    let mut tree = BPlusTree::<u64, u64>::new();
    for k in (0..200u64).rev() {
        tree.insert(&k, &(k * 2));
        check_tree(&tree);
    }
    for k in 0..200u64 {
        assert_eq!(tree.get(&k), Some(k * 2));
    }
    let mut mixed = BPlusTree::<u64, u64>::new();
    let mut x: u64 = 12345;
    let mut inserted: Vec<(u64, u64)> = Vec::new();
    for i in 0..500u64 {
        x = x.wrapping_mul(6364136223846793005).wrapping_add(1442695040888963407);
        let k = (x >> 33) % 300;
        mixed.insert(&k, &i);
        inserted.retain(|e| e.0 != k);
        inserted.push((k, i));
        check_tree(&mixed);
    }
    for (k, v) in inserted.iter() {
        assert_eq!(mixed.get(k), Some(*v));
    }
    assert_eq!(mixed.height(), check_tree(&mixed));
}

#[test]
fn a_key_equal_to_a_separator_is_found_on_the_right() {
    let mut tree = BPlusTree::<u64, u64>::new();
    for k in [10u64, 20, 30, 40, 50] {
        tree.insert(&k, &(k + 1));
    }
    let root = interior(tree.root().unwrap());
    assert_eq!(root.keys, vec![40]);
    assert_eq!(leaf_keys(&root.children[1]), vec![40, 50]);
    assert_eq!(tree.get(&40), Some(41));
    tree.insert(&40, &7);
    assert_eq!(tree.get(&40), Some(7));
    let root = interior(tree.root().unwrap());
    assert_eq!(leaf_keys(&root.children[0]), vec![10, 20, 30]);
    assert_eq!(leaf_keys(&root.children[1]), vec![40, 50]);
}

#[test]
fn leaf_split_hands_up_a_copy_of_the_first_right_key() {
    let mut leaf = BPlusLeaf::<u64, u64> { keys: vec![1, 2, 3, 4, 5], values: vec![11, 12, 13, 14, 15] };
    let (separator, right) = leaf.split();
    assert_eq!(separator, 4);
    assert_eq!(leaf.keys, vec![1, 2, 3]);
    assert_eq!(leaf.values, vec![11, 12, 13]);
    assert_eq!(right.keys, vec![4, 5]);
    assert_eq!(right.values, vec![14, 15]);
}

fn single(k: u64) -> BPlusNode<u64, u64> {
    BPlusNode::Leaf(BPlusLeaf { keys: vec![k, k + 1], values: vec![0, 0] })
}

#[test]
fn interior_split_keeps_the_promoted_key_in_neither_half() {
    let mut node = BPlusInterior::<u64, u64> {
        keys: vec![10, 20, 30, 40, 50],
        children: vec![single(0), single(10), single(20), single(30), single(40), single(50)],
    };
    let (promoted, right) = node.split();
    assert_eq!(promoted, 30);
    assert_eq!(node.keys, vec![10, 20]);
    assert_eq!(right.keys, vec![40, 50]);
    assert_eq!(node.children.len(), 3);
    assert_eq!(right.children.len(), 3);
    assert_eq!(leaf_keys(&node.children[2]), vec![20, 21]);
    assert_eq!(leaf_keys(&right.children[0]), vec![30, 31]);
}

#[test]
fn absorb_puts_separator_and_sibling_behind_the_child() {
    let mut node = BPlusInterior::<u64, u64> {
        keys: vec![10, 30],
        children: vec![single(0), single(10), single(30)],
    };
    let split = node.absorb(1, 20, single(20));
    assert!(split.is_none());
    assert_eq!(node.keys, vec![10, 20, 30]);
    assert_eq!(leaf_keys(&node.children[1]), vec![10, 11]);
    assert_eq!(leaf_keys(&node.children[2]), vec![20, 21]);
    assert_eq!(leaf_keys(&node.children[3]), vec![30, 31]);
}

#[test]
fn grow_root_makes_an_interior_node_over_two_halves() {
    let root = BPlusNode::grow_root(single(1), 5, single(5));
    let inner = interior(&root);
    assert_eq!(inner.keys, vec![5]);
    assert_eq!(leaf_keys(&inner.children[0]), vec![1, 2]);
    assert_eq!(leaf_keys(&inner.children[1]), vec![5, 6]);
    assert_eq!(root.height(), 2);
}

#[test]
fn leaf_insert_and_get() {
    let mut leaf = BPlusLeaf::<u64, u64> { keys: vec![], values: vec![] };
    assert!(leaf.insert(&5, &50).is_none());
    assert!(leaf.insert(&1, &10).is_none());
    assert!(leaf.insert(&3, &30).is_none());
    assert_eq!(leaf.keys, vec![1, 3, 5]);
    assert_eq!(leaf.values, vec![10, 30, 50]);
    assert_eq!(leaf.get(&3), Some(30));
    assert_eq!(leaf.get(&4), None);
    assert!(leaf.insert(&3, &33).is_none());
    assert_eq!(leaf.values, vec![10, 33, 50]);
    assert!(leaf.insert(&7, &70).is_none());
    let split = leaf.insert(&4, &40);
    let (separator, right) = split.unwrap();
    assert_eq!(separator, 5);
    assert_eq!(leaf.keys, vec![1, 3, 4]);
    assert_eq!(right.keys, vec![5, 7]);
    assert_eq!(right.values, vec![50, 70]);
}
