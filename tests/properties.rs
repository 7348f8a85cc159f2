use merkle_search_tree::digest::hash_value;
use merkle_search_tree::hash::NodeHash;
use merkle_search_tree::key::SearchKey;
use merkle_search_tree::node::Node;
use merkle_search_tree::tree::MerkleSearchTree;
use std::cmp::Ordering;

const ABC_DIGEST: [u8; 32] = [
    0xba, 0x78, 0x16, 0xbf, 0x8f, 0x01, 0xcf, 0xea, 0x41, 0x41, 0x40, 0xde, 0x5d, 0xae, 0x22, 0x23,
    0xb0, 0x03, 0x61, 0xa3, 0x96, 0x17, 0x7a, 0x9c, 0xb4, 0x10, 0xff, 0x61, 0xf2, 0x00, 0x15, 0xad,
];

const EMPTY_DIGEST: [u8; 32] = [
    0xe3, 0xb0, 0xc4, 0x42, 0x98, 0xfc, 0x1c, 0x14, 0x9a, 0xfb, 0xf4, 0xc8, 0x99, 0x6f, 0xb9, 0x24,
    0x27, 0xae, 0x41, 0xe4, 0x64, 0x9b, 0x93, 0x4c, 0xa4, 0x95, 0x99, 0x1b, 0x78, 0x52, 0xb8, 0x55,
];

/// Walks a subtree, checking the fan-out bound, that children are of one
/// kind, and the cached hash and key of every internal node; returns the
/// leaf keys in order.
fn check_subtree<K: SearchKey + Clone>(node: &Node<K>, max: usize, keys: &mut Vec<K>) {
    match node {
        Node::Leaf { key, .. } => keys.push(key.clone()),
        Node::Internal { hash, children, .. } => {
            assert!(children.len() <= max);
            let mut expected = NodeHash::zero();
            for child in children {
                assert_eq!(child.is_internal(), children[0].is_internal());
                expected.xor(child.hash());
                check_subtree(child, max, keys);
            }
            assert_eq!(*hash, expected);
            if let Some(last) = children.last() {
                assert_eq!(node.key().compare(last.key()), Ordering::Equal);
            }
        }
    }
}

fn leaf_keys<K: SearchKey + Clone>(tree: &MerkleSearchTree<K>, max: usize) -> Vec<K> {
    let mut keys = Vec::new();
    check_subtree(tree.root(), max, &mut keys);
    keys
}

fn pseudo_random_keys(n: usize, seed: u64) -> Vec<u64> {
    let mut state = seed;
    let mut out = Vec::new();
    for _ in 0..n {
        state = state.wrapping_mul(6364136223846793005).wrapping_add(1442695040888963407);
        out.push((state >> 33) % 500);
    }
    out
}

#[test]
fn empty_tree_hash_is_zero() {
    let tree = MerkleSearchTree::<u64>::new(3);
    assert_eq!(*tree.hash(), NodeHash([0u8; 32]));
    assert_eq!(*tree.hash(), NodeHash::default());
    assert!(leaf_keys(&tree, 3).is_empty());
}

#[test]
fn hash_value_is_sha256_of_utf8() {
    assert_eq!(hash_value("abc"), NodeHash(ABC_DIGEST));
    assert_eq!(hash_value(""), NodeHash(EMPTY_DIGEST));
}

#[test]
fn single_leaf_root_hash_is_its_value_hash() {
    let mut tree = MerkleSearchTree::<i32>::new(4);
    tree.insert(7, "abc".to_string());
    assert_eq!(*tree.hash(), NodeHash(ABC_DIGEST));
}

#[test]
fn root_hash_is_xor_of_value_hashes() {
    let mut tree = MerkleSearchTree::<u32>::new(2);
    let values = ["a", "bb", "ccc", "dddd", "eeeee", "ffffff", "g"];
    let mut expected = NodeHash::zero();
    for (i, v) in values.iter().enumerate() {
        tree.insert(i as u32, v.to_string());
        expected.xor(&hash_value(v));
    }
    assert_eq!(*tree.hash(), expected);
}

#[test]
fn hash_independent_of_fanout_and_order() {
    let keys = pseudo_random_keys(200, 11);
    let mut a = MerkleSearchTree::<u64>::new(2);
    let mut b = MerkleSearchTree::<u64>::new(7);
    for k in keys.iter() {
        a.insert(*k, format!("value-{}", k));
    }
    for k in keys.iter().rev() {
        b.insert(*k, format!("value-{}", k));
    }
    assert_eq!(a.hash(), b.hash());

    let mut expected = NodeHash::zero();
    let mut distinct = keys.clone();
    distinct.sort();
    distinct.dedup();
    for k in distinct.iter() {
        expected.xor(&hash_value(&format!("value-{}", k)));
    }
    assert_eq!(*a.hash(), expected);
}

#[test]
fn last_value_wins() {
    let mut a = MerkleSearchTree::<i64>::new(3);
    a.insert(1, "old".to_string());
    a.insert(2, "two".to_string());
    a.insert(1, "new".to_string());
    let mut b = MerkleSearchTree::<i64>::new(5);
    b.insert(2, "two".to_string());
    b.insert(1, "new".to_string());
    assert_eq!(a.hash(), b.hash());
}

#[test]
fn reinserting_same_pair_keeps_hash() {
    let mut tree = MerkleSearchTree::<String>::new(3);
    tree.insert("k".to_string(), "v".to_string());
    tree.insert("j".to_string(), "w".to_string());
    let before = *tree.hash();
    tree.insert("k".to_string(), "v".to_string());
    assert_eq!(*tree.hash(), before);
    assert_eq!(leaf_keys(&tree, 3).len(), 2);
}

#[test]
fn changing_value_changes_hash_without_duplicating_leaf() {
    let mut tree = MerkleSearchTree::<usize>::new(2);
    for k in 0..10usize {
        tree.insert(k, format!("v{}", k));
    }
    let before = *tree.hash();
    tree.insert(4, "other".to_string());
    assert_ne!(*tree.hash(), before);
    let keys = leaf_keys(&tree, 2);
    assert_eq!(keys.len(), 10);
    assert_eq!(keys.iter().filter(|k| **k == 4).count(), 1);
}

#[test]
fn fanout_bound_holds_after_many_inserts() {
    for max in 2..6usize {
        let keys = pseudo_random_keys(400, max as u64);
        let mut tree = MerkleSearchTree::<u64>::new(max);
        for k in keys.iter() {
            tree.insert(*k, format!("{}", k * 3));
        }
        let leaves = leaf_keys(&tree, max);
        let mut distinct = keys.clone();
        distinct.sort();
        distinct.dedup();
        assert_eq!(leaves, distinct);
    }
}

#[test]
fn largest_key_goes_to_last_child() {
    let mut tree = MerkleSearchTree::new(2);
    tree.insert(10, "v10".to_string());
    tree.insert(20, "v20".to_string());
    tree.insert(30, "v30".to_string());
    tree.insert(40, "v40".to_string());
    assert_eq!(leaf_keys(&tree, 2), vec![10, 20, 30, 40]);
    if let Node::Internal { children, .. } = tree.root() {
        assert_eq!(*children[children.len() - 1].key(), 40);
    } else {
        panic!("root is always internal");
    }
}

#[test]
fn equal_value_hashes_cancel() {
    let mut tree = MerkleSearchTree::<i32>::new(4);
    tree.insert(1, "same".to_string());
    tree.insert(2, "same".to_string());
    assert_eq!(*tree.hash(), NodeHash::zero());

    tree.insert(3, "abc".to_string());
    let mut alone = MerkleSearchTree::<i32>::new(4);
    alone.insert(3, "abc".to_string());
    assert_eq!(tree.hash(), alone.hash());
}

#[test]
fn xor_is_bytewise() {
    let mut a = NodeHash::from([0b1010_1010u8; 32]);
    let b = NodeHash([0b0110_0110u8; 32]);
    a.xor(&b);
    assert_eq!(a, NodeHash([0b1100_1100u8; 32]));
    a.xor(&b);
    assert_eq!(a, NodeHash([0b1010_1010u8; 32]));
    let mut c = b;
    c.xor(&b);
    assert_eq!(c, NodeHash::zero());
}

#[test]
fn string_keys_order_by_bytes() {
    let a = "apple".to_string();
    let b = "apricot".to_string();
    let c = "ap".to_string();
    let d = "é".to_string();
    assert_eq!(a.compare(&b), Ordering::Less);
    assert_eq!(b.compare(&a), Ordering::Greater);
    assert_eq!(c.compare(&a), Ordering::Less);
    assert_eq!(a.compare(&a.clone_key()), Ordering::Equal);
    assert_eq!(a.compare(&d), Ordering::Less);
    assert_eq!(String::sentinel(), "");
    assert_eq!(i32::sentinel(), 0);
    assert_eq!((-5i32).compare(&3), Ordering::Less);
}

#[test]
fn recalculate_rebuilds_hash_and_key() {
    let leaf = |k: u64, v: &str| Node::Leaf { key: k, hash: hash_value(v) };
    let mut node = Node::Internal {
        hash: NodeHash::zero(),
        children: vec![leaf(1, "x"), leaf(5, "y")],
        max_key: 0u64,
    };
    node.recalculate();
    let mut expected = hash_value("x");
    expected.xor(&hash_value("y"));
    assert_eq!(*node.hash(), expected);
    assert_eq!(*node.key(), 5);
}

#[test]
fn node_insert_splits_when_too_wide() {
    let mut node: Node<u64> = Node::default();
    for k in 1..=3u64 {
        let sibling = node.insert(Node::Leaf { key: k, hash: hash_value("v") }, 2);
        if k < 3 {
            assert!(sibling.is_none());
        } else {
            let sibling = sibling.expect("three leaves exceed a fan-out of two");
            assert_eq!(*node.key(), 1);
            assert_eq!(*sibling.key(), 3);
            assert_eq!(*node.hash(), hash_value("v"));
            assert_eq!(*sibling.hash(), NodeHash::zero());
        }
    }
}

#[test]
fn insert_value_hash_stores_given_hash() {
    let mut tree = MerkleSearchTree::<u32>::new(2);
    tree.insert_value_hash(3, NodeHash([7u8; 32]));
    assert_eq!(*tree.hash(), NodeHash([7u8; 32]));
    tree.insert_value_hash(1, NodeHash([1u8; 32]));
    assert_eq!(*tree.hash(), NodeHash([6u8; 32]));
    tree.insert_value_hash(2, NodeHash([7u8; 32]));
    assert_eq!(*tree.hash(), NodeHash([1u8; 32]));
    tree.insert_value_hash(1, NodeHash([0u8; 32]));
    assert_eq!(*tree.hash(), NodeHash::zero());
    assert_eq!(leaf_keys(&tree, 2), vec![1, 2, 3]);
}

/// The number of children of every internal node, in preorder.
fn child_counts<K: SearchKey>(node: &Node<K>, out: &mut Vec<usize>) {
    if let Node::Internal { children, .. } = node {
        out.push(children.len());
        for child in children {
            child_counts(child, out);
        }
    }
}

/// Depth of every leaf.
fn leaf_depths<K: SearchKey>(node: &Node<K>, depth: usize, out: &mut Vec<usize>) {
    match node {
        Node::Leaf { .. } => out.push(depth),
        Node::Internal { children, .. } => {
            for child in children {
                leaf_depths(child, depth + 1, out);
            }
        }
    }
}

#[test]
fn new_tree_root_is_empty_internal_node() {
    let tree = MerkleSearchTree::<String>::new(2);
    if let Node::Internal { children, max_key, hash } = tree.root() {
        assert!(children.is_empty());
        assert_eq!(max_key, "");
        assert_eq!(*hash, NodeHash::zero());
    } else {
        panic!("root is always internal");
    }
}

#[test]
fn updating_a_key_keeps_the_shape() {
    let mut tree = MerkleSearchTree::<u64>::new(3);
    for k in pseudo_random_keys(60, 5) {
        tree.insert(k, format!("{}", k));
    }
    let mut before = Vec::new();
    child_counts(tree.root(), &mut before);
    let existing = pseudo_random_keys(60, 5);
    for k in existing.iter().take(20) {
        tree.insert(*k, "changed".to_string());
        tree.insert(*k, "changed".to_string());
    }
    let mut after = Vec::new();
    child_counts(tree.root(), &mut after);
    assert_eq!(before, after);
}

#[test]
fn all_leaves_at_one_depth() {
    for max in 2..5usize {
        let mut tree = MerkleSearchTree::<u64>::new(max);
        for k in pseudo_random_keys(300, 17 + max as u64) {
            tree.insert(k, "v".to_string());
            let mut depths = Vec::new();
            leaf_depths(tree.root(), 0, &mut depths);
            assert!(depths.iter().all(|d| *d == depths[0]));
        }
    }
}

#[test]
fn node_split_keeps_first_half() {
    let leaf = |k: u64, b: u8| Node::Leaf { key: k, hash: NodeHash([b; 32]) };
    let mut node = Node::Internal {
        hash: NodeHash([3u8; 32]),
        children: vec![leaf(10, 1), leaf(20, 2)],
        max_key: 20u64,
    };
    let sibling = node.insert(leaf(30, 4), 2).expect("three leaves exceed a fan-out of two");
    assert_eq!(*node.hash(), NodeHash([1u8; 32]));
    assert_eq!(*node.key(), 10);
    assert_eq!(*sibling.hash(), NodeHash([6u8; 32]));
    assert_eq!(*sibling.key(), 30);
    if let Node::Internal { children, .. } = &sibling {
        assert_eq!(children.len(), 2);
        assert_eq!(*children[0].key(), 20);
    } else {
        panic!("a split yields an internal node");
    }
}
