use merkle_search_tree::node::Node;
use merkle_search_tree::tree::MerkleSearchTree;

#[test]
fn test_simple_insert() {
    // insert the first three leaves:
    // 1. insert("key1"): The root has 1 child: [Leaf("key1")]. This is less than 10, so no split.
    // 2. insert("key3"): The root has 2 children: [Leaf("key1"), Leaf("key3")]. This is less than 10, so no split.
    // 3. insert("key2"): The root has 3 children: [Leaf("key1"), Leaf("key2"), Leaf("key3")]. This is still less than 10, so no split.

    let mut tree = MerkleSearchTree::<String>::new(10);
    tree.insert("key1".to_string(), "value1".to_string());
    tree.insert("key3".to_string(), "value3".to_string());
    tree.insert("key2".to_string(), "value2".to_string());

    if let Node::Internal { children, .. } = tree.root() {
        assert_eq!(children.len(), 3);
        assert_eq!(children[0].key(), "key1");
        assert_eq!(children[1].key(), "key2");
        assert_eq!(children[2].key(), "key3");
    } else {
        panic!("Root should be an internal node");
    }
}

#[test]
fn test_cascading_split() {
    let mut tree = MerkleSearchTree::<String>::new(2);
    // These first three inserts will cause a root split (height: 2 -> 3)
    tree.insert("10".to_string(), "v1".to_string());
    tree.insert("20".to_string(), "v2".to_string());
    tree.insert("30".to_string(), "v3".to_string());

    // This does not cause a split.
    tree.insert("05".to_string(), "v4".to_string());

    // This insert causes a split in a child node, which propagates up
    // and causes the root to split again (height: 3 -> 4)
    tree.insert("15".to_string(), "v5".to_string());

    // Verify the final state of the tree (height 4)
    if let Node::Internal { children, .. } = tree.root() {
        // After the second root split, the top root has 2 children
        assert_eq!(children.len(), 2);

        // Inspect the left subtree
        if let Node::Internal {
            children: l_children,
            ..
        } = &children[0]
        {
            assert_eq!(l_children.len(), 1);
            if let Node::Internal {
                children: ll_children,
                ..
            } = &l_children[0]
            {
                assert_eq!(ll_children.len(), 2); // Contains L("05") and L("10")
                assert_eq!(ll_children[0].key(), "05");
                assert_eq!(ll_children[1].key(), "10");
            } else {
                panic!("Expected internal node");
            }
        } else {
            panic!("Expected internal node");
        }

        // Inspect the right subtree
        if let Node::Internal {
            children: r_children,
            ..
        } = &children[1]
        {
            assert_eq!(r_children.len(), 2);
            let node1 = &r_children[0]; // I([L("15")])
            let node2 = &r_children[1]; // I([L("20"), L("30")])
            if let Node::Internal {
                children: n1_children,
                ..
            } = node1
            {
                assert_eq!(n1_children.len(), 1);
                assert_eq!(n1_children[0].key(), "15");
            } else {
                panic!("Expected internal node");
            }
            if let Node::Internal {
                children: n2_children,
                ..
            } = node2
            {
                assert_eq!(n2_children.len(), 2);
                assert_eq!(n2_children[0].key(), "20");
                assert_eq!(n2_children[1].key(), "30");
            } else {
                panic!("Expected internal node");
            }
        } else {
            panic!("Expected internal node");
        }
    } else {
        panic!("Root should be internal");
    }
}

#[test]
fn test_root_split() {
    let mut tree = MerkleSearchTree::new(2);
    tree.insert("10".to_string(), "v1".to_string());
    tree.insert("20".to_string(), "v2".to_string());
    // The root's children list is now [ L("10"), L("20"), L("30") ].

    tree.insert("30".to_string(), "v3".to_string()); // Triggers root split into two groups: [L("10")] and [L("20"), L("30")].

    let root_node = tree.root();
    if let Node::Internal { children, .. } = root_node {
        assert_eq!(children.len(), 2);
        assert!(matches!(&children[0], Node::Internal { .. }));
        assert!(matches!(&children[1], Node::Internal { .. }));

        if let Node::Internal {
            children: left_children,
            ..
        } = &children[0]
        {
            assert_eq!(left_children.len(), 1);
            assert_eq!(left_children[0].key(), "10");
        } else {
            panic!("Child of root should be an internal node");
        }

        if let Node::Internal {
            children: right_children,
            ..
        } = &children[1]
        {
            assert_eq!(right_children.len(), 2);
            assert_eq!(right_children[0].key(), "20");
            assert_eq!(right_children[1].key(), "30");
        } else {
            panic!("Child of root should be an internal node");
        }
    } else {
        panic!("Root should be an internal node after splitting");
    }
}

#[test]
fn test_hash_changes() {
    let mut tree = MerkleSearchTree::<String>::new(10);
    let initial_hash = tree.hash().clone();

    tree.insert("key1".to_string(), "value1".to_string());
    let hash_after_1 = tree.hash().clone();
    assert_ne!(initial_hash, hash_after_1);

    tree.insert("key2".to_string(), "value2".to_string());
    let hash_after_2 = tree.hash().clone();
    assert_ne!(hash_after_1, hash_after_2);
}

#[test]
fn test_update_existing_key() {
    let mut tree = MerkleSearchTree::new(4);

    tree.insert(1, "version_1".to_string());
    let hash_v1 = *tree.hash();

    tree.insert(1, "version_2".to_string()); // Update the value for key 1
    let hash_v2 = *tree.hash();

    assert_ne!(hash_v1, hash_v2, "Updating a value should change the hash");
}

#[test]
fn test_merkle_property() {
    let mut tree1 = MerkleSearchTree::new(4);
    tree1.insert(1, "apple".to_string());
    tree1.insert(2, "banana".to_string());

    let mut tree2 = MerkleSearchTree::new(4);
    tree2.insert(1, "apple".to_string());
    tree2.insert(2, "banana".to_string());

    assert_eq!(
        tree1.hash(),
        tree2.hash(),
        "Identical content should yield identical hashes"
    );

    // Modify tree2
    tree2.insert(3, "cherry".to_string());
    assert_ne!(
        tree1.hash(),
        tree2.hash(),
        "Different content must yield different hashes"
    );

    // Add same content to tree1
    tree1.insert(3, "cherry".to_string());
    assert_eq!(tree1.hash(), tree2.hash(), "Trees should match again");
}

#[test]
fn test_insert_largest_key_fix() {
    // A key larger than every key in the tree must be routed to the last child.
    let mut tree = MerkleSearchTree::new(2);

    // 1. Insert base keys
    tree.insert(10, "v10".to_string());
    tree.insert(20, "v20".to_string());

    // 2. Force a split (max_children = 2), creating a deeper tree
    // The tree should now have Internal nodes.
    tree.insert(30, "v30".to_string());

    // 3. Insert a key strictly larger than the current max_key (30)
    tree.insert(40, "v40".to_string());

    // Verify no panic and structure is sound
    assert_ne!(tree.hash(), &Default::default());
}
