//! Behavioural tests for the tree operations, driven through a join-based
//! test hash: `hash(a, b) = a + "," + b`.

use lean_imt::IMTHashFunction;
use lean_imt::LeanIMT;

fn simple_hash_function(nodes: Vec<String>) -> String {
    nodes.join(",")
}

#[test]
fn test_new_lean_imt() {
    let hash: IMTHashFunction = simple_hash_function;
    let imt = LeanIMT::new(hash);

    assert_eq!(imt.get_size(), 0);
    assert_eq!(imt.get_depth(), 0);
    assert!(imt.root().is_none());
}

#[test]
fn test_insert() {
    let hash: IMTHashFunction = simple_hash_function;
    let mut imt = LeanIMT::new(hash);

    assert!(imt.insert("leaf1".to_string()).is_ok());
    assert_eq!(imt.get_size(), 1);
    assert_eq!(imt.get_depth(), 0);
    assert!(imt.has(&"leaf1".to_string()));
    assert_eq!(imt.root().unwrap(), "leaf1".to_string());
}

#[test]
fn test_insert_many() {
    let hash: IMTHashFunction = simple_hash_function;
    let mut imt = LeanIMT::new(hash);

    let leaves = vec!["leaf1".to_string(), "leaf2".to_string(), "leaf3".to_string()];
    assert!(imt.insert_many(leaves.clone()).is_ok());
    assert_eq!(imt.get_size(), 3);
    assert_eq!(imt.get_depth(), 2);
    for leaf in &leaves {
        assert!(imt.has(leaf));
    }
    // Expected root calculation
    let expected_root = simple_hash_function(vec![
        simple_hash_function(vec![leaves[0].clone(), leaves[1].clone()]),
        leaves[2].clone(),
    ]);
    assert_eq!(imt.root().unwrap(), expected_root);
}

#[test]
fn test_insert_duplicate_leaf() {
    let hash: IMTHashFunction = simple_hash_function;
    let mut imt = LeanIMT::new(hash);

    imt.insert("leaf1".to_string()).unwrap();
    let result = imt.insert("leaf1".to_string());
    assert!(result.is_err());
    assert_eq!(result.unwrap_err().message(), "Leaf already exists");
}

#[test]
fn test_insert_many_with_duplicate_leaf() {
    let hash: IMTHashFunction = simple_hash_function;
    let mut imt = LeanIMT::new(hash);

    imt.insert("leaf1".to_string()).unwrap();
    let leaves = vec!["leaf2".to_string(), "leaf1".to_string()];
    let result = imt.insert_many(leaves);
    assert!(result.is_err());
    assert_eq!(result.unwrap_err().message(), "Leaf already exists");
}

#[test]
fn test_update() {
    let hash: IMTHashFunction = simple_hash_function;
    let mut imt = LeanIMT::new(hash);

    imt.insert("leaf1".to_string()).unwrap();
    let sibling_nodes = vec![];
    assert!(imt
        .update(&"leaf1".to_string(), "new_leaf1".to_string(), &sibling_nodes)
        .is_ok());
    assert!(imt.has(&"new_leaf1".to_string()));
    assert!(!imt.has(&"leaf1".to_string()));
    assert_eq!(imt.root().unwrap(), "new_leaf1".to_string());
}

#[test]
fn test_update_nonexistent_leaf() {
    let hash: IMTHashFunction = simple_hash_function;
    let mut imt = LeanIMT::new(hash);

    let sibling_nodes = vec![];
    let result = imt.update(
        &"nonexistent_leaf".to_string(),
        "new_leaf".to_string(),
        &sibling_nodes,
    );
    assert!(result.is_err());
    assert_eq!(result.unwrap_err().message(), "Leaf does not exist");
}

#[test]
fn test_remove() {
    let hash: IMTHashFunction = simple_hash_function;
    let mut imt = LeanIMT::new(hash);

    imt.insert("leaf1".to_string()).unwrap();
    let sibling_nodes = vec![];
    assert!(imt.remove(&"leaf1".to_string(), &sibling_nodes).is_ok());
    assert!(!imt.has(&"leaf1".to_string()));
    assert_eq!(imt.root().unwrap(), "0".to_string());
}

#[test]
fn test_remove_nonexistent_leaf() {
    let hash: IMTHashFunction = simple_hash_function;
    let mut imt = LeanIMT::new(hash);

    let sibling_nodes = vec![];
    let result = imt.remove(&"nonexistent_leaf".to_string(), &sibling_nodes);
    assert!(result.is_err());
    assert_eq!(result.unwrap_err().message(), "Leaf does not exist");
}

#[test]
fn test_has_and_index_of() {
    let hash: IMTHashFunction = simple_hash_function;
    let mut imt = LeanIMT::new(hash);

    assert!(!imt.has(&"leaf1".to_string()));
    assert!(imt.index_of(&"leaf1".to_string()).is_err());

    imt.insert("leaf1".to_string()).unwrap();
    assert!(imt.has(&"leaf1".to_string()));
    assert_eq!(imt.index_of(&"leaf1".to_string()).unwrap(), 0);
}

#[test]
fn test_root_after_operations() {
    let hash: IMTHashFunction = simple_hash_function;
    let mut imt = LeanIMT::new(hash);

    // Initially empty tree
    assert!(imt.root().is_none());

    // Insert leaf1
    imt.insert("leaf1".to_string()).unwrap();
    let root_after_leaf1 = imt.root().unwrap();

    // Insert leaf2
    imt.insert("leaf2".to_string()).unwrap();
    let root_after_leaf2 = imt.root().unwrap();
    assert_ne!(root_after_leaf1, root_after_leaf2);

    // Remove leaf1
    let sibling_nodes = vec!["leaf2".to_string()];
    imt.remove(&"leaf1".to_string(), &sibling_nodes).unwrap();
    let root_after_removal = imt.root().unwrap();
    assert_eq!(root_after_removal, "0,leaf2".to_string());

    // Update leaf2
    let sibling_nodes = vec!["0".to_string()];
    imt.update(&"leaf2".to_string(), "leaf3".to_string(), &sibling_nodes)
        .unwrap();
    let root_after_update = imt.root().unwrap();
    assert_eq!(root_after_update, "0,leaf3".to_string());
}

#[test]
fn test_tree_consistency() {
    let hash: IMTHashFunction = simple_hash_function;
    let mut imt = LeanIMT::new(hash);

    // Insert leaves
    imt.insert("leaf1".to_string()).unwrap();
    imt.insert("leaf2".to_string()).unwrap();
    imt.insert("leaf3".to_string()).unwrap();
    imt.insert("leaf4".to_string()).unwrap();

    // Current root
    let root_before = imt.root().unwrap();

    // Update leaf2
    let sibling_nodes = vec![
        "leaf1".to_string(),
        simple_hash_function(vec!["leaf3".to_string(), "leaf4".to_string()]),
    ];
    imt.update(
        &"leaf2".to_string(),
        "leaf2_updated".to_string(),
        &sibling_nodes,
    )
    .unwrap();

    // New root should be different
    let root_after = imt.root().unwrap();
    assert_ne!(root_before, root_after);

    // Remove leaf3
    let sibling_nodes = vec![
        "leaf4".to_string(),
        simple_hash_function(vec!["leaf1".to_string(), "leaf2_updated".to_string()]),
    ];
    imt.remove(&"leaf3".to_string(), &sibling_nodes).unwrap();

    // Root should change again
    let root_after_removal = imt.root().unwrap();
    assert_ne!(root_after, root_after_removal);

    // Check that leaves are correctly updated
    assert!(imt.has(&"leaf1".to_string()));
    assert!(imt.has(&"leaf2_updated".to_string()));
    assert!(!imt.has(&"leaf2".to_string()));
    assert!(!imt.has(&"leaf3".to_string()));
    assert!(imt.has(&"leaf4".to_string()));
}

#[test]
fn test_large_number_of_leaves() {
    let hash: IMTHashFunction = |nodes: Vec<String>| {
        // Simple hash function that simulates combining nodes
        format!("H({})", nodes.join("+"))
    };
    let mut imt = LeanIMT::new(hash);

    // Insert 100 leaves
    let leaves: Vec<_> = (1..=100).map(|i| format!("leaf{}", i)).collect();
    assert!(imt.insert_many(leaves.clone()).is_ok());
    assert_eq!(imt.get_size(), 100);

    // Check that all leaves are present
    for leaf in &leaves {
        assert!(imt.has(leaf));
    }

    // Check that the tree depth is correct
    let expected_depth = (100 as f64).log2().ceil() as usize;
    assert_eq!(imt.get_depth(), expected_depth);
}

#[test]
fn test_insertion_after_removal() {
    let hash: IMTHashFunction = simple_hash_function;
    let mut imt = LeanIMT::new(hash);

    // Insert leaves
    imt.insert("leaf1".to_string()).unwrap();
    imt.insert("leaf2".to_string()).unwrap();

    // Remove leaf1
    let sibling_nodes = vec!["leaf2".to_string()];
    imt.remove(&"leaf1".to_string(), &sibling_nodes).unwrap();

    // Insert new leaf
    assert!(imt.insert("leaf3".to_string()).is_ok());

    // Check that leaves are correctly updated
    assert!(!imt.has(&"leaf1".to_string()));
    assert!(imt.has(&"leaf2".to_string()));
    assert!(imt.has(&"leaf3".to_string()));
}

#[test]
fn test_tree_after_all_leaves_removed() {
    let hash: IMTHashFunction = simple_hash_function;
    let mut imt = LeanIMT::new(hash);

    // Insert leaves
    imt.insert("leaf1".to_string()).unwrap();
    imt.insert("leaf2".to_string()).unwrap();

    // Remove all leaves
    let sibling_nodes = vec!["leaf2".to_string()];
    imt.remove(&"leaf1".to_string(), &sibling_nodes).unwrap();

    let sibling_nodes = vec!["0".to_string()];
    imt.remove(&"leaf2".to_string(), &sibling_nodes).unwrap();

    // Tree should be empty
    assert_eq!(imt.get_size(), 2);
    assert_eq!(imt.get_depth(), 1);
    assert_eq!(imt.root().unwrap(), "0,0".to_string());
    assert!(!imt.has(&"leaf1".to_string()));
    assert!(!imt.has(&"leaf2".to_string()));
}

#[test]
fn test_insert_after_tree_becomes_empty() {
    let hash: IMTHashFunction = simple_hash_function;
    let mut imt = LeanIMT::new(hash);

    // Insert and remove leaves
    imt.insert("leaf1".to_string()).unwrap();
    let sibling_nodes = vec![];
    imt.remove(&"leaf1".to_string(), &sibling_nodes).unwrap();

    // Insert new leaf
    assert!(imt.insert("leaf2".to_string()).is_ok());
    assert!(imt.has(&"leaf2".to_string()));
    assert_eq!(imt.root().unwrap(), "0,leaf2".to_string());
}

#[test]
fn test_insertion_causes_depth_increase() {
    let hash: IMTHashFunction = simple_hash_function;
    let mut imt = LeanIMT::new(hash);

    // Insert leaves to fill tree of depth 0
    imt.insert("leaf1".to_string()).unwrap();
    assert_eq!(imt.get_depth(), 0);

    // Insert leaves to fill tree of depth 1
    imt.insert("leaf2".to_string()).unwrap();
    assert_eq!(imt.get_depth(), 1);

    // Insert another leaf, depth should increase
    imt.insert("leaf3".to_string()).unwrap();
    assert_eq!(imt.get_depth(), 2);

    // Insert leaves to fill tree of depth 2
    imt.insert("leaf4".to_string()).unwrap();
    assert_eq!(imt.get_depth(), 2);

    // Insert another leaf, depth should increase
    imt.insert("leaf5".to_string()).unwrap();
    assert_eq!(imt.get_depth(), 3);
}

#[test]
fn test_invalid_sibling_nodes_on_update() {
    let hash: IMTHashFunction = simple_hash_function;
    let mut imt = LeanIMT::new(hash);

    // Insert leaves
    imt.insert("leaf1".to_string()).unwrap();
    imt.insert("leaf2".to_string()).unwrap();

    // Try to update with incorrect sibling nodes
    let sibling_nodes = vec!["wrong_sibling".to_string()];
    let result = imt.update(
        &"leaf1".to_string(),
        "leaf1_updated".to_string(),
        &sibling_nodes,
    );
    assert!(result.is_err());
    assert_eq!(result.unwrap_err().message(), "Wrong sibling nodes");
}

#[test]
fn test_invalid_sibling_nodes_on_remove() {
    let hash: IMTHashFunction = simple_hash_function;
    let mut imt = LeanIMT::new(hash);

    // Insert leaves
    imt.insert("leaf1".to_string()).unwrap();
    imt.insert("leaf2".to_string()).unwrap();

    // Try to remove with incorrect sibling nodes
    let sibling_nodes = vec!["wrong_sibling".to_string()];
    let result = imt.remove(&"leaf1".to_string(), &sibling_nodes);
    assert!(result.is_err());
    assert_eq!(result.unwrap_err().message(), "Wrong sibling nodes");
}
