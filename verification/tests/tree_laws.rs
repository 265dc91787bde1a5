//! Scenario tests for the stated laws and the error conditions.

use lean_imt::IMTHashFunction;
use lean_imt::LeanIMT;

fn join_hash(nodes: Vec<String>) -> String {
    nodes.join(",")
}

#[test]
fn test_insert_zero_leaf_rejected() {
    let hash: IMTHashFunction = join_hash;
    let mut imt = LeanIMT::new(hash);
    let result = imt.insert("0".to_string());
    assert!(result.is_err());
    assert_eq!(result.unwrap_err().message(), "Leaf cannot be zero");
    assert_eq!(imt.get_size(), 0);
    assert!(imt.root().is_none());
}

#[test]
fn test_insert_many_zero_leaf_rejected() {
    let hash: IMTHashFunction = join_hash;
    let mut imt = LeanIMT::new(hash);
    let result = imt.insert_many(vec!["leaf1".to_string(), "0".to_string()]);
    assert!(result.is_err());
    assert_eq!(result.unwrap_err().message(), "Leaf cannot be zero");
    assert_eq!(imt.get_size(), 0);
    assert!(!imt.has(&"leaf1".to_string()));
}

#[test]
fn test_update_insufficient_siblings() {
    let hash: IMTHashFunction = join_hash;
    let mut imt = LeanIMT::new(hash);
    imt.insert("leaf1".to_string()).unwrap();
    imt.insert("leaf2".to_string()).unwrap();
    // position 0 needs its right sibling, but none is supplied
    let sibling_nodes: Vec<String> = vec![];
    let result = imt.update(&"leaf1".to_string(), "leaf1b".to_string(), &sibling_nodes);
    assert!(result.is_err());
    assert_eq!(result.unwrap_err().message(), "Not enough sibling nodes");
    assert!(imt.has(&"leaf1".to_string()));
    assert_eq!(imt.root().unwrap(), "leaf1,leaf2".to_string());
}

#[test]
fn test_update_to_existing_leaf_rejected() {
    let hash: IMTHashFunction = join_hash;
    let mut imt = LeanIMT::new(hash);
    imt.insert("leaf1".to_string()).unwrap();
    imt.insert("leaf2".to_string()).unwrap();
    let sibling_nodes = vec!["leaf2".to_string()];
    let result = imt.update(&"leaf1".to_string(), "leaf2".to_string(), &sibling_nodes);
    assert!(result.is_err());
    assert_eq!(result.unwrap_err().message(), "Leaf already exists");
}

#[test]
fn test_update_roundtrip_restores_root() {
    let hash: IMTHashFunction = join_hash;
    let mut imt = LeanIMT::new(hash);
    imt.insert("leaf1".to_string()).unwrap();
    imt.insert("leaf2".to_string()).unwrap();
    imt.insert("leaf3".to_string()).unwrap();
    imt.insert("leaf4".to_string()).unwrap();
    let original_root = imt.root().unwrap();

    let sibling_nodes = vec![
        "leaf1".to_string(),
        join_hash(vec!["leaf3".to_string(), "leaf4".to_string()]),
    ];
    imt.update(&"leaf2".to_string(), "leaf2b".to_string(), &sibling_nodes)
        .unwrap();
    assert_ne!(imt.root().unwrap(), original_root);

    // reverse the change with the same (still correct) sibling path
    imt.update(&"leaf2b".to_string(), "leaf2".to_string(), &sibling_nodes)
        .unwrap();
    assert_eq!(imt.root().unwrap(), original_root);
    assert!(imt.has(&"leaf2".to_string()));
    assert!(!imt.has(&"leaf2b".to_string()));
}

#[test]
fn test_remove_then_insert_takes_fresh_position() {
    let hash: IMTHashFunction = join_hash;
    let mut imt = LeanIMT::new(hash);
    imt.insert("leaf1".to_string()).unwrap();
    imt.insert("leaf2".to_string()).unwrap();

    let sibling_nodes = vec!["leaf2".to_string()];
    imt.remove(&"leaf1".to_string(), &sibling_nodes).unwrap();

    imt.insert("leaf3".to_string()).unwrap();
    assert!(!imt.has(&"leaf1".to_string()));
    assert!(imt.has(&"leaf3".to_string()));
    // the new leaf sits at a fresh position; the removed slot is not reused
    assert_eq!(imt.index_of(&"leaf3".to_string()).unwrap(), 2);
    assert_eq!(imt.get_size(), 3);
}

#[test]
fn test_inserted_leaf_is_last() {
    let hash: IMTHashFunction = join_hash;
    let mut imt = LeanIMT::new(hash);
    for i in 1..=5 {
        let leaf = format!("leaf{}", i);
        imt.insert(leaf.clone()).unwrap();
        assert!(imt.has(&leaf));
        assert_eq!(imt.index_of(&leaf).unwrap(), imt.get_size() - 1);
    }
}

#[test]
fn test_depth_is_ceil_log2_of_size() {
    let hash: IMTHashFunction = join_hash;
    let mut imt = LeanIMT::new(hash);
    let mut previous_depth = imt.get_depth();
    for i in 1..=9 {
        imt.insert(format!("leaf{}", i)).unwrap();
        let expected = (i as f64).log2().ceil() as usize;
        assert_eq!(imt.get_depth(), expected);
        assert!(imt.get_depth() >= previous_depth);
        previous_depth = imt.get_depth();
    }
}

#[test]
fn test_batch_of_power_of_two_matches_sequential() {
    let hash: IMTHashFunction = join_hash;
    let leaves = vec![
        "leaf1".to_string(),
        "leaf2".to_string(),
        "leaf3".to_string(),
        "leaf4".to_string(),
    ];

    let mut batched = LeanIMT::new(hash);
    batched.insert_many(leaves.clone()).unwrap();

    let mut sequential = LeanIMT::new(hash);
    for leaf in leaves {
        sequential.insert(leaf).unwrap();
    }

    assert_eq!(batched.root(), sequential.root());
    assert_eq!(batched.get_depth(), sequential.get_depth());
    assert_eq!(batched.get_size(), sequential.get_size());
}

#[test]
fn test_batch_of_one_matches_single_insert() {
    let hash: IMTHashFunction = join_hash;
    let mut batched = LeanIMT::new(hash);
    batched.insert_many(vec!["leaf1".to_string()]).unwrap();
    let mut single = LeanIMT::new(hash);
    single.insert("leaf1".to_string()).unwrap();
    assert_eq!(batched.root(), single.root());
}

#[test]
fn test_empty_batch_on_nonempty_tree_is_noop() {
    let hash: IMTHashFunction = join_hash;
    let mut imt = LeanIMT::new(hash);
    imt.insert("leaf1".to_string()).unwrap();
    let root_before = imt.root().unwrap();
    let result = imt.insert_many(vec![]);
    assert_eq!(result.unwrap(), root_before);
    assert_eq!(imt.get_size(), 1);
}

#[test]
fn test_root_defined_iff_nonempty() {
    let hash: IMTHashFunction = join_hash;
    let mut imt = LeanIMT::new(hash);
    assert!(imt.root().is_none());
    imt.insert("leaf1".to_string()).unwrap();
    assert!(imt.root().is_some());
    let sibling_nodes = vec![];
    imt.remove(&"leaf1".to_string(), &sibling_nodes).unwrap();
    // all leaves removed: the size stays 1 and a root remains defined,
    // distinct from the empty tree's missing root
    assert_eq!(imt.get_size(), 1);
    assert_eq!(imt.root().unwrap(), "0".to_string());
}

#[test]
fn test_get_leaves_skips_removed_slots() {
    let hash: IMTHashFunction = join_hash;
    let mut imt = LeanIMT::new(hash);
    imt.insert("leaf1".to_string()).unwrap();
    imt.insert("leaf2".to_string()).unwrap();
    let pairs = imt.get_leaves();
    assert_eq!(
        pairs,
        vec![("leaf1".to_string(), 1), ("leaf2".to_string(), 2)]
    );

    let sibling_nodes = vec!["leaf2".to_string()];
    imt.remove(&"leaf1".to_string(), &sibling_nodes).unwrap();
    let pairs = imt.get_leaves();
    assert_eq!(pairs, vec![("leaf2".to_string(), 2)]);
}

#[test]
fn test_get_side_nodes_top_is_root() {
    let hash: IMTHashFunction = join_hash;
    let mut imt = LeanIMT::new(hash);
    assert!(imt.get_side_nodes().is_empty());
    imt.insert("leaf1".to_string()).unwrap();
    imt.insert("leaf2".to_string()).unwrap();
    let sides = imt.get_side_nodes();
    assert_eq!(sides.len(), imt.get_depth() + 1);
    assert_eq!(sides[imt.get_depth()], imt.root());
}
