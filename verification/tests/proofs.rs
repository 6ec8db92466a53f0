use mtree::hash::{default_hasher, HashBuff, Hasher};
use mtree::new::TreeOptions;
use mtree::node::NodeType;
use mtree::opening::{holds_digest, join_digests, verify_opening};
use mtree::tree::{same_text, Tree, TreeError};

fn digest_of(data: &[u8]) -> [u8; 8] {
    xxhash_rust::xxh3::xxh3_64(data).to_be_bytes()
}

fn sample_tree(max_width: usize, count: usize) -> Tree {
    let mut tree = Tree::new_with_opts(TreeOptions { max_width, hasher: None });
    for i in 0..count {
        tree.insert(format!("data: {}", i));
    }
    tree
}

#[test]
fn get_node_reports_missing_ids() {
    let mut tree = sample_tree(2, 3);
    assert!(tree.get_node(0).is_some());
    assert!(tree.get_node(4).is_some());
    assert!(tree.get_node(5).is_none());
    assert!(tree.get_node(u64::MAX).is_none());
    assert!(tree.get_node_mut(4).is_some());
    assert!(tree.get_node_mut(5).is_none());
    assert_eq!(tree.get_root_mut().id, 4);
}

#[test]
fn root_path_runs_from_node_to_root() {
    let mut tree = Tree::new();
    for value in ["a", "b", "c", "d"] {
        tree.insert(value.to_string());
    }
    assert_eq!(tree.get_root_path(1), Ok(vec![1, 0, 4]));
    assert_eq!(tree.get_root_path(0), Ok(vec![0, 4]));
    assert_eq!(tree.get_root_path(4), Ok(vec![4]));
    assert_eq!(tree.get_root_path(5), Ok(vec![5, 6, 4]));
    assert_eq!(tree.get_root_path(3), Ok(vec![3, 6, 4]));
}

#[test]
fn root_path_of_a_missing_id_is_not_found() {
    let tree = sample_tree(2, 3);
    assert_eq!(tree.get_root_path(5), Err(TreeError::NotFound));
    assert_eq!(tree.get_root_path(u64::MAX), Err(TreeError::NotFound));
}

#[test]
fn opening_of_a_missing_id_is_not_found() {
    let tree = sample_tree(2, 3);
    assert_eq!(tree.get_opening(99), Err(TreeError::NotFound));
}

#[test]
fn update_of_a_missing_id_is_not_found() {
    let mut tree = sample_tree(2, 3);
    assert_eq!(tree.update_hashes(99), Err(TreeError::NotFound));
    assert_eq!(tree.update_node_hash(99), Err(TreeError::NotFound));
    assert!(tree.verify_tree(tree.root));
}

#[test]
fn update_node_hash_reports_a_missing_child() {
    let mut tree = sample_tree(2, 2);
    let before = tree.get_root().hash;
    tree.get_root_mut().children.push(77);
    assert_eq!(tree.update_node_hash(0), Err(TreeError::NotFound));
    assert_eq!(tree.get_root().hash, before);
    assert!(!tree.verify_node(0));
}

#[test]
fn update_node_hash_leaves_a_leaf_alone() {
    let mut tree = sample_tree(2, 2);
    tree.get_node_mut(1).unwrap().hash = [5u8; 8];
    assert_eq!(tree.update_node_hash(1), Ok(()));
    assert_eq!(tree.get_node(1).unwrap().hash, [5u8; 8]);
}

#[test]
fn opening_lists_children_digests_per_ancestor() {
    let mut tree = Tree::new();
    for value in ["a", "b", "c", "d"] {
        tree.insert(value.to_string());
    }
    let hash = |id: u64| tree.get_node(id).unwrap().hash;
    assert_eq!(
        tree.get_opening(1),
        Ok(vec![vec![hash(1), hash(2)], vec![hash(0), hash(6)]])
    );
    assert_eq!(
        tree.get_opening(5),
        Ok(vec![vec![hash(3), hash(5)], vec![hash(0), hash(6)]])
    );
    // For a branch node the opening starts with its own children.
    assert_eq!(
        tree.get_opening(0),
        Ok(vec![vec![hash(1), hash(2)], vec![hash(0), hash(6)]])
    );
    assert_eq!(tree.get_opening(4), Ok(vec![vec![hash(0), hash(6)]]));
}

#[test]
fn every_opening_reproduces_the_root_digest() {
    for max_width in [2usize, 3, 5] {
        let tree = sample_tree(max_width, 50);
        let root_digest = tree.get_root().hash;
        for node in tree.nodes.iter() {
            if node.node_type != NodeType::Leaf {
                continue;
            }
            let opening = tree.get_opening(node.id).unwrap();
            let value = node.value.as_ref().unwrap();
            assert!(verify_opening(&tree.hasher, value, &opening, &root_digest));
            // Folding by hand gives the same answer.
            let mut digest = digest_of(value.as_bytes());
            for siblings in opening.iter() {
                assert!(siblings.contains(&digest));
                let mut joined = Vec::new();
                for sibling in siblings.iter() {
                    joined.extend_from_slice(sibling);
                }
                digest = digest_of(&joined);
            }
            assert_eq!(digest, root_digest);
        }
    }
}

#[test]
fn opening_does_not_prove_another_value_or_root() {
    let tree = sample_tree(2, 9);
    let root_digest = tree.get_root().hash;
    let leaf = tree.find_leaf("data: 4").unwrap();
    let opening = tree.get_opening(leaf.id).unwrap();
    assert!(verify_opening(&tree.hasher, "data: 4", &opening, &root_digest));
    assert!(!verify_opening(&tree.hasher, "data: 5", &opening, &root_digest));
    assert!(!verify_opening(&tree.hasher, "data: 4", &opening, &[0u8; 8]));
    assert!(!verify_opening(&Hasher::Seeded(1), "data: 4", &opening, &root_digest));
    let mut cut = opening.clone();
    cut.pop();
    assert!(!verify_opening(&tree.hasher, "data: 4", &cut, &root_digest));
}

#[test]
fn empty_opening_proves_only_the_digest_itself() {
    let hasher = default_hasher();
    let empty: Vec<Vec<HashBuff>> = Vec::new();
    assert!(verify_opening(&hasher, "v", &empty, &digest_of(b"v")));
    assert!(!verify_opening(&hasher, "v", &empty, &digest_of(b"w")));
}

#[test]
fn holds_digest_and_join_digests() {
    let digests = vec![[1u8; 8], [2u8; 8], [3u8; 8]];
    assert!(holds_digest(&digests, &[2u8; 8]));
    assert!(!holds_digest(&digests, &[4u8; 8]));
    assert!(!holds_digest(&Vec::new(), &[4u8; 8]));
    let joined = join_digests(&digests);
    assert_eq!(joined.len(), 24);
    assert_eq!(&joined[0..8], &[1u8; 8]);
    assert_eq!(&joined[8..16], &[2u8; 8]);
    assert_eq!(&joined[16..24], &[3u8; 8]);
    assert!(join_digests(&Vec::new()).is_empty());
}

#[test]
fn every_inserted_value_is_found_with_its_digest() {
    let tree = sample_tree(3, 40);
    for i in 0..40 {
        let value = format!("data: {}", i);
        let leaf = tree.find_leaf(&value).unwrap();
        assert_eq!(leaf.node_type, NodeType::Leaf);
        assert_eq!(leaf.value, Some(value.clone()));
        assert_eq!(leaf.hash, digest_of(value.as_bytes()));
        assert_eq!(leaf.hash, tree.hasher.hash(value.as_bytes()));
    }
}

#[test]
fn values_of_a_batch_are_found() {
    let mut tree = Tree::new();
    tree.insert_batch((0..25).map(|i| format!("data: {}", i)).collect());
    let leaf = tree.find_leaf("data: 20").unwrap();
    assert_eq!(leaf.value, Some("data: 20".to_string()));
    assert_eq!(leaf.hash, digest_of(b"data: 20"));
}

#[test]
fn find_leaf_misses_what_was_never_inserted() {
    let tree = sample_tree(2, 10);
    assert!(tree.find_leaf("data: 10").is_none());
    assert!(tree.find_leaf("").is_none());
    assert!(Tree::new().find_leaf("anything").is_none());
}

#[test]
fn find_leaf_returns_the_latest_of_equal_values() {
    let mut tree = Tree::new();
    let first = tree.insert("twin".to_string());
    tree.insert("other".to_string());
    let second = tree.insert("twin".to_string());
    tree.insert("last".to_string());
    assert_ne!(first, second);
    assert_eq!(tree.find_leaf("twin").unwrap().id, second);
}

#[test]
fn same_text_compares_strings() {
    assert!(same_text("", ""));
    assert!(same_text("héllo", "héllo"));
    assert!(!same_text("hello", "hellp"));
    assert!(!same_text("hello", "hell"));
}

#[test]
fn verify_node_of_a_missing_id_fails() {
    let tree = sample_tree(2, 3);
    assert!(!tree.verify_node(99));
    assert!(!tree.verify_tree(99));
}

#[test]
fn fresh_tree_has_a_root_without_a_digest() {
    let tree = Tree::new();
    assert!(!tree.verify_node(0));
    assert!(!tree.verify_tree(0));
}

#[test]
fn verify_tree_succeeds_after_insertions_and_batches() {
    let mut tree = Tree::new_with_seed(99);
    for i in 0..20 {
        tree.insert(format!("{}", i));
        assert!(tree.verify_tree(tree.root));
    }
    tree.insert_batch((0..33).map(|i| format!("batch {}", i)).collect());
    assert!(tree.verify_tree(tree.root));
    for id in 0..tree.nodes.len() as u64 {
        assert!(tree.verify_node(id));
        assert!(tree.verify_tree(id));
    }
}

#[test]
fn tampered_leaf_value_is_detected() {
    let mut tree = sample_tree(2, 8);
    let leaf = tree.find_leaf("data: 3").unwrap().id;
    let path = tree.get_root_path(leaf).unwrap();
    tree.get_node_mut(leaf).unwrap().value = Some("forged".to_string());
    assert!(!tree.verify_node(leaf));
    assert!(!tree.verify_tree(tree.root));
    // Recomputing the ancestors does not repair the leaf.
    assert_eq!(tree.update_hashes(leaf), Ok(()));
    assert!(!tree.verify_node(leaf));
    assert!(!tree.verify_tree(tree.root));
    for id in 0..tree.nodes.len() as u64 {
        if !path.contains(&id) {
            assert!(tree.verify_node(id));
        }
    }
}

#[test]
fn tampered_digest_makes_ancestors_stale() {
    let mut tree = sample_tree(2, 8);
    let published = tree.get_root().hash;
    let leaf = tree.find_leaf("data: 5").unwrap().id;
    let path = tree.get_root_path(leaf).unwrap();
    tree.get_node_mut(leaf).unwrap().hash = [0xaa; 8];
    // The leaf and its parent no longer verify; everything else still does.
    assert!(!tree.verify_node(leaf));
    assert!(!tree.verify_node(path[1]));
    for id in 0..tree.nodes.len() as u64 {
        if id != leaf && id != path[1] {
            assert!(tree.verify_node(id));
        }
    }
    assert!(!tree.verify_tree(tree.root));
    // Recomputing one ancestor at a time moves the stale digest upwards.
    for i in 1..path.len() {
        assert!(!tree.verify_node(path[i]));
        assert_eq!(tree.update_node_hash(path[i]), Ok(()));
        assert!(tree.verify_node(path[i]));
    }
    assert!(!tree.verify_node(leaf));
    assert!(!tree.verify_tree(tree.root));
    assert_ne!(tree.get_root().hash, published);
    for id in 0..tree.nodes.len() as u64 {
        if !path.contains(&id) {
            assert!(tree.verify_node(id));
        }
    }
}

#[test]
fn tampered_branch_digest_is_detected_and_repaired_by_update() {
    let mut tree = sample_tree(3, 12);
    let branch = tree.get_node(tree.last_parent).unwrap().id;
    tree.get_node_mut(branch).unwrap().hash = [1u8; 8];
    assert!(!tree.verify_node(branch));
    assert!(!tree.verify_tree(tree.root));
    assert_eq!(tree.update_hashes(branch), Ok(()));
    assert!(tree.verify_tree(tree.root));
}
