use mtree::new::TreeOptions;
use mtree::node::{NodeId, NodeType};
use mtree::tree::Tree;

fn digest_of(data: &[u8]) -> [u8; 8] {
    xxhash_rust::xxh3::xxh3_64(data).to_be_bytes()
}

fn tree_of_width(max_width: usize) -> Tree {
    Tree::new_with_opts(TreeOptions { max_width, hasher: None })
}

fn check_structure(tree: &Tree) {
    assert_eq!(tree.size, tree.nodes.len());
    assert!(tree.leaf_count <= tree.capacity);
    assert_eq!(tree.capacity, tree.max_width.pow(tree.height as u32));
    let mut leaves = 0;
    let mut roots = 0;
    for (i, node) in tree.nodes.iter().enumerate() {
        assert_eq!(node.id, i as NodeId);
        match node.node_type {
            NodeType::Leaf => {
                leaves += 1;
                assert!(node.children.is_empty());
                assert!(node.value.is_some());
            }
            _ => {
                if tree.leaf_count > 0 {
                    assert!(node.children.len() >= 1);
                }
                assert!(node.children.len() <= tree.max_width);
                for child in node.children.iter() {
                    assert_eq!(tree.nodes[*child as usize].parent, Some(node.id));
                }
            }
        }
        if node.node_type == NodeType::Root {
            roots += 1;
            assert_eq!(node.id, tree.root);
            assert_eq!(node.parent, None);
        } else {
            let parent = node.parent.unwrap();
            assert!(tree.nodes[parent as usize].children.contains(&node.id));
        }
    }
    assert_eq!(roots, 1);
    assert_eq!(leaves, tree.leaf_count);
}

#[test]
fn first_insert_goes_under_the_root() {
    let mut tree = Tree::new();
    let id = tree.insert("a".to_string());
    assert_eq!(id, 1);
    assert_eq!(tree.size, 2);
    assert_eq!(tree.leaf_count, 1);
    assert_eq!(tree.last_leaf, Some(1));
    assert_eq!(tree.last_parent, 0);
    let leaf = tree.get_node(1).unwrap();
    assert_eq!(leaf.node_type, NodeType::Leaf);
    assert_eq!(leaf.parent, Some(0));
    assert_eq!(leaf.prev_leaf, None);
    assert_eq!(leaf.value, Some("a".to_string()));
    assert_eq!(leaf.hash, digest_of(b"a"));
    assert_eq!(tree.get_root().hash, digest_of(&digest_of(b"a")));
}

#[test]
fn root_digest_commits_to_children_in_order() {
    let mut tree = Tree::new();
    tree.insert("a".to_string());
    tree.insert("b".to_string());
    let mut joined = Vec::new();
    joined.extend_from_slice(&digest_of(b"a"));
    joined.extend_from_slice(&digest_of(b"b"));
    assert_eq!(tree.get_root().hash, digest_of(&joined));
    let mut swapped = Vec::new();
    swapped.extend_from_slice(&digest_of(b"b"));
    swapped.extend_from_slice(&digest_of(b"a"));
    assert_ne!(tree.get_root().hash, digest_of(&swapped));
}

#[test]
fn fourth_insert_splits_the_full_cursor() {
    let mut tree = Tree::new();
    tree.insert("a".to_string());
    tree.insert("b".to_string());
    let c = tree.insert("c".to_string());
    assert_eq!(tree.last_parent, 4);
    let d = tree.insert("d".to_string());
    assert_eq!(d, 5);
    assert_eq!(tree.height, 2);
    assert_eq!(tree.capacity, 4);
    assert_eq!(tree.size, 7);
    assert_eq!(tree.root, 4);
    assert_eq!(tree.get_root().children, vec![0, 6]);
    let pair = tree.get_node(6).unwrap();
    assert_eq!(pair.node_type, NodeType::Internal);
    assert_eq!(pair.parent, Some(4));
    assert_eq!(pair.children, vec![c, d]);
    assert_eq!(tree.get_node(c).unwrap().parent, Some(6));
    assert_eq!(tree.get_node(d).unwrap().parent, Some(6));
    assert_eq!(tree.last_parent, 6);
    assert_eq!(tree.get_node(d).unwrap().prev_leaf, Some(c));
    assert!(tree.verify_tree(tree.root));
    check_structure(&tree);
}

#[test]
fn split_takes_the_first_leaf_child() {
    let mut tree = tree_of_width(3);
    for value in ["a", "b", "c"] {
        tree.insert(value.to_string());
    }
    assert_eq!(tree.get_root().children, vec![1, 2, 3]);
    // The fourth leaf makes the tree grow; the new root has room for one more.
    let d = tree.insert("d".to_string());
    assert_eq!(tree.root, 5);
    assert_eq!(tree.get_root().children, vec![0, d]);
    let e = tree.insert("e".to_string());
    assert_eq!(tree.get_root().children, vec![0, d, e]);
    // Now the cursor is full: its first leaf child is d.
    let f = tree.insert("f".to_string());
    assert_eq!(tree.get_root().children, vec![0, f + 1, e]);
    assert_eq!(tree.get_node(f + 1).unwrap().children, vec![d, f]);
    assert_eq!(tree.last_parent, f + 1);
    // The new cursor has room for one more child.
    let g = tree.insert("g".to_string());
    assert_eq!(tree.get_node(f + 1).unwrap().children, vec![d, f, g]);
    assert!(tree.verify_tree(tree.root));
    check_structure(&tree);
}

#[test]
fn height_grows_once_after_capacity_plus_one_leaves() {
    for max_width in [2usize, 3, 4, 7] {
        let mut tree = tree_of_width(max_width);
        for i in 0..max_width {
            tree.insert(format!("v{}", i));
            assert_eq!(tree.height, 1);
            assert_eq!(tree.capacity, max_width);
        }
        tree.insert("one more".to_string());
        assert_eq!(tree.height, 2);
        assert_eq!(tree.capacity, max_width * max_width);
    }
}

#[test]
fn height_grows_once_from_height_two() {
    let mut tree = tree_of_width(3);
    for i in 0..4 {
        tree.insert(format!("v{}", i));
    }
    assert_eq!(tree.height, 2);
    assert_eq!(tree.capacity, 9);
    assert_eq!(tree.leaf_count, 4);
    for i in 0..10 {
        tree.insert(format!("w{}", i));
    }
    assert_eq!(tree.leaf_count, 14);
    assert_eq!(tree.height, 3);
    assert_eq!(tree.capacity, 27);
}

#[test]
fn a_full_tree_of_width_two_grows_twice() {
    let mut tree = Tree::new();
    tree.insert("a".to_string());
    tree.insert("b".to_string());
    assert_eq!(tree.height, 1);
    for value in ["c", "d", "e"] {
        tree.insert(value.to_string());
    }
    assert_eq!(tree.height, 3);
    assert_eq!(tree.capacity, 8);
}

#[test]
fn structure_holds_after_every_insertion() {
    for max_width in [2usize, 3, 5] {
        let mut tree = tree_of_width(max_width);
        check_structure(&tree);
        for i in 0..60 {
            let id = tree.insert(format!("value {}", i));
            assert_eq!(id as usize, tree.nodes.len() - if tree.last_parent > id { 2 } else { 1 });
            check_structure(&tree);
            assert!(tree.verify_tree(tree.root));
        }
        assert_eq!(tree.leaf_count, 60);
    }
}

#[test]
fn branch_nodes_have_between_one_and_max_width_children() {
    let mut tree = tree_of_width(4);
    for i in 0..100 {
        tree.insert(format!("{}", i));
        for node in tree.nodes.iter() {
            if node.node_type != NodeType::Leaf {
                assert!(1 <= node.children.len() && node.children.len() <= 4);
            }
        }
    }
}

#[test]
fn leaves_are_linked_backwards() {
    let mut tree = Tree::new();
    let mut ids = Vec::new();
    for i in 0..10 {
        ids.push(tree.insert(format!("{}", i)));
    }
    assert_eq!(tree.last_leaf, Some(ids[9]));
    for i in 1..10 {
        assert_eq!(tree.get_node(ids[i]).unwrap().prev_leaf, Some(ids[i - 1]));
    }
    assert_eq!(tree.get_node(ids[0]).unwrap().prev_leaf, None);
}

#[test]
fn batch_gives_the_same_tree_as_single_insertions() {
    let values: Vec<String> = (0..37).map(|i| format!("data: {}", i)).collect();
    let mut one_by_one = tree_of_width(3);
    for value in values.iter() {
        one_by_one.insert(value.clone());
    }
    let mut batched = tree_of_width(3);
    batched.insert_batch(values);
    assert_eq!(batched.nodes.len(), one_by_one.nodes.len());
    assert_eq!(batched.root, one_by_one.root);
    assert_eq!(batched.height, one_by_one.height);
    assert_eq!(batched.capacity, one_by_one.capacity);
    assert_eq!(batched.last_parent, one_by_one.last_parent);
    assert_eq!(batched.last_leaf, one_by_one.last_leaf);
    for (a, b) in batched.nodes.iter().zip(one_by_one.nodes.iter()) {
        assert_eq!(a.id, b.id);
        assert_eq!(a.node_type, b.node_type);
        assert_eq!(a.parent, b.parent);
        assert_eq!(a.children, b.children);
        assert_eq!(a.value, b.value);
        assert_eq!(a.hash, b.hash);
    }
    assert!(batched.verify_tree(batched.root));
}

#[test]
fn batch_into_a_tree_that_holds_leaves() {
    let mut tree = Tree::new();
    tree.insert("first".to_string());
    tree.insert_batch(vec!["x".to_string(), "y".to_string(), "z".to_string()]);
    assert_eq!(tree.leaf_count, 4);
    assert!(tree.verify_tree(tree.root));
    check_structure(&tree);
    tree.insert_batch(Vec::new());
    assert_eq!(tree.leaf_count, 4);
    assert!(tree.verify_tree(tree.root));
}

#[test]
fn insert_raw_without_update_leaves_ancestors_stale() {
    let mut tree = Tree::new();
    tree.insert("a".to_string());
    let before = tree.get_root().hash;
    let b = tree.insert_raw("b".to_string(), false);
    assert_eq!(tree.get_root().children, vec![1, b]);
    assert_eq!(tree.get_root().hash, before);
    assert!(tree.verify_node(b));
    assert!(!tree.verify_node(tree.root));
    assert_eq!(tree.update_hashes(b), Ok(()));
    assert!(tree.verify_tree(tree.root));
}

#[test]
fn grow_and_insert_puts_a_new_root_on_top() {
    let mut tree = Tree::new();
    tree.insert("a".to_string());
    tree.insert("b".to_string());
    let mut leaf = mtree::node::Node::new_leaf(3, "c".to_string(), digest_of(b"c"));
    leaf.prev_leaf = tree.last_leaf;
    let id = tree.grow_and_insert(leaf);
    assert_eq!(id, 3);
    assert_eq!(tree.root, 4);
    assert_eq!(tree.height, 2);
    assert_eq!(tree.capacity, 4);
    assert_eq!(tree.leaf_count, 3);
    assert_eq!(tree.size, 5);
    assert_eq!(tree.get_root().children, vec![0, 3]);
    assert_eq!(tree.get_root().hash, [0u8; 8]);
    assert_eq!(tree.get_node(0).unwrap().node_type, NodeType::Internal);
}

#[test]
fn can_insert_and_has_room_for() {
    let mut tree = Tree::new();
    assert!(tree.can_insert());
    assert!(tree.has_room_for(0));
    assert!(tree.has_room_for(1_000_000));
    assert!(!tree.has_room_for(usize::MAX));
    assert!(tree.has_room_for(usize::MAX / 2));
    assert!(!tree.has_room_for(usize::MAX / 2 + 1));
    tree.insert("a".to_string());
    assert!(tree.can_insert());
    let wide = tree_of_width(usize::MAX);
    assert!(wide.can_insert());
    assert!(wide.has_room_for(1));
    assert!(!wide.has_room_for(2));
}
