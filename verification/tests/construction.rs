use mtree::hash::Hasher;
use mtree::new::TreeOptions;
use mtree::node::{Node, NodeType};
use mtree::tree::Tree;

#[test]
fn node_new_is_blank() {
    let node = Node::new(5, NodeType::Internal, 4, None);
    assert_eq!(node.id, 5);
    assert_eq!(node.node_type, NodeType::Internal);
    assert_eq!(node.parent, None);
    assert!(node.children.is_empty());
    assert_eq!(node.prev_leaf, None);
    assert_eq!(node.value, None);
    assert_eq!(node.hash, [0u8; 8]);
}

#[test]
fn node_new_root_and_new_node() {
    let root = Node::new_root(0, 2);
    assert_eq!(root.node_type, NodeType::Root);
    assert_eq!(root.id, 0);
    assert_eq!(root.hash, [0u8; 8]);
    let inner = Node::new_node(9, 2);
    assert_eq!(inner.node_type, NodeType::Internal);
    assert_eq!(inner.id, 9);
    assert!(inner.children.is_empty());
}

#[test]
fn node_new_leaf_holds_value_and_digest() {
    let leaf = Node::new_leaf(3, "v".to_string(), [9u8; 8]);
    assert_eq!(leaf.node_type, NodeType::Leaf);
    assert_eq!(leaf.id, 3);
    assert_eq!(leaf.value, Some("v".to_string()));
    assert_eq!(leaf.hash, [9u8; 8]);
    assert_eq!(leaf.parent, None);
    assert!(leaf.children.is_empty());
}

#[test]
fn node_clone_copies_every_field() {
    let mut leaf = Node::new_leaf(3, "v".to_string(), [9u8; 8]);
    leaf.parent = Some(1);
    leaf.prev_leaf = Some(2);
    let copy = leaf.clone();
    assert_eq!(copy.id, 3);
    assert_eq!(copy.parent, Some(1));
    assert_eq!(copy.prev_leaf, Some(2));
    assert_eq!(copy.value, Some("v".to_string()));
    assert_eq!(copy.hash, [9u8; 8]);
}

#[test]
fn options_default_to_width_two_and_no_hasher() {
    let options = TreeOptions::default();
    assert_eq!(options.max_width, 2);
    assert_eq!(options.hasher, None);
}

fn assert_fresh(tree: &Tree, max_width: usize, hasher: Hasher) {
    assert_eq!(tree.root, 0);
    assert_eq!(tree.last_parent, 0);
    assert_eq!(tree.last_leaf, None);
    assert_eq!(tree.height, 1);
    assert_eq!(tree.size, 1);
    assert_eq!(tree.leaf_count, 0);
    assert_eq!(tree.capacity, max_width);
    assert_eq!(tree.max_width, max_width);
    assert_eq!(tree.hasher, hasher);
    assert_eq!(tree.nodes.len(), 1);
    assert_eq!(tree.nodes[0].node_type, NodeType::Root);
    assert_eq!(tree.nodes[0].id, 0);
    assert!(tree.nodes[0].children.is_empty());
    assert_eq!(tree.nodes[0].parent, None);
}

#[test]
fn new_tree_is_a_lone_root() {
    assert_fresh(&Tree::new(), 2, Hasher::Unseeded);
    assert_fresh(&Tree::default(), 2, Hasher::Unseeded);
}

#[test]
fn new_with_seed_selects_seeded_strategy() {
    assert_fresh(&Tree::new_with_seed(11), 2, Hasher::Seeded(11));
}

#[test]
fn new_with_hasher_keeps_the_hasher() {
    assert_fresh(&Tree::new_with_hasher(Hasher::Seeded(5)), 2, Hasher::Seeded(5));
    assert_fresh(&Tree::new_with_hasher(Hasher::Unseeded), 2, Hasher::Unseeded);
}

#[test]
fn new_with_opts_takes_width_and_hasher() {
    let tree = Tree::new_with_opts(TreeOptions { max_width: 5, hasher: None });
    assert_fresh(&tree, 5, Hasher::Unseeded);
    let tree = Tree::new_with_opts(TreeOptions { max_width: 3, hasher: Some(Hasher::Seeded(1)) });
    assert_fresh(&tree, 3, Hasher::Seeded(1));
}

#[test]
fn trees_with_different_seeds_have_different_digests() {
    let mut one = Tree::new_with_seed(1);
    let mut two = Tree::new_with_seed(2);
    let a = one.insert("a".to_string());
    let b = two.insert("a".to_string());
    assert_eq!(a, b);
    assert_ne!(one.get_node(a).unwrap().hash, two.get_node(b).unwrap().hash);
    assert_ne!(one.get_root().hash, two.get_root().hash);
}
