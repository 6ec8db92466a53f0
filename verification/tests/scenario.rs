use mtree::hash::{default_hasher, HashBuff};
use mtree::node::NodeType;
use mtree::tree::Tree;

fn digest_of(data: &[u8]) -> HashBuff {
    xxhash_rust::xxh3::xxh3_64(data).to_be_bytes()
}

#[test]
fn hasher_matches_xxh3_big_endian() {
    let hasher = default_hasher();
    assert_eq!(hasher.hash(b"abc"), digest_of(b"abc"));
    assert_eq!(hasher.hash(b""), digest_of(b""));
}

#[test]
fn three_inserts_with_width_two() {
    let mut tree = Tree::new();
    let a = tree.insert("a".to_string());
    assert_eq!(a, 1);
    assert_eq!(tree.get_root().children, vec![1]);
    assert_eq!(tree.height, 1);

    let b = tree.insert("b".to_string());
    assert_eq!(b, 2);
    assert_eq!(tree.get_root().children, vec![1, 2]);
    assert_eq!(tree.height, 1);
    assert_eq!(tree.root, 0);

    let c = tree.insert("c".to_string());
    assert_eq!(c, 3);
    assert_eq!(tree.height, 2);
    assert_eq!(tree.capacity, 4);
    assert_eq!(tree.root, 4);
    assert_eq!(tree.get_root().children, vec![0, 3]);
    assert_eq!(tree.get_root().node_type, NodeType::Root);
    assert_eq!(tree.get_node(0).unwrap().node_type, NodeType::Internal);
    assert_eq!(tree.get_node(0).unwrap().parent, Some(4));

    let opening = tree.get_opening(c).unwrap();
    assert_eq!(opening.len(), 1);
    let old_root_hash = tree.get_node(0).unwrap().hash;
    let leaf_hash = tree.get_node(c).unwrap().hash;
    assert_eq!(opening[0], vec![old_root_hash, leaf_hash]);
    assert_eq!(leaf_hash, digest_of(b"c"));
    assert!(tree.verify_tree(tree.root));
}
