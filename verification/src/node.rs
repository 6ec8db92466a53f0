//! Node records of the arena and their mathematical view.

use crate::hash::{HashBuff, HASH_SIZE};
use vstd::prelude::*;

verus! {

/// Handle of a node: its position in the arena.
pub type NodeId = u64;

/// The role a node plays in the tree.
#[derive(Debug, Clone, Copy, PartialEq, Eq, Structural)]
pub enum NodeType {
    Root,
    Internal,
    Leaf,
}

/// One record of the arena.
///
/// A leaf holds a value, the digest of that value and a link to the leaf
/// inserted before it. A root or internal node holds the ordered ids of its
/// children and a digest that commits to their digests.
#[derive(Debug)]
pub struct Node {
    pub id: NodeId,
    pub node_type: NodeType,
    pub parent: Option<NodeId>,
    pub children: Vec<NodeId>,
    pub prev_leaf: Option<NodeId>,
    pub value: Option<String>,
    pub hash: HashBuff,
}

/// A node as a mathematical value.
pub struct NodeView {
    pub id: NodeId,
    pub node_type: NodeType,
    pub parent: Option<NodeId>,
    pub children: Seq<NodeId>,
    pub prev_leaf: Option<NodeId>,
    pub value: Option<Seq<char>>,
    pub hash: Seq<u8>,
}

/// The most children for which a new node sets storage aside in advance.
pub const PRESIZE_LIMIT: usize = 64;

/// The digest a branch node carries before its first hash propagation.
pub open spec fn zero_digest() -> Seq<u8> {
    Seq::new(HASH_SIZE as nat, |i: int| 0u8)
}

impl NodeView {
    /// A node of the given type with no parent, no children and a zero digest.
    pub open spec fn blank(id: NodeId, node_type: NodeType, value: Option<Seq<char>>) -> NodeView {
        NodeView {
            id,
            node_type,
            parent: None,
            children: Seq::empty(),
            prev_leaf: None,
            value,
            hash: zero_digest(),
        }
    }

    /// A parentless leaf that holds `value` and `hash`.
    pub open spec fn leaf(id: NodeId, value: Seq<char>, hash: Seq<u8>) -> NodeView {
        NodeView {
            id,
            node_type: NodeType::Leaf,
            parent: None,
            children: Seq::empty(),
            prev_leaf: None,
            value: Some(value),
            hash,
        }
    }

    pub open spec fn is_leaf(self) -> bool {
        self.node_type == NodeType::Leaf
    }
}

impl View for Node {
    type V = NodeView;

    open spec fn view(&self) -> NodeView {
        NodeView {
            id: self.id,
            node_type: self.node_type,
            parent: self.parent,
            children: self.children@,
            prev_leaf: self.prev_leaf,
            value: match self.value {
                Some(s) => Some(s@),
                None => None,
            },
            hash: self.hash@,
        }
    }
}

impl Node {
    /// A node of the given type with no parent, no children and a zero digest.
    /// Storage for `max_width` children, or for `PRESIZE_LIMIT` if that is
    /// less, is set aside in advance.
    pub fn new(id: NodeId, node_type: NodeType, max_width: usize, value: Option<String>) -> (node:
        Self)
        ensures
            node@ == NodeView::blank(
                id,
                node_type,
                match value {
                    Some(s) => Some(s@),
                    None => None,
                },
            ),
    {
        let presize = if max_width < PRESIZE_LIMIT {
            max_width
        } else {
            PRESIZE_LIMIT
        };
        let node = Self {
            id,
            node_type,
            parent: None,
            children: Vec::with_capacity(presize),
            prev_leaf: None,
            value,
            hash: [0u8; HASH_SIZE],
        };
        assert(node.hash@ =~= zero_digest());
        node
    }

    /// A blank root node.
    pub fn new_root(id: NodeId, max_width: usize) -> (node: Self)
        ensures
            node@ == NodeView::blank(id, NodeType::Root, None),
    {
        Node::new(id, NodeType::Root, max_width, None)
    }

    /// A blank internal node.
    pub fn new_node(id: NodeId, max_width: usize) -> (node: Self)
        ensures
            node@ == NodeView::blank(id, NodeType::Internal, None),
    {
        Node::new(id, NodeType::Internal, max_width, None)
    }

    /// A parentless leaf that holds `value` and its digest `hash`.
    pub fn new_leaf(id: NodeId, value: String, hash: HashBuff) -> (node: Self)
        ensures
            node@ == NodeView::leaf(id, value@, hash@),
    {
        Self {
            id,
            node_type: NodeType::Leaf,
            parent: None,
            children: Vec::new(),
            prev_leaf: None,
            value: Some(value),
            hash,
        }
    }
}

impl Clone for Node {
    fn clone(&self) -> (copy: Self)
        ensures
            copy@ == self@,
    {
        let value = match &self.value {
            Some(s) => Some(s.clone()),
            None => None,
        };
        let children = self.children.clone();
        assert(children@ =~= self.children@);
        Node {
            id: self.id,
            node_type: self.node_type,
            parent: self.parent,
            children,
            prev_leaf: self.prev_leaf,
            value,
            hash: self.hash,
        }
    }
}

} // verus!
