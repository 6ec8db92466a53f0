//! The tree aggregate: the node arena with its scalar state, and read access to it.

use crate::hash::Hasher;
use crate::model::TreeView;
use crate::node::{Node, NodeId, NodeType};
use vstd::prelude::*;

verus! {

/// What an operation reports when it cannot do its work.
#[derive(Debug, Clone, Copy, PartialEq, Eq, Structural)]
pub enum TreeError {
    /// The id names no node of the arena.
    NotFound,
}

/// An append-only authenticated tree.
///
/// `nodes` is the arena; a node's id is its position there. `depth` records,
/// for proofs only, how far each node lies from the root.
pub struct Tree {
    pub root: NodeId,
    pub last_parent: NodeId,
    pub last_leaf: Option<NodeId>,
    pub nodes: Vec<Node>,
    pub max_width: usize,
    pub height: usize,
    pub capacity: usize,
    pub size: usize,
    pub leaf_count: usize,
    pub hasher: Hasher,
    pub depth: Ghost<Seq<nat>>,
}

impl View for Tree {
    type V = TreeView;

    open spec fn view(&self) -> TreeView {
        TreeView {
            root: self.root,
            last_parent: self.last_parent,
            last_leaf: self.last_leaf,
            nodes: Seq::new(self.nodes@.len(), |i: int| self.nodes@[i]@),
            max_width: self.max_width as nat,
            height: self.height as nat,
            capacity: self.capacity as nat,
            size: self.size as nat,
            leaf_count: self.leaf_count as nat,
            hasher: self.hasher,
            depth: self.depth@,
        }
    }
}

/// Whether two strings hold the same text.
pub fn same_text(a: &str, b: &str) -> (same: bool)
    ensures
        same == (a@ == b@),
{
    let x = a.as_bytes();
    let y = b.as_bytes();
    proof {
        vstd::utf8::encode_utf8_decode_utf8(a@);
        vstd::utf8::encode_utf8_decode_utf8(b@);
    }
    if x.len() != y.len() {
        return false;
    }
    let mut i: usize = 0;
    while i < x.len()
        invariant
            0 <= i <= x.len(),
            x@.len() == y@.len(),
            x@ == vstd::utf8::encode_utf8(a@),
            y@ == vstd::utf8::encode_utf8(b@),
            forall|j: int| 0 <= j < i ==> x@[j] == y@[j],
        decreases x.len() - i,
    {
        if x[i] != y[i] {
            return false;
        }
        i += 1;
    }
    assert(x@ =~= y@);
    true
}

impl TreeView {
    /// Whether position `i` holds a leaf whose value is `value`.
    pub open spec fn holds_value(self, i: int, value: Seq<char>) -> bool {
        self.leaf_at(i) && self.nodes[i].value == Some(value)
    }

    /// Whether `id` is the most recently inserted leaf that holds `value`:
    /// the leaf that a search for `value` finds.
    pub open spec fn found_by(self, value: Seq<char>, id: NodeId) -> bool {
        &&& self.holds_value(id as int, value)
        &&& forall|j: int| id < j ==> !self.holds_value(j, value)
    }
}

impl Tree {
    /// The most recently inserted leaf that holds `value`, if any leaf does.
    pub fn find_leaf(&self, value: &str) -> (found: Option<Node>)
        requires
            self@.wf(),
        ensures
            found matches Some(node) ==> {
                &&& self@.found_by(value@, node.id)
                &&& node@ == self@.node(node.id)
                &&& self@.node_verifies(node.id) ==> node.hash@ == self@.hasher.digest(
                    vstd::utf8::encode_utf8(value@),
                )
            },
            found is None ==> forall|j: int| !self@.holds_value(j, value@),
    {
        let len = self.nodes.len();
        let mut cur = self.last_leaf;
        let ghost mut bound: int = len as int;
        loop
            invariant
                self@.wf(),
                len == self.nodes@.len(),
                0 <= bound <= len,
                self@.link_ok(cur, bound),
                forall|j: int| bound <= j ==> !self@.holds_value(j, value@),
            decreases bound,
        {
            match cur {
                None => {
                    proof {
                        assert forall|j: int| !self@.holds_value(j, value@) by {
                            if 0 <= j < bound {
                                assert(!self@.leaf_at(j));
                            }
                        }
                    }
                    return None;
                },
                Some(id) => {
                    proof {
                        assert(self@.node_wf(id as int));
                    }
                    let node = &self.nodes[id as usize];
                    match &node.value {
                        Some(text) => {
                            if same_text(text.as_str(), value) {
                                proof {
                                    assert forall|j: int| id < j implies !self@.holds_value(
                                        j,
                                        value@,
                                    ) by {
                                        if j < bound {
                                            assert(!self@.leaf_at(j));
                                        }
                                    }
                                }
                                return Some(node.clone());
                            }
                        },
                        None => {
                            return None;
                        },
                    }
                    proof {
                        assert forall|j: int| id <= j implies !self@.holds_value(j, value@) by {
                            if id < j < bound {
                                assert(!self@.leaf_at(j));
                            }
                        }
                        bound = id as int;
                    }
                    cur = node.prev_leaf;
                },
            }
        }
    }

    /// The root node.
    pub fn get_root(&self) -> (node: &Node)
        requires
            self@.contains(self.root),
        ensures
            node@ == self@.node(self.root),
    {
        let len = self.nodes.len();
        assert(self.root < len);
        &self.nodes[self.root as usize]
    }

    /// The root node, for writing. Whatever the caller leaves behind the
    /// reference takes the root's place in the arena.
    pub fn get_root_mut(&mut self) -> (node: &mut Node)
        requires
            old(self)@.contains(old(self).root),
        ensures
            *node == old(self).nodes@[old(self).root as int],
            *final(self) == (Tree {
                nodes: final(self).nodes,
                ..*old(self)
            }),
            final(self).nodes@ == old(self).nodes@.update(old(self).root as int, *final(node)),
    {
        let len = self.nodes.len();
        assert(self.root < len);
        let root = self.root as usize;
        &mut self.nodes[root]
    }

    /// The node that `index` names, if the arena holds one.
    pub fn get_node(&self, index: NodeId) -> (found: Option<&Node>)
        ensures
            found is Some <==> self@.contains(index),
            found matches Some(node) ==> *node == self.nodes@[index as int] && node@
                == self@.node(index),
    {
        if index < self.nodes.len() as u64 {
            Some(&self.nodes[index as usize])
        } else {
            None
        }
    }

    /// The node that `index` names, for writing, if the arena holds one.
    /// Whatever the caller leaves behind the reference takes the node's place
    /// in the arena; nothing else changes.
    pub fn get_node_mut(&mut self, index: NodeId) -> (found: Option<&mut Node>)
        ensures
            found is Some <==> old(self)@.contains(index),
            *final(self) == (Tree {
                nodes: final(self).nodes,
                ..*old(self)
            }),
            found matches Some(node) ==> *node == old(self).nodes@[index as int]
                && final(self).nodes@ == old(self).nodes@.update(index as int, *final(node)),
            found is None ==> final(self).nodes@ == old(self).nodes@,
    {
        if index < self.nodes.len() as u64 {
            Some(&mut self.nodes[index as usize])
        } else {
            None
        }
    }

    /// The ids from `node_id` up to the root, both included, nearest first.
    /// Fails with `NotFound` exactly when `node_id` names no node.
    pub fn get_root_path(&self, node_id: NodeId) -> (result: Result<Vec<NodeId>, TreeError>)
        requires
            self@.wf(),
        ensures
            result is Ok <==> self@.contains(node_id),
            result matches Ok(path) ==> path@ == self@.root_path(node_id),
            result matches Err(e) ==> e == TreeError::NotFound,
    {
        if node_id >= self.nodes.len() as u64 {
            return Err(TreeError::NotFound);
        }
        let mut path: Vec<NodeId> = Vec::new();
        let mut cur: NodeId = node_id;
        loop
            invariant_except_break
                self@.wf(),
                self@.contains(cur),
                path@ + self@.root_path(cur) == self@.root_path(node_id),
            ensures
                path@ == self@.root_path(node_id),
            decreases self@.depth[cur as int],
        {
            proof {
                assert(self@.node_wf(cur as int));
            }
            let node = &self.nodes[cur as usize];
            let ghost before = path@;
            path.push(node.id);
            match node.node_type {
                NodeType::Root => {
                    proof {
                        assert(cur == self@.root);
                        assert(path@ =~= before + self@.root_path(cur));
                    }
                    break ;
                },
                _ => {},
            }
            proof {
                let parent = self@.node(cur).parent.unwrap();
                assert(self@.root_path(cur) == seq![cur] + self@.root_path(parent));
                assert(path@ + self@.root_path(parent) =~= before + self@.root_path(cur));
            }
            cur = node.parent.unwrap();
        }
        Ok(path)
    }
}

} // verus!
