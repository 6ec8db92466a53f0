//! The verifier: recomputing expected digests and comparing them with the
//! stored ones, for one node or for a whole subtree.

use crate::hash::digest_eq;
use crate::node::{NodeId, NodeType};
use crate::tree::Tree;
use vstd::prelude::*;

verus! {

impl Tree {
    /// Whether the stored digest of `index` is the one expected from its
    /// value (for a leaf) or from its children's stored digests (otherwise).
    /// An id outside the arena does not verify.
    pub fn verify_node(&self, index: NodeId) -> (ok: bool)
        ensures
            ok == self@.node_verifies(index),
    {
        if index >= self.nodes.len() as u64 {
            return false;
        }
        let node = &self.nodes[index as usize];
        match node.node_type {
            NodeType::Leaf => {
                match &node.value {
                    None => false,
                    Some(value) => {
                        let hash = self.hasher.hash(value.as_str().as_bytes());
                        digest_eq(&hash, &node.hash)
                    },
                }
            },
            NodeType::Root | NodeType::Internal => {
                match self.join_child_digests(index) {
                    None => false,
                    Some(buff) => {
                        let hash = self.hasher.hash(buff.as_slice());
                        digest_eq(&hash, &node.hash)
                    },
                }
            },
        }
    }

    /// Whether `index` and every node below it verify. An id outside the
    /// arena does not verify.
    pub fn verify_tree(&self, index: NodeId) -> (ok: bool)
        requires
            self@.wf(),
        ensures
            ok == (self@.contains(index) && self@.subtree_verifies(index)),
            index == self@.root ==> ok == self@.authentic(),
        decreases self@.nodes.len() - self@.depth[index as int],
    {
        if index >= self.nodes.len() as u64 {
            return false;
        }
        proof {
            assert(self@.node_wf(index as int));
            self@.lemma_subtree_verifies(index);
            self@.lemma_root_subtree_is_authentic();
        }
        if !self.verify_node(index) {
            return false;
        }
        let node = &self.nodes[index as usize];
        match node.node_type {
            NodeType::Leaf => true,
            NodeType::Root | NodeType::Internal => {
                let mut k: usize = 0;
                while k < node.children.len()
                    invariant
                        0 <= k <= node.children.len(),
                        self@.wf(),
                        self@.contains(index),
                        node == self.nodes@[index as int],
                        self@.node_wf(index as int),
                        !self@.node(index).is_leaf(),
                        self@.node_verifies(index),
                        index == self@.root ==> self@.subtree_verifies(index) == self@.authentic(),
                        self@.subtree_verifies(index) == (forall|j: int|
                            0 <= j < self@.node(index).children.len()
                                ==> #[trigger] self@.subtree_verifies(
                                self@.node(index).children[j],
                            )),
                        forall|j: int|
                            0 <= j < k ==> #[trigger] self@.subtree_verifies(
                                self@.node(index).children[j],
                            ),
                    decreases node.children.len() - k,
                {
                    proof {
                        assert(self@.child_ok(index as int, k as int));
                        assert(self@.node_wf(node.children@[k as int] as int));
                    }
                    if !self.verify_tree(node.children[k]) {
                        return false;
                    }
                    k += 1;
                }
                true
            },
        }
    }
}

} // verus!
