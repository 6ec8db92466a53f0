//! Hash propagation: recomputing the digests of root and internal nodes from
//! the digests of their children, one node at a time or along a root path.

use crate::digest::joined;
use crate::hash::lemma_digest_len;
use crate::model::TreeView;
use crate::node::{NodeId, NodeType};
use crate::tree::{Tree, TreeError};
use vstd::prelude::*;

verus! {

impl TreeView {
    /// Recomputing one digest changes nothing but that digest.
    pub proof fn lemma_rehash_node_same_shape(self, id: NodeId)
        requires
            self.wf(),
        ensures
            self.same_shape(self.rehash_node(id)),
    {
        if self.contains(id) && !self.node(id).is_leaf() {
            assert(self.node_wf(id as int));
            lemma_digest_len(self.hasher, joined(self.child_digests(id)));
        }
    }

    /// A tree that differs from a well-formed one in stored digests only is
    /// well formed, and has the same root paths.
    pub proof fn lemma_same_shape_wf(self, other: TreeView)
        requires
            self.wf(),
            self.same_shape(other),
        ensures
            other.wf(),
    {
        assert forall|j: int| other.leaf_at(j) == self.leaf_at(j) by {}
        let p = self.last_parent as int;
        if self.nodes[p].children.len() > 0 {
            let k = choose|k: int| self.leaf_child(p, k);
            assert(other.leaf_child(p, k));
        }
        assert forall|i: int| 0 <= i < other.nodes.len() implies #[trigger] other.node_wf(i) by {
            assert(self.node_wf(i));
            if !self.nodes[i].is_leaf() {
                assert forall|k: int| 0 <= k < other.nodes[i].children.len() implies #[trigger]
                    other.child_ok(i, k) by {
                    assert(self.child_ok(i, k));
                }
            }
        }
    }

    /// Stored digests play no part in root paths.
    pub proof fn lemma_same_shape_root_path(self, other: TreeView, id: NodeId)
        requires
            self.wf(),
            self.same_shape(other),
            self.contains(id),
        ensures
            other.root_path(id) == self.root_path(id),
        decreases self.depth[id as int],
    {
        self.lemma_same_shape_wf(other);
        assert(self.node_wf(id as int));
        if id != self.root {
            self.lemma_same_shape_root_path(other, self.node(id).parent.unwrap());
        }
    }

    /// Being the same but for digests carries over from step to step.
    pub proof fn lemma_same_shape_trans(self, mid: TreeView, other: TreeView)
        requires
            self.same_shape(mid),
            mid.same_shape(other),
        ensures
            self.same_shape(other),
    {
    }

    /// Recomputing digests along any path changes nothing but digests.
    pub proof fn lemma_rehash_along_same_shape(self, path: Seq<NodeId>)
        requires
            self.wf(),
        ensures
            self.same_shape(self.rehash_along(path)),
            self.rehash_along(path).wf(),
        decreases path.len(),
    {
        if path.len() > 0 {
            let next = self.rehash_node(path[0]);
            self.lemma_rehash_node_same_shape(path[0]);
            self.lemma_same_shape_wf(next);
            next.lemma_rehash_along_same_shape(path.drop_first());
            self.lemma_same_shape_trans(next, next.rehash_along(path.drop_first()));
        }
    }
}

impl Tree {
    /// The stored digests of the children of `index` laid end to end, or
    /// nothing if one of the children is missing from the arena.
    pub(crate) fn join_child_digests(&self, index: NodeId) -> (joined_bytes: Option<Vec<u8>>)
        requires
            self@.contains(index),
        ensures
            joined_bytes is Some <==> self@.children_in_arena(index),
            joined_bytes matches Some(bytes) ==> bytes@ == joined(self@.child_digests(index)),
    {
        let len = self.nodes.len();
        let node = &self.nodes[index as usize];
        let mut buff: Vec<u8> = Vec::new();
        let ghost digests = self@.child_digests(index);
        let mut k: usize = 0;
        while k < node.children.len()
            invariant
                0 <= k <= node.children.len(),
                len == self.nodes@.len(),
                self@.contains(index),
                node == self.nodes@[index as int],
                digests == self@.child_digests(index),
                buff@ == joined(digests.take(k as int)),
                forall|j: int| 0 <= j < k ==> self@.contains(#[trigger] self@.node(index).children[j]),
            decreases node.children.len() - k,
        {
            let child_id = node.children[k];
            if child_id >= len as u64 {
                return None;
            }
            let child = &self.nodes[child_id as usize];
            proof {
                assert(digests.take(k + 1).drop_last() =~= digests.take(k as int));
                assert(digests.take(k + 1).last() == child.hash@);
            }
            buff.extend_from_slice(child.hash.as_slice());
            k += 1;
        }
        proof {
            assert(digests.take(k as int) =~= digests);
        }
        Some(buff)
    }

    /// Recomputes the digest of `index` from its children's stored digests.
    /// A leaf is left as it is. Fails with `NotFound`, and changes nothing,
    /// when `index` or one of its children names no node.
    pub fn update_node_hash(&mut self, index: NodeId) -> (result: Result<(), TreeError>)
        ensures
            result is Ok <==> old(self)@.contains(index) && (old(self)@.node(index).is_leaf()
                || old(self)@.children_in_arena(index)),
            result is Ok ==> final(self)@ == old(self)@.rehash_node(index),
            result matches Err(e) ==> e == TreeError::NotFound && *final(self) == *old(self),
    {
        if index >= self.nodes.len() as u64 {
            return Err(TreeError::NotFound);
        }
        match self.nodes[index as usize].node_type {
            NodeType::Leaf => Ok(()),
            NodeType::Root | NodeType::Internal => {
                match self.join_child_digests(index) {
                    None => Err(TreeError::NotFound),
                    Some(buff) => {
                        let hash = self.hasher.hash(buff.as_slice());
                        self.nodes[index as usize].hash = hash;
                        proof {
                            assert(final(self)@.nodes =~= old(self)@.rehash_node(index).nodes);
                        }
                        Ok(())
                    },
                }
            },
        }
    }

    /// Recomputes the digests along the root path of `index`, from `index` up
    /// to the root, so that each node is recomputed after the one below it.
    /// Fails with `NotFound`, and changes nothing, exactly when `index` names
    /// no node.
    pub fn update_hashes(&mut self, index: NodeId) -> (result: Result<(), TreeError>)
        requires
            old(self)@.wf(),
        ensures
            result is Ok <==> old(self)@.contains(index),
            result is Ok ==> final(self)@ == old(self)@.rehash_from(index),
            result matches Err(e) ==> e == TreeError::NotFound && *final(self) == *old(self),
            final(self)@.wf(),
            old(self)@.same_shape(final(self)@),
    {
        let path = match self.get_root_path(index) {
            Ok(path) => path,
            Err(e) => {
                return Err(e);
            },
        };
        proof {
            self@.lemma_root_path(index);
            assert(path@.skip(0) =~= path@);
        }
        let mut i: usize = 0;
        while i < path.len()
            invariant
                0 <= i <= path.len(),
                old(self)@.wf(),
                self@.wf(),
                old(self)@.same_shape(self@),
                forall|j: int| 0 <= j < path@.len() ==> old(self)@.contains(#[trigger] path@[j]),
                self@.rehash_along(path@.skip(i as int)) == old(self)@.rehash_along(path@),
            decreases path.len() - i,
        {
            let node_id = path[i];
            proof {
                assert(self@.contains(node_id));
                assert(self@.node_wf(node_id as int));
                if !self@.node(node_id).is_leaf() {
                    assert forall|k: int|
                        0 <= k < self@.node(node_id).children.len() implies self@.contains(
                        #[trigger] self@.node(node_id).children[k],
                    ) by {
                        assert(self@.child_ok(node_id as int, k));
                    }
                }
                assert(path@.skip(i as int)[0] == node_id);
                assert(path@.skip(i as int).drop_first() =~= path@.skip(i + 1));
                self@.lemma_rehash_node_same_shape(node_id);
                self@.lemma_same_shape_wf(self@.rehash_node(node_id));
                old(self)@.lemma_same_shape_trans(self@, self@.rehash_node(node_id));
            }
            let step = self.update_node_hash(node_id);
            i += 1;
        }
        proof {
            assert(path@.skip(i as int) =~= Seq::<NodeId>::empty());
        }
        Ok(())
    }
}

} // verus!
