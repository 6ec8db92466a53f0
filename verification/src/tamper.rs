//! What a change made behind the tree's back does to verification: which
//! nodes it can affect, and that a node left inconsistent is detected.

use crate::hash::HASH_SIZE;
use crate::model::TreeView;
use crate::node::{NodeId, NodeView};
use vstd::prelude::*;

verus! {

impl TreeView {
    /// The tree with the stored value and digest of `id` overwritten.
    pub open spec fn tampered(self, id: NodeId, value: Option<Seq<char>>, hash: Seq<u8>) -> TreeView {
        TreeView {
            nodes: self.nodes.update(id as int, NodeView { value, hash, ..self.node(id) }),
            ..self
        }
    }

    /// Whether overwriting `id` with `value` and `hash` leaves the shape of
    /// the tree alone: the node exists, the digest has the right width, and a
    /// value is put where there was one and nowhere else.
    pub open spec fn keeps_shape(self, id: NodeId, value: Option<Seq<char>>, hash: Seq<u8>) -> bool {
        &&& self.contains(id)
        &&& hash.len() == HASH_SIZE
        &&& (value is Some) == (self.node(id).value is Some)
    }

    /// Overwriting a value and a digest keeps the tree well formed.
    pub proof fn lemma_tampered_wf(self, id: NodeId, value: Option<Seq<char>>, hash: Seq<u8>)
        requires
            self.wf(),
            self.keeps_shape(id, value, hash),
        ensures
            self.tampered(id, value, hash).wf(),
    {
        let other = self.tampered(id, value, hash);
        assert forall|j: int| other.leaf_at(j) == self.leaf_at(j) by {}
        let p = self.last_parent as int;
        if self.nodes[p].children.len() > 0 {
            let k = choose|k: int| self.leaf_child(p, k);
            assert(other.leaf_child(p, k));
        }
        assert forall|i: int| 0 <= i < other.nodes.len() implies #[trigger] other.node_wf(i) by {
            assert(self.node_wf(i));
            if !self.nodes[i].is_leaf() {
                assert forall|k: int| 0 <= k < other.nodes[i].children.len() implies #[trigger]
                    other.child_ok(i, k) by {
                    assert(self.child_ok(i, k));
                }
            }
        }
    }

    /// Overwriting a value and a digest changes no root path.
    pub proof fn lemma_tampered_root_path(
        self,
        id: NodeId,
        value: Option<Seq<char>>,
        hash: Seq<u8>,
        from: NodeId,
    )
        requires
            self.wf(),
            self.keeps_shape(id, value, hash),
            self.contains(from),
        ensures
            self.tampered(id, value, hash).root_path(from) == self.root_path(from),
        decreases self.depth[from as int],
    {
        self.lemma_tampered_wf(id, value, hash);
        assert(self.node_wf(from as int));
        if from != self.root {
            self.lemma_tampered_root_path(id, value, hash, self.node(from).parent.unwrap());
        }
    }

    /// Overwriting the value and digest of one node can change whether that
    /// node verifies and whether its parent verifies, and nothing else.
    pub proof fn lemma_tamper_is_local(
        self,
        id: NodeId,
        value: Option<Seq<char>>,
        hash: Seq<u8>,
        x: NodeId,
    )
        requires
            self.wf(),
            self.keeps_shape(id, value, hash),
            self.contains(x),
            x != id,
            self.node(id).parent != Some(x),
        ensures
            self.tampered(id, value, hash).node_verifies(x) == self.node_verifies(x),
    {
        let other = self.tampered(id, value, hash);
        assert(self.node_wf(x as int));
        if !self.node(x).is_leaf() {
            assert forall|k: int| 0 <= k < self.node(x).children.len() implies self.contains(
                #[trigger] self.node(x).children[k],
            ) && self.node(x).children[k] != id by {
                assert(self.child_ok(x as int, k));
            }
            assert(other.child_digests(x) =~= self.child_digests(x));
            assert(self.children_in_arena(x));
            assert(other.children_in_arena(x));
        }
    }

    /// After a node's value and digest have been overwritten and the digests
    /// of its ancestors recomputed, every ancestor verifies again, every node
    /// off the root path of the overwritten node verifies exactly if it did
    /// before, and an overwritten leaf verifies exactly if its new digest is
    /// the digest of its new value.
    pub proof fn lemma_tamper_then_rehash(
        self,
        id: NodeId,
        value: Option<Seq<char>>,
        hash: Seq<u8>,
    )
        requires
            self.wf(),
            self.keeps_shape(id, value, hash),
        ensures
            self.tampered(id, value, hash).rehash_from(id).wf(),
            forall|x: NodeId|
                self.contains(x) && !self.root_path(id).contains(x) ==> (
                #[trigger] self.tampered(id, value, hash).rehash_from(id).node_verifies(x))
                    == self.node_verifies(x),
            forall|x: NodeId|
                self.root_path(id).contains(x) && !self.node(x).is_leaf()
                    ==> #[trigger] self.tampered(id, value, hash).rehash_from(id).node_verifies(x),
            self.node(id).is_leaf() ==> self.tampered(id, value, hash).rehash_from(
                id,
            ).node_verifies(id) == (value is Some && hash == self.hasher.digest(
                vstd::utf8::encode_utf8(value.unwrap()),
            )),
    {
        let other = self.tampered(id, value, hash);
        let last = other.rehash_from(id);
        self.lemma_tampered_wf(id, value, hash);
        self.lemma_tampered_root_path(id, value, hash, id);
        other.lemma_rehash_from_effect(id);
        self.lemma_root_path(id);
        assert(self.root_path(id).contains(id));
        assert(self.node_wf(id as int));
        if id != self.root {
            self.lemma_root_path_step(id);
            self.lemma_root_path(self.node(id).parent.unwrap());
        }
        assert forall|x: NodeId| self.contains(x) && !self.root_path(id).contains(x) implies (
        #[trigger] last.node_verifies(x)) == self.node_verifies(x) by {
            assert(other.contains(x));
            assert(last.node_verifies(x) == other.node_verifies(x));
            self.lemma_tamper_is_local(id, value, hash, x);
        }
    }

    /// A node that does not verify makes verification of the whole tree fail.
    pub proof fn lemma_mismatch_is_detected(self, id: NodeId)
        requires
            self.wf(),
            self.contains(id),
            !self.node_verifies(id),
        ensures
            !self.authentic(),
            !self.subtree_verifies(self.root),
    {
        self.lemma_root_subtree_is_authentic();
    }
}

} // verus!
