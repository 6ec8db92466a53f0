//! What the stored digests should be: the digest a node is expected to carry,
//! what it means for a node or a subtree to verify, and hash propagation as a
//! function on tree values.

use crate::model::TreeView;
use crate::node::{NodeId, NodeView};
use vstd::prelude::*;
use vstd::utf8::encode_utf8;

verus! {

/// The digests of `digests` laid end to end, in order.
pub open spec fn joined(digests: Seq<Seq<u8>>) -> Seq<u8>
    decreases digests.len(),
{
    if digests.len() == 0 {
        Seq::empty()
    } else {
        joined(digests.drop_last()) + digests.last()
    }
}

impl TreeView {
    /// The stored digests of the children of `id`, in child order.
    pub open spec fn child_digests(self, id: NodeId) -> Seq<Seq<u8>> {
        Seq::new(
            self.node(id).children.len(),
            |k: int| self.node(self.node(id).children[k]).hash,
        )
    }

    /// Whether every child id of `id` names a node of the arena.
    pub open spec fn children_in_arena(self, id: NodeId) -> bool {
        forall|k: int|
            0 <= k < self.node(id).children.len() ==> self.contains(
                #[trigger] self.node(id).children[k],
            )
    }

    /// The digest that `id` should carry: for a leaf the digest of its value,
    /// for a root or internal node the digest of its children's stored
    /// digests laid end to end in child order.
    pub open spec fn expected_digest(self, id: NodeId) -> Seq<u8> {
        let n = self.node(id);
        if n.is_leaf() {
            self.hasher.digest(encode_utf8(n.value.unwrap()))
        } else {
            self.hasher.digest(joined(self.child_digests(id)))
        }
    }

    /// Whether `id` names a node whose stored digest is the expected one.
    /// A leaf without a value and a node with a child outside the arena do
    /// not verify.
    pub open spec fn node_verifies(self, id: NodeId) -> bool {
        &&& self.contains(id)
        &&& if self.node(id).is_leaf() {
            self.node(id).value is Some
        } else {
            self.children_in_arena(id)
        }
        &&& self.node(id).hash == self.expected_digest(id)
    }

    /// Whether child number `k` of `id` lies in the arena, one step further
    /// from the root than `id`. In a well-formed tree every child does.
    pub open spec fn steps_down(self, id: NodeId, k: int) -> bool {
        let c = self.node(id).children[k];
        &&& self.contains(c)
        &&& self.depth[id as int] < self.depth[c as int] <= self.nodes.len()
    }

    /// Whether `id` and every node below it verify. (The recursion follows
    /// only children that lie further from the root, which is what makes it
    /// end; `lemma_subtree_verifies` states it for well-formed trees, where
    /// that is every child.)
    #[verifier::opaque]
    pub open spec fn subtree_verifies(self, id: NodeId) -> bool
        decreases self.nodes.len() - self.depth[id as int],
    {
        &&& self.node_verifies(id)
        &&& (!self.node(id).is_leaf() ==> forall|k: int|
            0 <= k < self.node(id).children.len() && #[trigger] self.steps_down(id, k)
                ==> self.subtree_verifies(self.node(id).children[k]))
    }

    /// A subtree verifies exactly when its top node verifies and, unless that
    /// node is a leaf, the subtree of each of its children verifies.
    pub proof fn lemma_subtree_verifies(self, id: NodeId)
        requires
            self.wf(),
            self.contains(id),
        ensures
            self.subtree_verifies(id) == (self.node_verifies(id) && (!self.node(id).is_leaf()
                ==> forall|k: int|
                0 <= k < self.node(id).children.len() ==> #[trigger] self.subtree_verifies(
                    self.node(id).children[k],
                ))),
    {
        reveal(TreeView::subtree_verifies);
        assert(self.node_wf(id as int));
        let below = forall|k: int|
            0 <= k < self.node(id).children.len() ==> #[trigger] self.subtree_verifies(
                self.node(id).children[k],
            );
        if self.node_verifies(id) && !self.node(id).is_leaf() && below {
            assert forall|k: int|
                0 <= k < self.node(id).children.len() && #[trigger] self.steps_down(
                    id,
                    k,
                ) implies self.subtree_verifies(self.node(id).children[k]) by {}
        }
        if !self.node(id).is_leaf() && self.subtree_verifies(id) {
            assert forall|k: int| 0 <= k < self.node(id).children.len() implies #[trigger]
                self.subtree_verifies(self.node(id).children[k]) by {
                assert(self.child_ok(id as int, k));
                assert(self.node_wf(self.node(id).children[k] as int));
                assert(self.steps_down(id, k));
            }
        }
    }

    /// Whether every node of the arena verifies.
    pub open spec fn authentic(self) -> bool {
        forall|id: NodeId| self.contains(id) ==> #[trigger] self.node_verifies(id)
    }

    /// Whether the tree is empty or authentic. A tree without leaves is a
    /// lone root whose digest has never been computed, so it cannot verify;
    /// from the first insertion on, an intact tree is an authentic one.
    pub open spec fn intact(self) -> bool {
        self.leaf_count == 0 || self.authentic()
    }

    /// The tree with the digest of `id` recomputed from its children's stored
    /// digests. A leaf's digest is never recomputed.
    pub open spec fn rehash_node(self, id: NodeId) -> TreeView {
        if self.contains(id) && !self.node(id).is_leaf() {
            TreeView {
                nodes: self.nodes.update(
                    id as int,
                    NodeView { hash: self.expected_digest(id), ..self.node(id) },
                ),
                ..self
            }
        } else {
            self
        }
    }

    /// The tree with the digests of the nodes of `path` recomputed one after
    /// the other, first to last.
    pub open spec fn rehash_along(self, path: Seq<NodeId>) -> TreeView
        decreases path.len(),
    {
        if path.len() == 0 {
            self
        } else {
            self.rehash_node(path[0]).rehash_along(path.drop_first())
        }
    }

    /// Hash propagation from `id`: the digests along the root path of `id`
    /// recomputed from `id` up to the root.
    pub open spec fn rehash_from(self, id: NodeId) -> TreeView {
        self.rehash_along(self.root_path(id))
    }

    /// Hash propagation from each id of `ids` in turn, first to last.
    pub open spec fn rehash_each(self, ids: Seq<NodeId>) -> TreeView
        decreases ids.len(),
    {
        if ids.len() == 0 {
            self
        } else {
            self.rehash_each(ids.drop_last()).rehash_from(ids.last())
        }
    }

    /// Whether `other` is this tree with nothing changed but stored digests.
    pub open spec fn same_shape(self, other: TreeView) -> bool {
        &&& other.nodes.len() == self.nodes.len()
        &&& other == (TreeView { nodes: other.nodes, ..self })
        &&& forall|i: int|
            0 <= i < self.nodes.len() ==> #[trigger] other.nodes[i] == (NodeView {
                hash: other.nodes[i].hash,
                ..self.nodes[i]
            }) && other.nodes[i].hash.len() == self.nodes[i].hash.len()
    }
}

} // verus!
