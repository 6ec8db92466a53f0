//! Why inserting keeps a tree authentic: what recomputing digests along a
//! root path does to which nodes verify, and what placing a leaf leaves alone.

use crate::model::TreeView;
use crate::node::NodeId;
use vstd::prelude::*;

verus! {

impl TreeView {
    /// After the digest of a branch node has been recomputed, that node
    /// verifies, and whether any other node verifies has changed at most for
    /// its parent.
    pub proof fn lemma_rehash_node_effect(self, id: NodeId)
        requires
            self.wf(),
            self.contains(id),
        ensures
            !self.node(id).is_leaf() ==> self.rehash_node(id).node_verifies(id),
            self.node(id).is_leaf() ==> self.rehash_node(id) == self,
            forall|x: NodeId|
                self.contains(x) && x != id && self.node(id).parent != Some(x) ==> (
                #[trigger] self.rehash_node(id).node_verifies(x)) == self.node_verifies(x),
    {
        let t = self.rehash_node(id);
        assert(self.node_wf(id as int));
        if !self.node(id).is_leaf() {
            assert forall|k: int| 0 <= k < self.node(id).children.len() implies self.contains(
                #[trigger] self.node(id).children[k],
            ) && self.node(id).children[k] != id by {
                assert(self.child_ok(id as int, k));
                assert(self.node_wf(self.node(id).children[k] as int));
            }
            assert(t.child_digests(id) =~= self.child_digests(id));
            assert(t.children_in_arena(id));
            assert forall|x: NodeId|
                self.contains(x) && x != id && self.node(id).parent != Some(x) implies (
            #[trigger] t.node_verifies(x)) == self.node_verifies(x) by {
                assert(self.node_wf(x as int));
                if !self.node(x).is_leaf() {
                    assert forall|k: int| 0 <= k < self.node(x).children.len() implies self.contains(
                        #[trigger] self.node(x).children[k],
                    ) && self.node(x).children[k] != id by {
                        assert(self.child_ok(x as int, k));
                    }
                    assert(t.child_digests(x) =~= self.child_digests(x));
                    assert(t.children_in_arena(x));
                    assert(self.children_in_arena(x));
                }
            }
        }
    }

    /// A root path is its first node followed by the root path of that
    /// node's parent, and holds no node twice.
    pub proof fn lemma_root_path_step(self, id: NodeId)
        requires
            self.wf(),
            self.contains(id),
            id != self.root,
        ensures
            self.node(id).parent is Some,
            self.contains(self.node(id).parent.unwrap()),
            self.root_path(id) == seq![id] + self.root_path(self.node(id).parent.unwrap()),
            self.root_path(id).drop_first() == self.root_path(self.node(id).parent.unwrap()),
            !self.root_path(self.node(id).parent.unwrap()).contains(id),
            self.root_path(self.node(id).parent.unwrap()).contains(self.node(id).parent.unwrap()),
            forall|x: NodeId|
                self.root_path(id).contains(x) <==> (x == id || self.root_path(
                    self.node(id).parent.unwrap(),
                ).contains(x)),
    {
        assert(self.node_wf(id as int));
        let p = self.node(id).parent.unwrap();
        let rest = self.root_path(p);
        let path = self.root_path(id);
        self.lemma_root_path(p);
        assert(path.drop_first() =~= rest);
        if rest.contains(id) {
            let j = choose|j: int| 0 <= j < rest.len() && rest[j] == id;
            assert(self.depth[rest[j] as int] == self.depth[p as int] - j);
        }
        assert(rest[0] == p);
        assert forall|x: NodeId| path.contains(x) <==> (x == id || rest.contains(x)) by {
            if path.contains(x) {
                let j = choose|j: int| 0 <= j < path.len() && path[j] == x;
                if j > 0 {
                    assert(rest[j - 1] == x);
                }
            }
            if x == id {
                assert(path[0] == x);
            }
            if rest.contains(x) {
                let j = choose|j: int| 0 <= j < rest.len() && rest[j] == x;
                assert(path[j + 1] == x);
            }
        }
    }

    /// After hash propagation from `id`, every branch node on the root path
    /// of `id` verifies, and whether any other node verifies is as before.
    pub proof fn lemma_rehash_from_effect(self, id: NodeId)
        requires
            self.wf(),
            self.contains(id),
        ensures
            self.same_shape(self.rehash_from(id)),
            self.rehash_from(id).wf(),
            forall|x: NodeId|
                self.root_path(id).contains(x) && !self.node(x).is_leaf() ==> #[trigger] self.rehash_from(
                    id,
                ).node_verifies(x),
            forall|x: NodeId|
                self.contains(x) && (!self.root_path(id).contains(x) || self.node(x).is_leaf())
                    ==> (#[trigger] self.rehash_from(id).node_verifies(x)) == self.node_verifies(x),
        decreases self.depth[id as int],
    {
        let path = self.root_path(id);
        let next = self.rehash_node(id);
        let last = self.rehash_from(id);
        self.lemma_root_path(id);
        self.lemma_rehash_along_same_shape(path);
        self.lemma_rehash_node_same_shape(id);
        self.lemma_same_shape_wf(next);
        self.lemma_rehash_node_effect(id);
        assert(self.node_wf(id as int));
        assert(path[0] == id);
        if id == self.root {
            assert(path =~= seq![id]);
            assert(path.drop_first() =~= Seq::<NodeId>::empty());
            assert(last == next.rehash_along(Seq::<NodeId>::empty()));
            assert(last == next);
            assert forall|x: NodeId| path.contains(x) implies x == id by {
                let j = choose|j: int| 0 <= j < path.len() && path[j] == x;
            }
            assert forall|x: NodeId|
                self.contains(x) && (!path.contains(x) || self.node(x).is_leaf()) implies (
            #[trigger] last.node_verifies(x)) == self.node_verifies(x) by {
                if x == id {
                    assert(path.contains(x));
                }
            }
        } else {
            let p = self.node(id).parent.unwrap();
            self.lemma_root_path_step(id);
            self.lemma_same_shape_root_path(next, p);
            assert(last == next.rehash_from(p));
            next.lemma_rehash_from_effect(p);
            let rest = self.root_path(p);
            self.lemma_root_path(p);
            assert forall|x: NodeId| path.contains(x) && !self.node(x).is_leaf() implies #[trigger]
                last.node_verifies(x) by {
                if rest.contains(x) {
                    assert(!next.node(x).is_leaf());
                } else {
                    assert(x == id);
                    assert(next.contains(x));
                    assert(last.node_verifies(x) == next.node_verifies(x));
                }
            }
            assert forall|x: NodeId|
                self.contains(x) && (!path.contains(x) || self.node(x).is_leaf()) implies (
            #[trigger] last.node_verifies(x)) == self.node_verifies(x) by {
                assert(next.contains(x));
                assert(next.node(x).is_leaf() == self.node(x).is_leaf());
                if path.contains(x) {
                    // a leaf on the path is the start of the path
                    if rest.contains(x) {
                        let j = choose|j: int| 0 <= j < rest.len() && rest[j] == x;
                        assert(path[j + 1] == x);
                        assert(!self.node(path[j + 1]).is_leaf());
                    }
                    assert(x == id);
                    assert(next == self);
                    assert(last.node_verifies(x) == next.node_verifies(x));
                } else {
                    assert(x != id);
                    assert(x != p);
                    assert(!rest.contains(x));
                    assert(last.node_verifies(x) == next.node_verifies(x));
                    assert(next.node_verifies(x) == self.node_verifies(x));
                }
            }
        }
    }

    /// Whether a node verifies depends only on its own record and on the
    /// digests of its children.
    pub proof fn lemma_verifies_alike(self, other: TreeView, x: NodeId)
        requires
            self.wf(),
            self.contains(x),
            other.contains(x),
            other.hasher == self.hasher,
            other.nodes.len() >= self.nodes.len(),
            other.node(x).is_leaf() == self.node(x).is_leaf(),
            other.node(x).value == self.node(x).value,
            other.node(x).hash == self.node(x).hash,
            other.node(x).children == self.node(x).children,
            forall|i: int| 0 <= i < self.nodes.len() ==> other.nodes[i].hash == self.nodes[i].hash,
        ensures
            other.node_verifies(x) == self.node_verifies(x),
    {
        assert(self.node_wf(x as int));
        if !self.node(x).is_leaf() {
            assert forall|k: int| 0 <= k < self.node(x).children.len() implies self.contains(
                #[trigger] self.node(x).children[k],
            ) by {
                assert(self.child_ok(x as int, k));
            }
            assert(other.child_digests(x) =~= self.child_digests(x));
            assert(self.children_in_arena(x));
            assert(other.children_in_arena(x));
        }
    }

    /// Placing a leaf gives the tree a leaf that holds the value and
    /// verifies, keeps every stored digest and every leaf's value, and
    /// changes whether a node verifies only on the new leaf's root path.
    pub proof fn lemma_place_effect(self, value: Seq<char>)
        requires
            self.wf(),
            self.can_insert(),
        ensures
            self.place(value).wf(),
            self.place(value).nodes.len() > self.nodes.len(),
            self.place(value).holds_value(self.nodes.len() as int, value),
            self.place(value).node_verifies(self.nodes.len() as NodeId),
            forall|i: int|
                0 <= i < self.nodes.len() ==> (#[trigger] self.place(value).nodes[i]).hash
                    == self.nodes[i].hash && self.place(value).nodes[i].value
                    == self.nodes[i].value && self.place(value).nodes[i].is_leaf()
                    == self.nodes[i].is_leaf(),
            forall|x: NodeId|
                self.contains(x) && !self.place(value).root_path(
                    self.nodes.len() as NodeId,
                ).contains(x) ==> (#[trigger] self.place(value).node_verifies(x))
                    == self.node_verifies(x),
            forall|x: NodeId|
                self.place(value).contains(x) && !self.contains(x) ==> #[trigger] self.place(
                    value,
                ).root_path(self.nodes.len() as NodeId).contains(x),
    {
        let t = self.place(value);
        let n = self.nodes.len() as int;
        let leaf = self.nodes.len() as NodeId;
        let cursor = self.last_parent;
        self.lemma_place_wf(value);
        assert(self.node_wf(cursor as int));
        assert(t.node_wf(n));
        t.lemma_root_path_step(leaf);
        let up = t.node(leaf).parent.unwrap();
        t.lemma_root_path(up);
        if self.grows() {
            assert(t.root_path(leaf).contains(up));
        } else if self.cursor_has_room() {
            assert(up == cursor);
        } else {
            let k0 = choose|k: int| self.leaf_child(cursor as int, k);
            self.lemma_first_leaf_child(cursor as int, 0, k0);
            let idx = self.first_leaf_child(cursor as int, 0);
            assert(self.child_ok(cursor as int, idx));
            t.lemma_root_path_step(up);
            assert(t.node(up).parent == Some(cursor));
            t.lemma_root_path(cursor);
            assert(t.root_path(cursor).contains(cursor));
            assert(t.root_path(leaf).contains(cursor));
        }
        assert forall|x: NodeId| self.contains(x) && !t.root_path(leaf).contains(x) implies (
        #[trigger] t.node_verifies(x)) == self.node_verifies(x) by {
            assert(self.grows() || x != cursor);
            self.lemma_verifies_alike(t, x);
        }
        assert forall|x: NodeId| t.contains(x) && !self.contains(x) implies #[trigger] t.root_path(
            leaf,
        ).contains(x) by {
            if x != leaf {
                assert(x == up);
            }
        }
    }

    /// In an authentic tree every subtree verifies.
    pub proof fn lemma_authentic_subtree(self, id: NodeId)
        requires
            self.wf(),
            self.authentic(),
            self.contains(id),
        ensures
            self.subtree_verifies(id),
        decreases self.nodes.len() - self.depth[id as int],
    {
        self.lemma_subtree_verifies(id);
        assert(self.node_wf(id as int));
        if !self.node(id).is_leaf() {
            assert forall|k: int| 0 <= k < self.node(id).children.len() implies #[trigger]
                self.subtree_verifies(self.node(id).children[k]) by {
                assert(self.child_ok(id as int, k));
                assert(self.node_wf(self.node(id).children[k] as int));
                self.lemma_authentic_subtree(self.node(id).children[k]);
            }
        }
    }

    /// If the subtree of the root verifies, so does the subtree of every node.
    pub proof fn lemma_root_subtree_covers(self, id: NodeId)
        requires
            self.wf(),
            self.subtree_verifies(self.root),
            self.contains(id),
        ensures
            self.subtree_verifies(id),
            self.node_verifies(id),
        decreases self.depth[id as int],
    {
        self.lemma_subtree_verifies(id);
        assert(self.node_wf(id as int));
        if id != self.root {
            let p = self.node(id).parent.unwrap();
            self.lemma_root_subtree_covers(p);
            self.lemma_subtree_verifies(p);
            let k = choose|k: int|
                0 <= k < self.node(p).children.len() && self.node(p).children[k] == id;
            assert(self.subtree_verifies(self.node(p).children[k]));
        }
    }

    /// Verifying the subtree of the root checks the whole arena: it succeeds
    /// exactly when every node verifies.
    pub proof fn lemma_root_subtree_is_authentic(self)
        requires
            self.wf(),
        ensures
            self.subtree_verifies(self.root) == self.authentic(),
    {
        if self.authentic() {
            self.lemma_authentic_subtree(self.root);
        }
        if self.subtree_verifies(self.root) {
            assert forall|id: NodeId| self.contains(id) implies #[trigger] self.node_verifies(
                id,
            ) by {
                self.lemma_root_subtree_covers(id);
            }
        }
    }

    /// In a tree without leaves the root is the only node, and it lies on
    /// the root path of the first leaf placed.
    pub proof fn lemma_empty_tree(self, value: Seq<char>)
        requires
            self.wf(),
            self.can_insert(),
            self.leaf_count == 0,
        ensures
            self.nodes.len() == 1,
            self.root == 0,
            !self.node(0).is_leaf(),
            self.place(value).root_path(self.nodes.len() as NodeId).contains(0),
    {
        let t = self.place(value);
        let leaf = self.nodes.len() as NodeId;
        self.lemma_place_wf(value);
        vstd::arithmetic::power::lemma_pow_positive(self.max_width as int, self.height);
        assert(self.node_wf(0));
        assert(self.cursor_has_room()) by {
            if self.node(0).children.len() > 0 {
                assert(self.child_ok(0, 0));
            }
        }
        assert(!self.grows()) by {
            vstd::arithmetic::power::lemma_pow_increases(self.max_width, 1, self.height);
            vstd::arithmetic::power::lemma_pow1(self.max_width as int);
        }
        assert(t.node_wf(leaf as int));
        t.lemma_root_path_step(leaf);
        t.lemma_root_path(0);
    }

    /// Inserting into an empty or authentic tree gives an authentic tree.
    pub proof fn lemma_insert_authentic(self, value: Seq<char>)
        requires
            self.wf(),
            self.can_insert(),
            self.intact(),
        ensures
            self.insert(value).wf(),
            self.insert(value).authentic(),
    {
        let leaf = self.nodes.len() as NodeId;
        let placed = self.place(value);
        let last = self.insert(value);
        self.lemma_place_effect(value);
        placed.lemma_rehash_from_effect(leaf);
        placed.lemma_root_path(leaf);
        assert forall|x: NodeId| last.contains(x) implies #[trigger] last.node_verifies(x) by {
            assert(placed.contains(x));
            if placed.root_path(leaf).contains(x) && !placed.node(x).is_leaf() {
            } else {
                assert(last.node_verifies(x) == placed.node_verifies(x));
                if !placed.root_path(leaf).contains(x) {
                    assert(self.contains(x));
                    if self.leaf_count == 0 {
                        self.lemma_empty_tree(value);
                    }
                    assert(self.node_verifies(x));
                } else {
                    // a leaf on the root path of the new leaf is the new leaf
                    let j = choose|j: int|
                        0 <= j < placed.root_path(leaf).len() && placed.root_path(leaf)[j] == x;
                    assert(j == 0);
                }
            }
        }
    }

    /// A leaf that verifies carries the digest of its value.
    pub proof fn lemma_verified_leaf_digest(self, id: NodeId, value: Seq<char>)
        requires
            self.holds_value(id as int, value),
            self.node_verifies(id),
        ensures
            self.node(id).hash == self.value_digest(value),
    {
    }

    /// An insertion keeps every leaf with its value and its digest, and adds
    /// a leaf that holds the inserted value and carries its digest. A search
    /// for the value finds that leaf.
    pub proof fn lemma_insert_holds(self, value: Seq<char>)
        requires
            self.wf(),
            self.can_insert(),
        ensures
            self.insert(value).found_by(value, self.nodes.len() as NodeId),
            self.insert(value).node(self.nodes.len() as NodeId).hash == self.value_digest(value),
            forall|i: int, other: Seq<char>|
                self.holds_value(i, other) ==> #[trigger] self.insert(value).holds_value(i, other)
                    && self.insert(value).nodes[i].hash == self.nodes[i].hash,
    {
        let leaf = self.nodes.len() as NodeId;
        let placed = self.place(value);
        let last = self.insert(value);
        self.lemma_place_effect(value);
        placed.lemma_rehash_from_effect(leaf);
        assert(last.node_verifies(leaf) == placed.node_verifies(leaf));
        assert forall|j: int| leaf < j implies !last.holds_value(j, value) by {
            if j < last.nodes.len() {
                assert(placed.root_path(leaf).contains(j as NodeId));
                placed.lemma_root_path(leaf);
                let k = choose|k: int|
                    0 <= k < placed.root_path(leaf).len() && placed.root_path(leaf)[k]
                        == j as NodeId;
                assert(k >= 1);
            }
        }
        assert forall|i: int, other: Seq<char>| self.holds_value(i, other) implies #[trigger]
            last.holds_value(i, other) && last.nodes[i].hash == self.nodes[i].hash by {
            assert(placed.nodes[i].hash == self.nodes[i].hash);
            self.lemma_leaf_digest_kept(value, i);
        }
    }

    /// An insertion never touches the stored digest of a leaf that was there.
    pub proof fn lemma_leaf_digest_kept(self, value: Seq<char>, i: int)
        requires
            self.wf(),
            self.can_insert(),
            self.leaf_at(i),
        ensures
            self.insert(value).nodes[i].hash == self.nodes[i].hash,
    {
        let leaf = self.nodes.len() as NodeId;
        let placed = self.place(value);
        self.lemma_place_effect(value);
        placed.lemma_rehash_along_keeps_leaves(placed.root_path(leaf), i);
    }

    /// Recomputing digests along a path never touches a leaf.
    pub proof fn lemma_rehash_along_keeps_leaves(self, path: Seq<NodeId>, i: int)
        requires
            self.leaf_at(i),
        ensures
            self.rehash_along(path).nodes.len() == self.nodes.len(),
            self.rehash_along(path).nodes[i] == self.nodes[i],
        decreases path.len(),
    {
        if path.len() > 0 {
            self.rehash_node(path[0]).lemma_rehash_along_keeps_leaves(path.drop_first(), i);
        }
    }
}

} // verus!
