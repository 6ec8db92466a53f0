//! Where a new leaf goes: the three placement cases as functions on tree
//! values, and the proof that each keeps the tree well formed.

use crate::model::TreeView;
use crate::node::{NodeId, NodeType, NodeView};
use vstd::arithmetic::power::{lemma_pow_positive, pow};
use vstd::prelude::*;
use vstd::utf8::encode_utf8;

verus! {

impl TreeView {
    /// Whether one more leaf can be placed within machine limits: the arena
    /// can take two more nodes, and if the tree has to grow, the new capacity
    /// is representable.
    pub open spec fn can_insert(self) -> bool {
        &&& self.nodes.len() + 2 <= usize::MAX
        &&& (self.leaf_count < self.capacity || self.capacity * self.max_width <= usize::MAX)
    }

    /// Whether the next leaf would exceed the capacity, so that the tree must grow.
    pub open spec fn grows(self) -> bool {
        self.leaf_count + 1 > self.capacity
    }

    /// Whether the cursor node has room for one more child.
    pub open spec fn cursor_has_room(self) -> bool {
        self.node(self.last_parent).children.len() < self.max_width
    }

    /// The digest of a leaf that holds `value`.
    pub open spec fn value_digest(self, value: Seq<char>) -> Seq<u8> {
        self.hasher.digest(encode_utf8(value))
    }

    /// The leaf that the next insertion of `value` creates, before it is
    /// given a parent: it takes the next free id, carries the digest of its
    /// value and links back to the leaf inserted before it.
    pub open spec fn pending_leaf(self, value: Seq<char>) -> NodeView {
        NodeView {
            prev_leaf: self.last_leaf,
            ..NodeView::leaf(self.nodes.len() as NodeId, value, self.value_digest(value))
        }
    }

    /// The leaf that the next insertion of `value` creates, as a child of `parent`.
    pub open spec fn next_leaf(self, value: Seq<char>, parent: NodeId) -> NodeView {
        NodeView { parent: Some(parent), ..self.pending_leaf(value) }
    }

    /// The position of the first leaf among the children of node `i`, looking
    /// from position `from` on; the number of children if there is none.
    pub open spec fn first_leaf_child(self, i: int, from: int) -> int
        decreases self.nodes[i].children.len() - from,
    {
        let children = self.nodes[i].children;
        if from < 0 || from >= children.len() {
            children.len() as int
        } else if self.leaf_at(children[from] as int) {
            from
        } else {
            self.first_leaf_child(i, from + 1)
        }
    }

    /// Growth: a new root adopts the old root and the new leaf, in that order.
    pub open spec fn place_grow(self, value: Seq<char>) -> TreeView {
        let leaf_id = self.nodes.len() as NodeId;
        let root_id = (self.nodes.len() + 1) as NodeId;
        TreeView {
            root: root_id,
            last_parent: root_id,
            last_leaf: Some(leaf_id),
            nodes: self.nodes.update(
                self.root as int,
                NodeView {
                    node_type: NodeType::Internal,
                    parent: Some(root_id),
                    ..self.node(self.root)
                },
            ).push(self.next_leaf(value, root_id)).push(
                NodeView {
                    children: seq![self.root, leaf_id],
                    ..NodeView::blank(root_id, NodeType::Root, None)
                },
            ),
            height: self.height + 1,
            capacity: self.capacity * self.max_width,
            size: self.size + 2,
            leaf_count: self.leaf_count + 1,
            depth: self.depth.map_values(|d: nat| d + 1).push(1).push(0),
            ..self
        }
    }

    /// The simple case: the cursor node takes the new leaf as its last child.
    pub open spec fn place_append(self, value: Seq<char>) -> TreeView {
        let leaf_id = self.nodes.len() as NodeId;
        let p = self.last_parent;
        TreeView {
            last_leaf: Some(leaf_id),
            nodes: self.nodes.update(
                p as int,
                NodeView { children: self.node(p).children.push(leaf_id), ..self.node(p) },
            ).push(self.next_leaf(value, p)),
            size: self.size + 1,
            leaf_count: self.leaf_count + 1,
            depth: self.depth.push(self.depth[p as int] + 1),
            ..self
        }
    }

    /// The split case: the first leaf child of the full cursor node is paired
    /// with the new leaf under a new internal node, which takes that leaf's
    /// place among the cursor node's children and becomes the cursor.
    pub open spec fn place_split(self, value: Seq<char>) -> TreeView {
        let leaf_id = self.nodes.len() as NodeId;
        let pair_id = (self.nodes.len() + 1) as NodeId;
        let p = self.last_parent;
        let idx = self.first_leaf_child(p as int, 0);
        let l = self.node(p).children[idx];
        TreeView {
            last_parent: pair_id,
            last_leaf: Some(leaf_id),
            nodes: self.nodes.update(l as int, NodeView { parent: Some(pair_id), ..self.node(l) })
                .update(
                p as int,
                NodeView { children: self.node(p).children.update(idx, pair_id), ..self.node(p) },
            ).push(self.next_leaf(value, pair_id)).push(
                NodeView {
                    parent: Some(p),
                    children: seq![l, leaf_id],
                    ..NodeView::blank(pair_id, NodeType::Internal, None)
                },
            ),
            size: self.size + 2,
            leaf_count: self.leaf_count + 1,
            depth: self.depth.update(l as int, self.depth[p as int] + 2).push(
                self.depth[p as int] + 2,
            ).push(self.depth[p as int] + 1),
            ..self
        }
    }

    /// The tree after `value` has been placed as a new leaf, before any digest
    /// is recomputed. The cases are tried in this order: growth, simple, split.
    pub open spec fn place(self, value: Seq<char>) -> TreeView {
        if self.grows() {
            self.place_grow(value)
        } else if self.cursor_has_room() {
            self.place_append(value)
        } else {
            self.place_split(value)
        }
    }

    /// The tree after the values of `values` have been placed one after the
    /// other, before any digest is recomputed.
    pub open spec fn place_all(self, values: Seq<Seq<char>>) -> TreeView
        decreases values.len(),
    {
        if values.len() == 0 {
            self
        } else {
            self.place_all(values.drop_last()).place(values.last())
        }
    }

    /// The ids that the leaves for `values` get when they are placed one
    /// after the other.
    pub open spec fn placed_ids(self, values: Seq<Seq<char>>) -> Seq<NodeId> {
        Seq::new(values.len(), |k: int| self.place_all(values.take(k)).nodes.len() as NodeId)
    }

    /// Whether the values of `values` can be placed one after the other
    /// within machine limits.
    pub open spec fn can_insert_all(self, values: Seq<Seq<char>>) -> bool {
        forall|k: int| 0 <= k < values.len() ==> (#[trigger] self.place_all(values.take(k))).can_insert()
    }

    /// The first leaf child found from `from` on is a leaf, and no child
    /// between `from` and it is one.
    pub proof fn lemma_first_leaf_child(self, i: int, from: int, k: int)
        requires
            0 <= from <= k,
            self.leaf_child(i, k),
        ensures
            from <= self.first_leaf_child(i, from) <= k,
            self.leaf_child(i, self.first_leaf_child(i, from)),
            forall|j: int| from <= j < self.first_leaf_child(i, from) ==> !self.leaf_child(i, j),
        decreases k - from,
    {
        if !self.leaf_at(self.nodes[i].children[from] as int) {
            self.lemma_first_leaf_child(i, from + 1, k);
        }
    }

    /// Growth keeps the tree well formed.
    pub proof fn lemma_place_grow_wf(self, value: Seq<char>)
        requires
            self.wf(),
            self.can_insert(),
            self.grows(),
        ensures
            self.place_grow(value).wf(),
    {
        let t = self.place_grow(value);
        let n = self.nodes.len() as int;
        let r = self.root as int;
        let w = self.max_width as int;
        assert(self.leaf_count == self.capacity);
        lemma_pow_positive(w, self.height);
        assert(pow(w, (self.height + 1) as nat) == w * pow(w, self.height)) by {
            reveal(pow);
        }
        assert(self.capacity * self.max_width >= 2 * self.capacity) by (nonlinear_arith)
            requires
                self.max_width >= 2,
                self.capacity >= 0,
        ;
        assert(self.capacity * self.max_width == w * pow(w, self.height)) by (nonlinear_arith)
            requires
                self.capacity == pow(w, self.height),
                w == self.max_width,
        ;
        assert(self.node_wf(r));
        assert(t.counters_wf());
        assert(t.root_wf());
        assert(t.leaf_child(n + 1, 1));
        assert(t.cursor_wf());
        assert forall|j: int| 0 <= j < n implies t.leaf_at(j) == self.leaf_at(j) by {}
        assert(t.link_ok(t.last_leaf, n + 2));
        assert forall|i: int| 0 <= i < t.nodes.len() implies #[trigger] t.node_wf(i) by {
            if i < n {
                assert(self.node_wf(i));
                let nd = self.nodes[i];
                if i == r {
                    assert(t.nodes[n + 1].children[0] == i as NodeId);
                    assert(t.links_up(i));
                } else {
                    let p = nd.parent.unwrap() as int;
                    assert(t.nodes[p].children == self.nodes[p].children);
                    assert(t.links_up(i));
                }
                if nd.is_leaf() {
                    assert(t.link_ok(nd.prev_leaf, i));
                } else {
                    assert forall|k: int| 0 <= k < nd.children.len() implies #[trigger] t.child_ok(
                        i,
                        k,
                    ) by {
                        assert(self.child_ok(i, k));
                    }
                }
            } else if i == n {
                assert(t.nodes[n + 1].children[1] == i as NodeId);
                assert(t.links_up(i));
                assert(t.link_ok(self.last_leaf, i));
            } else {
                assert(t.child_ok(i, 0));
                assert(t.child_ok(i, 1));
            }
        }
    }

    /// The simple case keeps the tree well formed.
    pub proof fn lemma_place_append_wf(self, value: Seq<char>)
        requires
            self.wf(),
            self.can_insert(),
            !self.grows(),
            self.cursor_has_room(),
        ensures
            self.place_append(value).wf(),
    {
        let t = self.place_append(value);
        let n = self.nodes.len() as int;
        let p = self.last_parent as int;
        let old_children = self.nodes[p].children;
        assert(self.node_wf(p));
        assert(t.counters_wf());
        assert(t.root_wf());
        assert(t.leaf_child(p, old_children.len() as int));
        assert(t.cursor_wf());
        assert forall|j: int| 0 <= j < n implies t.leaf_at(j) == self.leaf_at(j) by {}
        assert(t.link_ok(t.last_leaf, n + 1));
        assert forall|i: int| 0 <= i < t.nodes.len() implies #[trigger] t.node_wf(i) by {
            if i < n {
                assert(self.node_wf(i));
                let nd = self.nodes[i];
                if i != self.root {
                    let q = nd.parent.unwrap() as int;
                    let k = choose|k: int|
                        0 <= k < self.nodes[q].children.len() && self.nodes[q].children[k]
                            == i as NodeId;
                    assert(t.nodes[q].children[k] == i as NodeId);
                    assert(t.links_up(i));
                }
                if nd.is_leaf() {
                    assert(t.link_ok(nd.prev_leaf, i));
                } else {
                    assert forall|k: int| 0 <= k < t.nodes[i].children.len() implies #[trigger]
                        t.child_ok(i, k) by {
                        if k < nd.children.len() {
                            assert(self.child_ok(i, k));
                        }
                    }
                    assert forall|k1: int, k2: int|
                        0 <= k1 < t.nodes[i].children.len() && 0 <= k2 < t.nodes[i].children.len()
                            && k1 != k2 implies t.nodes[i].children[k1]
                        != t.nodes[i].children[k2] by {
                        if k1 < nd.children.len() {
                            assert(self.child_ok(i, k1));
                        }
                        if k2 < nd.children.len() {
                            assert(self.child_ok(i, k2));
                        }
                    }
                }
            } else {
                assert(t.nodes[p].children[old_children.len() as int] == i as NodeId);
                assert(t.links_up(i));
                assert(t.link_ok(self.last_leaf, i));
            }
        }
    }

    /// The split case keeps the tree well formed.
    pub proof fn lemma_place_split_wf(self, value: Seq<char>)
        requires
            self.wf(),
            self.can_insert(),
            !self.grows(),
            !self.cursor_has_room(),
        ensures
            self.place_split(value).wf(),
    {
        let t = self.place_split(value);
        let n = self.nodes.len() as int;
        let p = self.last_parent as int;
        let old_children = self.nodes[p].children;
        let idx = self.first_leaf_child(p, 0);
        assert(self.node_wf(p));
        let k0 = choose|k: int| self.leaf_child(p, k);
        self.lemma_first_leaf_child(p, 0, k0);
        let l = old_children[idx] as int;
        assert(self.child_ok(p, idx));
        assert(self.node_wf(l));
        assert(l != p);
        assert(l != self.root as int);
        assert(t.counters_wf());
        assert(t.root_wf());
        assert(t.leaf_child(n + 1, 0));
        assert(t.cursor_wf());
        assert forall|j: int| 0 <= j < n implies t.leaf_at(j) == self.leaf_at(j) by {}
        assert(t.link_ok(t.last_leaf, n + 2));
        assert forall|i: int| 0 <= i < t.nodes.len() implies #[trigger] t.node_wf(i) by {
            if i < n {
                assert(self.node_wf(i));
                let nd = self.nodes[i];
                if i == l {
                    assert(t.nodes[n + 1].children[0] == i as NodeId);
                    assert(t.links_up(i));
                } else if i != self.root {
                    let q = nd.parent.unwrap() as int;
                    let k = choose|k: int|
                        0 <= k < self.nodes[q].children.len() && self.nodes[q].children[k]
                            == i as NodeId;
                    assert(t.nodes[q].children[k] == i as NodeId);
                    assert(t.links_up(i));
                }
                if nd.is_leaf() {
                    assert(t.link_ok(nd.prev_leaf, i));
                } else {
                    assert forall|k: int| 0 <= k < t.nodes[i].children.len() implies #[trigger]
                        t.child_ok(i, k) by {
                        assert(self.child_ok(i, k));
                    }
                    assert forall|k1: int, k2: int|
                        0 <= k1 < t.nodes[i].children.len() && 0 <= k2 < t.nodes[i].children.len()
                            && k1 != k2 implies t.nodes[i].children[k1]
                        != t.nodes[i].children[k2] by {
                        assert(self.child_ok(i, k1));
                        assert(self.child_ok(i, k2));
                    }
                }
            } else if i == n {
                assert(t.nodes[n + 1].children[1] == i as NodeId);
                assert(t.links_up(i));
                assert(t.link_ok(self.last_leaf, i));
            } else {
                assert(t.nodes[p].children[idx] == i as NodeId);
                assert(t.links_up(i));
                assert(t.child_ok(i, 0));
                assert(t.child_ok(i, 1));
            }
        }
    }

    /// Placing a leaf keeps the tree well formed, whichever case applies.
    pub proof fn lemma_place_wf(self, value: Seq<char>)
        requires
            self.wf(),
            self.can_insert(),
        ensures
            self.place(value).wf(),
    {
        if self.grows() {
            self.lemma_place_grow_wf(value);
        } else if self.cursor_has_room() {
            self.lemma_place_append_wf(value);
        } else {
            self.lemma_place_split_wf(value);
        }
    }
}

} // verus!
