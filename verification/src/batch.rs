//! Why a batch insertion keeps a tree authentic, although it defers all hash
//! propagation until every leaf has been placed.

use crate::model::TreeView;
use crate::node::NodeId;
use vstd::prelude::*;

verus! {

impl TreeView {
    /// Whether `x` lies on the root path of one of `ids[from..]`.
    pub open spec fn above(self, ids: Seq<NodeId>, from: int, x: NodeId) -> bool {
        exists|k: int| from <= k < ids.len() && #[trigger] self.root_path(ids[k]).contains(x)
    }

    /// Whether every node that does not lie on the root path of one of
    /// `ids[from..]` verifies.
    pub open spec fn settled(self, ids: Seq<NodeId>, from: int) -> bool {
        forall|x: NodeId|
            self.contains(x) && !self.above(ids, from, x) ==> #[trigger] self.node_verifies(x)
    }

    /// Whether every leaf verifies.
    pub open spec fn leaves_verify(self) -> bool {
        forall|x: NodeId|
            self.contains(x) && self.node(x).is_leaf() ==> #[trigger] self.node_verifies(x)
    }

    /// Placing a leaf only ever lengthens the root paths that were there.
    pub proof fn lemma_place_keeps_paths(self, value: Seq<char>, y: NodeId, x: NodeId)
        requires
            self.wf(),
            self.can_insert(),
            self.contains(y),
            self.root_path(y).contains(x),
        ensures
            self.place(value).root_path(y).contains(x),
        decreases self.depth[y as int],
    {
        let t = self.place(value);
        let cursor = self.last_parent;
        self.lemma_place_wf(value);
        self.lemma_root_path(y);
        t.lemma_root_path(y);
        assert(self.node_wf(y as int));
        assert(self.node_wf(cursor as int));
        if x == y {
            assert(t.root_path(y)[0] == x);
        } else {
            if y == self.root {
                assert(self.root_path(y) =~= seq![y]);
                let j = choose|j: int| 0 <= j < self.root_path(y).len() && self.root_path(y)[j] == x;
                assert(false);
            }
            let p = self.node(y).parent.unwrap();
            self.lemma_root_path_step(y);
            assert(self.root_path(p).contains(x));
            self.lemma_place_keeps_paths(value, p, x);
            t.lemma_root_path_step(y);
            let q = t.node(y).parent.unwrap();
            if q != p {
                let k0 = choose|k: int| self.leaf_child(cursor as int, k);
                self.lemma_first_leaf_child(cursor as int, 0, k0);
                let idx = self.first_leaf_child(cursor as int, 0);
                assert(self.child_ok(cursor as int, idx));
                assert(t.node(q).parent == Some(p));
                t.lemma_root_path_step(q);
            }
        }
    }

    /// After one more leaf has been placed, the nodes that may fail to verify
    /// still lie on the root paths of the leaves placed so far.
    pub proof fn lemma_place_settled(self, value: Seq<char>, ids: Seq<NodeId>)
        requires
            self.wf(),
            self.can_insert(),
            self.leaves_verify(),
            self.leaf_count == 0 || self.settled(ids, 0),
            forall|k: int| 0 <= k < ids.len() ==> self.contains(#[trigger] ids[k]),
        ensures
            self.place(value).wf(),
            self.place(value).leaves_verify(),
            self.place(value).settled(ids.push(self.nodes.len() as NodeId), 0),
            forall|k: int|
                0 <= k < ids.len() + 1 ==> self.place(value).contains(
                    #[trigger] ids.push(self.nodes.len() as NodeId)[k],
                ),
    {
        let t = self.place(value);
        let leaf = self.nodes.len() as NodeId;
        let more = ids.push(leaf);
        self.lemma_place_effect(value);
        assert forall|x: NodeId| t.contains(x) && t.node(x).is_leaf() implies #[trigger]
            t.node_verifies(x) by {
            if self.contains(x) {
                assert(t.nodes[x as int].hash == self.nodes[x as int].hash);
                assert(self.node_verifies(x));
            } else {
                assert(t.root_path(leaf).contains(x));
                t.lemma_root_path(leaf);
                let j = choose|j: int|
                    0 <= j < t.root_path(leaf).len() && t.root_path(leaf)[j] == x;
                assert(j == 0);
            }
        }
        assert forall|x: NodeId| t.contains(x) && !t.above(more, 0, x) implies #[trigger]
            t.node_verifies(x) by {
            assert(more[ids.len() as int] == leaf);
            assert(!t.root_path(more[ids.len() as int]).contains(x));
            assert(self.contains(x));
            assert(t.node_verifies(x) == self.node_verifies(x));
            if self.leaf_count == 0 {
                self.lemma_empty_tree(value);
                assert(false);
            }
            if self.above(ids, 0, x) {
                let k = choose|k: int| 0 <= k < ids.len() && #[trigger] self.root_path(
                    ids[k],
                ).contains(x);
                self.lemma_place_keeps_paths(value, ids[k], x);
                assert(more[k] == ids[k]);
                assert(t.root_path(more[k]).contains(x));
                assert(false);
            }
        }
    }

    /// After hash propagation from `ids[from]`, the nodes that may fail to
    /// verify lie on the root paths of the ids after it.
    pub proof fn lemma_rehash_settled(self, ids: Seq<NodeId>, from: int)
        requires
            self.wf(),
            self.leaves_verify(),
            0 <= from < ids.len(),
            self.settled(ids, from),
            forall|k: int| 0 <= k < ids.len() ==> self.contains(#[trigger] ids[k]),
        ensures
            self.rehash_from(ids[from]).wf(),
            self.same_shape(self.rehash_from(ids[from])),
            self.rehash_from(ids[from]).leaves_verify(),
            self.rehash_from(ids[from]).settled(ids, from + 1),
    {
        let id = ids[from];
        let t = self.rehash_from(id);
        self.lemma_rehash_from_effect(id);
        assert forall|x: NodeId| t.contains(x) && t.node(x).is_leaf() implies #[trigger]
            t.node_verifies(x) by {
            assert(self.contains(x));
            assert(self.node(x).is_leaf());
            assert(self.node_verifies(x));
        }
        assert forall|x: NodeId| t.contains(x) && !t.above(ids, from + 1, x) implies #[trigger]
            t.node_verifies(x) by {
            assert(self.contains(x));
            if self.root_path(id).contains(x) {
                if self.node(x).is_leaf() {
                    assert(self.node_verifies(x));
                }
            } else {
                if self.above(ids, from, x) {
                    let k = choose|k: int| from <= k < ids.len() && #[trigger] self.root_path(
                        ids[k],
                    ).contains(x);
                    assert(k != from);
                    self.lemma_same_shape_root_path(t, ids[k]);
                    assert(t.root_path(ids[k]).contains(x));
                    assert(false);
                }
                assert(self.node_verifies(x));
            }
        }
    }

    /// What may be placed as a batch may be placed up to any point of it.
    pub proof fn lemma_can_insert_prefix(self, values: Seq<Seq<char>>)
        requires
            self.can_insert_all(values),
            values.len() > 0,
        ensures
            self.can_insert_all(values.drop_last()),
            self.place_all(values.drop_last()).can_insert(),
            self.place_all(values) == self.place_all(values.drop_last()).place(values.last()),
            self.placed_ids(values) == self.placed_ids(values.drop_last()).push(
                self.place_all(values.drop_last()).nodes.len() as NodeId,
            ),
    {
        let prev = values.drop_last();
        assert forall|k: int| 0 <= k < prev.len() implies (#[trigger] self.place_all(
            prev.take(k),
        )).can_insert() by {
            assert(prev.take(k) =~= values.take(k));
            assert(self.place_all(values.take(k)).can_insert());
        }
        assert(values.take(values.len() - 1) =~= prev);
        assert(self.place_all(values.take(values.len() - 1)).can_insert());
        let ids = self.placed_ids(values);
        let shorter = self.placed_ids(prev).push(self.place_all(prev).nodes.len() as NodeId);
        assert(ids.len() == shorter.len());
        assert forall|k: int| 0 <= k < ids.len() implies ids[k] == shorter[k] by {
            if k < prev.len() {
                assert(prev.take(k) =~= values.take(k));
            } else {
                assert(values.take(k) =~= prev);
            }
        }
        assert(ids =~= shorter);
    }

    /// After all values of a batch have been placed in an empty or authentic
    /// tree, every leaf verifies, and every node that fails to verify lies on
    /// the root path of one of the new leaves.
    pub proof fn lemma_place_all_settled(self, values: Seq<Seq<char>>)
        requires
            self.wf(),
            self.can_insert_all(values),
            self.intact(),
        ensures
            self.place_all(values).wf(),
            self.place_all(values).leaves_verify(),
            self.place_all(values).leaf_count == self.leaf_count + values.len(),
            values.len() > 0 || self.authentic() ==> self.place_all(values).settled(
                self.placed_ids(values),
                0,
            ),
            forall|k: int|
                0 <= k < values.len() ==> self.place_all(values).contains(
                    #[trigger] self.placed_ids(values)[k],
                ),
        decreases values.len(),
    {
        if values.len() > 0 {
            let prev = values.drop_last();
            self.lemma_can_insert_prefix(values);
            self.lemma_place_all_settled(prev);
            self.place_all(prev).lemma_place_settled(values.last(), self.placed_ids(prev));
        } else {
            assert(self.node_wf(0));
            assert forall|x: NodeId| self.contains(x) && self.node(x).is_leaf() implies #[trigger]
                self.node_verifies(x) by {
                assert(self.node_wf(x as int));
            }
        }
    }

    /// After hash propagation from the first `upto` ids, every node that
    /// fails to verify lies on the root path of one of the remaining ids.
    pub proof fn lemma_rehash_each_settled(self, ids: Seq<NodeId>, upto: int)
        requires
            self.wf(),
            self.leaves_verify(),
            self.settled(ids, 0),
            0 <= upto <= ids.len(),
            forall|k: int| 0 <= k < ids.len() ==> self.contains(#[trigger] ids[k]),
        ensures
            self.rehash_each(ids.take(upto)).wf(),
            self.same_shape(self.rehash_each(ids.take(upto))),
            self.rehash_each(ids.take(upto)).leaves_verify(),
            self.rehash_each(ids.take(upto)).settled(ids, upto),
        decreases upto,
    {
        if upto == 0 {
            assert(ids.take(0) =~= Seq::<NodeId>::empty());
        } else {
            self.lemma_rehash_each_settled(ids, upto - 1);
            let mid = self.rehash_each(ids.take(upto - 1));
            assert(ids.take(upto).drop_last() =~= ids.take(upto - 1));
            assert(ids.take(upto).last() == ids[upto - 1]);
            assert forall|k: int| 0 <= k < ids.len() implies mid.contains(#[trigger] ids[k]) by {
                assert(self.contains(ids[k]));
            }
            mid.lemma_rehash_settled(ids, upto - 1);
            self.lemma_same_shape_trans(mid, mid.rehash_from(ids[upto - 1]));
        }
    }

    /// Hash propagation from any ids never touches a leaf.
    pub proof fn lemma_rehash_each_keeps_leaves(self, ids: Seq<NodeId>, i: int)
        requires
            self.leaf_at(i),
        ensures
            self.rehash_each(ids).nodes.len() == self.nodes.len(),
            self.rehash_each(ids).nodes[i] == self.nodes[i],
        decreases ids.len(),
    {
        if ids.len() > 0 {
            let mid = self.rehash_each(ids.drop_last());
            self.lemma_rehash_each_keeps_leaves(ids.drop_last(), i);
            mid.lemma_rehash_along_keeps_leaves(mid.root_path(ids.last()), i);
        }
    }

    /// Placing a batch keeps the tree well formed and its hashing strategy.
    pub proof fn lemma_place_all_wf(self, values: Seq<Seq<char>>)
        requires
            self.wf(),
            self.can_insert_all(values),
        ensures
            self.place_all(values).wf(),
            self.place_all(values).hasher == self.hasher,
            self.place_all(values).nodes.len() >= self.nodes.len(),
        decreases values.len(),
    {
        if values.len() > 0 {
            self.lemma_can_insert_prefix(values);
            self.lemma_place_all_wf(values.drop_last());
            self.place_all(values.drop_last()).lemma_place_effect(values.last());
        }
    }

    /// Placing a batch keeps every leaf that was there, with its value and
    /// its digest.
    pub proof fn lemma_place_all_keeps(self, values: Seq<Seq<char>>, i: int, other: Seq<char>)
        requires
            self.wf(),
            self.can_insert_all(values),
            self.holds_value(i, other),
        ensures
            self.place_all(values).holds_value(i, other),
            self.place_all(values).nodes[i].hash == self.nodes[i].hash,
        decreases values.len(),
    {
        if values.len() > 0 {
            let prev = values.drop_last();
            let before = self.place_all(prev);
            self.lemma_can_insert_prefix(values);
            self.lemma_place_all_wf(prev);
            self.lemma_place_all_keeps(prev, i, other);
            before.lemma_place_effect(values.last());
            assert(before.place(values.last()).nodes[i].hash == before.nodes[i].hash);
        }
    }

    /// Placing a batch adds, for value number `k` of the batch, a leaf that
    /// holds the value and carries its digest.
    pub proof fn lemma_place_all_adds(self, values: Seq<Seq<char>>, k: int)
        requires
            self.wf(),
            self.can_insert_all(values),
            0 <= k < values.len(),
        ensures
            self.place_all(values).holds_value(self.placed_ids(values)[k] as int, values[k]),
            self.place_all(values).node(self.placed_ids(values)[k]).hash == self.value_digest(
                values[k],
            ),
        decreases values.len(),
    {
        let prev = values.drop_last();
        let before = self.place_all(prev);
        self.lemma_can_insert_prefix(values);
        self.lemma_place_all_wf(prev);
        before.lemma_place_effect(values.last());
        if k < prev.len() {
            self.lemma_place_all_adds(prev, k);
            let id = self.placed_ids(prev)[k];
            assert(self.placed_ids(values)[k] == id);
            assert(prev[k] == values[k]);
            assert(before.place(values.last()).nodes[id as int].hash == before.nodes[id as int].hash);
        } else {
            assert(self.placed_ids(values)[k] == before.nodes.len() as NodeId);
            assert(before.place(values.last()).node_verifies(before.nodes.len() as NodeId));
        }
    }

    /// A batch insertion keeps every leaf that was there, with its value and
    /// its digest.
    pub proof fn lemma_insert_all_keeps(self, values: Seq<Seq<char>>, i: int, other: Seq<char>)
        requires
            self.wf(),
            self.can_insert_all(values),
            self.holds_value(i, other),
        ensures
            self.insert_all(values).holds_value(i, other),
            self.insert_all(values).nodes[i].hash == self.nodes[i].hash,
    {
        self.lemma_place_all_keeps(values, i, other);
        self.place_all(values).lemma_rehash_each_keeps_leaves(self.placed_ids(values), i);
    }

    /// A batch insertion adds, for value number `k` of the batch, a leaf that
    /// holds the value and carries its digest.
    pub proof fn lemma_insert_all_adds(self, values: Seq<Seq<char>>, k: int)
        requires
            self.wf(),
            self.can_insert_all(values),
            0 <= k < values.len(),
        ensures
            self.insert_all(values).holds_value(self.placed_ids(values)[k] as int, values[k]),
            self.insert_all(values).node(self.placed_ids(values)[k]).hash == self.value_digest(
                values[k],
            ),
    {
        self.lemma_place_all_adds(values, k);
        self.place_all(values).lemma_rehash_each_keeps_leaves(
            self.placed_ids(values),
            self.placed_ids(values)[k] as int,
        );
    }

    /// Inserting a batch that is not empty into an empty or authentic tree
    /// gives an authentic tree.
    pub proof fn lemma_insert_all_authentic(self, values: Seq<Seq<char>>)
        requires
            self.wf(),
            self.can_insert_all(values),
            self.intact(),
            values.len() > 0,
        ensures
            self.insert_all(values).wf(),
            self.insert_all(values).authentic(),
    {
        let placed = self.place_all(values);
        let ids = self.placed_ids(values);
        let last = self.insert_all(values);
        self.lemma_place_all_settled(values);
        placed.lemma_rehash_each_settled(ids, ids.len() as int);
        assert(ids.take(ids.len() as int) =~= ids);
        assert forall|x: NodeId| last.contains(x) implies #[trigger] last.node_verifies(x) by {
            assert(!last.above(ids, ids.len() as int, x));
        }
    }
}

} // verus!
