//! How height, capacity and leaf count move as leaves are inserted.

use crate::hash::Hasher;
use crate::model::TreeView;
use crate::node::NodeId;
use vstd::prelude::*;

verus! {

/// The scalar state that decides when a tree grows.
pub struct Counters {
    pub leaf_count: nat,
    pub capacity: nat,
    pub height: nat,
    pub max_width: nat,
}

impl Counters {
    /// The counters after one insertion: the tree grows when the new leaf
    /// would exceed the capacity.
    pub open spec fn step(self) -> Counters {
        if self.leaf_count + 1 > self.capacity {
            Counters {
                leaf_count: self.leaf_count + 1,
                capacity: self.capacity * self.max_width,
                height: self.height + 1,
                ..self
            }
        } else {
            Counters { leaf_count: self.leaf_count + 1, ..self }
        }
    }

    /// The counters after `n` insertions.
    pub open spec fn steps(self, n: nat) -> Counters
        decreases n,
    {
        if n == 0 {
            self
        } else {
            self.steps((n - 1) as nat).step()
        }
    }

    /// As long as the leaves fit the capacity nothing grows; once they exceed
    /// it, and until they exceed the next capacity, the tree has grown once.
    pub proof fn lemma_steps(self, n: nat)
        requires
            self.max_width >= 2,
            self.leaf_count <= self.capacity,
            self.capacity >= 1,
            self.leaf_count + n <= self.capacity * self.max_width,
        ensures
            self.steps(n).leaf_count == self.leaf_count + n,
            self.steps(n).max_width == self.max_width,
            self.leaf_count + n <= self.capacity ==> self.steps(n).height == self.height
                && self.steps(n).capacity == self.capacity,
            self.leaf_count + n > self.capacity ==> self.steps(n).height == self.height + 1
                && self.steps(n).capacity == self.capacity * self.max_width,
        decreases n,
    {
        assert(self.capacity * self.max_width >= 2 * self.capacity) by (nonlinear_arith)
            requires
                self.max_width >= 2,
                self.capacity >= 1,
        ;
        if n > 0 {
            self.lemma_steps((n - 1) as nat);
        }
    }

    /// After `capacity + 1` insertions the height has gone up by exactly one
    /// and the capacity has been multiplied by the branching factor, provided
    /// the leaves then still fit the new capacity.
    pub proof fn lemma_grows_once(self)
        requires
            self.max_width >= 2,
            self.leaf_count <= self.capacity,
            self.capacity >= 1,
            self.leaf_count + self.capacity + 1 <= self.capacity * self.max_width,
        ensures
            self.steps(self.capacity + 1).height == self.height + 1,
            self.steps(self.capacity + 1).capacity == self.capacity * self.max_width,
    {
        self.lemma_steps(self.capacity + 1);
    }
}

impl TreeView {
    /// The counters of this tree.
    pub open spec fn counters(self) -> Counters {
        Counters {
            leaf_count: self.leaf_count,
            capacity: self.capacity,
            height: self.height,
            max_width: self.max_width,
        }
    }

    /// Placing or inserting one value moves the counters by one step.
    pub proof fn lemma_insert_counters(self, value: Seq<char>)
        requires
            self.wf(),
        ensures
            self.place(value).counters() == self.counters().step(),
            self.insert(value).counters() == self.counters().step(),
    {
        self.place(value).lemma_rehash_along_counters(
            self.place(value).root_path(self.nodes.len() as NodeId),
        );
    }

    /// Recomputing digests moves no counter.
    pub proof fn lemma_rehash_along_counters(self, path: Seq<NodeId>)
        ensures
            self.rehash_along(path).counters() == self.counters(),
        decreases path.len(),
    {
        if path.len() > 0 {
            self.rehash_node(path[0]).lemma_rehash_along_counters(path.drop_first());
        }
    }

    /// Recomputing digests from several ids moves no counter.
    pub proof fn lemma_rehash_each_counters(self, ids: Seq<NodeId>)
        ensures
            self.rehash_each(ids).counters() == self.counters(),
        decreases ids.len(),
    {
        if ids.len() > 0 {
            let mid = self.rehash_each(ids.drop_last());
            self.lemma_rehash_each_counters(ids.drop_last());
            mid.lemma_rehash_along_counters(mid.root_path(ids.last()));
        }
    }

    /// Placing or inserting a batch moves the counters by one step per value.
    pub proof fn lemma_insert_all_counters(self, values: Seq<Seq<char>>)
        requires
            self.wf(),
            self.can_insert_all(values),
        ensures
            self.place_all(values).wf(),
            self.place_all(values).counters() == self.counters().steps(values.len()),
            self.insert_all(values).counters() == self.counters().steps(values.len()),
        decreases values.len(),
    {
        if values.len() > 0 {
            let prev = values.drop_last();
            self.lemma_can_insert_prefix(values);
            self.lemma_insert_all_counters(prev);
            self.place_all(prev).lemma_place_wf(values.last());
            self.place_all(prev).lemma_insert_counters(values.last());
        }
        self.place_all(values).lemma_rehash_each_counters(self.placed_ids(values));
    }

    /// The counters of a well-formed tree meet what `lemma_steps` asks for.
    pub proof fn lemma_counters_wf(self)
        requires
            self.wf(),
        ensures
            self.counters().max_width >= 2,
            self.counters().leaf_count <= self.counters().capacity,
            self.counters().capacity >= 1,
    {
        vstd::arithmetic::power::lemma_pow_positive(self.max_width as int, self.height);
    }

    /// A fresh tree of branching factor `w` has grown exactly once after
    /// `w + 1` insertions: its height is then 2 and its capacity `w * w`.
    pub proof fn lemma_fresh_grows_once(max_width: nat, hasher: Hasher)
        requires
            max_width >= 2,
        ensures
            Self::fresh(max_width, hasher).counters().steps(max_width + 1).height == 2,
            Self::fresh(max_width, hasher).counters().steps(max_width + 1).capacity == max_width
                * max_width,
    {
        assert(max_width + 1 <= max_width * max_width) by (nonlinear_arith)
            requires
                max_width >= 2,
        ;
        Self::fresh(max_width, hasher).counters().lemma_grows_once();
    }

    /// Once a well-formed tree holds a leaf, every root and internal node has
    /// at least one child and at most `max_width` children.
    pub proof fn lemma_child_count(self, id: NodeId)
        requires
            self.wf(),
            self.contains(id),
            !self.node(id).is_leaf(),
        ensures
            self.node(id).children.len() <= self.max_width,
            self.leaf_count >= 1 ==> self.node(id).children.len() >= 1,
    {
        assert(self.node_wf(id as int));
    }
}

} // verus!
