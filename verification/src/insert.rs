//! The insertion engine: placing new leaves, growing the tree, splitting a
//! full cursor node, and propagating digests afterwards.

use crate::model::TreeView;
use crate::node::{Node, NodeId, NodeType};
use crate::tree::Tree;
use vstd::prelude::*;

verus! {

/// The texts of a sequence of strings.
pub open spec fn texts(values: Seq<String>) -> Seq<Seq<char>> {
    Seq::new(values.len(), |k: int| values[k]@)
}

impl TreeView {
    /// The tree after one insertion: `value` placed as a new leaf, then the
    /// digests on the new leaf's root path recomputed.
    pub open spec fn insert(self, value: Seq<char>) -> TreeView {
        self.place(value).rehash_from(self.nodes.len() as NodeId)
    }

    /// The tree after a batch insertion: all of `values` placed first, then
    /// the digests recomputed along the root path of each new leaf in turn.
    pub open spec fn insert_all(self, values: Seq<Seq<char>>) -> TreeView {
        self.place_all(values).rehash_each(self.placed_ids(values))
    }
}

impl TreeView {
    /// A bound that is enough for `count` more values to be insertable
    /// within machine limits, whatever the values are.
    pub open spec fn has_room_for(self, count: nat) -> bool {
        &&& self.nodes.len() + 2 * count <= usize::MAX
        &&& (self.leaf_count + count) * self.max_width <= usize::MAX
    }

    /// Placing `values` one after the other adds at most two nodes per value
    /// and one leaf per value.
    pub proof fn lemma_has_room_for(self, values: Seq<Seq<char>>)
        requires
            self.wf(),
            self.has_room_for(values.len()),
        ensures
            self.can_insert_all(values),
            self.place_all(values).wf(),
            self.place_all(values).nodes.len() <= self.nodes.len() + 2 * values.len(),
            self.place_all(values).leaf_count == self.leaf_count + values.len(),
            self.place_all(values).max_width == self.max_width,
        decreases values.len(),
    {
        if values.len() > 0 {
            let prev = values.drop_last();
            let before = self.place_all(prev);
            assert((self.leaf_count + prev.len()) * self.max_width <= (self.leaf_count
                + values.len()) * self.max_width) by (nonlinear_arith)
                requires
                    prev.len() <= values.len(),
            ;
            self.lemma_has_room_for(prev);
            assert(before.can_insert()) by {
                if before.leaf_count >= before.capacity {
                    assert(before.capacity * before.max_width <= (self.leaf_count + values.len())
                        * self.max_width) by (nonlinear_arith)
                        requires
                            before.capacity <= self.leaf_count + values.len(),
                            before.max_width == self.max_width,
                    ;
                }
            }
            before.lemma_place_wf(values.last());
            assert forall|k: int| 0 <= k < values.len() implies (#[trigger] self.place_all(
                values.take(k),
            )).can_insert() by {
                if k < prev.len() {
                    assert(prev.take(k) =~= values.take(k));
                    assert(self.place_all(prev.take(k)).can_insert());
                } else {
                    assert(values.take(k) =~= prev);
                }
            }
        }
    }
}

impl Tree {
    /// Whether one more value can be inserted within machine limits.
    pub fn can_insert(&self) -> (ok: bool)
        ensures
            ok == self@.can_insert(),
    {
        if self.nodes.len() > usize::MAX - 2 {
            return false;
        }
        if self.leaf_count < self.capacity {
            return true;
        }
        self.capacity.checked_mul(self.max_width).is_some()
    }

    /// Whether `count` more values can be inserted within machine limits,
    /// whatever they are, by a bound that is safe rather than exact: the
    /// arena can take two more nodes per value, and the leaf count after the
    /// insertions times the branching factor is representable.
    pub fn has_room_for(&self, count: usize) -> (ok: bool)
        requires
            self@.wf(),
        ensures
            ok == self@.has_room_for(count as nat),
            ok ==> forall|values: Seq<Seq<char>>|
                values.len() == count ==> #[trigger] self@.can_insert_all(values),
    {
        proof {
            assert forall|values: Seq<Seq<char>>|
                values.len() == count && self@.has_room_for(
                    count as nat,
                ) implies #[trigger] self@.can_insert_all(values) by {
                self@.lemma_has_room_for(values);
            }
        }
        let doubled = match count.checked_mul(2) {
            Some(doubled) => doubled,
            None => {
                return false;
            },
        };
        if self.nodes.len().checked_add(doubled).is_none() {
            return false;
        }
        let leaves = match self.leaf_count.checked_add(count) {
            Some(leaves) => leaves,
            None => {
                assert((self.leaf_count + count) * self.max_width >= self.leaf_count + count)
                    by (nonlinear_arith)
                    requires
                        self.max_width >= 1,
                ;
                return false;
            },
        };
        leaves.checked_mul(self.max_width).is_some()
    }

    /// Inserts `value` as a new leaf and returns the leaf's id. The tree
    /// grows when the new leaf would exceed the capacity; otherwise the leaf
    /// goes under the cursor node, which is split when it is full. The
    /// digests on the leaf's root path are then recomputed.
    pub fn insert(&mut self, value: String) -> (leaf_id: NodeId)
        requires
            old(self)@.wf(),
            old(self)@.can_insert(),
        ensures
            leaf_id == old(self)@.nodes.len(),
            final(self)@ == old(self)@.insert(value@),
            final(self)@.wf(),
            old(self)@.place(value@).same_shape(final(self)@),
            final(self)@.counters() == old(self)@.counters().step(),
            final(self)@.found_by(value@, leaf_id),
            final(self)@.node(leaf_id).hash == old(self)@.value_digest(value@),
            old(self)@.intact() ==> final(self)@.authentic(),
    {
        proof {
            if self@.intact() {
                self@.lemma_insert_authentic(value@);
            }
            self@.lemma_insert_holds(value@);
            self@.lemma_insert_counters(value@);
            self@.lemma_place_wf(value@);
            self@.place(value@).lemma_rehash_from_effect(self@.nodes.len() as NodeId);
        }
        self.insert_raw(value, true)
    }

    /// Inserts every value of `values`, in order. All leaves are placed
    /// before any digest is recomputed; then the digests are recomputed along
    /// the root path of each new leaf in turn.
    pub fn insert_batch(&mut self, values: Vec<String>)
        requires
            old(self)@.wf(),
            old(self)@.can_insert_all(texts(values@)),
        ensures
            final(self)@ == old(self)@.insert_all(texts(values@)),
            final(self)@.wf(),
            final(self)@.counters() == old(self)@.counters().steps(values@.len()),
            old(self)@.intact() && values@.len() > 0 ==> final(self)@.authentic(),
    {
        proof {
            if self@.intact() && values@.len() > 0 {
                self@.lemma_insert_all_authentic(texts(values@));
            }
            self@.lemma_insert_all_counters(texts(values@));
        }
        let visited_leaves = self.place_batch(&values);
        self.rehash_batch(&visited_leaves);
    }

    /// Places every value of `values`, in order, without recomputing any
    /// digest, and returns the ids of the new leaves.
    fn place_batch(&mut self, values: &Vec<String>) -> (visited_leaves: Vec<NodeId>)
        requires
            old(self)@.wf(),
            old(self)@.can_insert_all(texts(values@)),
        ensures
            final(self)@ == old(self)@.place_all(texts(values@)),
            final(self)@.wf(),
            visited_leaves@ == old(self)@.placed_ids(texts(values@)),
            forall|k: int|
                0 <= k < visited_leaves@.len() ==> final(self)@.contains(
                    #[trigger] visited_leaves@[k],
                ),
    {
        let ghost all = texts(values@);
        let ghost start = self@;
        let mut visited_leaves: Vec<NodeId> = Vec::new();
        let count = values.len();
        let mut i: usize = 0;
        proof {
            assert(all.take(0) =~= Seq::<Seq<char>>::empty());
        }
        while i < count
            invariant
                0 <= i <= count,
                count == values@.len(),
                all == texts(values@),
                start.can_insert_all(all),
                self@.wf(),
                self@ == start.place_all(all.take(i as int)),
                visited_leaves@.len() == i,
                forall|k: int|
                    0 <= k < i ==> #[trigger] visited_leaves@[k] == start.placed_ids(all)[k],
                forall|k: int| 0 <= k < i ==> self@.contains(#[trigger] visited_leaves@[k]),
            decreases count - i,
        {
            let value = values[i].clone();
            let ghost current = self@;
            proof {
                assert(all.take(i + 1).drop_last() =~= all.take(i as int));
                assert(all.take(i + 1).last() == value@);
                assert(start.place_all(all.take(i as int)).can_insert());
                assert(start.place_all(all.take(i + 1)) == current.place(value@));
            }
            let leaf_id = self.insert_raw(value, false);
            visited_leaves.push(leaf_id);
            proof {
                assert(self@.nodes.len() >= current.nodes.len());
            }
            i += 1;
        }
        proof {
            assert(all.take(i as int) =~= all);
            assert(visited_leaves@ =~= start.placed_ids(all));
        }
        visited_leaves
    }

    /// Recomputes the digests along the root path of each id of `ids` in turn.
    fn rehash_batch(&mut self, ids: &Vec<NodeId>)
        requires
            old(self)@.wf(),
            forall|k: int| 0 <= k < ids@.len() ==> old(self)@.contains(#[trigger] ids@[k]),
        ensures
            final(self)@ == old(self)@.rehash_each(ids@),
            final(self)@.wf(),
            old(self)@.same_shape(final(self)@),
    {
        let ghost placed = self@;
        let mut j: usize = 0;
        proof {
            assert(ids@.take(0) =~= Seq::<NodeId>::empty());
        }
        while j < ids.len()
            invariant
                0 <= j <= ids.len(),
                self@.wf(),
                placed.same_shape(self@),
                forall|k: int| 0 <= k < ids@.len() ==> placed.contains(#[trigger] ids@[k]),
                self@ == placed.rehash_each(ids@.take(j as int)),
            decreases ids.len() - j,
        {
            let leaf_id = ids[j];
            proof {
                assert(ids@.take(j + 1).drop_last() =~= ids@.take(j as int));
                assert(ids@.take(j + 1).last() == leaf_id);
                assert(placed.contains(leaf_id));
            }
            let ghost mid = self@;
            let step = self.update_hashes(leaf_id);
            proof {
                placed.lemma_same_shape_trans(mid, self@);
            }
            j += 1;
        }
        proof {
            assert(ids@.take(j as int) =~= ids@);
        }
    }

    /// Places `value` as a new leaf and returns the leaf's id; recomputes the
    /// digests on the leaf's root path if `should_update` is set.
    pub fn insert_raw(&mut self, value: String, should_update: bool) -> (leaf_id: NodeId)
        requires
            old(self)@.wf(),
            old(self)@.can_insert(),
        ensures
            leaf_id == old(self)@.nodes.len(),
            final(self)@ == if should_update {
                old(self)@.insert(value@)
            } else {
                old(self)@.place(value@)
            },
            final(self)@.wf(),
            old(self)@.place(value@).contains(leaf_id),
    {
        let leaf_id = self.nodes.len() as NodeId;
        let leaf_hash = self.hasher.hash(value.as_str().as_bytes());
        let mut leaf = Node::new_leaf(leaf_id, value, leaf_hash);
        leaf.prev_leaf = self.last_leaf;

        if self.leaf_count >= self.capacity {
            self.grow_and_insert(leaf);
        } else if self.nodes[self.last_parent as usize].children.len() < self.max_width {
            self.append_to_cursor(leaf);
        } else {
            self.split_cursor(leaf);
        }
        if should_update {
            let step = self.update_hashes(leaf_id);
        }
        leaf_id
    }

    /// Growth: puts a new root above the old root and `leaf`, in that order,
    /// turns the old root into an internal node, and makes the new root the
    /// cursor. Height goes up by one and capacity is multiplied by the
    /// branching factor. No digest is recomputed.
    pub fn grow_and_insert(&mut self, leaf: Node) -> (leaf_id: NodeId)
        requires
            old(self)@.wf(),
            old(self)@.can_insert(),
            old(self)@.grows(),
            leaf@.value is Some,
            leaf@ == old(self)@.pending_leaf(leaf@.value.unwrap()),
        ensures
            leaf_id == old(self)@.nodes.len(),
            final(self)@ == old(self)@.place_grow(leaf@.value.unwrap()),
            final(self)@.wf(),
    {
        let mut leaf = leaf;
        let leaf_id = leaf.id;
        let ghost text = leaf@.value.unwrap();
        let ghost before = self@;
        proof {
            before.lemma_place_grow_wf(text);
            assert(before.node_wf(before.root as int));
        }
        let len = self.nodes.len();
        let new_root_id = len as NodeId + 1;
        let mut new_root = Node::new_root(new_root_id, self.max_width);

        let old_root_id = self.root;
        let old_root = &mut self.nodes[old_root_id as usize];
        old_root.node_type = NodeType::Internal;
        old_root.parent = Some(new_root_id);

        new_root.children.push(old_root_id);
        new_root.children.push(leaf_id);
        leaf.parent = Some(new_root_id);

        self.height = self.height + 1;
        self.nodes.push(leaf);
        self.nodes.push(new_root);
        self.capacity = self.capacity * self.max_width;
        self.root = new_root_id;
        self.last_parent = new_root_id;
        self.size = self.size + 2;
        self.leaf_count = self.leaf_count + 1;
        self.last_leaf = Some(leaf_id);
        self.depth = Ghost(before.place_grow(text).depth);
        proof {
            let after = before.place_grow(text);
            assert(self@.nodes[len as int + 1].children =~= after.nodes[len as int + 1].children);
            assert(self@.nodes =~= after.nodes);
        }
        leaf_id
    }

    /// The simple case: appends `leaf` to the children of the cursor node.
    fn append_to_cursor(&mut self, leaf: Node) -> (leaf_id: NodeId)
        requires
            old(self)@.wf(),
            old(self)@.can_insert(),
            !old(self)@.grows(),
            old(self)@.cursor_has_room(),
            leaf@.value is Some,
            leaf@ == old(self)@.pending_leaf(leaf@.value.unwrap()),
        ensures
            leaf_id == old(self)@.nodes.len(),
            final(self)@ == old(self)@.place_append(leaf@.value.unwrap()),
            final(self)@.wf(),
    {
        let mut leaf = leaf;
        let leaf_id = leaf.id;
        let ghost text = leaf@.value.unwrap();
        let ghost before = self@;
        proof {
            before.lemma_place_append_wf(text);
        }
        let len = self.nodes.len();
        let cursor = self.last_parent;
        let parent = &mut self.nodes[cursor as usize];
        parent.children.push(leaf_id);
        leaf.parent = Some(cursor);
        self.nodes.push(leaf);
        self.size = self.size + 1;
        self.leaf_count = self.leaf_count + 1;
        self.last_leaf = Some(leaf_id);
        self.depth = Ghost(before.place_append(text).depth);
        proof {
            assert(self@.nodes =~= before.place_append(text).nodes);
        }
        leaf_id
    }

    /// The position of the first leaf among the children of the cursor node.
    /// A well-formed tree keeps a leaf among the children of its cursor, so
    /// the search always ends on one.
    fn first_leaf_of_cursor(&self) -> (idx: usize)
        requires
            self@.wf(),
            self@.node(self@.last_parent).children.len() > 0,
        ensures
            idx == self@.first_leaf_child(self@.last_parent as int, 0),
            self@.leaf_child(self@.last_parent as int, idx as int),
    {
        let ghost p = self.last_parent as int;
        proof {
            let k0 = choose|k: int| self@.leaf_child(p, k);
            self@.lemma_first_leaf_child(p, 0, k0);
            assert(self@.node_wf(p));
        }
        let len = self.nodes.len();
        let parent = &self.nodes[self.last_parent as usize];
        let mut idx: usize = 0;
        loop
            invariant_except_break
                self@.wf(),
                p == self.last_parent as int,
                len == self.nodes@.len(),
                parent == self.nodes@[p],
                0 <= idx <= self@.first_leaf_child(p, 0) < parent.children@.len(),
                self@.first_leaf_child(p, idx as int) == self@.first_leaf_child(p, 0),
                self@.leaf_child(p, self@.first_leaf_child(p, 0)),
                self@.node_wf(p),
            ensures
                idx == self@.first_leaf_child(p, 0),
                self@.leaf_child(p, idx as int),
            decreases parent.children@.len() - idx,
        {
            proof {
                assert(self@.child_ok(p, idx as int));
            }
            let child_id = parent.children[idx];
            match self.nodes[child_id as usize].node_type {
                NodeType::Leaf => {
                    break ;
                },
                _ => {},
            }
            idx += 1;
        }
        idx
    }

    /// The split case: pairs the first leaf child of the full cursor node
    /// with `leaf` under a new internal node, which takes that child's place
    /// and becomes the cursor.
    fn split_cursor(&mut self, leaf: Node) -> (leaf_id: NodeId)
        requires
            old(self)@.wf(),
            old(self)@.can_insert(),
            !old(self)@.grows(),
            !old(self)@.cursor_has_room(),
            leaf@.value is Some,
            leaf@ == old(self)@.pending_leaf(leaf@.value.unwrap()),
        ensures
            leaf_id == old(self)@.nodes.len(),
            final(self)@ == old(self)@.place_split(leaf@.value.unwrap()),
            final(self)@.wf(),
    {
        let mut leaf = leaf;
        let leaf_id = leaf.id;
        let ghost text = leaf@.value.unwrap();
        let ghost before = self@;
        proof {
            before.lemma_place_split_wf(text);
            assert(before.node_wf(before.last_parent as int));
        }
        let len = self.nodes.len();
        let cursor = self.last_parent;
        let idx = self.first_leaf_of_cursor();
        let child_id = self.nodes[cursor as usize].children[idx];
        proof {
            assert(before.child_ok(cursor as int, idx as int));
        }
        let new_internal_id = leaf_id + 1;
        let mut new_internal = Node::new_node(new_internal_id, self.max_width);
        new_internal.parent = Some(cursor);
        new_internal.children.push(child_id);
        new_internal.children.push(leaf_id);
        leaf.parent = Some(new_internal_id);

        let child = &mut self.nodes[child_id as usize];
        child.parent = Some(new_internal_id);

        let parent = &mut self.nodes[cursor as usize];
        parent.children[idx] = new_internal_id;

        self.nodes.push(leaf);
        self.nodes.push(new_internal);
        self.last_parent = new_internal_id;
        self.size = self.size + 2;
        self.leaf_count = self.leaf_count + 1;
        self.last_leaf = Some(leaf_id);
        self.depth = Ghost(before.place_split(text).depth);
        proof {
            let after = before.place_split(text);
            assert(self@.nodes[len as int + 1].children =~= after.nodes[len as int + 1].children);
            assert(self@.nodes =~= after.nodes);
        }
        leaf_id
    }
}

} // verus!
