//! The tree as a mathematical value, and what it means for one to be well formed.

use crate::hash::{Hasher, HASH_SIZE};
use crate::node::{NodeId, NodeType, NodeView};
use vstd::arithmetic::power::pow;
use vstd::prelude::*;

verus! {

/// A tree as a mathematical value: the arena as a sequence of node views, the
/// scalar state, and the distance of every node from the root.
pub struct TreeView {
    pub root: NodeId,
    pub last_parent: NodeId,
    pub last_leaf: Option<NodeId>,
    pub nodes: Seq<NodeView>,
    pub max_width: nat,
    pub height: nat,
    pub capacity: nat,
    pub size: nat,
    pub leaf_count: nat,
    pub hasher: Hasher,
    pub depth: Seq<nat>,
}

impl TreeView {
    /// Whether `id` names a node of the arena.
    pub open spec fn contains(self, id: NodeId) -> bool {
        (id as int) < self.nodes.len()
    }

    /// The node that `id` names.
    pub open spec fn node(self, id: NodeId) -> NodeView {
        self.nodes[id as int]
    }

    /// Whether position `i` of the arena holds a leaf.
    pub open spec fn leaf_at(self, i: int) -> bool {
        0 <= i < self.nodes.len() && self.nodes[i].node_type == NodeType::Leaf
    }

    /// Whether position `i` of the arena holds a root or internal node.
    pub open spec fn branch_at(self, i: int) -> bool {
        0 <= i < self.nodes.len() && self.nodes[i].node_type != NodeType::Leaf
    }

    /// Whether child number `k` of node `i` is a leaf.
    pub open spec fn leaf_child(self, i: int, k: int) -> bool {
        0 <= k < self.nodes[i].children.len() && self.leaf_at(self.nodes[i].children[k] as int)
    }

    /// The scalar state is consistent with itself and with the arena's length.
    pub open spec fn counters_wf(self) -> bool {
        &&& self.max_width >= 2
        &&& self.height >= 1
        &&& self.capacity == pow(self.max_width as int, self.height)
        &&& self.leaf_count <= self.capacity
        &&& 1 <= self.nodes.len() <= usize::MAX
        &&& self.depth.len() == self.nodes.len()
        &&& self.size == self.nodes.len()
        &&& self.leaf_count + 1 <= self.nodes.len()
        &&& self.height <= self.nodes.len()
        &&& (self.leaf_count == 0 ==> self.nodes.len() == 1)
    }

    /// The root is in the arena, has the root role and has no parent.
    pub open spec fn root_wf(self) -> bool {
        &&& self.contains(self.root)
        &&& self.node(self.root).node_type == NodeType::Root
        &&& self.node(self.root).parent is None
        &&& self.depth[self.root as int] == 0
    }

    /// Node `i` names a parent that is a branch, lists `i` among its children
    /// and lies one step nearer to the root.
    pub open spec fn links_up(self, i: int) -> bool {
        let n = self.nodes[i];
        &&& n.node_type != NodeType::Root
        &&& n.parent is Some
        &&& self.branch_at(n.parent.unwrap() as int)
        &&& self.nodes[n.parent.unwrap() as int].children.contains(i as NodeId)
        &&& self.depth[i] == self.depth[n.parent.unwrap() as int] + 1
    }

    /// Child number `k` of node `i` is in the arena and names `i` as its parent.
    pub open spec fn child_ok(self, i: int, k: int) -> bool {
        let c = self.nodes[i].children[k];
        &&& (c as int) < self.nodes.len()
        &&& self.nodes[c as int].parent == Some(i as NodeId)
    }

    /// No position strictly between `lo` and `hi` holds a leaf.
    pub open spec fn no_leaf_between(self, lo: int, hi: int) -> bool {
        forall|j: int| lo < j < hi ==> !#[trigger] self.leaf_at(j)
    }

    /// `prev` is the last leaf before position `i`, or nothing if there is none.
    pub open spec fn link_ok(self, prev: Option<NodeId>, i: int) -> bool {
        match prev {
            Some(p) => p < i && self.leaf_at(p as int) && self.no_leaf_between(p as int, i),
            None => self.no_leaf_between(-1, i),
        }
    }

    /// The structural invariant of the node at position `i`.
    pub open spec fn node_wf(self, i: int) -> bool {
        let n = self.nodes[i];
        &&& n.id == i
        &&& n.hash.len() == HASH_SIZE
        &&& self.depth[i] < self.nodes.len()
        &&& (i != self.root ==> self.links_up(i))
        &&& (n.is_leaf() ==> {
            &&& n.children.len() == 0
            &&& n.value is Some
            &&& self.link_ok(n.prev_leaf, i)
        })
        &&& (!n.is_leaf() ==> {
            &&& n.value is None
            &&& n.prev_leaf is None
            &&& n.children.len() <= self.max_width
            &&& (self.leaf_count > 0 ==> n.children.len() >= 1)
            &&& n.children.no_duplicates()
            &&& forall|k: int| 0 <= k < n.children.len() ==> #[trigger] self.child_ok(i, k)
        })
    }

    /// The insertion cursor names a branch that, unless it is childless, has
    /// a leaf among its children.
    pub open spec fn cursor_wf(self) -> bool {
        &&& self.branch_at(self.last_parent as int)
        &&& (self.node(self.last_parent).children.len() > 0 ==> exists|k: int| #[trigger]
            self.leaf_child(self.last_parent as int, k))
    }

    /// The structural invariant of the whole tree. It says nothing about
    /// whether the stored digests are current.
    pub open spec fn wf(self) -> bool {
        &&& self.counters_wf()
        &&& self.root_wf()
        &&& self.cursor_wf()
        &&& self.link_ok(self.last_leaf, self.nodes.len() as int)
        &&& forall|i: int| 0 <= i < self.nodes.len() ==> #[trigger] self.node_wf(i)
    }

    /// The ids from `id` up to the root, both included, nearest first.
    pub open spec fn root_path(self, id: NodeId) -> Seq<NodeId>
        decreases self.depth[id as int],
        when self.wf() && self.contains(id)
    {
        if id == self.root {
            seq![id]
        } else {
            proof {
                assert(self.node_wf(id as int));
            }
            seq![id] + self.root_path(self.node(id).parent.unwrap())
        }
    }

    /// Every id on a root path names a node of the arena; the path starts at
    /// the given id, ends at the root, and each further entry is the parent
    /// of the entry before it.
    pub proof fn lemma_root_path(self, id: NodeId)
        requires
            self.wf(),
            self.contains(id),
        ensures
            self.root_path(id).len() == self.depth[id as int] + 1,
            self.root_path(id)[0] == id,
            self.root_path(id).last() == self.root,
            forall|j: int|
                0 <= j < self.root_path(id).len() ==> self.contains(
                    #[trigger] self.root_path(id)[j],
                ),
            forall|j: int|
                0 <= j < self.root_path(id).len() ==> self.depth[self.root_path(id)[j] as int]
                    == self.depth[id as int] - j,
            forall|j: int|
                0 <= j < self.root_path(id).len() - 1 ==> self.node(
                    #[trigger] self.root_path(id)[j],
                ).parent == Some(self.root_path(id)[j + 1]),
            forall|j: int|
                1 <= j < self.root_path(id).len() ==> !self.node(
                    #[trigger] self.root_path(id)[j],
                ).is_leaf(),
        decreases self.depth[id as int],
    {
        assert(self.node_wf(id as int));
        if id != self.root {
            let p = self.node(id).parent.unwrap();
            self.lemma_root_path(p);
            let rest = self.root_path(p);
            let path = self.root_path(id);
            assert(path == seq![id] + rest);
            assert forall|j: int| 0 <= j < path.len() implies self.contains(#[trigger] path[j]) by {
                if j > 0 {
                    assert(path[j] == rest[j - 1]);
                }
            }
            assert forall|j: int| 0 <= j < path.len() implies self.depth[path[j] as int]
                == self.depth[id as int] - j by {
                if j > 0 {
                    assert(path[j] == rest[j - 1]);
                }
            }
            assert forall|j: int| 0 <= j < path.len() - 1 implies self.node(
                #[trigger] path[j],
            ).parent == Some(path[j + 1]) by {
                if j > 0 {
                    assert(path[j] == rest[j - 1]);
                    assert(path[j + 1] == rest[j]);
                } else {
                    assert(path[1] == rest[0]);
                }
            }
            assert forall|j: int| 1 <= j < path.len() implies !self.node(
                #[trigger] path[j],
            ).is_leaf() by {
                assert(path[j] == rest[j - 1]);
                if j == 1 {
                    assert(rest[0] == p);
                }
            }
            assert(path.last() == rest.last());
        }
    }
}

} // verus!
