//! Construction of trees.

use crate::hash::{default_hasher, default_hasher_with_seed, Hasher};
use crate::model::TreeView;
use crate::node::{Node, NodeType, NodeView};
use crate::tree::Tree;
use vstd::arithmetic::power::lemma_pow1;
use vstd::prelude::*;

verus! {

/// What a tree is built from.
pub struct TreeOptions {
    /// The branching factor: the most children a root or internal node may have.
    pub max_width: usize,
    /// The hashing strategy; the unseeded one when absent.
    pub hasher: Option<Hasher>,
}

impl Default for TreeOptions {
    fn default() -> (options: Self)
        ensures
            options.max_width == 2,
            options.hasher is None,
    {
        TreeOptions { max_width: 2, hasher: None }
    }
}

impl TreeView {
    /// The tree that holds a childless root and nothing else.
    pub open spec fn fresh(max_width: nat, hasher: Hasher) -> TreeView {
        TreeView {
            root: 0,
            last_parent: 0,
            last_leaf: None,
            nodes: seq![NodeView::blank(0, NodeType::Root, None)],
            max_width,
            height: 1,
            capacity: max_width,
            size: 1,
            leaf_count: 0,
            hasher,
            depth: seq![0nat],
        }
    }

    /// A fresh tree is well formed.
    pub proof fn lemma_fresh_wf(max_width: nat, hasher: Hasher)
        requires
            max_width >= 2,
        ensures
            Self::fresh(max_width, hasher).wf(),
    {
        let t = Self::fresh(max_width, hasher);
        lemma_pow1(max_width as int);
        assert(t.node_wf(0));
    }
}

impl Tree {
    /// A tree with branching factor 2 and the unseeded hashing strategy.
    pub fn new() -> (tree: Self)
        ensures
            tree@ == TreeView::fresh(2, Hasher::Unseeded),
            tree@.wf(),
    {
        let default_opts = TreeOptions { max_width: TreeOptions::default().max_width, hasher: None };
        Self::new_with_opts(default_opts)
    }

    /// A tree with branching factor 2 and the strategy seeded by `seed`.
    pub fn new_with_seed(seed: u64) -> (tree: Self)
        ensures
            tree@ == TreeView::fresh(2, Hasher::Seeded(seed)),
            tree@.wf(),
    {
        let hasher = default_hasher_with_seed(seed);
        let default_opts = TreeOptions {
            hasher: Some(hasher),
            max_width: TreeOptions::default().max_width,
        };
        Self::new_with_opts(default_opts)
    }

    /// A tree with branching factor 2 and the given hashing strategy.
    pub fn new_with_hasher(hasher: Hasher) -> (tree: Self)
        ensures
            tree@ == TreeView::fresh(2, hasher),
            tree@.wf(),
    {
        let default_opts = TreeOptions {
            hasher: Some(hasher),
            max_width: TreeOptions::default().max_width,
        };
        Self::new_with_opts(default_opts)
    }

    /// A tree that holds a single childless root at id 0, with height 1 and
    /// room for `max_width` leaves before it first grows.
    pub fn new_with_opts(option: TreeOptions) -> (tree: Self)
        requires
            option.max_width >= 2,
        ensures
            tree@ == TreeView::fresh(
                option.max_width as nat,
                match option.hasher {
                    Some(hasher) => hasher,
                    None => Hasher::Unseeded,
                },
            ),
            tree@.wf(),
    {
        let hasher = match option.hasher {
            Some(hasher) => hasher,
            None => default_hasher(),
        };
        let root = Node::new(0, NodeType::Root, option.max_width, None);
        let mut nodes = Vec::new();
        nodes.push(root);
        let depth: Ghost<Seq<nat>> = Ghost(Seq::empty().push(0nat));
        let tree = Self {
            height: 1,
            size: 1,
            capacity: option.max_width,
            root: 0,
            max_width: option.max_width,
            hasher,
            nodes,
            last_parent: 0,
            last_leaf: None,
            leaf_count: 0,
            depth,
        };
        proof {
            assert(tree@.nodes =~= seq![NodeView::blank(0, NodeType::Root, None)]);
            TreeView::lemma_fresh_wf(option.max_width as nat, hasher);
        }
        tree
    }
}

impl Default for Tree {
    fn default() -> (tree: Self)
        ensures
            tree@ == TreeView::fresh(2, Hasher::Unseeded),
            tree@.wf(),
    {
        Tree::new()
    }
}

} // verus!
