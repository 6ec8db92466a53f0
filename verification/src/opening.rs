//! The proof extractor: openings (inclusion proofs) along a root path, and
//! what it means for an opening to lead from a leaf digest to a root digest.

use crate::digest::joined;
use crate::hash::{HashBuff, Hasher};
use crate::model::TreeView;
use crate::node::{NodeId, NodeType};
use crate::tree::{Tree, TreeError};
use vstd::prelude::*;

verus! {

/// The byte sequences of a vector of digests.
pub open spec fn digest_views(digests: Seq<HashBuff>) -> Seq<Seq<u8>> {
    Seq::new(digests.len(), |k: int| digests[k]@)
}

/// The byte sequences of an opening: one sequence of digests per ancestor.
pub open spec fn opening_views(opening: Seq<Vec<HashBuff>>) -> Seq<Seq<Seq<u8>>> {
    Seq::new(opening.len(), |j: int| digest_views(opening[j]@))
}

/// Whether `opening` leads from `digest` to `root_digest`: `digest` occurs in
/// the first set of sibling digests, the digest of that set laid end to end
/// occurs in the next, and so on, and the digest of the last set is
/// `root_digest`. With no sets left, the two digests must be the same.
pub open spec fn opening_leads_to(
    hasher: Hasher,
    digest: Seq<u8>,
    opening: Seq<Seq<Seq<u8>>>,
    root_digest: Seq<u8>,
) -> bool
    decreases opening.len(),
{
    if opening.len() == 0 {
        digest == root_digest
    } else {
        &&& opening[0].contains(digest)
        &&& opening_leads_to(
            hasher,
            hasher.digest(joined(opening[0])),
            opening.drop_first(),
            root_digest,
        )
    }
}

impl TreeView {
    /// The root and internal nodes on the root path of `id`, nearest first:
    /// the whole path, but for `id` itself when it is a leaf.
    pub open spec fn branches_above(self, id: NodeId) -> Seq<NodeId> {
        if self.node(id).is_leaf() {
            self.root_path(id).drop_first()
        } else {
            self.root_path(id)
        }
    }

    /// The opening of `id`: for each root or internal node on the root path
    /// of `id`, nearest first, the stored digests of its children in child
    /// order.
    pub open spec fn opening(self, id: NodeId) -> Seq<Seq<Seq<u8>>> {
        Seq::new(
            self.branches_above(id).len(),
            |j: int| self.child_digests(self.branches_above(id)[j]),
        )
    }
}

impl TreeView {
    /// The opening of a node's proper ancestors: for each node above `id` on
    /// its root path, nearest first, the stored digests of its children.
    pub open spec fn opening_above(self, id: NodeId) -> Seq<Seq<Seq<u8>>> {
        Seq::new(
            (self.root_path(id).len() - 1) as nat,
            |j: int| self.child_digests(self.root_path(id)[j + 1]),
        )
    }

    /// In an authentic tree, the opening above any node leads from that
    /// node's stored digest to the root's stored digest.
    pub proof fn lemma_opening_above_leads_to_root(self, id: NodeId)
        requires
            self.wf(),
            self.authentic(),
            self.contains(id),
        ensures
            opening_leads_to(
                self.hasher,
                self.node(id).hash,
                self.opening_above(id),
                self.node(self.root).hash,
            ),
        decreases self.depth[id as int],
    {
        let above = self.opening_above(id);
        self.lemma_root_path(id);
        assert(self.node_wf(id as int));
        if id == self.root {
            assert(above.len() == 0);
        } else {
            let p = self.node(id).parent.unwrap();
            self.lemma_root_path_step(id);
            self.lemma_root_path(p);
            self.lemma_opening_above_leads_to_root(p);
            assert(self.root_path(id)[1] == self.root_path(p)[0]);
            assert(above[0] == self.child_digests(p));
            let k = choose|k: int|
                0 <= k < self.node(p).children.len() && self.node(p).children[k] == id;
            assert(self.child_digests(p)[k] == self.node(id).hash);
            assert(above[0].contains(self.node(id).hash));
            assert(self.node_verifies(p));
            assert(above.drop_first() =~= self.opening_above(p)) by {
                assert forall|j: int| 0 <= j < self.opening_above(p).len() implies above.drop_first()[j]
                    == self.opening_above(p)[j] by {
                    assert(self.root_path(id)[j + 2] == self.root_path(p)[j + 1]);
                }
            }
        }
    }

    /// In an authentic tree, the opening of a leaf leads from the digest of
    /// the leaf's value to the root's stored digest: whoever holds the value,
    /// the opening and the root digest can recompute the root digest by
    /// hashing alone.
    pub proof fn lemma_opening_reproduces_root(self, leaf: NodeId, value: Seq<char>)
        requires
            self.wf(),
            self.authentic(),
            self.holds_value(leaf as int, value),
        ensures
            opening_leads_to(
                self.hasher,
                self.hasher.digest(vstd::utf8::encode_utf8(value)),
                self.opening(leaf),
                self.node(self.root).hash,
            ),
    {
        self.lemma_opening_above_leads_to_root(leaf);
        self.lemma_root_path(leaf);
        assert(self.node_verifies(leaf));
        assert(self.opening(leaf) =~= self.opening_above(leaf));
    }
}

/// Whether `digest` occurs among `digests`.
pub fn holds_digest(digests: &Vec<HashBuff>, digest: &HashBuff) -> (found: bool)
    ensures
        found == digest_views(digests@).contains(digest@),
{
    let mut k: usize = 0;
    while k < digests.len()
        invariant
            0 <= k <= digests.len(),
            forall|j: int| 0 <= j < k ==> digest_views(digests@)[j] != digest@,
        decreases digests.len() - k,
    {
        if crate::hash::digest_eq(&digests[k], digest) {
            assert(digest_views(digests@)[k as int] == digest@);
            return true;
        }
        k += 1;
    }
    false
}

/// The digests of `digests` laid end to end.
pub fn join_digests(digests: &Vec<HashBuff>) -> (bytes: Vec<u8>)
    ensures
        bytes@ == joined(digest_views(digests@)),
{
    let mut bytes: Vec<u8> = Vec::new();
    let ghost views = digest_views(digests@);
    let mut k: usize = 0;
    while k < digests.len()
        invariant
            0 <= k <= digests.len(),
            views == digest_views(digests@),
            bytes@ == joined(views.take(k as int)),
        decreases digests.len() - k,
    {
        proof {
            assert(views.take(k + 1).drop_last() =~= views.take(k as int));
            assert(views.take(k + 1).last() == digests@[k as int]@);
        }
        bytes.extend_from_slice(digests[k].as_slice());
        k += 1;
    }
    proof {
        assert(views.take(k as int) =~= views);
    }
    bytes
}

/// Checks an inclusion proof without the tree: whether `opening` leads from
/// the digest of `value` to `root_digest` under `hasher`.
pub fn verify_opening(
    hasher: &Hasher,
    value: &str,
    opening: &Vec<Vec<HashBuff>>,
    root_digest: &HashBuff,
) -> (ok: bool)
    ensures
        ok == opening_leads_to(
            *hasher,
            hasher.digest(vstd::utf8::encode_utf8(value@)),
            opening_views(opening@),
            root_digest@,
        ),
{
    let mut digest = hasher.hash(value.as_bytes());
    let ghost views = opening_views(opening@);
    let mut i: usize = 0;
    proof {
        assert(views.skip(0) =~= views);
    }
    while i < opening.len()
        invariant
            0 <= i <= opening.len(),
            views == opening_views(opening@),
            opening_leads_to(*hasher, digest@, views.skip(i as int), root_digest@)
                == opening_leads_to(
                *hasher,
                hasher.digest(vstd::utf8::encode_utf8(value@)),
                views,
                root_digest@,
            ),
        decreases opening.len() - i,
    {
        proof {
            assert(views.skip(i as int)[0] == digest_views(opening@[i as int]@));
            assert(views.skip(i as int).drop_first() =~= views.skip(i + 1));
        }
        if !holds_digest(&opening[i], &digest) {
            return false;
        }
        let bytes = join_digests(&opening[i]);
        digest = hasher.hash(bytes.as_slice());
        i += 1;
    }
    proof {
        assert(views.skip(i as int).len() == 0);
    }
    crate::hash::digest_eq(&digest, root_digest)
}

impl Tree {
    /// The stored digests of the children of `index`, in child order.
    fn child_hashes(&self, index: NodeId) -> (hashes: Vec<HashBuff>)
        requires
            self@.wf(),
            self@.contains(index),
            !self@.node(index).is_leaf(),
        ensures
            digest_views(hashes@) == self@.child_digests(index),
    {
        let node = &self.nodes[index as usize];
        let mut opening: Vec<HashBuff> = Vec::with_capacity(node.children.len());
        let mut k: usize = 0;
        proof {
            assert(self@.node_wf(index as int));
        }
        while k < node.children.len()
            invariant
                0 <= k <= node.children.len(),
                self@.wf(),
                self@.contains(index),
                self@.node_wf(index as int),
                !self@.node(index).is_leaf(),
                node == self.nodes@[index as int],
                opening@.len() == k,
                forall|j: int|
                    0 <= j < k ==> (#[trigger] opening@[j])@ == self@.child_digests(index)[j],
            decreases node.children.len() - k,
        {
            proof {
                assert(self@.child_ok(index as int, k as int));
            }
            let child = &self.nodes[node.children[k] as usize];
            opening.push(child.hash);
            k += 1;
        }
        proof {
            assert(digest_views(opening@) =~= self@.child_digests(index));
        }
        opening
    }

    /// The opening of `node_id`: for each root or internal node on its root
    /// path, nearest first, the stored digests of that node's children.
    /// Fails with `NotFound` exactly when `node_id` names no node.
    pub fn get_opening(&self, node_id: NodeId) -> (result: Result<Vec<Vec<HashBuff>>, TreeError>)
        requires
            self@.wf(),
        ensures
            result is Ok <==> self@.contains(node_id),
            result matches Ok(opening) ==> opening_views(opening@) == self@.opening(node_id),
            result matches Err(e) ==> e == TreeError::NotFound,
    {
        let root_path = match self.get_root_path(node_id) {
            Ok(path) => path,
            Err(e) => {
                return Err(e);
            },
        };
        proof {
            self@.lemma_root_path(node_id);
        }
        let ghost skip: int = if self@.node(node_id).is_leaf() {
            1
        } else {
            0
        };
        let ghost branches = self@.branches_above(node_id);
        let mut openings: Vec<Vec<HashBuff>> = Vec::new();
        let mut i: usize = 0;
        while i < root_path.len()
            invariant
                0 <= i <= root_path.len(),
                self@.wf(),
                self@.contains(node_id),
                root_path@ == self@.root_path(node_id),
                root_path@.len() >= 1,
                root_path@[0] == node_id,
                forall|j: int| 0 <= j < root_path@.len() ==> self@.contains(#[trigger] root_path@[j]),
                forall|j: int|
                    1 <= j < root_path@.len() ==> !self@.node(#[trigger] root_path@[j]).is_leaf(),
                skip == (if self@.node(node_id).is_leaf() {
                    1int
                } else {
                    0int
                }),
                branches == self@.branches_above(node_id),
                branches.len() == root_path@.len() - skip,
                forall|j: int| 0 <= j < branches.len() ==> branches[j] == root_path@[j + skip],
                i == 0 ==> openings@.len() == 0,
                i >= 1 ==> openings@.len() == i - skip,
                forall|j: int|
                    0 <= j < openings@.len() ==> digest_views((#[trigger] openings@[j])@)
                        == self@.child_digests(branches[j]),
            decreases root_path.len() - i,
        {
            let id = root_path[i];
            let node = &self.nodes[id as usize];
            match node.node_type {
                NodeType::Leaf => {},
                _ => {
                    let opening = self.child_hashes(id);
                    openings.push(opening);
                },
            }
            i += 1;
        }
        proof {
            assert(opening_views(openings@) =~= self@.opening(node_id));
        }
        Ok(openings)
    }
}

} // verus!
