//! An append-only authenticated tree.
//!
//! Values are inserted as leaves of a tree of bounded degree. Every root and
//! internal node carries a digest that commits to the digests of its
//! children, in order, so that the root digest commits to every value. Any
//! subtree can be verified against its stored digests, and for every leaf an
//! opening can be extracted that lets a third party recompute the root digest
//! from the leaf's value alone.
//!
//! The modules, leaves first:
//! - `hash`: the hash capability and its two strategies;
//! - `node`, `model`: node records, the tree as a mathematical value, and
//!   what it means for a tree to be well formed;
//! - `tree`, `new`: the arena with its scalar state, construction, lookup;
//! - `placement`, `insert`: where a new leaf goes, and the insertion engine;
//! - `digest`, `propagate`, `verify`: expected digests, hash propagation and
//!   verification;
//! - `opening`: inclusion proofs;
//! - `authentic`, `batch`, `growth`, `tamper`: what is proved of the above.

pub mod authentic;
pub mod batch;
pub mod digest;
pub mod growth;
pub mod hash;
pub mod insert;
pub mod model;
pub mod new;
pub mod node;
pub mod opening;
pub mod placement;
pub mod propagate;
pub mod tamper;
pub mod tree;
pub mod verify;
