//! An ordered key-value index: a B+ tree variant whose leaves are bounded
//! sorted arrays walked in key order, with an epoch-based reclamation
//! substrate for retired nodes and a reference-counted shared handle.
//!
//! Every operation carries a contract over the tree's scan sequence — the
//! entries in strictly increasing key order — and the structural soundness
//! of the tree is an invariant that every operation preserves.

pub mod ebr;
pub mod laws;
pub mod leaf;
pub mod model;
pub mod node;
pub mod treeindex;
