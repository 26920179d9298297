//! A Merkle commitment over sequences of any length.
//!
//! A level of odd length carries its trailing node upward through a
//! single-input hash instead of pairing it with a duplicate of itself.
//! The tree is stored flattened, level after level, leaves first and root
//! last; inclusion proofs list, from leaf to root, either the sibling hash at
//! each level or a marker that the node had no sibling there.
pub mod error;
pub mod hashing;
pub mod tree;
pub mod path;
pub mod inclusion;
pub mod laws;
