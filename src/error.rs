//! The ways an operation on trees, paths and proofs can fail.
use vstd::prelude::*;

verus! {

/// Why an operation gave no result.
#[derive(Debug, Clone, Copy, PartialEq, Eq, Structural)]
pub enum MerkleError {
    /// A tree was asked of an empty sequence of leaves.
    EmptyInput,
    /// A position is zero or lies past the end of its level.
    InvalidIndex,
    /// A position is not below the capacity that a proof's length implies.
    IndexOutOfRange,
    /// Position or capacity arithmetic leaves the range of `usize`.
    Overflow,
}

} // verus!
