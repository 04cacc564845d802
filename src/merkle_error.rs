use vstd::prelude::*;

verus! {

/// Why an operation on a Merkle tree could not be carried out.
#[derive(Debug, Clone, Copy, PartialEq, Eq, Structural)]
pub enum MerkleError {
    /// The leaf layer is empty, so there is nothing to build from.
    NoLeaves,
    /// The root was asked for before the tree was built.
    NotBuilt,
    /// The requested leaf digest is not in the leaf layer.
    NotFound,
    /// A recomputed digest differs from the one stored in the tree.
    TreeInvalidated,
}

} // verus!
