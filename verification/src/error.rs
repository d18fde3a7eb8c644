//! The reasons for which the graph refuses an operation.

use vstd::prelude::*;

verus! {

/// Why an operation on a graph was refused.
///
/// A graph cannot hold a cycle, since every node is computed from nodes
/// made before it, so a backward pass has no such failure.
#[derive(Clone, Copy, Debug, PartialEq, Eq, Structural)]
pub enum Error {
    /// The root has no gradient, and its data gives no value of ones of its
    /// own shape to begin the backward pass with.
    MissingSeed,
    /// An operation was handed another number of inputs than it takes, or
    /// handed back another number of gradients than it has inputs.
    ArityMismatch,
    /// An operation gave no result for the values that it was handed, a
    /// gradient has not the shape of the data that it is for, or two
    /// gradients could not be added.
    ShapeMismatch,
}

} // verus!
