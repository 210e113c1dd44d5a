use vstd::prelude::*;

verus! {

/// Why an operation on a network was refused.
#[derive(Clone, Copy, Debug, PartialEq, Eq, Structural)]
pub enum NetworkError {
    /// An edge between the two nodes already exists.
    DuplicateConnection,
    /// Two node groups to be paired one to one differ in length.
    SizeMismatch,
    /// The edge does not stand in the required relation to the gater.
    InvalidGateTarget,
    /// The number of inputs handed in is not the number of input nodes.
    InputSizeMismatch,
    /// The number of targets handed in is not the number of output nodes.
    TargetSizeMismatch,
    /// The network holds nothing the mutation could apply to.
    NoEligibleMutationTarget,
    /// A handle names no live node or connection.
    DanglingReference,
}

} // verus!
