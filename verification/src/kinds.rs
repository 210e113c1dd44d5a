use vstd::prelude::*;

verus! {

/// How two groups of nodes are wired to each other.
#[derive(Clone, Copy, Debug, PartialEq, Eq, Structural)]
pub enum ConnectionKind {
    /// Every node of the first group to every node of the second.
    AllToAll,
    /// Every node of the first group to every node of the second but itself.
    AllToElse,
    /// The i-th node of the first group to the i-th node of the second.
    OneToOne,
}

/// Which edges a gater may take: the relation an edge must have to it.
#[derive(Clone, Copy, Debug, PartialEq, Eq, Structural)]
pub enum GatingKind {
    /// Edges that leave the gater for another node.
    Output,
    /// Edges that enter the gater from another node.
    Input,
    /// The gater's self-connection.
    ToSelf,
}

/// The edits the mutation engine can make.
#[derive(Clone, Copy, Debug, PartialEq, Eq, Structural)]
pub enum MutationKind {
    /// Gives a hidden node another squash.
    Activation,
    /// Gives a hidden node another bias.
    Bias,
    /// Gives a hidden node a self-connection.
    AddSelfConnection,
    /// Removes a self-connection.
    SubSelfConnection,
    /// Gives a connection another weight.
    Weight,
    /// Splits a connection in two with a new hidden node between them.
    AddNode,
    /// Removes a hidden node and joins its sources to its destinations.
    SubNode,
    /// Connects an earlier node to a later one.
    AddConnection,
    /// Removes a connection from an earlier node to a later one.
    SubConnection,
    /// Makes one end of an ungated connection its gater.
    AddGate,
    /// Detaches the gater of a connection.
    SubGate,
    /// Connects a later node to an earlier one.
    AddBackConnection,
    /// Removes a connection from a later node to an earlier one.
    SubBackConnection,
    /// Exchanges bias and squash of two hidden nodes.
    SwapNodes,
    /// Makes one connection take its weight from another's cell.
    ShareWeight,
}

} // verus!
