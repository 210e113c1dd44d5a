use vstd::prelude::*;
use crate::scalar::NeuroFloat;

verus! {

/// A directed, weighted edge between two nodes of one network.
///
/// Nodes are named by their slot in the network's node arena. The weight is
/// not held in the record: `weight` names a cell of the network's weight
/// store, and every connection that names the same cell has the same weight.
#[derive(Clone, Copy, Debug, PartialEq, Eq, Structural)]
pub struct Connection {
    /// Slot of the source node.
    pub from: usize,
    /// Slot of the destination node.
    pub to: usize,
    /// Cell of the weight store that holds this edge's weight.
    pub weight: usize,
    /// Multiplier set by the gater's activation; one while ungated.
    pub gain: NeuroFloat,
    /// Slot of the node that modulates this edge, if any.
    pub gater: Option<usize>,
    /// Trace accumulated for credit assignment through time.
    pub eligibility: NeuroFloat,
    /// The weight change applied by the last backward pass.
    pub prev_delta_weight: NeuroFloat,
    /// Weight changes accumulated and not yet applied.
    pub total_delta_weight: NeuroFloat,
}

impl Connection {
    /// A fresh edge, as a specification value: ungated, gain one, every trace
    /// and accumulator zero.
    pub open spec fn spec_one2one(from: usize, to: usize, weight: usize) -> Connection {
        Connection {
            from,
            to,
            weight,
            gain: NeuroFloat::spec_one(),
            gater: None,
            eligibility: NeuroFloat::spec_zero(),
            prev_delta_weight: NeuroFloat::spec_zero(),
            total_delta_weight: NeuroFloat::spec_zero(),
        }
    }

    /// A fresh edge from `from` to `to` whose weight lives in cell `weight`.
    #[verifier::when_used_as_spec(spec_one2one)]
    pub fn one2one(from: usize, to: usize, weight: usize) -> (r: Connection)
        ensures
            r == Connection::spec_one2one(from, to, weight),
    {
        Connection {
            from,
            to,
            weight,
            gain: NeuroFloat::one(),
            gater: None,
            eligibility: NeuroFloat::zero(),
            prev_delta_weight: NeuroFloat::zero(),
            total_delta_weight: NeuroFloat::zero(),
        }
    }

    /// Whether the edge leaves and enters the same node.
    pub open spec fn is_loop(self) -> bool {
        self.from == self.to
    }
}

} // verus!
