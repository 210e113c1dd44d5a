use vstd::prelude::*;
use crate::activation::Activation;
use crate::kinds::MutationKind;
use crate::network::{Network, NetworkView};
use crate::scalar::NeuroFloat;
use crate::select::Target;

verus! {

/// What a mutation consumes besides the network: two numbers that pick its
/// targets, and the scalar it writes where it writes one. The caller draws
/// them, from whatever source it likes; the same draw on the same network
/// gives the same edit.
#[derive(Clone, Copy, Debug, PartialEq, Eq, Structural)]
pub struct Draw {
    /// Picks the node, the connection or the pair the mutation applies to.
    pub first: u64,
    /// Picks the second node or connection, the squash, or the end of a
    /// connection that becomes its gater.
    pub second: u64,
    /// The new bias, the new weight, or the weight of the new connection.
    pub value: NeuroFloat,
}

impl NetworkView {
    /// The end of connection `e` that a draw makes its gater: of a
    /// self-connection its one node; of another connection the source on an
    /// even draw, the destination on an odd one.
    pub open spec fn gater_choice(self, e: usize, draw: u64) -> usize
        recommends
            self.is_edge(e),
    {
        if draw % 2 == 0 {
            self.edge(e).from
        } else {
            self.edge(e).to
        }
    }

    /// The network after the edit of the given kind on the given target.
    ///
    /// - `Activation`: the node takes the squash at the second draw.
    /// - `Bias`: the node takes the drawn value as bias.
    /// - `AddSelfConnection`: the node gets a self-connection with the
    ///   drawn value as weight.
    /// - `SubSelfConnection`: the node's self-connection is removed.
    /// - `Weight`: the connection takes the drawn value as weight.
    /// - `AddNode`: a hidden node with bias zero and the squash at the
    ///   second draw is spliced into the connection.
    /// - `SubNode`: the node is removed and its sources are joined to its
    ///   destinations.
    /// - `AddConnection`, `AddBackConnection`: the first node is connected
    ///   to the second with the drawn value as weight.
    /// - `SubConnection`, `SubBackConnection`: the connection is removed.
    /// - `AddGate`: the end of the connection that the second draw chooses
    ///   becomes its gater.
    /// - `SubGate`: the connection loses its gater.
    /// - `SwapNodes`: the two nodes exchange bias and squash.
    /// - `ShareWeight`: the second connection takes its weight from the
    ///   cell of the first.
    pub open spec fn apply(self, kind: MutationKind, target: Target, draw: Draw) -> NetworkView {
        match target {
            Target::Node(n) => match kind {
                MutationKind::Activation => self.set_squash(
                    n,
                    Activation::spec_from_index(draw.second),
                ),
                MutationKind::Bias => self.set_bias(n, draw.value),
                MutationKind::AddSelfConnection => self.connect_with(n, n, draw.value),
                MutationKind::SubSelfConnection => self.unlink(self.links(n).to_self->0),
                MutationKind::SubNode => self.remove_node(n),
                _ => self,
            },
            Target::Edge(e) => match kind {
                MutationKind::Weight => self.set_weight(e, draw.value),
                MutationKind::AddNode => self.add_node(
                    e,
                    NeuroFloat::spec_zero(),
                    Activation::spec_from_index(draw.second),
                ),
                MutationKind::SubConnection | MutationKind::SubBackConnection => self.unlink(e),
                MutationKind::AddGate => self.gate_edge(self.gater_choice(e, draw.second), e),
                MutationKind::SubGate => self.ungate(e),
                _ => self,
            },
            Target::Nodes(a, b) => match kind {
                MutationKind::AddConnection | MutationKind::AddBackConnection => self.connect_with(
                    a,
                    b,
                    draw.value,
                ),
                MutationKind::SwapNodes => self.swap_nodes(a, b),
                _ => self,
            },
            Target::Edges(a, b) => match kind {
                MutationKind::ShareWeight => self.share_weight(a, b),
                _ => self,
            },
        }
    }

    /// The network after one mutation of the given kind under the given
    /// draw: the edit on the target that the draw picks, and the network as
    /// it is where nothing is eligible.
    pub open spec fn mutate(self, kind: MutationKind, draw: Draw) -> NetworkView {
        match self.target(kind, draw.first, draw.second) {
            Some(target) => self.apply(kind, target, draw),
            None => self,
        }
    }
}

impl Network {
    /// Applies the edit of the given kind to a target that is eligible for
    /// it.
    pub(crate) fn apply(&mut self, kind: MutationKind, target: Target, draw: Draw)
        requires
            old(self).wf(),
            old(self)@.target_ok(kind, target),
        ensures
            final(self).wf(),
            final(self)@ == old(self)@.apply(kind, target, draw),
    {
        match target {
            Target::Node(n) => match kind {
                MutationKind::Activation => {
                    let _ = self.set_squash(n, Activation::from_index(draw.second));
                },
                MutationKind::Bias => {
                    let _ = self.set_bias(n, draw.value);
                },
                MutationKind::AddSelfConnection => {
                    proof {
                        if self@.connected(n, n) {
                            let x = choose|x: usize| self@.joins(x, n, n);
                            assert(self@.edge_wf(x));
                        }
                    }
                    let _ = self.join(n, n, draw.value, false);
                },
                MutationKind::SubSelfConnection => {
                    proof {
                        assert(self@.links_wf(n));
                    }
                    let e = match &self.nodes[n] {
                        Some(node) => node.connections().to_self,
                        None => None,
                    };
                    match e {
                        Some(e) => {
                            self.unlink(e);
                        },
                        None => {},
                    }
                },
                MutationKind::SubNode => {
                    let _ = self.remove_node(n);
                },
                _ => {},
            },
            Target::Edge(e) => match kind {
                MutationKind::Weight => {
                    let _ = self.set_weight(e, draw.value);
                },
                MutationKind::AddNode => {
                    let _ = self.add_node(e, NeuroFloat::zero(), Activation::from_index(draw.second));
                },
                MutationKind::SubConnection | MutationKind::SubBackConnection => {
                    self.unlink(e);
                },
                MutationKind::AddGate => {
                    match self.connection(e) {
                        Some(c) => {
                            let g: usize = if draw.second % 2 == 0 {
                                c.from
                            } else {
                                c.to
                            };
                            self.gate_edge(g, e);
                        },
                        None => {},
                    }
                },
                MutationKind::SubGate => {
                    self.ungate_edge(e);
                },
                _ => {},
            },
            Target::Nodes(a, b) => match kind {
                MutationKind::AddConnection | MutationKind::AddBackConnection => {
                    let _ = self.join(a, b, draw.value, false);
                },
                MutationKind::SwapNodes => {
                    let _ = self.swap_nodes(a, b);
                },
                _ => {},
            },
            Target::Edges(a, b) => match kind {
                MutationKind::ShareWeight => {
                    let _ = self.share_weight(a, b);
                },
                _ => {},
            },
        }
    }

    /// Applies one mutation of the given kind: the edit that `apply`
    /// describes, on the target that the draw picks among the eligible
    /// ones. Returns whether anything was eligible; where nothing was, the
    /// network stays as it is.
    pub fn mutate(&mut self, kind: MutationKind, draw: Draw) -> (applied: bool)
        requires
            old(self).wf(),
        ensures
            final(self).wf(),
            final(self)@ == old(self)@.mutate(kind, draw),
            applied == old(self)@.target(kind, draw.first, draw.second) is Some,
    {
        match self.target(kind, draw.first, draw.second) {
            Ok(target) => {
                self.apply(kind, target, draw);
                true
            },
            Err(_) => false,
        }
    }
}

} // verus!
