use vstd::prelude::*;
use crate::activation::Activation;
use crate::connection::Connection;
use crate::error::NetworkError;
use crate::network::{Network, NetworkView};
use crate::node::{Neuron, Node, NodeState, NodeView};
use crate::scalar::NeuroFloat;

verus! {

impl NetworkView {
    /// Whether `n` names a live hidden node (an output node is one).
    pub open spec fn is_hidden(self, n: usize) -> bool {
        self.is_node(n) && self.node(n).is_hidden()
    }

    /// What the hidden node in slot `n` holds.
    pub open spec fn neuron(self, n: usize) -> Neuron
        recommends
            self.is_hidden(n),
    {
        self.node(n).neuron()
    }

    /// Whether `other` differs from this network in scalars only: the same
    /// nodes of the same kinds with the same edge lists, the same order, the
    /// same connections between the same nodes with the same gaters, and as
    /// many weight cells.
    pub open spec fn same_wiring(self, other: NetworkView) -> bool {
        &&& other.nodes.len() == self.nodes.len()
        &&& other.edges.len() == self.edges.len()
        &&& other.weights.len() == self.weights.len()
        &&& other.order == self.order
        &&& other.inputs == self.inputs
        &&& other.outputs == self.outputs
        &&& forall|n: usize| #[trigger] other.is_node(n) <==> self.is_node(n)
        &&& forall|n: usize| #[trigger]
            self.is_node(n) ==> {
                &&& other.links(n) == self.links(n)
                &&& other.node(n).is_input() <==> self.node(n).is_input()
                &&& self.node(n).is_hidden() ==> other.node(n).neuron().output == self.node(
                    n,
                ).neuron().output
            }
        &&& forall|e: usize| #[trigger] other.is_edge(e) <==> self.is_edge(e)
        &&& forall|e: usize| #[trigger]
            self.is_edge(e) ==> {
                &&& other.edge(e).from == self.edge(e).from
                &&& other.edge(e).to == self.edge(e).to
                &&& other.edge(e).gater == self.edge(e).gater
                &&& other.edge(e).weight < other.weights.len()
            }
    }

    /// Why a hidden node's scalars cannot be set through handle `n`, if they
    /// cannot: `DanglingReference` where it names no live node,
    /// `NoEligibleMutationTarget` where it names an input node.
    pub open spec fn hidden_error(self, n: usize) -> Option<NetworkError> {
        if !self.is_node(n) {
            Some(NetworkError::DanglingReference)
        } else if !self.is_hidden(n) {
            Some(NetworkError::NoEligibleMutationTarget)
        } else {
            None
        }
    }

    /// The network with the hidden node `n` holding `neuron`.
    pub open spec fn set_neuron(self, n: usize, neuron: Neuron) -> NetworkView
        recommends
            self.is_hidden(n),
    {
        NetworkView {
            nodes: self.nodes.update(
                n as int,
                Some(NodeView { state: NodeState::Hidden { neuron }, ..self.node(n) }),
            ),
            ..self
        }
    }

    /// The network with the bias of hidden node `n` replaced.
    pub open spec fn set_bias(self, n: usize, bias: NeuroFloat) -> NetworkView
        recommends
            self.is_hidden(n),
    {
        self.set_neuron(n, Neuron { bias, ..self.neuron(n) })
    }

    /// The network with the squash of hidden node `n` replaced.
    pub open spec fn set_squash(self, n: usize, squash: Activation) -> NetworkView
        recommends
            self.is_hidden(n),
    {
        self.set_neuron(n, Neuron { squash, ..self.neuron(n) })
    }

    /// The network with the mask of hidden node `n` replaced.
    pub open spec fn set_mask(self, n: usize, mask: NeuroFloat) -> NetworkView
        recommends
            self.is_hidden(n),
    {
        self.set_neuron(n, Neuron { mask, ..self.neuron(n) })
    }

    /// The network with bias and squash of the hidden nodes `a` and `b`
    /// exchanged.
    pub open spec fn swap_nodes(self, a: usize, b: usize) -> NetworkView
        recommends
            self.is_hidden(a),
            self.is_hidden(b),
    {
        let na = self.neuron(a);
        let nb = self.neuron(b);
        self.set_neuron(a, Neuron { bias: nb.bias, squash: nb.squash, ..na }).set_neuron(
            b,
            Neuron { bias: na.bias, squash: na.squash, ..nb },
        )
    }

    /// The network with `weight` in the weight cell of connection `e`: the
    /// weight of `e` and of every connection that shares its cell.
    pub open spec fn set_weight(self, e: usize, weight: NeuroFloat) -> NetworkView
        recommends
            self.is_edge(e),
    {
        NetworkView { weights: self.weights.update(self.edge(e).weight as int, weight), ..self }
    }

    /// The network with connection `b` taking its weight from the cell of
    /// connection `a`.
    pub open spec fn share_weight(self, a: usize, b: usize) -> NetworkView
        recommends
            self.is_edge(a),
            self.is_edge(b),
    {
        self.set_edge(b, Connection { weight: self.edge(a).weight, ..self.edge(b) })
    }

    /// The network with the `k`-th input node holding `values[k]`.
    pub open spec fn set_inputs(self, values: Seq<NeuroFloat>) -> NetworkView
        recommends
            values.len() == self.inputs,
    {
        NetworkView {
            nodes: Seq::new(
                self.nodes.len(),
                |n: int|
                    if n < self.inputs {
                        Some(
                            NodeView {
                                state: NodeState::Input { value: values[n] },
                                ..self.nodes[n]->0
                            },
                        )
                    } else {
                        self.nodes[n]
                    },
            ),
            ..self
        }
    }

    /// What the output nodes hold as activation, in slot order.
    pub open spec fn output_signals(self) -> Seq<NeuroFloat> {
        Seq::new(self.outputs, |k: int| self.nodes[self.inputs + k]->0.signal())
    }
}

/// A change of scalars keeps the graph consistent.
pub proof fn lemma_same_wiring(v: NetworkView, w: NetworkView)
    requires
        v.wf(),
        v.same_wiring(w),
    ensures
        w.wf(),
{
    assert(w.nodes_wf()) by {
        assert forall|n: usize| n < w.inputs + w.outputs implies #[trigger] w.is_node(n) by {
            assert(v.is_node(n));
        }
        assert forall|n: usize| #[trigger] w.is_node(n) implies (w.node(n).is_input() <==> n
            < w.inputs) by {
            assert(v.is_node(n));
        }
        assert forall|n: usize| #[trigger] w.is_node(n) && w.node(n).is_hidden() implies (w.node(
            n,
        ).neuron().output <==> n < w.inputs + w.outputs) by {
            assert(v.is_node(n));
        }
    }
    assert(w.order_wf()) by {
        assert forall|p: int| 0 <= p < w.order.len() implies w.is_node(#[trigger] w.order[p]) by {
            assert(v.is_node(v.order[p]));
        }
        assert forall|n: usize| #[trigger] w.is_node(n) implies w.order.contains(n) by {
            assert(v.is_node(n));
        }
    }
    assert forall|e: usize| #[trigger] w.is_edge(e) implies w.edge_wf(e) by {
        assert(v.is_edge(e));
        assert(v.edge_wf(e));
        let c = v.edge(e);
        assert(v.is_node(c.from) && v.is_node(c.to));
        if let Some(g) = c.gater {
            assert(v.is_node(g));
        }
    }
    assert forall|n: usize| #[trigger] w.is_node(n) implies w.links_wf(n) by {
        assert(v.is_node(n));
        assert(v.links_wf(n));
        let k = v.links(n);
        assert forall|i: int| 0 <= i < k.outbound.len() implies w.leaves(
            #[trigger] k.outbound[i],
            n,
        ) by {
            assert(v.leaves(k.outbound[i], n));
            assert(v.is_edge(k.outbound[i]));
        }
        assert forall|i: int| 0 <= i < k.inbound.len() implies w.enters(#[trigger] k.inbound[i], n) by {
            assert(v.enters(k.inbound[i], n));
            assert(v.is_edge(k.inbound[i]));
        }
        assert forall|i: int| 0 <= i < k.gated.len() implies w.gated_by(#[trigger] k.gated[i], n) by {
            assert(v.gated_by(k.gated[i], n));
            assert(v.is_edge(k.gated[i]));
        }
        if let Some(x) = k.to_self {
            assert(v.loops_on(x, n));
            assert(v.is_edge(x));
        }
    }
}

/// Replacing what a hidden node holds, but for its output flag, changes
/// scalars only.
pub proof fn lemma_set_neuron(v: NetworkView, n: usize, neuron: Neuron)
    requires
        v.wf(),
        v.is_hidden(n),
        neuron.output == v.neuron(n).output,
    ensures
        v.same_wiring(v.set_neuron(n, neuron)),
        v.set_neuron(n, neuron).wf(),
{
    let w = v.set_neuron(n, neuron);
    assert forall|m: usize| #[trigger] w.is_node(m) <==> v.is_node(m) by {}
    assert forall|e: usize| #[trigger] v.is_edge(e) implies w.edge(e).weight < w.weights.len() by {
        assert(v.edge_wf(e));
    }
    lemma_same_wiring(v, w);
}

impl Network {
    /// Whether `n` names a live hidden node (an output node is one).
    pub fn has_hidden(&self, n: usize) -> (r: bool)
        ensures
            r == self@.is_hidden(n),
    {
        if n < self.nodes.len() {
            match &self.nodes[n] {
                Some(Node::Hidden { .. }) => true,
                _ => false,
            }
        } else {
            false
        }
    }

    /// Replaces what the hidden node `n` holds.
    pub(crate) fn store_neuron(&mut self, n: usize, neuron: Neuron)
        requires
            old(self).wf(),
            old(self)@.is_hidden(n),
            neuron.output == old(self)@.neuron(n).output,
        ensures
            final(self).wf(),
            final(self)@ == old(self)@.set_neuron(n, neuron),
    {
        match &mut self.nodes[n] {
            Some(
                Node::Hidden {
                    activation,
                    bias,
                    squash,
                    state,
                    previous,
                    mask,
                    derivative,
                    prev_delta_bias,
                    total_delta_bias,
                    ..
                },
            ) => {
                *activation = neuron.activation;
                *bias = neuron.bias;
                *squash = neuron.squash;
                *state = neuron.state;
                *previous = neuron.previous;
                *mask = neuron.mask;
                *derivative = neuron.derivative;
                *prev_delta_bias = neuron.prev_delta_bias;
                *total_delta_bias = neuron.total_delta_bias;
            },
            _ => {},
        }
        proof {
            assert(self@.nodes =~= old(self)@.set_neuron(n, neuron).nodes);
            assert(self@ =~= old(self)@.set_neuron(n, neuron));
            lemma_set_neuron(old(self)@, n, neuron);
        }
    }

    /// What the hidden node `n` holds.
    pub fn neuron(&self, n: usize) -> (r: Option<Neuron>)
        ensures
            self@.is_hidden(n) ==> r == Some(self@.neuron(n)),
            !self@.is_hidden(n) ==> r is None,
    {
        if n >= self.nodes.len() {
            return None;
        }
        match &self.nodes[n] {
            Some(
                Node::Hidden {
                    activation,
                    bias,
                    squash,
                    state,
                    previous,
                    mask,
                    derivative,
                    prev_delta_bias,
                    total_delta_bias,
                    output,
                    ..
                },
            ) => Some(
                Neuron {
                    activation: *activation,
                    bias: *bias,
                    squash: *squash,
                    state: *state,
                    previous: *previous,
                    mask: *mask,
                    derivative: *derivative,
                    prev_delta_bias: *prev_delta_bias,
                    total_delta_bias: *total_delta_bias,
                    output: *output,
                },
            ),
            _ => None,
        }
    }

    /// The hidden node `n`, or why there is none.
    fn hidden(&self, n: usize) -> (r: Result<Neuron, NetworkError>)
        ensures
            match self@.hidden_error(n) {
                Some(e) => r == Err::<Neuron, NetworkError>(e),
                None => r == Ok::<Neuron, NetworkError>(self@.neuron(n)),
            },
    {
        if !self.has_node(n) {
            return Err(NetworkError::DanglingReference);
        }
        match self.neuron(n) {
            Some(neuron) => Ok(neuron),
            None => Err(NetworkError::NoEligibleMutationTarget),
        }
    }

    /// Gives the hidden node `n` the bias `bias`.
    ///
    /// Fails, changing nothing, with `DanglingReference` if `n` names no
    /// live node and with `NoEligibleMutationTarget` if it names an input
    /// node, which has no bias.
    pub fn set_bias(&mut self, n: usize, bias: NeuroFloat) -> (r: Result<(), NetworkError>)
        requires
            old(self).wf(),
        ensures
            final(self).wf(),
            match old(self)@.hidden_error(n) {
                Some(e) => r == Err::<(), NetworkError>(e) && final(self)@ == old(self)@,
                None => r is Ok && final(self)@ == old(self)@.set_bias(n, bias),
            },
    {
        match self.hidden(n) {
            Err(e) => Err(e),
            Ok(neuron) => {
                self.store_neuron(
                    n,
                    Neuron {
                        activation: neuron.activation,
                        bias,
                        squash: neuron.squash,
                        state: neuron.state,
                        previous: neuron.previous,
                        mask: neuron.mask,
                        derivative: neuron.derivative,
                        prev_delta_bias: neuron.prev_delta_bias,
                        total_delta_bias: neuron.total_delta_bias,
                        output: neuron.output,
                    },
                );
                Ok(())
            },
        }
    }

    /// Gives the hidden node `n` the squash `squash`.
    ///
    /// Fails, changing nothing, with `DanglingReference` if `n` names no
    /// live node and with `NoEligibleMutationTarget` if it names an input
    /// node, which has no squash.
    pub fn set_squash(&mut self, n: usize, squash: Activation) -> (r: Result<(), NetworkError>)
        requires
            old(self).wf(),
        ensures
            final(self).wf(),
            match old(self)@.hidden_error(n) {
                Some(e) => r == Err::<(), NetworkError>(e) && final(self)@ == old(self)@,
                None => r is Ok && final(self)@ == old(self)@.set_squash(n, squash),
            },
    {
        match self.hidden(n) {
            Err(e) => Err(e),
            Ok(neuron) => {
                self.store_neuron(
                    n,
                    Neuron {
                        activation: neuron.activation,
                        bias: neuron.bias,
                        squash,
                        state: neuron.state,
                        previous: neuron.previous,
                        mask: neuron.mask,
                        derivative: neuron.derivative,
                        prev_delta_bias: neuron.prev_delta_bias,
                        total_delta_bias: neuron.total_delta_bias,
                        output: neuron.output,
                    },
                );
                Ok(())
            },
        }
    }

    /// Gives the hidden node `n` the mask `mask`.
    ///
    /// Fails, changing nothing, with `DanglingReference` if `n` names no
    /// live node and with `NoEligibleMutationTarget` if it names an input
    /// node, which has no mask.
    pub fn set_mask(&mut self, n: usize, mask: NeuroFloat) -> (r: Result<(), NetworkError>)
        requires
            old(self).wf(),
        ensures
            final(self).wf(),
            match old(self)@.hidden_error(n) {
                Some(e) => r == Err::<(), NetworkError>(e) && final(self)@ == old(self)@,
                None => r is Ok && final(self)@ == old(self)@.set_mask(n, mask),
            },
    {
        match self.hidden(n) {
            Err(e) => Err(e),
            Ok(neuron) => {
                self.store_neuron(
                    n,
                    Neuron {
                        activation: neuron.activation,
                        bias: neuron.bias,
                        squash: neuron.squash,
                        state: neuron.state,
                        previous: neuron.previous,
                        mask,
                        derivative: neuron.derivative,
                        prev_delta_bias: neuron.prev_delta_bias,
                        total_delta_bias: neuron.total_delta_bias,
                        output: neuron.output,
                    },
                );
                Ok(())
            },
        }
    }

    /// Exchanges bias and squash of the hidden nodes `a` and `b`; nothing
    /// else changes.
    ///
    /// Fails, changing nothing, if one of the two is not a live hidden
    /// node: with the error for `a` if there is one, else with that for `b`;
    /// `DanglingReference` for a handle that names no live node,
    /// `NoEligibleMutationTarget` for an input node.
    pub fn swap_nodes(&mut self, a: usize, b: usize) -> (r: Result<(), NetworkError>)
        requires
            old(self).wf(),
        ensures
            final(self).wf(),
            match old(self)@.hidden_error(a) {
                Some(e) => r == Err::<(), NetworkError>(e) && final(self)@ == old(self)@,
                None => match old(self)@.hidden_error(b) {
                    Some(e) => r == Err::<(), NetworkError>(e) && final(self)@ == old(self)@,
                    None => r is Ok && final(self)@ == old(self)@.swap_nodes(a, b),
                },
            },
    {
        let na = match self.hidden(a) {
            Err(e) => { return Err(e); },
            Ok(neuron) => neuron,
        };
        let nb = match self.hidden(b) {
            Err(e) => { return Err(e); },
            Ok(neuron) => neuron,
        };
        self.store_neuron(
            a,
            Neuron {
                activation: na.activation,
                bias: nb.bias,
                squash: nb.squash,
                state: na.state,
                previous: na.previous,
                mask: na.mask,
                derivative: na.derivative,
                prev_delta_bias: na.prev_delta_bias,
                total_delta_bias: na.total_delta_bias,
                output: na.output,
            },
        );
        proof {
            lemma_set_neuron(
                old(self)@,
                a,
                Neuron { bias: nb.bias, squash: nb.squash, ..na },
            );
        }
        let nb2 = Neuron {
            activation: nb.activation,
            bias: na.bias,
            squash: na.squash,
            state: nb.state,
            previous: nb.previous,
            mask: nb.mask,
            derivative: nb.derivative,
            prev_delta_bias: nb.prev_delta_bias,
            total_delta_bias: nb.total_delta_bias,
            output: nb.output,
        };
        self.store_neuron(b, nb2);
        Ok(())
    }

    /// Gives connection `e` the weight `weight`, and with it every
    /// connection that shares its weight cell.
    ///
    /// Fails with `DanglingReference`, changing nothing, if `e` names no
    /// live connection.
    pub fn set_weight(&mut self, e: usize, weight: NeuroFloat) -> (r: Result<(), NetworkError>)
        requires
            old(self).wf(),
        ensures
            final(self).wf(),
            old(self)@.is_edge(e) ==> r is Ok && final(self)@ == old(self)@.set_weight(e, weight),
            !old(self)@.is_edge(e) ==> r == Err::<(), NetworkError>(NetworkError::DanglingReference)
                && final(self)@ == old(self)@,
    {
        let c = match self.connection(e) {
            Some(c) => c,
            None => { return Err(NetworkError::DanglingReference); },
        };
        proof {
            assert(self@.edge_wf(e));
        }
        self.weights[c.weight] = weight;
        proof {
            let w = old(self)@.set_weight(e, weight);
            assert(self@ =~= w);
            assert forall|x: usize| #[trigger] old(self)@.is_edge(x) implies w.edge(x).weight
                < w.weights.len() by {
                assert(old(self)@.edge_wf(x));
            }
            lemma_same_wiring(old(self)@, w);
        }
        Ok(())
    }

    /// Makes connection `b` take its weight from the cell of connection
    /// `a`: from now on the two have one weight, whichever of them it is
    /// set through.
    ///
    /// Fails with `DanglingReference`, changing nothing, if `a` or `b`
    /// names no live connection.
    pub fn share_weight(&mut self, a: usize, b: usize) -> (r: Result<(), NetworkError>)
        requires
            old(self).wf(),
        ensures
            final(self).wf(),
            old(self)@.is_edge(a) && old(self)@.is_edge(b) ==> r is Ok
                && final(self)@ == old(self)@.share_weight(a, b),
            !(old(self)@.is_edge(a) && old(self)@.is_edge(b)) ==> r == Err::<(), NetworkError>(
                NetworkError::DanglingReference,
            ) && final(self)@ == old(self)@,
    {
        let ca = match self.connection(a) {
            Some(c) => c,
            None => { return Err(NetworkError::DanglingReference); },
        };
        let cb = match self.connection(b) {
            Some(c) => c,
            None => { return Err(NetworkError::DanglingReference); },
        };
        self.connections[b] = Some(
            Connection {
                from: cb.from,
                to: cb.to,
                weight: ca.weight,
                gain: cb.gain,
                gater: cb.gater,
                eligibility: cb.eligibility,
                prev_delta_weight: cb.prev_delta_weight,
                total_delta_weight: cb.total_delta_weight,
            },
        );
        proof {
            let w = old(self)@.share_weight(a, b);
            assert(self@ =~= w);
            assert forall|n: usize| #[trigger] w.is_node(n) <==> old(self)@.is_node(n) by {}
            assert forall|x: usize| #[trigger] old(self)@.is_edge(x) implies w.edge(x).weight
                < w.weights.len() by {
                assert(old(self)@.edge_wf(x));
                assert(old(self)@.edge_wf(a));
            }
            lemma_same_wiring(old(self)@, w);
        }
        Ok(())
    }

    /// Hands the network its inputs: the `k`-th input node takes
    /// `values[k]`.
    ///
    /// Fails with `InputSizeMismatch`, changing nothing, unless there are
    /// as many values as input nodes.
    pub fn set_inputs(&mut self, values: &Vec<NeuroFloat>) -> (r: Result<(), NetworkError>)
        requires
            old(self).wf(),
        ensures
            final(self).wf(),
            values@.len() == old(self)@.inputs ==> r is Ok && final(self)@ == old(self)@.set_inputs(
                values@,
            ),
            values@.len() != old(self)@.inputs ==> r == Err::<(), NetworkError>(
                NetworkError::InputSizeMismatch,
            ) && final(self)@ == old(self)@,
    {
        if values.len() != self.inputs {
            return Err(NetworkError::InputSizeMismatch);
        }
        let ghost start = self@;
        let mut k: usize = 0;
        while k < self.inputs
            invariant
                k <= self.inputs,
                start.wf(),
                values@.len() == start.inputs,
                self.inputs == start.inputs,
                self.nodes@.len() == start.nodes.len(),
                self@.edges == start.edges,
                self@.weights == start.weights,
                self@.order == start.order,
                self@.outputs == start.outputs,
                forall|n: int|
                    0 <= n < start.nodes.len() ==> #[trigger] self@.nodes[n] == (if n < k {
                        Some(
                            NodeView {
                                state: NodeState::Input { value: values@[n] },
                                ..start.nodes[n]->0
                            },
                        )
                    } else {
                        start.nodes[n]
                    }),
            decreases self.inputs - k,
        {
            let ghost before = self@;
            proof {
                assert(start.is_node(k));
                assert(start.node(k).is_input());
                assert(before.nodes[k as int] == start.nodes[k as int]);
            }
            match &mut self.nodes[k] {
                Some(Node::Input { value, .. }) => {
                    *value = values[k];
                },
                _ => {},
            }
            proof {
                assert forall|n: int| 0 <= n < start.nodes.len() implies #[trigger] self@.nodes[n]
                    == (if n < k + 1 {
                    Some(
                        NodeView {
                            state: NodeState::Input { value: values@[n] },
                            ..start.nodes[n]->0
                        },
                    )
                } else {
                    start.nodes[n]
                }) by {
                    if n != k {
                        assert(self@.nodes[n] == before.nodes[n]);
                    }
                }
            }
            k += 1;
        }
        proof {
            let w = start.set_inputs(values@);
            assert(self@.nodes =~= w.nodes);
            assert(self@ =~= w);
            assert forall|n: usize| #[trigger] w.is_node(n) <==> start.is_node(n) by {
                if n < start.inputs {
                    assert(start.is_node(n));
                }
            }
            assert forall|n: usize| #[trigger] start.is_node(n) implies w.links(n) == start.links(n)
                && (w.node(n).is_input() <==> start.node(n).is_input()) by {}
            assert forall|x: usize| #[trigger] start.is_edge(x) implies w.edge(x).weight
                < w.weights.len() by {
                assert(start.edge_wf(x));
            }
            lemma_same_wiring(start, w);
        }
        Ok(())
    }

    /// The activations of the output nodes, in slot order.
    pub fn outputs(&self) -> (r: Vec<NeuroFloat>)
        requires
            self.wf(),
        ensures
            r@ == self@.output_signals(),
    {
        let mut r: Vec<NeuroFloat> = Vec::new();
        let mut k: usize = 0;
        while k < self.outputs
            invariant
                k <= self.outputs,
                self.wf(),
                r@ == self@.output_signals().take(k as int),
            decreases self.outputs - k,
        {
            proof {
                assert(self@.is_node((self.inputs + k) as usize));
            }
            match &self.nodes[self.inputs + k] {
                Some(node) => {
                    r.push(node.signal());
                },
                None => {},
            }
            proof {
                assert(r@ =~= self@.output_signals().take(k + 1));
            }
            k += 1;
        }
        proof {
            assert(r@ =~= self@.output_signals());
        }
        r
    }
}

} // verus!
