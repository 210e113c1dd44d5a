use vstd::prelude::*;
use crate::activation::Activation;
use crate::scalar::NeuroFloat;

verus! {

/// The edge lists of one node: handles of the connections that leave it,
/// enter it and are gated by it, and of its self-connection.
#[derive(Debug)]
pub struct Connections {
    pub outbound: Vec<usize>,
    pub inbound: Vec<usize>,
    pub gated: Vec<usize>,
    pub to_self: Option<usize>,
}

/// The edge lists of one node, as sequences.
pub struct ConnectionsView {
    pub outbound: Seq<usize>,
    pub inbound: Seq<usize>,
    pub gated: Seq<usize>,
    pub to_self: Option<usize>,
}

impl ConnectionsView {
    /// No edge at all.
    pub open spec fn empty() -> ConnectionsView {
        ConnectionsView {
            outbound: Seq::empty(),
            inbound: Seq::empty(),
            gated: Seq::empty(),
            to_self: None,
        }
    }
}

impl View for Connections {
    type V = ConnectionsView;

    open spec fn view(&self) -> ConnectionsView {
        ConnectionsView {
            outbound: self.outbound@,
            inbound: self.inbound@,
            gated: self.gated@,
            to_self: self.to_self,
        }
    }
}

impl Default for Connections {
    fn default() -> (r: Connections)
        ensures
            r@ == ConnectionsView::empty(),
    {
        Connections { outbound: Vec::new(), inbound: Vec::new(), gated: Vec::new(), to_self: None }
    }
}

/// A vertex of the network.
#[derive(Debug)]
pub enum Node {
    /// Holds a value assigned from outside; nothing is computed for it.
    Input { value: NeuroFloat, connections: Connections },
    /// Computes its activation from its inbound edges. Output nodes are
    /// hidden nodes with `output` set.
    Hidden {
        activation: NeuroFloat,
        connections: Connections,
        bias: NeuroFloat,
        squash: Activation,
        state: NeuroFloat,
        previous: NeuroFloat,
        mask: NeuroFloat,
        derivative: NeuroFloat,
        prev_delta_bias: NeuroFloat,
        total_delta_bias: NeuroFloat,
        output: bool,
    },
}

/// What a hidden node holds besides its edge lists.
#[derive(Clone, Copy, Debug, PartialEq, Eq, Structural)]
pub struct Neuron {
    /// The last squashed output.
    pub activation: NeuroFloat,
    pub bias: NeuroFloat,
    pub squash: Activation,
    /// The accumulator before the squash.
    pub state: NeuroFloat,
    /// The state of the forward pass before the last one.
    pub previous: NeuroFloat,
    /// Multiplier on the output; one while the node is enabled.
    pub mask: NeuroFloat,
    /// Slope of the squash at the last state.
    pub derivative: NeuroFloat,
    pub prev_delta_bias: NeuroFloat,
    pub total_delta_bias: NeuroFloat,
    pub output: bool,
}

impl Neuron {
    /// A node that has not run yet: mask one, everything else zero.
    pub open spec fn fresh(bias: NeuroFloat, squash: Activation, output: bool) -> Neuron {
        Neuron {
            activation: NeuroFloat::spec_zero(),
            bias,
            squash,
            state: NeuroFloat::spec_zero(),
            previous: NeuroFloat::spec_zero(),
            mask: NeuroFloat::spec_one(),
            derivative: NeuroFloat::spec_zero(),
            prev_delta_bias: NeuroFloat::spec_zero(),
            total_delta_bias: NeuroFloat::spec_zero(),
            output,
        }
    }
}

/// The two variants of a node, without the edge lists.
pub enum NodeState {
    Input { value: NeuroFloat },
    Hidden { neuron: Neuron },
}

/// A node as the contracts see it: its state and its edge lists.
pub struct NodeView {
    pub state: NodeState,
    pub connections: ConnectionsView,
}

impl NodeView {
    /// What an edge that leaves this node carries: an input's value, a hidden
    /// node's activation.
    pub open spec fn signal(self) -> NeuroFloat {
        match self.state {
            NodeState::Input { value } => value,
            NodeState::Hidden { neuron } => neuron.activation,
        }
    }

    /// Whether the node is a hidden node (an output node is one).
    pub open spec fn is_hidden(self) -> bool {
        self.state is Hidden
    }

    /// Whether the node is an input node.
    pub open spec fn is_input(self) -> bool {
        self.state is Input
    }

    /// What a hidden node holds.
    pub open spec fn neuron(self) -> Neuron
        recommends
            self.is_hidden(),
    {
        self.state->neuron
    }
}

impl View for Node {
    type V = NodeView;

    open spec fn view(&self) -> NodeView {
        match *self {
            Node::Input { value, connections } => NodeView {
                state: NodeState::Input { value },
                connections: connections@,
            },
            Node::Hidden {
                activation,
                connections,
                bias,
                squash,
                state,
                previous,
                mask,
                derivative,
                prev_delta_bias,
                total_delta_bias,
                output,
            } => NodeView {
                state: NodeState::Hidden {
                    neuron: Neuron {
                        activation,
                        bias,
                        squash,
                        state,
                        previous,
                        mask,
                        derivative,
                        prev_delta_bias,
                        total_delta_bias,
                        output,
                    },
                },
                connections: connections@,
            },
        }
    }
}

impl Node {
    /// A fresh input node holding `value`, with no edges.
    pub fn input(value: NeuroFloat) -> (r: Node)
        ensures
            r@ == (NodeView { state: NodeState::Input { value }, connections: ConnectionsView::empty() }),
    {
        Node::Input { value, connections: Connections::default() }
    }

    /// A fresh hidden node with no edges: mask one, every other scalar zero.
    pub fn hidden(bias: NeuroFloat, squash: Activation, output: bool) -> (r: Node)
        ensures
            r@ == (NodeView {
                state: NodeState::Hidden { neuron: Neuron::fresh(bias, squash, output) },
                connections: ConnectionsView::empty(),
            }),
    {
        Node::Hidden {
            activation: NeuroFloat::zero(),
            connections: Connections::default(),
            bias,
            squash,
            state: NeuroFloat::zero(),
            previous: NeuroFloat::zero(),
            mask: NeuroFloat::one(),
            derivative: NeuroFloat::zero(),
            prev_delta_bias: NeuroFloat::zero(),
            total_delta_bias: NeuroFloat::zero(),
            output,
        }
    }

    /// The node's edge lists.
    pub fn connections(&self) -> (r: &Connections)
        ensures
            r@ == self@.connections,
    {
        match self {
            Node::Input { connections, .. } => connections,
            Node::Hidden { connections, .. } => connections,
        }
    }

    /// The node's edge lists, to be changed in place; the node's state stays.
    pub fn connections_mut(&mut self) -> (r: &mut Connections)
        ensures
            r@ == old(self)@.connections,
            final(self)@ == (NodeView { connections: final(r)@, ..old(self)@ }),
    {
        match self {
            Node::Input { connections, .. } => connections,
            Node::Hidden { connections, .. } => connections,
        }
    }

    /// What an edge that leaves this node carries: an input's value, a hidden
    /// node's activation.
    pub fn signal(&self) -> (r: NeuroFloat)
        ensures
            r == self@.signal(),
    {
        match self {
            Node::Input { value, .. } => *value,
            Node::Hidden { activation, .. } => *activation,
        }
    }
}

} // verus!
