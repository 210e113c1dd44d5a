use vstd::prelude::*;
use crate::activation::Activation;
use crate::lists::lemma_remove_value;
use crate::network::{Network, NetworkView};
use crate::node::{ConnectionsView, Neuron, Node, NodeState, NodeView};
use crate::scalar::NeuroFloat;

verus! {

impl NetworkView {
    /// A node without edges in the state it has before its first run: an
    /// input holding zero in the first `inputs` slots, an output node with
    /// bias zero and the first squash kind after them.
    pub open spec fn initial_node(inputs: nat, slot: int) -> NodeView {
        if slot < inputs {
            NodeView {
                state: NodeState::Input { value: NeuroFloat::spec_zero() },
                connections: ConnectionsView::empty(),
            }
        } else {
            NodeView {
                state: NodeState::Hidden {
                    neuron: Neuron::fresh(NeuroFloat::spec_zero(), Activation::Sigmoid, true),
                },
                connections: ConnectionsView::empty(),
            }
        }
    }

    /// The network of `inputs` input nodes and `outputs` output nodes with
    /// no connection between them.
    pub open spec fn initial(inputs: nat, outputs: nat) -> NetworkView {
        NetworkView {
            nodes: Seq::new(inputs + outputs, |slot: int| Some(Self::initial_node(inputs, slot))),
            edges: Seq::empty(),
            weights: Seq::empty(),
            order: Seq::new(inputs + outputs, |p: int| p as usize),
            inputs,
            outputs,
        }
    }

    /// The network with one more hidden node, in a new slot at the end of the
    /// arena and at position `pos` of the evaluation order.
    pub open spec fn insert_hidden(self, pos: int, bias: NeuroFloat, squash: Activation) -> NetworkView
        recommends
            self.inputs <= pos <= self.order.len() - self.outputs,
    {
        let node = NodeView {
            state: NodeState::Hidden { neuron: Neuron::fresh(bias, squash, false) },
            connections: ConnectionsView::empty(),
        };
        NetworkView {
            nodes: self.nodes.push(Some(node)),
            order: self.order.insert(pos, self.nodes.len() as usize),
            ..self
        }
    }

    /// The network with one more hidden node, evaluated after every other
    /// hidden node and before the outputs.
    pub open spec fn add_hidden(self, bias: NeuroFloat, squash: Activation) -> NetworkView {
        self.insert_hidden(self.order.len() - self.outputs, bias, squash)
    }

    /// Whether no connection touches node `n`.
    pub open spec fn isolated(self, n: usize) -> bool
        recommends
            self.is_node(n),
    {
        self.links(n) == ConnectionsView::empty()
    }

    /// Whether `n` is a live hidden node that is not an output: the only kind
    /// of node that can be removed.
    pub open spec fn is_inner(self, n: usize) -> bool {
        self.is_node(n) && n >= self.inputs + self.outputs
    }

    /// The network without node `n`: its slot is emptied and it leaves the
    /// evaluation order.
    pub open spec fn delete_node(self, n: usize) -> NetworkView
        recommends
            self.is_inner(n),
            self.isolated(n),
    {
        NetworkView {
            nodes: self.nodes.update(n as int, None),
            order: self.order.remove_value(n),
            ..self
        }
    }
}

/// The initial network is consistent.
pub proof fn lemma_initial_wf(inputs: nat, outputs: nat)
    requires
        inputs + outputs <= usize::MAX,
    ensures
        NetworkView::initial(inputs, outputs).wf(),
{
    let w = NetworkView::initial(inputs, outputs);
    assert forall|n: usize| #[trigger] w.is_node(n) implies w.order.contains(n) by {
        assert(w.order[n as int] == n);
    }
    assert forall|n: usize| #[trigger] w.is_node(n) implies w.links_wf(n) by {}
}

/// A new hidden node between the inputs and the outputs keeps the graph
/// consistent.
pub proof fn lemma_insert_hidden_wf(v: NetworkView, pos: int, bias: NeuroFloat, squash: Activation)
    requires
        v.wf(),
        v.nodes.len() < usize::MAX,
        v.inputs <= pos <= v.order.len() - v.outputs,
    ensures
        v.insert_hidden(pos, bias, squash).wf(),
{
    let w = v.insert_hidden(pos, bias, squash);
    let id = v.nodes.len() as usize;
    v.order.insert_ensures(pos, id);
    assert forall|n: usize| #[trigger] w.is_node(n) <==> (v.is_node(n) || n == id) by {}
    assert forall|n: usize| #[trigger] v.is_node(n) implies w.node(n) == v.node(n) by {}
    assert forall|e: usize| #[trigger] w.is_edge(e) <==> v.is_edge(e) by {}
    assert(!v.order.contains(id)) by {
        if v.order.contains(id) {
            let p = v.order.index_of(id);
            assert(v.is_node(v.order[p]));
        }
    }
    assert(w.order.no_duplicates()) by {
        assert forall|i: int, j: int|
            0 <= i < w.order.len() && 0 <= j < w.order.len() && i != j implies w.order[i]
            != w.order[j] by {
            let vi = if i < pos { i } else { i - 1 };
            let vj = if j < pos { j } else { j - 1 };
            if i != pos {
                assert(w.order[i] == v.order[vi]);
                assert(v.order.contains(v.order[vi]));
            }
            if j != pos {
                assert(w.order[j] == v.order[vj]);
                assert(v.order.contains(v.order[vj]));
            }
        }
    }
    assert forall|p: int| 0 <= p < w.order.len() implies w.is_node(#[trigger] w.order[p]) by {
        if p < pos {
            assert(w.order[p] == v.order[p]);
            assert(v.is_node(v.order[p]));
        } else if p > pos {
            assert(w.order[p] == v.order[p - 1]);
            assert(v.is_node(v.order[p - 1]));
        }
    }
    assert forall|n: usize| #[trigger] w.is_node(n) implies w.order.contains(n) by {
        if n == id {
            assert(w.order[pos] == n);
        } else {
            assert(v.is_node(n));
            let p = v.order.index_of(n);
            if p < pos {
                assert(w.order[p] == n);
            } else {
                assert(w.order[p + 1] == v.order[p]);
            }
        }
    }
    assert forall|p: int| 0 <= p < w.inputs implies #[trigger] w.order[p] == p by {
        assert(w.order[p] == v.order[p]);
    }
    assert forall|k: int| 0 <= k < w.outputs implies #[trigger] w.order[w.order.len() - w.outputs
        + k] == w.inputs + k by {
        let p = v.order.len() - v.outputs + k;
        assert(w.order[p + 1] == v.order[p]);
    }
    assert(w.nodes_wf()) by {
        assert forall|n: usize| n < w.inputs + w.outputs implies #[trigger] w.is_node(n) by {
            assert(v.is_node(n));
        }
        assert forall|n: usize| #[trigger] w.is_node(n) implies (w.node(n).is_input() <==> n
            < w.inputs) by {
            if n != id {
                assert(v.is_node(n));
            }
        }
        assert forall|n: usize| #[trigger] w.is_node(n) && w.node(n).is_hidden() implies (w.node(
            n,
        ).neuron().output <==> n < w.inputs + w.outputs) by {
            if n != id {
                assert(v.is_node(n));
            }
        }
    }
    assert forall|n: usize| #[trigger] w.is_node(n) implies w.links_wf(n) by {
        if n != id {
            assert(v.is_node(n));
            assert(v.links_wf(n));
            let k = v.links(n);
            assert forall|i: int| 0 <= i < k.outbound.len() implies w.leaves(
                #[trigger] k.outbound[i],
                n,
            ) by {
                assert(v.leaves(k.outbound[i], n));
            }
            assert forall|i: int| 0 <= i < k.inbound.len() implies w.enters(
                #[trigger] k.inbound[i],
                n,
            ) by {
                assert(v.enters(k.inbound[i], n));
            }
            assert forall|i: int| 0 <= i < k.gated.len() implies w.gated_by(#[trigger] k.gated[i], n) by {
                assert(v.gated_by(k.gated[i], n));
            }
            if let Some(x) = k.to_self {
                assert(v.loops_on(x, n));
            }
        }
    }
    assert forall|e: usize| #[trigger] w.is_edge(e) implies w.edge_wf(e) by {
        assert(v.is_edge(e));
        assert(v.edge_wf(e));
        let c = v.edge(e);
        assert(v.is_node(c.from) && v.is_node(c.to));
        if let Some(g) = c.gater {
            assert(v.is_node(g));
        }
    }
}

/// Removing a hidden node that no connection touches keeps the graph
/// consistent.
pub proof fn lemma_delete_node_wf(v: NetworkView, n: usize)
    requires
        v.wf(),
        v.is_inner(n),
        v.isolated(n),
    ensures
        v.delete_node(n).wf(),
{
    let w = v.delete_node(n);
    lemma_remove_value(v.order, n);
    assert(v.order.contains(n));
    let at = v.order.index_of(n);
    assert(w.order == v.order.remove(at));
    v.order.remove_ensures(at);
    assert(at >= v.inputs) by {
        if at < v.inputs {
            assert(v.order[at] == at);
        }
    }
    assert(at < v.order.len() - v.outputs) by {
        if at >= v.order.len() - v.outputs {
            let k = at - (v.order.len() - v.outputs);
            assert(v.order[v.order.len() - v.outputs + k] == v.inputs + k);
        }
    }
    assert forall|m: usize| #[trigger] w.is_node(m) <==> (v.is_node(m) && m != n) by {}
    assert forall|m: usize| #[trigger] w.is_node(m) implies w.node(m) == v.node(m) by {}
    assert forall|e: usize| #[trigger] w.is_edge(e) <==> v.is_edge(e) by {}
    assert forall|p: int| 0 <= p < w.order.len() implies w.is_node(#[trigger] w.order[p]) by {
        assert(w.order.contains(w.order[p]));
        assert(v.order.contains(w.order[p]));
        let q = v.order.index_of(w.order[p]);
        assert(v.is_node(v.order[q]));
    }
    assert forall|m: usize| #[trigger] w.is_node(m) implies w.order.contains(m) by {
        assert(v.is_node(m));
    }
    assert forall|p: int| 0 <= p < w.inputs implies #[trigger] w.order[p] == p by {
        assert(w.order[p] == v.order[p]);
    }
    assert forall|k: int| 0 <= k < w.outputs implies #[trigger] w.order[w.order.len() - w.outputs
        + k] == w.inputs + k by {
        let p = w.order.len() - w.outputs + k;
        assert(w.order[p] == v.order[p + 1]);
        assert(v.order[v.order.len() - v.outputs + k] == v.inputs + k);
    }
    assert(w.nodes_wf()) by {
        assert forall|m: usize| m < w.inputs + w.outputs implies #[trigger] w.is_node(m) by {
            assert(v.is_node(m));
        }
        assert forall|m: usize| #[trigger] w.is_node(m) implies (w.node(m).is_input() <==> m
            < w.inputs) by {
            assert(v.is_node(m));
        }
        assert forall|m: usize| #[trigger] w.is_node(m) && w.node(m).is_hidden() implies (w.node(
            m,
        ).neuron().output <==> m < w.inputs + w.outputs) by {
            assert(v.is_node(m));
        }
    }
    assert forall|m: usize| #[trigger] w.is_node(m) implies w.links_wf(m) by {
        assert(v.is_node(m));
        assert(v.links_wf(m));
        let k = v.links(m);
        assert forall|i: int| 0 <= i < k.outbound.len() implies w.leaves(
            #[trigger] k.outbound[i],
            m,
        ) by {
            assert(v.leaves(k.outbound[i], m));
        }
        assert forall|i: int| 0 <= i < k.inbound.len() implies w.enters(#[trigger] k.inbound[i], m) by {
            assert(v.enters(k.inbound[i], m));
        }
        assert forall|i: int| 0 <= i < k.gated.len() implies w.gated_by(#[trigger] k.gated[i], m) by {
            assert(v.gated_by(k.gated[i], m));
        }
        if let Some(x) = k.to_self {
            assert(v.loops_on(x, m));
        }
    }
    assert forall|e: usize| #[trigger] w.is_edge(e) implies w.edge_wf(e) by {
        assert(v.is_edge(e));
        assert(v.edge_wf(e));
        let c = v.edge(e);
        assert(v.is_node(c.from) && v.is_node(c.to));
        assert(v.links_wf(n));
        if c.from == n || c.to == n {
            if c.from == c.to {
                assert(v.links(n).to_self == Some(e));
            } else if c.from == n {
                assert(v.links(n).outbound.contains(e));
            } else {
                assert(v.links(n).inbound.contains(e));
            }
        }
        if let Some(g) = c.gater {
            assert(v.is_node(g));
        }
    }
}

impl Network {
    /// A network of `inputs` input nodes and `outputs` output nodes with no
    /// connection between them. Inputs hold zero; outputs have bias zero and
    /// the first squash kind.
    pub fn new(inputs: usize, outputs: usize) -> (r: Network)
        requires
            inputs + outputs <= usize::MAX,
        ensures
            r.wf(),
            r@ == NetworkView::initial(inputs as nat, outputs as nat),
    {
        let total: usize = inputs + outputs;
        let mut nodes: Vec<Option<Node>> = Vec::new();
        let mut order: Vec<usize> = Vec::new();
        let mut slot: usize = 0;
        while slot < total
            invariant
                slot <= total,
                total == inputs + outputs,
                nodes@.len() == slot,
                order@.len() == slot,
                forall|i: int|
                    0 <= i < slot ==> crate::network::slot_view(#[trigger] nodes@[i]) == Some(
                        NetworkView::initial_node(inputs as nat, i),
                    ),
                forall|i: int| 0 <= i < slot ==> #[trigger] order@[i] == i,
            decreases total - slot,
        {
            if slot < inputs {
                nodes.push(Some(Node::input(NeuroFloat::zero())));
            } else {
                nodes.push(Some(Node::hidden(NeuroFloat::zero(), Activation::Sigmoid, true)));
            }
            order.push(slot);
            slot += 1;
        }
        let r = Network {
            nodes,
            connections: Vec::new(),
            weights: Vec::new(),
            order,
            inputs,
            outputs,
        };
        proof {
            let w = NetworkView::initial(inputs as nat, outputs as nat);
            assert(r@.nodes =~= w.nodes);
            assert(r@.order =~= w.order);
            assert(r@ =~= w);
            lemma_initial_wf(inputs as nat, outputs as nat);
        }
        r
    }

    /// Adds a hidden node without edges and returns its handle. The node is
    /// evaluated after every other hidden node and before the outputs.
    pub fn add_hidden(&mut self, bias: NeuroFloat, squash: Activation) -> (id: usize)
        requires
            old(self).wf(),
        ensures
            final(self).wf(),
            final(self)@ == old(self)@.add_hidden(bias, squash),
            id == old(self)@.nodes.len(),
    {
        let pos: usize = self.order.len() - self.outputs;
        self.insert_hidden(pos, bias, squash)
    }

    /// Adds a hidden node without edges at position `pos` of the evaluation
    /// order.
    pub(crate) fn insert_hidden(&mut self, pos: usize, bias: NeuroFloat, squash: Activation) -> (id:
        usize)
        requires
            old(self).wf(),
            old(self)@.inputs <= pos <= old(self)@.order.len() - old(self)@.outputs,
        ensures
            final(self).wf(),
            final(self)@ == old(self)@.insert_hidden(pos as int, bias, squash),
            id == old(self)@.nodes.len(),
    {
        let id: usize = self.nodes.len();
        self.nodes.push(Some(Node::hidden(bias, squash, false)));
        assert(self.nodes.len() == id + 1);
        self.order.insert(pos, id);
        proof {
            let w = old(self)@.insert_hidden(pos as int, bias, squash);
            assert(self@.nodes =~= w.nodes);
            assert(self@ =~= w);
            lemma_insert_hidden_wf(old(self)@, pos as int, bias, squash);
        }
        id
    }
}

} // verus!
