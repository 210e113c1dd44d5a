use vstd::prelude::*;
use crate::connection::Connection;
use crate::node::{ConnectionsView, Node, NodeView};
use crate::scalar::NeuroFloat;

verus! {

/// A network as the contracts see it.
///
/// Nodes and connections live in two arenas and are named by their slot; a
/// slot whose item was removed stays empty, so a handle never comes to name
/// another item. `order` lists the live nodes in the order in which they are
/// evaluated: the input nodes, then the hidden nodes, then the output nodes.
#[verifier::ext_equal]
pub struct NetworkView {
    pub nodes: Seq<Option<NodeView>>,
    pub edges: Seq<Option<Connection>>,
    pub weights: Seq<NeuroFloat>,
    pub order: Seq<usize>,
    pub inputs: nat,
    pub outputs: nat,
}

impl NetworkView {
    /// Whether `n` names a live node.
    pub open spec fn is_node(self, n: usize) -> bool {
        n < self.nodes.len() && self.nodes[n as int] is Some
    }

    /// The node in slot `n`.
    pub open spec fn node(self, n: usize) -> NodeView
        recommends
            self.is_node(n),
    {
        self.nodes[n as int]->0
    }

    /// The edge lists of the node in slot `n`.
    pub open spec fn links(self, n: usize) -> ConnectionsView
        recommends
            self.is_node(n),
    {
        self.node(n).connections
    }

    /// Whether `e` names a live connection.
    pub open spec fn is_edge(self, e: usize) -> bool {
        e < self.edges.len() && self.edges[e as int] is Some
    }

    /// The connection in slot `e`.
    pub open spec fn edge(self, e: usize) -> Connection
        recommends
            self.is_edge(e),
    {
        self.edges[e as int]->0
    }

    /// The weight of the connection in slot `e`: what its cell holds.
    pub open spec fn weight_of(self, e: usize) -> NeuroFloat
        recommends
            self.is_edge(e),
    {
        self.weights[self.edge(e).weight as int]
    }

    /// Whether `e` is a live connection from `a` to `b`.
    pub open spec fn joins(self, e: usize, a: usize, b: usize) -> bool {
        self.is_edge(e) && self.edge(e).from == a && self.edge(e).to == b
    }

    /// Whether some live connection runs from `a` to `b`.
    pub open spec fn connected(self, a: usize, b: usize) -> bool {
        exists|e: usize| self.joins(e, a, b)
    }

    /// Whether `e` may stand in the outbound list of `n`.
    pub open spec fn leaves(self, e: usize, n: usize) -> bool {
        self.is_edge(e) && self.edge(e).from == n && self.edge(e).to != n
    }

    /// Whether `e` may stand in the inbound list of `n`.
    pub open spec fn enters(self, e: usize, n: usize) -> bool {
        self.is_edge(e) && self.edge(e).to == n && self.edge(e).from != n
    }

    /// Whether `e` may stand in the gated list of `n`.
    pub open spec fn gated_by(self, e: usize, n: usize) -> bool {
        self.is_edge(e) && self.edge(e).gater == Some(n)
    }

    /// Whether `e` may stand in the self-connection slot of `n`.
    pub open spec fn loops_on(self, e: usize, n: usize) -> bool {
        self.is_edge(e) && self.edge(e).from == n && self.edge(e).to == n
    }

    /// The edge lists of node `n` hold only what belongs there, each handle
    /// once.
    pub open spec fn links_wf(self, n: usize) -> bool {
        let l = self.links(n);
        &&& l.outbound.no_duplicates()
        &&& l.inbound.no_duplicates()
        &&& l.gated.no_duplicates()
        &&& forall|i: int| 0 <= i < l.outbound.len() ==> self.leaves(#[trigger] l.outbound[i], n)
        &&& forall|i: int| 0 <= i < l.inbound.len() ==> self.enters(#[trigger] l.inbound[i], n)
        &&& forall|i: int| 0 <= i < l.gated.len() ==> self.gated_by(#[trigger] l.gated[i], n)
        &&& l.to_self matches Some(e) ==> self.loops_on(e, n)
    }

    /// Connection `e` joins live nodes, names a weight cell, is gated by one
    /// of its own ends if at all, and stands in the lists of every node it
    /// touches.
    pub open spec fn edge_wf(self, e: usize) -> bool {
        let c = self.edge(e);
        &&& self.is_node(c.from)
        &&& self.is_node(c.to)
        &&& c.weight < self.weights.len()
        &&& c.gater matches Some(g) ==> (g == c.from || g == c.to) && self.links(g).gated.contains(e)
        &&& c.from == c.to ==> self.links(c.from).to_self == Some(e)
        &&& c.from != c.to ==> self.links(c.from).outbound.contains(e) && self.links(c.to).inbound.contains(e)
    }

    /// The node arena starts with the input nodes, then the output nodes;
    /// both kinds are never removed, and every other live node is hidden.
    pub open spec fn nodes_wf(self) -> bool {
        &&& self.nodes.len() <= usize::MAX
        &&& self.inputs + self.outputs <= self.nodes.len()
        &&& forall|n: usize|
            n < self.inputs + self.outputs ==> #[trigger] self.is_node(n)
        &&& forall|n: usize| #[trigger]
            self.is_node(n) ==> (self.node(n).is_input() <==> n < self.inputs)
        &&& forall|n: usize| #[trigger]
            self.is_node(n) && self.node(n).is_hidden() ==> (self.node(n).neuron().output <==> n
                < self.inputs + self.outputs)
    }

    /// The evaluation order lists every live node once: the inputs first, the
    /// outputs last, each group in slot order.
    pub open spec fn order_wf(self) -> bool {
        &&& self.order.no_duplicates()
        &&& self.inputs + self.outputs <= self.order.len()
        &&& forall|p: int| 0 <= p < self.order.len() ==> self.is_node(#[trigger] self.order[p])
        &&& forall|n: usize| #[trigger] self.is_node(n) ==> self.order.contains(n)
        &&& forall|p: int| 0 <= p < self.inputs ==> #[trigger] self.order[p] == p
        &&& forall|k: int|
            0 <= k < self.outputs ==> #[trigger] self.order[self.order.len() - self.outputs + k]
                == self.inputs + k
    }

    /// The graph is consistent in both directions: every list entry names a
    /// connection that belongs there, and every connection stands in the
    /// lists of its source, its destination and its gater.
    pub open spec fn wf(self) -> bool {
        &&& self.edges.len() <= usize::MAX
        &&& self.weights.len() <= usize::MAX
        &&& self.nodes_wf()
        &&& self.order_wf()
        &&& forall|e: usize| #[trigger] self.is_edge(e) ==> self.edge_wf(e)
        &&& forall|n: usize| #[trigger] self.is_node(n) ==> self.links_wf(n)
    }

    /// Where node `n` stands in the evaluation order.
    pub open spec fn position(self, n: usize) -> int
        recommends
            self.order.contains(n),
    {
        self.order.index_of(n)
    }

    /// Whether node `a` is evaluated before node `b`.
    pub open spec fn before(self, a: usize, b: usize) -> bool {
        self.position(a) < self.position(b)
    }
}

/// A mutable graph of nodes and weighted, optionally gated connections.
pub struct Network {
    pub(crate) nodes: Vec<Option<Node>>,
    pub(crate) connections: Vec<Option<Connection>>,
    pub(crate) weights: Vec<NeuroFloat>,
    pub(crate) order: Vec<usize>,
    pub(crate) inputs: usize,
    pub(crate) outputs: usize,
}

/// The view of a node slot.
pub open spec fn slot_view(slot: Option<Node>) -> Option<NodeView> {
    match slot {
        Some(node) => Some(node@),
        None => None,
    }
}

impl View for Network {
    type V = NetworkView;

    open(crate) spec fn view(&self) -> NetworkView {
        NetworkView {
            nodes: self.nodes@.map_values(|slot: Option<Node>| slot_view(slot)),
            edges: self.connections@,
            weights: self.weights@,
            order: self.order@,
            inputs: self.inputs as nat,
            outputs: self.outputs as nat,
        }
    }
}

impl Network {
    /// The invariant that every operation expects and keeps.
    pub open spec fn wf(&self) -> bool {
        self@.wf()
    }

    /// How many input nodes the network has.
    pub fn input_count(&self) -> (r: usize)
        ensures
            r == self@.inputs,
    {
        self.inputs
    }

    /// How many output nodes the network has.
    pub fn output_count(&self) -> (r: usize)
        ensures
            r == self@.outputs,
    {
        self.outputs
    }

    /// How many node slots the arena has; every node handle is below it.
    pub fn node_slots(&self) -> (r: usize)
        ensures
            r == self@.nodes.len(),
    {
        self.nodes.len()
    }

    /// How many connection slots the arena has; every connection handle is
    /// below it.
    pub fn connection_slots(&self) -> (r: usize)
        ensures
            r == self@.edges.len(),
    {
        self.connections.len()
    }

    /// Whether `n` names a live node.
    pub fn has_node(&self, n: usize) -> (r: bool)
        ensures
            r == self@.is_node(n),
    {
        n < self.nodes.len() && self.nodes[n].is_some()
    }

    /// Whether `e` names a live connection.
    pub fn has_connection(&self, e: usize) -> (r: bool)
        ensures
            r == self@.is_edge(e),
    {
        e < self.connections.len() && self.connections[e].is_some()
    }

    /// The record of connection `e`, if it is live.
    pub fn connection(&self, e: usize) -> (r: Option<Connection>)
        ensures
            self@.is_edge(e) ==> r == Some(self@.edge(e)),
            !self@.is_edge(e) ==> r is None,
    {
        if e < self.connections.len() {
            self.connections[e]
        } else {
            None
        }
    }

    /// Where node `n` stands in the evaluation order.
    pub fn position_of(&self, n: usize) -> (r: Option<usize>)
        requires
            self.wf(),
        ensures
            self@.is_node(n) ==> r is Some && r->0 == self@.position(n) && self@.position(n)
                < self@.order.len() && self@.order[self@.position(n)] == n,
            !self@.is_node(n) ==> r is None,
    {
        let mut p: usize = 0;
        while p < self.order.len()
            invariant
                p <= self.order.len(),
                forall|q: int| 0 <= q < p ==> self.order@[q] != n,
                self@.order == self.order@,
                self@.order_wf(),
            decreases self.order.len() - p,
        {
            if self.order[p] == n {
                proof {
                    assert(self@.is_node(self@.order[p as int]));
                    assert(self@.order.contains(n));
                }
                return Some(p);
            }
            p += 1;
        }
        proof {
            if self@.is_node(n) {
                assert(self@.order.contains(n));
            }
        }
        None
    }

    /// The nodes in the order in which a forward pass evaluates them.
    pub fn order(&self) -> (r: Vec<usize>)
        ensures
            r@ == self@.order,
    {
        let mut r: Vec<usize> = Vec::new();
        let mut p: usize = 0;
        while p < self.order.len()
            invariant
                p <= self.order.len(),
                r@ == self.order@.take(p as int),
            decreases self.order.len() - p,
        {
            r.push(self.order[p]);
            proof {
                assert(r@ =~= self.order@.take(p + 1));
            }
            p += 1;
        }
        proof {
            assert(self.order@.take(self.order@.len() as int) =~= self.order@);
        }
        r
    }

    /// The weight of connection `e`, if it is live: what its weight cell
    /// holds.
    pub fn weight(&self, e: usize) -> (r: Option<NeuroFloat>)
        requires
            self.wf(),
        ensures
            self@.is_edge(e) ==> r == Some(self@.weight_of(e)),
            !self@.is_edge(e) ==> r is None,
    {
        if e >= self.connections.len() {
            return None;
        }
        match self.connections[e] {
            Some(c) => {
                proof {
                    assert(self@.is_edge(e));
                    assert(self@.edge_wf(e));
                }
                Some(self.weights[c.weight])
            },
            None => None,
        }
    }

    /// The node in slot `n`, if it is live.
    pub fn node(&self, n: usize) -> (r: Option<&Node>)
        ensures
            self@.is_node(n) ==> r is Some && r->0@ == self@.node(n),
            !self@.is_node(n) ==> r is None,
    {
        if n < self.nodes.len() {
            match &self.nodes[n] {
                Some(node) => Some(node),
                None => None,
            }
        } else {
            None
        }
    }
}

} // verus!
