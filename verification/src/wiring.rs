use vstd::prelude::*;
use crate::connection::Connection;
use crate::lists::{lemma_push_contains, lemma_push_no_duplicates, lemma_remove_value};
use crate::network::{Network, NetworkView};
use crate::node::{ConnectionsView, NodeView};
use crate::scalar::NeuroFloat;

verus! {

impl NetworkView {
    /// The network with the edge lists of node `n` replaced.
    pub open spec fn set_links(self, n: usize, links: ConnectionsView) -> NetworkView
        recommends
            self.is_node(n),
    {
        NetworkView {
            nodes: self.nodes.update(n as int, Some(NodeView { connections: links, ..self.node(n) })),
            ..self
        }
    }

    /// The network with the record of connection `e` replaced.
    pub open spec fn set_edge(self, e: usize, c: Connection) -> NetworkView
        recommends
            self.is_edge(e),
    {
        NetworkView { edges: self.edges.update(e as int, Some(c)), ..self }
    }

    /// Whether `other` has the same nodes in the same states and the same
    /// order, whatever became of the edges.
    pub open spec fn same_nodes(self, other: NetworkView) -> bool {
        &&& other.nodes.len() == self.nodes.len()
        &&& other.order == self.order
        &&& other.inputs == self.inputs
        &&& other.outputs == self.outputs
        &&& forall|n: usize| #[trigger] other.is_node(n) <==> self.is_node(n)
        &&& forall|n: usize| #[trigger] self.is_node(n) ==> other.node(n).state == self.node(n).state
    }

    /// A fresh connection from `from` to `to`, with its weight in cell
    /// `cell`, in a new slot at the end of the arena: it is the
    /// self-connection of `from` where the two are one node, and else joins
    /// the outbound list of `from` and the inbound list of `to`, last in
    /// both.
    pub open spec fn link(self, from: usize, to: usize, cell: usize) -> NetworkView
        recommends
            self.is_node(from),
            self.is_node(to),
    {
        let id = self.edges.len() as usize;
        let grown = NetworkView {
            edges: self.edges.push(Some(Connection::spec_one2one(from, to, cell))),
            ..self
        };
        if from == to {
            grown.set_links(from, ConnectionsView { to_self: Some(id), ..self.links(from) })
        } else {
            let out = grown.set_links(
                from,
                ConnectionsView { outbound: self.links(from).outbound.push(id), ..self.links(from) },
            );
            out.set_links(
                to,
                ConnectionsView { inbound: self.links(to).inbound.push(id), ..self.links(to) },
            )
        }
    }

    /// Connection `e` without its gater: the gain goes back to one and the
    /// gater's gated list loses the handle. An ungated connection stays as
    /// it is.
    pub open spec fn ungate(self, e: usize) -> NetworkView
        recommends
            self.is_edge(e),
    {
        match self.edge(e).gater {
            None => self,
            Some(g) => self.set_edge(
                e,
                Connection { gater: None, gain: NeuroFloat::spec_one(), ..self.edge(e) },
            ).set_links(
                g,
                ConnectionsView { gated: self.links(g).gated.remove_value(e), ..self.links(g) },
            ),
        }
    }

    /// Connection `e` with `g` as its gater, last in the gated list of `g`.
    /// A former gater is detached first.
    pub open spec fn gate_edge(self, g: usize, e: usize) -> NetworkView
        recommends
            self.is_edge(e),
            self.is_node(g),
    {
        let u = self.ungate(e);
        u.set_edge(e, Connection { gater: Some(g), ..u.edge(e) }).set_links(
            g,
            ConnectionsView { gated: u.links(g).gated.push(e), ..u.links(g) },
        )
    }

    /// The network without connection `e`: its slot is emptied and its handle
    /// leaves the lists of its source, its destination and its gater.
    pub open spec fn unlink(self, e: usize) -> NetworkView
        recommends
            self.is_edge(e),
    {
        let c = self.edge(e);
        let u = self.ungate(e);
        let cut = NetworkView { edges: u.edges.update(e as int, None), ..u };
        if c.from == c.to {
            cut.set_links(c.from, ConnectionsView { to_self: None, ..cut.links(c.from) })
        } else {
            let out = cut.set_links(
                c.from,
                ConnectionsView {
                    outbound: cut.links(c.from).outbound.remove_value(e),
                    ..cut.links(c.from)
                },
            );
            out.set_links(
                c.to,
                ConnectionsView {
                    inbound: out.links(c.to).inbound.remove_value(e),
                    ..out.links(c.to)
                },
            )
        }
    }
}

/// Networks with the same nodes and order agree on the node and order part
/// of the invariant.
pub proof fn lemma_same_nodes(v: NetworkView, w: NetworkView)
    requires
        v.nodes_wf(),
        v.order_wf(),
        v.same_nodes(w),
    ensures
        w.nodes_wf(),
        w.order_wf(),
{
    assert forall|n: usize| n < w.inputs + w.outputs implies #[trigger] w.is_node(n) by {
        assert(v.is_node(n));
    }
    assert forall|n: usize| #[trigger] w.is_node(n) implies (w.node(n).is_input() <==> n
        < w.inputs) by {
        assert(v.is_node(n));
    }
    assert forall|n: usize| #[trigger] w.is_node(n) && w.node(n).is_hidden() implies (w.node(
        n,
    ).neuron().output <==> n < w.inputs + w.outputs) by {
        assert(v.is_node(n));
    }
    assert forall|p: int| 0 <= p < w.order.len() implies w.is_node(#[trigger] w.order[p]) by {
        assert(v.is_node(v.order[p]));
    }
    assert forall|n: usize| #[trigger] w.is_node(n) implies w.order.contains(n) by {
        assert(v.is_node(n));
    }
}

/// Linking two live nodes keeps the graph consistent.
pub proof fn lemma_link_wf(v: NetworkView, from: usize, to: usize, cell: usize)
    requires
        v.wf(),
        v.is_node(from),
        v.is_node(to),
        cell < v.weights.len(),
        v.edges.len() < usize::MAX,
        from == to ==> v.links(from).to_self is None,
    ensures
        v.link(from, to, cell).wf(),
        v.same_nodes(v.link(from, to, cell)),
{
    let w = v.link(from, to, cell);
    let id = v.edges.len() as usize;
    assert(v.same_nodes(w)) by {
        assert forall|n: usize| #[trigger] w.is_node(n) <==> v.is_node(n) by {}
        assert forall|n: usize| #[trigger] v.is_node(n) implies w.node(n).state == v.node(n).state by {}
    }
    lemma_same_nodes(v, w);
    assert forall|e: usize| #[trigger] w.is_edge(e) <==> (v.is_edge(e) || e == id) by {}
    assert forall|e: usize| #[trigger] v.is_edge(e) implies w.edge(e) == v.edge(e) by {}
    assert(v.links_wf(from));
    assert(v.links_wf(to));
    lemma_push_contains(v.links(from).outbound, id);
    lemma_push_contains(v.links(to).inbound, id);
    assert(!v.links(from).outbound.contains(id)) by {
        if v.links(from).outbound.contains(id) {
            let i = v.links(from).outbound.index_of(id);
            assert(v.leaves(v.links(from).outbound[i], from));
        }
    }
    assert(!v.links(to).inbound.contains(id)) by {
        if v.links(to).inbound.contains(id) {
            let i = v.links(to).inbound.index_of(id);
            assert(v.enters(v.links(to).inbound[i], to));
        }
    }
    lemma_push_no_duplicates(v.links(from).outbound, id);
    lemma_push_no_duplicates(v.links(to).inbound, id);
    assert forall|n: usize| #[trigger] w.is_node(n) implies w.links_wf(n) by {
        assert(v.is_node(n));
        assert(v.links_wf(n));
        let l = w.links(n);
        let k = v.links(n);
        assert(l.gated == k.gated);
        assert forall|i: int| 0 <= i < l.gated.len() implies w.gated_by(#[trigger] l.gated[i], n) by {
            assert(v.gated_by(k.gated[i], n));
        }
        assert forall|i: int| 0 <= i < l.outbound.len() implies w.leaves(
            #[trigger] l.outbound[i],
            n,
        ) by {
            if i < k.outbound.len() {
                assert(v.leaves(k.outbound[i], n));
            }
        }
        assert forall|i: int| 0 <= i < l.inbound.len() implies w.enters(#[trigger] l.inbound[i], n) by {
            if i < k.inbound.len() {
                assert(v.enters(k.inbound[i], n));
            }
        }
        if let Some(e) = l.to_self {
            if e != id {
                assert(k.to_self == Some(e));
                assert(v.loops_on(e, n));
            }
        }
    }
    assert forall|e: usize| #[trigger] w.is_edge(e) implies w.edge_wf(e) by {
        if e != id {
            assert(v.is_edge(e));
            assert(v.edge_wf(e));
            let c = v.edge(e);
            assert(v.is_node(c.from) && v.is_node(c.to));
            if let Some(g) = c.gater {
                assert(v.is_node(g));
                assert(w.links(g).gated == v.links(g).gated);
            }
        }
    }
}

/// Detaching the gater of a connection keeps the graph consistent.
pub proof fn lemma_ungate_wf(v: NetworkView, e: usize)
    requires
        v.wf(),
        v.is_edge(e),
    ensures
        v.ungate(e).wf(),
        v.same_nodes(v.ungate(e)),
{
    let w = v.ungate(e);
    assert(v.edge_wf(e));
    match v.edge(e).gater {
        None => {},
        Some(g) => {
            assert(v.is_node(g));
            assert(v.links_wf(g));
            lemma_remove_value(v.links(g).gated, e);
            assert(v.same_nodes(w)) by {
                assert forall|n: usize| #[trigger] w.is_node(n) <==> v.is_node(n) by {}
                assert forall|n: usize| #[trigger] v.is_node(n) implies w.node(n).state == v.node(
                    n,
                ).state by {}
            }
            lemma_same_nodes(v, w);
            assert forall|x: usize| #[trigger] w.is_edge(x) <==> v.is_edge(x) by {}
            assert forall|n: usize| #[trigger] w.is_node(n) implies w.links_wf(n) by {
                assert(v.is_node(n));
                assert(v.links_wf(n));
                let l = w.links(n);
                let k = v.links(n);
                assert forall|i: int| 0 <= i < l.outbound.len() implies w.leaves(
                    #[trigger] l.outbound[i],
                    n,
                ) by {
                    assert(v.leaves(k.outbound[i], n));
                }
                assert forall|i: int| 0 <= i < l.inbound.len() implies w.enters(
                    #[trigger] l.inbound[i],
                    n,
                ) by {
                    assert(v.enters(k.inbound[i], n));
                }
                assert forall|i: int| 0 <= i < l.gated.len() implies w.gated_by(
                    #[trigger] l.gated[i],
                    n,
                ) by {
                    assert(l.gated.contains(l.gated[i]));
                    assert(k.gated.contains(l.gated[i]));
                    let j = k.gated.index_of(l.gated[i]);
                    assert(v.gated_by(k.gated[j], n));
                }
                if let Some(x) = l.to_self {
                    assert(v.loops_on(x, n));
                }
            }
            assert forall|x: usize| #[trigger] w.is_edge(x) implies w.edge_wf(x) by {
                assert(v.is_edge(x));
                assert(v.edge_wf(x));
                let c = v.edge(x);
                assert(v.is_node(c.from) && v.is_node(c.to));
                if x != e {
                    if let Some(h) = c.gater {
                        assert(v.is_node(h));
                    }
                }
            }
        },
    }
}

/// Attaching one end of a connection as its gater keeps the graph
/// consistent.
pub proof fn lemma_gate_wf(v: NetworkView, g: usize, e: usize)
    requires
        v.wf(),
        v.is_edge(e),
        g == v.edge(e).from || g == v.edge(e).to,
    ensures
        v.gate_edge(g, e).wf(),
        v.same_nodes(v.gate_edge(g, e)),
{
    let u = v.ungate(e);
    let w = v.gate_edge(g, e);
    lemma_ungate_wf(v, e);
    assert(v.edge_wf(e));
    assert(u.is_edge(e));
    assert(u.edge_wf(e));
    assert(u.edge(e).gater is None);
    assert(u.edge(e).from == v.edge(e).from && u.edge(e).to == v.edge(e).to);
    assert(u.is_node(g));
    assert(u.links_wf(g));
    assert(!u.links(g).gated.contains(e)) by {
        if u.links(g).gated.contains(e) {
            let i = u.links(g).gated.index_of(e);
            assert(u.gated_by(u.links(g).gated[i], g));
        }
    }
    lemma_push_contains(u.links(g).gated, e);
    lemma_push_no_duplicates(u.links(g).gated, e);
    assert(u.same_nodes(w)) by {
        assert forall|n: usize| #[trigger] w.is_node(n) <==> u.is_node(n) by {}
        assert forall|n: usize| #[trigger] u.is_node(n) implies w.node(n).state == u.node(n).state by {}
    }
    lemma_same_nodes(u, w);
    assert(v.same_nodes(w)) by {
        assert forall|n: usize| #[trigger] w.is_node(n) <==> v.is_node(n) by {
            assert(u.is_node(n) <==> v.is_node(n));
        }
        assert forall|n: usize| #[trigger] v.is_node(n) implies w.node(n).state == v.node(n).state by {
            assert(u.is_node(n));
        }
    }
    assert forall|x: usize| #[trigger] w.is_edge(x) <==> u.is_edge(x) by {}
    assert forall|n: usize| #[trigger] w.is_node(n) implies w.links_wf(n) by {
        assert(u.is_node(n));
        assert(u.links_wf(n));
        let l = w.links(n);
        let k = u.links(n);
        assert forall|i: int| 0 <= i < l.outbound.len() implies w.leaves(
            #[trigger] l.outbound[i],
            n,
        ) by {
            assert(u.leaves(k.outbound[i], n));
        }
        assert forall|i: int| 0 <= i < l.inbound.len() implies w.enters(#[trigger] l.inbound[i], n) by {
            assert(u.enters(k.inbound[i], n));
        }
        assert forall|i: int| 0 <= i < l.gated.len() implies w.gated_by(#[trigger] l.gated[i], n) by {
            if i < k.gated.len() {
                assert(u.gated_by(k.gated[i], n));
            }
        }
        if let Some(x) = l.to_self {
            assert(u.loops_on(x, n));
        }
    }
    assert forall|x: usize| #[trigger] w.is_edge(x) implies w.edge_wf(x) by {
        assert(u.is_edge(x));
        assert(u.edge_wf(x));
        let c = u.edge(x);
        assert(u.is_node(c.from) && u.is_node(c.to));
        if x != e {
            if let Some(h) = c.gater {
                assert(u.is_node(h));
            }
        }
    }
}

/// Removing a connection keeps the graph consistent.
pub proof fn lemma_unlink_wf(v: NetworkView, e: usize)
    requires
        v.wf(),
        v.is_edge(e),
    ensures
        v.unlink(e).wf(),
        v.same_nodes(v.unlink(e)),
{
    let c = v.edge(e);
    let u = v.ungate(e);
    let w = v.unlink(e);
    lemma_ungate_wf(v, e);
    assert(v.edge_wf(e));
    assert(u.is_edge(e));
    assert(u.edge_wf(e));
    assert(u.edge(e).from == c.from && u.edge(e).to == c.to && u.edge(e).gater is None);
    assert(u.is_node(c.from) && u.is_node(c.to));
    assert(u.links_wf(c.from));
    assert(u.links_wf(c.to));
    lemma_remove_value(u.links(c.from).outbound, e);
    lemma_remove_value(u.links(c.to).inbound, e);
    assert(u.same_nodes(w)) by {
        assert forall|n: usize| #[trigger] w.is_node(n) <==> u.is_node(n) by {}
        assert forall|n: usize| #[trigger] u.is_node(n) implies w.node(n).state == u.node(n).state by {}
    }
    lemma_same_nodes(u, w);
    assert(v.same_nodes(w)) by {
        assert forall|n: usize| #[trigger] w.is_node(n) <==> v.is_node(n) by {
            assert(u.is_node(n) <==> v.is_node(n));
        }
        assert forall|n: usize| #[trigger] v.is_node(n) implies w.node(n).state == v.node(n).state by {
            assert(u.is_node(n));
        }
    }
    assert forall|x: usize| #[trigger] w.is_edge(x) <==> (u.is_edge(x) && x != e) by {}
    assert forall|n: usize| #[trigger] w.is_node(n) implies w.links_wf(n) by {
        assert(u.is_node(n));
        assert(u.links_wf(n));
        let l = w.links(n);
        let k = u.links(n);
        assert forall|i: int| 0 <= i < l.outbound.len() implies w.leaves(
            #[trigger] l.outbound[i],
            n,
        ) by {
            let x = l.outbound[i];
            assert(l.outbound.contains(x));
            assert(k.outbound.contains(x));
            let j = k.outbound.index_of(x);
            assert(u.leaves(k.outbound[j], n));
            assert(x != e);
        }
        assert forall|i: int| 0 <= i < l.inbound.len() implies w.enters(#[trigger] l.inbound[i], n) by {
            let x = l.inbound[i];
            assert(l.inbound.contains(x));
            assert(k.inbound.contains(x));
            let j = k.inbound.index_of(x);
            assert(u.enters(k.inbound[j], n));
            assert(x != e);
        }
        assert forall|i: int| 0 <= i < l.gated.len() implies w.gated_by(#[trigger] l.gated[i], n) by {
            assert(u.gated_by(k.gated[i], n));
        }
        if let Some(x) = l.to_self {
            assert(u.loops_on(x, n));
        }
    }
    assert forall|x: usize| #[trigger] w.is_edge(x) implies w.edge_wf(x) by {
        assert(u.is_edge(x));
        assert(u.edge_wf(x));
        let d = u.edge(x);
        assert(u.is_node(d.from) && u.is_node(d.to));
        if let Some(h) = d.gater {
            assert(u.is_node(h));
        }
    }
}

impl Network {
    /// Adds a fresh connection between two live nodes and returns its handle.
    pub(crate) fn link(&mut self, from: usize, to: usize, cell: usize) -> (id: usize)
        requires
            old(self).wf(),
            old(self)@.is_node(from),
            old(self)@.is_node(to),
            cell < old(self)@.weights.len(),
            from == to ==> old(self)@.links(from).to_self is None,
        ensures
            final(self).wf(),
            final(self)@ == old(self)@.link(from, to, cell),
            id == old(self)@.edges.len(),
    {
        let id: usize = self.connections.len();
        self.connections.push(Some(Connection::one2one(from, to, cell)));
        assert(self.connections.len() == id + 1);
        if from == to {
            match &mut self.nodes[from] {
                Some(node) => {
                    node.connections_mut().to_self = Some(id);
                },
                None => {},
            }
        } else {
            match &mut self.nodes[from] {
                Some(node) => {
                    node.connections_mut().outbound.push(id);
                },
                None => {},
            }
            match &mut self.nodes[to] {
                Some(node) => {
                    node.connections_mut().inbound.push(id);
                },
                None => {},
            }
        }
        proof {
            assert(self@.nodes =~= old(self)@.link(from, to, cell).nodes);
            assert(self@ =~= old(self)@.link(from, to, cell));
            lemma_link_wf(old(self)@, from, to, cell);
        }
        id
    }

    /// Detaches the gater of a live connection, if it has one.
    pub(crate) fn ungate_edge(&mut self, e: usize)
        requires
            old(self).wf(),
            old(self)@.is_edge(e),
        ensures
            final(self).wf(),
            final(self)@ == old(self)@.ungate(e),
    {
        let c: Connection = match self.connections[e] {
            Some(c) => c,
            None => { return ; },
        };
        match c.gater {
            None => {},
            Some(g) => {
                proof {
                    assert(old(self)@.edge_wf(e));
                    assert(old(self)@.is_node(g));
                    assert(old(self)@.links_wf(g));
                }
                self.connections[e] = Some(
                    Connection {
                        from: c.from,
                        to: c.to,
                        weight: c.weight,
                        gain: NeuroFloat::one(),
                        gater: None,
                        eligibility: c.eligibility,
                        prev_delta_weight: c.prev_delta_weight,
                        total_delta_weight: c.total_delta_weight,
                    },
                );
                match &mut self.nodes[g] {
                    Some(node) => {
                        remove_handle(&mut node.connections_mut().gated, e);
                    },
                    None => {},
                }
                proof {
                    assert(self@.nodes =~= old(self)@.ungate(e).nodes);
                    assert(self@ =~= old(self)@.ungate(e));
                }
            },
        }
        proof {
            lemma_ungate_wf(old(self)@, e);
        }
    }

    /// Makes one end of a live connection its gater.
    pub(crate) fn gate_edge(&mut self, g: usize, e: usize)
        requires
            old(self).wf(),
            old(self)@.is_edge(e),
            g == old(self)@.edge(e).from || g == old(self)@.edge(e).to,
        ensures
            final(self).wf(),
            final(self)@ == old(self)@.gate_edge(g, e),
    {
        self.ungate_edge(e);
        let ghost u = self@;
        proof {
            assert(old(self)@.edge_wf(e));
            lemma_ungate_wf(old(self)@, e);
            assert(u.is_edge(e));
            assert(u.is_node(g));
        }
        let c: Connection = match self.connections[e] {
            Some(c) => c,
            None => { return ; },
        };
        self.connections[e] = Some(
            Connection {
                from: c.from,
                to: c.to,
                weight: c.weight,
                gain: c.gain,
                gater: Some(g),
                eligibility: c.eligibility,
                prev_delta_weight: c.prev_delta_weight,
                total_delta_weight: c.total_delta_weight,
            },
        );
        match &mut self.nodes[g] {
            Some(node) => {
                node.connections_mut().gated.push(e);
            },
            None => {},
        }
        proof {
            assert(self@.nodes =~= old(self)@.gate_edge(g, e).nodes);
            assert(self@ =~= old(self)@.gate_edge(g, e));
            lemma_gate_wf(old(self)@, g, e);
        }
    }

    /// Removes a live connection from the arena and from every list.
    pub(crate) fn unlink(&mut self, e: usize)
        requires
            old(self).wf(),
            old(self)@.is_edge(e),
        ensures
            final(self).wf(),
            final(self)@ == old(self)@.unlink(e),
    {
        self.ungate_edge(e);
        let ghost u = self@;
        proof {
            assert(old(self)@.edge_wf(e));
            lemma_ungate_wf(old(self)@, e);
            assert(u.is_edge(e));
            assert(u.edge_wf(e));
        }
        let c: Connection = match self.connections[e] {
            Some(c) => c,
            None => { return ; },
        };
        proof {
            assert(u.is_node(c.from) && u.is_node(c.to));
            assert(u.links_wf(c.from));
            assert(u.links_wf(c.to));
        }
        self.connections[e] = None;
        if c.from == c.to {
            match &mut self.nodes[c.from] {
                Some(node) => {
                    node.connections_mut().to_self = None;
                },
                None => {},
            }
        } else {
            match &mut self.nodes[c.from] {
                Some(node) => {
                    remove_handle(&mut node.connections_mut().outbound, e);
                },
                None => {},
            }
            match &mut self.nodes[c.to] {
                Some(node) => {
                    remove_handle(&mut node.connections_mut().inbound, e);
                },
                None => {},
            }
        }
        proof {
            assert(self@.nodes =~= old(self)@.unlink(e).nodes);
            assert(self@ =~= old(self)@.unlink(e));
            lemma_unlink_wf(old(self)@, e);
        }
    }
}

/// Takes the handle `x` out of a list that holds no handle twice.
pub(crate) fn remove_handle(list: &mut Vec<usize>, x: usize)
    requires
        old(list)@.no_duplicates(),
    ensures
        final(list)@ == old(list)@.remove_value(x),
{
    let mut i: usize = 0;
    while i < list.len()
        invariant
            i <= list.len(),
            list@ == old(list)@,
            list@.no_duplicates(),
            forall|k: int| 0 <= k < i ==> list@[k] != x,
        decreases list.len() - i,
    {
        if list[i] == x {
            proof {
                lemma_remove_value(list@, x);
            }
            list.remove(i);
            return ;
        }
        i += 1;
    }
    proof {
        lemma_remove_value(list@, x);
        assert(!list@.contains(x));
    }
}

} // verus!
