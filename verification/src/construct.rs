use vstd::prelude::*;
use crate::error::NetworkError;
use crate::kinds::GatingKind;
use crate::network::{Network, NetworkView};
use crate::scalar::NeuroFloat;
use crate::wiring::lemma_same_nodes;

verus! {

impl NetworkView {
    /// The network with one more weight cell holding `weight`.
    pub open spec fn new_cell(self, weight: NeuroFloat) -> NetworkView {
        NetworkView { weights: self.weights.push(weight), ..self }
    }

    /// The network with a fresh connection from `from` to `to` whose weight,
    /// in a cell of its own, is `weight`.
    pub open spec fn connect_with(self, from: usize, to: usize, weight: NeuroFloat) -> NetworkView
        recommends
            self.is_node(from),
            self.is_node(to),
    {
        self.new_cell(weight).link(from, to, self.weights.len() as usize)
    }

    /// The network with a fresh connection from `from` to `to` of weight
    /// zero.
    pub open spec fn connect(self, from: usize, to: usize) -> NetworkView
        recommends
            self.is_node(from),
            self.is_node(to),
    {
        self.connect_with(from, to, NeuroFloat::spec_zero())
    }

    /// Why a connection from `from` to `to` is refused, if it is: a handle
    /// names no live node; or the two are connected already and either no
    /// parallel edge was asked for or the edge would be a second
    /// self-connection.
    pub open spec fn connect_error(self, from: usize, to: usize, parallel: bool) -> Option<
        NetworkError,
    > {
        if !self.is_node(from) || !self.is_node(to) {
            Some(NetworkError::DanglingReference)
        } else if self.connected(from, to) && (!parallel || from == to) {
            Some(NetworkError::DuplicateConnection)
        } else {
            None
        }
    }

    /// Whether connection `e` stands in the relation to `g` that `kind`
    /// names.
    pub open spec fn gate_legal(self, g: usize, e: usize, kind: GatingKind) -> bool {
        match kind {
            GatingKind::Output => self.leaves(e, g),
            GatingKind::Input => self.enters(e, g),
            GatingKind::ToSelf => self.loops_on(e, g),
        }
    }

    /// Why `g` is refused as gater of `e`, if it is: a handle names nothing
    /// live, or the edge does not stand in the relation that `kind` names.
    pub open spec fn gate_error(self, g: usize, e: usize, kind: GatingKind) -> Option<NetworkError> {
        if !self.is_node(g) || !self.is_edge(e) {
            Some(NetworkError::DanglingReference)
        } else if !self.gate_legal(g, e, kind) {
            Some(NetworkError::InvalidGateTarget)
        } else {
            None
        }
    }
}

/// A new weight cell keeps the graph consistent.
pub proof fn lemma_new_cell_wf(v: NetworkView, weight: NeuroFloat)
    requires
        v.wf(),
        v.weights.len() < usize::MAX,
    ensures
        v.new_cell(weight).wf(),
{
    let w = v.new_cell(weight);
    assert(v.same_nodes(w)) by {
        assert forall|n: usize| #[trigger] w.is_node(n) <==> v.is_node(n) by {}
    }
    lemma_same_nodes(v, w);
    assert forall|e: usize| #[trigger] w.is_edge(e) implies w.edge_wf(e) by {
        assert(v.is_edge(e));
        assert(v.edge_wf(e));
    }
    assert forall|n: usize| #[trigger] w.is_node(n) implies w.links_wf(n) by {
        assert(v.is_node(n));
        assert(v.links_wf(n));
        let k = v.links(n);
        assert forall|i: int| 0 <= i < k.outbound.len() implies w.leaves(
            #[trigger] k.outbound[i],
            n,
        ) by {
            assert(v.leaves(k.outbound[i], n));
        }
        assert forall|i: int| 0 <= i < k.inbound.len() implies w.enters(#[trigger] k.inbound[i], n) by {
            assert(v.enters(k.inbound[i], n));
        }
        assert forall|i: int| 0 <= i < k.gated.len() implies w.gated_by(#[trigger] k.gated[i], n) by {
            assert(v.gated_by(k.gated[i], n));
        }
        if let Some(x) = k.to_self {
            assert(v.loops_on(x, n));
        }
    }
}

impl Network {
    /// Whether some live connection runs from `from` to `to`.
    pub fn is_connected(&self, from: usize, to: usize) -> (r: bool)
        requires
            self.wf(),
        ensures
            r == self@.connected(from, to),
    {
        if !self.has_node(from) {
            proof {
                if self@.connected(from, to) {
                    let e = choose|e: usize| self@.joins(e, from, to);
                    assert(self@.edge_wf(e));
                }
            }
            return false;
        }
        proof {
            assert(self@.links_wf(from));
        }
        let node = match &self.nodes[from] {
            Some(node) => node,
            None => { return false; },
        };
        let links = node.connections();
        if from == to {
            match links.to_self {
                Some(e) => {
                    proof {
                        assert(self@.joins(e, from, to));
                    }
                    true
                },
                None => {
                    proof {
                        if self@.connected(from, to) {
                            let e = choose|e: usize| self@.joins(e, from, to);
                            assert(self@.edge_wf(e));
                        }
                    }
                    false
                },
            }
        } else {
            let mut i: usize = 0;
            while i < links.outbound.len()
                invariant
                    i <= links.outbound.len(),
                    self.wf(),
                    self@.is_node(from),
                    links@ == self@.links(from),
                    from != to,
                    forall|k: int| 0 <= k < i ==> self@.edge(#[trigger] links.outbound@[k]).to != to,
                decreases links.outbound.len() - i,
            {
                let e: usize = links.outbound[i];
                proof {
                    assert(self@.links_wf(from));
                    assert(self@.leaves(links.outbound@[i as int], from));
                }
                match self.connections[e] {
                    Some(c) => {
                        if c.to == to {
                            proof {
                                assert(self@.joins(e, from, to));
                            }
                            return true;
                        }
                    },
                    None => {},
                }
                i += 1;
            }
            proof {
                if self@.connected(from, to) {
                    let e = choose|e: usize| self@.joins(e, from, to);
                    assert(self@.edge_wf(e));
                    assert(self@.links(from).outbound.contains(e));
                    let k = self@.links(from).outbound.index_of(e);
                    assert(self@.edge(links.outbound@[k]).to != to);
                }
            }
            false
        }
    }

    /// Connects two nodes by a fresh edge of the given weight, or says why
    /// not.
    pub(crate) fn join(&mut self, from: usize, to: usize, weight: NeuroFloat, parallel: bool) -> (r:
        Result<usize, NetworkError>)
        requires
            old(self).wf(),
        ensures
            final(self).wf(),
            match old(self)@.connect_error(from, to, parallel) {
                Some(e) => r == Err::<usize, NetworkError>(e) && final(self)@ == old(self)@,
                None => r == Ok::<usize, NetworkError>(old(self)@.edges.len() as usize)
                    && final(self)@ == old(self)@.connect_with(from, to, weight),
            },
    {
        if !self.has_node(from) || !self.has_node(to) {
            return Err(NetworkError::DanglingReference);
        }
        if self.is_connected(from, to) && (!parallel || from == to) {
            return Err(NetworkError::DuplicateConnection);
        }
        let cell: usize = self.weights.len();
        self.weights.push(weight);
        assert(self.weights.len() == cell + 1);
        proof {
            lemma_new_cell_wf(old(self)@, weight);
            assert(self@ =~= old(self)@.new_cell(weight));
            if from == to {
                if let Some(e) = old(self)@.links(from).to_self {
                    assert(old(self)@.links_wf(from));
                    assert(old(self)@.joins(e, from, to));
                }
            }
        }
        let id = self.link(from, to, cell);
        Ok(id)
    }

    /// Creates an edge from `from` to `to` with weight zero and returns its
    /// handle. The edge is ungated and has gain one; where the two nodes are
    /// one, it is that node's self-connection. An edge into an input node is
    /// accepted; no pass reads it.
    ///
    /// Fails with `DanglingReference` if a handle names no live node, and
    /// with `DuplicateConnection` if an edge from `from` to `to` exists
    /// already. A refused call changes nothing.
    pub fn connect(&mut self, from: usize, to: usize) -> (r: Result<usize, NetworkError>)
        requires
            old(self).wf(),
        ensures
            final(self).wf(),
            match old(self)@.connect_error(from, to, false) {
                Some(e) => r == Err::<usize, NetworkError>(e) && final(self)@ == old(self)@,
                None => r == Ok::<usize, NetworkError>(old(self)@.edges.len() as usize)
                    && final(self)@ == old(self)@.connect(from, to),
            },
    {
        self.join(from, to, NeuroFloat::zero(), false)
    }

    /// Creates an edge from `from` to `to` with weight zero even where one
    /// exists already, and returns its handle.
    ///
    /// Fails with `DanglingReference` if a handle names no live node, and
    /// with `DuplicateConnection` if the edge would be a second
    /// self-connection of one node. A refused call changes nothing.
    pub fn connect_parallel(&mut self, from: usize, to: usize) -> (r: Result<usize, NetworkError>)
        requires
            old(self).wf(),
        ensures
            final(self).wf(),
            match old(self)@.connect_error(from, to, true) {
                Some(e) => r == Err::<usize, NetworkError>(e) && final(self)@ == old(self)@,
                None => r == Ok::<usize, NetworkError>(old(self)@.edges.len() as usize)
                    && final(self)@ == old(self)@.connect(from, to),
            },
    {
        self.join(from, to, NeuroFloat::zero(), true)
    }

    /// Removes connection `e` from the network and from the lists of its
    /// source, its destination and its gater.
    ///
    /// Fails with `DanglingReference`, changing nothing, if `e` names no
    /// live connection.
    pub fn disconnect(&mut self, e: usize) -> (r: Result<(), NetworkError>)
        requires
            old(self).wf(),
        ensures
            final(self).wf(),
            old(self)@.is_edge(e) ==> r is Ok && final(self)@ == old(self)@.unlink(e),
            !old(self)@.is_edge(e) ==> r == Err::<(), NetworkError>(NetworkError::DanglingReference)
                && final(self)@ == old(self)@,
    {
        if !self.has_connection(e) {
            return Err(NetworkError::DanglingReference);
        }
        self.unlink(e);
        Ok(())
    }

    /// Detaches the gater of connection `e`: the connection's gain goes back
    /// to one. A connection without gater stays as it is.
    ///
    /// Fails with `DanglingReference`, changing nothing, if `e` names no
    /// live connection.
    pub fn ungate(&mut self, e: usize) -> (r: Result<(), NetworkError>)
        requires
            old(self).wf(),
        ensures
            final(self).wf(),
            old(self)@.is_edge(e) ==> r is Ok && final(self)@ == old(self)@.ungate(e),
            !old(self)@.is_edge(e) ==> r == Err::<(), NetworkError>(NetworkError::DanglingReference)
                && final(self)@ == old(self)@,
    {
        if !self.has_connection(e) {
            return Err(NetworkError::DanglingReference);
        }
        self.ungate_edge(e);
        Ok(())
    }

    /// Why `g` would be refused as gater of `e` under `kind`, if it would.
    pub fn check_gate(&self, g: usize, e: usize, kind: GatingKind) -> (r: Option<NetworkError>)
        ensures
            r == self@.gate_error(g, e, kind),
    {
        if !self.has_node(g) || !self.has_connection(e) {
            return Some(NetworkError::DanglingReference);
        }
        let legal = match self.connections[e] {
            Some(c) => match kind {
                GatingKind::Output => c.from == g && c.to != g,
                GatingKind::Input => c.to == g && c.from != g,
                GatingKind::ToSelf => c.from == g && c.to == g,
            },
            None => false,
        };
        if legal {
            None
        } else {
            Some(NetworkError::InvalidGateTarget)
        }
    }
}

} // verus!
