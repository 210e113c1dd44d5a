use vstd::prelude::*;
use crate::arena::lemma_delete_node_wf;
use crate::error::NetworkError;
use crate::network::{Network, NetworkView};
use crate::lists::copy_handles;
use crate::wiring::{lemma_link_wf, lemma_unlink_wf, remove_handle};

verus! {

/// What joins a source of a removed node to one of its destinations: the
/// two nodes and the weight cell of the connection to be made.
#[derive(Clone, Copy, Debug, PartialEq, Eq, Structural)]
pub struct Bridge {
    pub from: usize,
    pub to: usize,
    pub cell: usize,
}

impl NetworkView {
    /// Every connection that touches node `n`: those that enter it, those
    /// that leave it, and its self-connection.
    pub open spec fn incident(self, n: usize) -> Seq<usize>
        recommends
            self.is_node(n),
    {
        let l = self.links(n);
        l.inbound + l.outbound + (match l.to_self {
            Some(e) => seq![e],
            None => Seq::empty(),
        })
    }

    /// The network after removing the first `k` of `edges` one by one.
    pub open spec fn unlink_each(self, edges: Seq<usize>, k: nat) -> NetworkView
        decreases k,
    {
        if k == 0 {
            self
        } else {
            self.unlink_each(edges, (k - 1) as nat).unlink(edges[k - 1])
        }
    }

    /// The bridges from one source to the destination of each of `outs`;
    /// each takes over the weight cell of the connection that reached the
    /// destination.
    pub open spec fn bridge_row(self, from: usize, outs: Seq<usize>) -> Seq<Bridge> {
        Seq::new(
            outs.len(),
            |j: int| Bridge { from, to: self.edge(outs[j]).to, cell: self.edge(outs[j]).weight },
        )
    }

    /// The bridges from the sources of the first `k` of `ins`, row by row.
    pub open spec fn bridge_rows(self, ins: Seq<usize>, outs: Seq<usize>, k: nat) -> Seq<Bridge>
        decreases k,
    {
        if k == 0 {
            Seq::empty()
        } else {
            self.bridge_rows(ins, outs, (k - 1) as nat) + self.bridge_row(
                self.edge(ins[k - 1]).from,
                outs,
            )
        }
    }

    /// The bridges that take the place of node `n`: one from the source of
    /// each connection that enters it to the destination of each connection
    /// that leaves it.
    pub open spec fn bridges(self, n: usize) -> Seq<Bridge>
        recommends
            self.is_node(n),
    {
        self.bridge_rows(self.links(n).inbound, self.links(n).outbound, self.links(n).inbound.len())
    }

    /// The network with the bridge built, unless its two nodes are connected
    /// already.
    pub open spec fn bridge(self, b: Bridge) -> NetworkView {
        if self.connected(b.from, b.to) {
            self
        } else {
            self.link(b.from, b.to, b.cell)
        }
    }

    /// The network after building the first `k` of `plan` one by one.
    pub open spec fn bridge_each(self, plan: Seq<Bridge>, k: nat) -> NetworkView
        decreases k,
    {
        if k == 0 {
            self
        } else {
            self.bridge_each(plan, (k - 1) as nat).bridge(plan[k - 1])
        }
    }

    /// The network without node `n`: every connection that touches the node
    /// is removed, then the node, and then each of its sources is joined to
    /// each of its destinations that it is not connected to already, by a
    /// fresh ungated connection that takes over the weight cell of the
    /// removed connection to that destination.
    pub open spec fn remove_node(self, n: usize) -> NetworkView
        recommends
            self.is_inner(n),
    {
        let plan = self.bridges(n);
        let doomed = self.incident(n);
        self.unlink_each(doomed, doomed.len()).delete_node(n).bridge_each(plan, plan.len())
    }

    /// Whether a bridge joins two live nodes other than `n` and names a
    /// weight cell.
    pub open spec fn bridge_ok(self, b: Bridge, n: usize) -> bool {
        &&& self.is_node(b.from)
        &&& self.is_node(b.to)
        &&& b.from != n
        &&& b.to != n
        &&& b.cell < self.weights.len()
    }

    /// Whether `other` has the connections of this network but those in
    /// `gone`, each with its old record, and the same weights.
    pub open spec fn lost_edges(self, other: NetworkView, gone: Seq<usize>) -> bool {
        &&& other.weights == self.weights
        &&& other.edges.len() == self.edges.len()
        &&& forall|x: usize| #[trigger] other.is_edge(x) <==> (self.is_edge(x) && !gone.contains(x))
        &&& forall|x: usize| #[trigger] other.is_edge(x) ==> other.edge(x) == self.edge(x)
    }
}

/// The connections that touch a node are live, listed once each, and are
/// all the connections that start or end at the node or are gated by it.
pub proof fn lemma_incident(v: NetworkView, n: usize)
    requires
        v.wf(),
        v.is_node(n),
    ensures
        v.incident(n).no_duplicates(),
        forall|i: int| 0 <= i < v.incident(n).len() ==> v.is_edge(#[trigger] v.incident(n)[i]),
        forall|x: usize|
            v.is_edge(x) && (v.edge(x).from == n || v.edge(x).to == n || v.edge(x).gater == Some(n))
                ==> #[trigger] v.incident(n).contains(x),
{
    let l = v.links(n);
    let s = v.incident(n);
    let a = l.inbound.len() as int;
    let b = l.outbound.len() as int;
    assert(v.links_wf(n));
    assert forall|i: int| 0 <= i < s.len() implies v.is_edge(#[trigger] s[i]) && (i < a ==> v.enters(
        s[i],
        n,
    )) && (a <= i < a + b ==> v.leaves(s[i], n)) && (a + b <= i ==> v.loops_on(s[i], n)) by {
        if i < a {
            assert(s[i] == l.inbound[i]);
            assert(v.enters(l.inbound[i], n));
        } else if i < a + b {
            assert(s[i] == l.outbound[i - a]);
            assert(v.leaves(l.outbound[i - a], n));
        } else {
            assert(l.to_self is Some);
            assert(s[i] == l.to_self->0);
        }
    }
    assert forall|i: int, j: int| 0 <= i < s.len() && 0 <= j < s.len() && i != j implies s[i]
        != s[j] by {
        assert(v.is_edge(s[i]));
        assert(v.is_edge(s[j]));
        if i < a && j < a {
            assert(s[i] == l.inbound[i] && s[j] == l.inbound[j]);
        } else if a <= i < a + b && a <= j < a + b {
            assert(s[i] == l.outbound[i - a] && s[j] == l.outbound[j - a]);
        }
    }
    assert forall|x: usize|
        v.is_edge(x) && (v.edge(x).from == n || v.edge(x).to == n || v.edge(x).gater == Some(
            n,
        )) implies #[trigger] s.contains(x) by {
        assert(v.edge_wf(x));
        let c = v.edge(x);
        if c.from == c.to {
            assert(l.to_self == Some(x));
            assert(s[a + b] == x);
        } else if c.from == n {
            let i = l.outbound.index_of(x);
            assert(s[a + i] == x);
        } else {
            let i = l.inbound.index_of(x);
            assert(s[i] == x);
        }
    }
}

/// Removing a connection leaves every other connection as it was.
pub proof fn lemma_unlink_lost(v: NetworkView, start: NetworkView, gone: Seq<usize>, e: usize)
    requires
        v.is_edge(e),
        start.lost_edges(v, gone),
    ensures
        start.lost_edges(v.unlink(e), gone.push(e)),
{
    let w = v.unlink(e);
    crate::lists::lemma_push_contains(gone, e);
    assert forall|x: usize| #[trigger] w.is_edge(x) <==> (start.is_edge(x) && !gone.push(e).contains(
        x,
    )) by {
        assert(w.is_edge(x) <==> (v.is_edge(x) && x != e));
    }
    assert forall|x: usize| #[trigger] w.is_edge(x) implies w.edge(x) == start.edge(x) by {
        assert(v.is_edge(x));
    }
}

/// Once every connection that touched a node is gone, its lists are empty.
pub proof fn lemma_stripped_isolated(start: NetworkView, v: NetworkView, n: usize)
    requires
        start.wf(),
        v.wf(),
        start.is_node(n),
        v.is_node(n),
        start.lost_edges(v, start.incident(n)),
    ensures
        v.isolated(n),
{
    lemma_incident(start, n);
    let l = v.links(n);
    assert(v.links_wf(n));
    if l.outbound.len() > 0 {
        let x = l.outbound[0];
        assert(v.leaves(x, n));
        assert(v.is_edge(x));
        assert(start.incident(n).contains(x));
    }
    if l.inbound.len() > 0 {
        let x = l.inbound[0];
        assert(v.enters(x, n));
        assert(v.is_edge(x));
        assert(start.incident(n).contains(x));
    }
    if l.gated.len() > 0 {
        let x = l.gated[0];
        assert(v.gated_by(x, n));
        assert(v.is_edge(x));
        assert(start.incident(n).contains(x));
    }
    if let Some(x) = l.to_self {
        assert(v.loops_on(x, n));
        assert(v.is_edge(x));
        assert(start.incident(n).contains(x));
    }
    assert(l.outbound =~= Seq::empty());
    assert(l.inbound =~= Seq::empty());
    assert(l.gated =~= Seq::empty());
}

impl Network {
    /// The connections that touch node `n`.
    fn incident_edges(&self, n: usize) -> (r: Vec<usize>)
        requires
            self@.is_node(n),
        ensures
            r@ == self@.incident(n),
    {
        let mut r: Vec<usize> = Vec::new();
        match &self.nodes[n] {
            Some(node) => {
                let links = node.connections();
                copy_handles(&links.inbound, &mut r);
                copy_handles(&links.outbound, &mut r);
                match links.to_self {
                    Some(e) => {
                        r.push(e);
                    },
                    None => {},
                }
                proof {
                    assert(r@ =~= self@.incident(n));
                }
            },
            None => {},
        }
        r
    }

    /// The bridges that take the place of node `n`.
    fn plan_bridges(&self, n: usize) -> (r: Vec<Bridge>)
        requires
            self.wf(),
            self@.is_node(n),
        ensures
            r@ == self@.bridges(n),
            forall|k: int| 0 <= k < r@.len() ==> self@.bridge_ok(#[trigger] r@[k], n),
    {
        let mut plan: Vec<Bridge> = Vec::new();
        let node = match &self.nodes[n] {
            Some(node) => node,
            None => { return plan; },
        };
        let links = node.connections();
        let ins = &links.inbound;
        let outs = &links.outbound;
        proof {
            assert(self@.links_wf(n));
        }
        let mut i: usize = 0;
        while i < ins.len()
            invariant
                i <= ins.len(),
                self.wf(),
                self@.is_node(n),
                ins@ == self@.links(n).inbound,
                outs@ == self@.links(n).outbound,
                plan@ == self@.bridge_rows(ins@, outs@, i as nat),
                forall|k: int| 0 <= k < plan@.len() ==> self@.bridge_ok(#[trigger] plan@[k], n),
            decreases ins.len() - i,
        {
            proof {
                assert(self@.links_wf(n));
                assert(self@.enters(ins@[i as int], n));
                assert(self@.edge_wf(ins@[i as int]));
            }
            let from: usize = match self.connections[ins[i]] {
                Some(c) => c.from,
                None => n,
            };
            let ghost done = plan@;
            let mut j: usize = 0;
            while j < outs.len()
                invariant
                    j <= outs.len(),
                    self.wf(),
                    self@.is_node(n),
                    self@.is_node(from),
                    from != n,
                    outs@ == self@.links(n).outbound,
                    plan@ == done + self@.bridge_row(from, outs@).take(j as int),
                    forall|k: int| 0 <= k < plan@.len() ==> self@.bridge_ok(#[trigger] plan@[k], n),
                decreases outs.len() - j,
            {
                proof {
                    assert(self@.links_wf(n));
                    assert(self@.leaves(outs@[j as int], n));
                    assert(self@.edge_wf(outs@[j as int]));
                }
                match self.connections[outs[j]] {
                    Some(c) => {
                        plan.push(Bridge { from, to: c.to, cell: c.weight });
                    },
                    None => {},
                }
                proof {
                    assert(plan@ =~= done + self@.bridge_row(from, outs@).take(j + 1));
                }
                j += 1;
            }
            proof {
                let row = self@.bridge_row(from, outs@);
                assert(row.take(outs@.len() as int) =~= row);
            }
            i += 1;
        }
        plan
    }

    /// Empties the slot of a hidden node that no connection touches.
    fn delete_node(&mut self, n: usize)
        requires
            old(self).wf(),
            old(self)@.is_inner(n),
            old(self)@.isolated(n),
        ensures
            final(self).wf(),
            final(self)@ == old(self)@.delete_node(n),
    {
        self.nodes[n] = None;
        remove_handle(&mut self.order, n);
        proof {
            assert(self@.nodes =~= old(self)@.delete_node(n).nodes);
            assert(self@ =~= old(self)@.delete_node(n));
            lemma_delete_node_wf(old(self)@, n);
        }
    }

    /// Removes the hidden node `n` and joins its sources to its
    /// destinations.
    ///
    /// Every connection that touches the node is removed with it. Then each
    /// source of a connection that entered the node is joined to each
    /// destination of a connection that left it, unless the two are
    /// connected already, by a fresh ungated connection that takes over the
    /// weight cell of the removed connection to that destination.
    ///
    /// Fails, changing nothing, with `DanglingReference` if `n` names no
    /// live node and with `NoEligibleMutationTarget` if it names an input or
    /// an output node: those are never removed.
    pub fn remove_node(&mut self, n: usize) -> (r: Result<(), NetworkError>)
        requires
            old(self).wf(),
        ensures
            final(self).wf(),
            !old(self)@.is_node(n) ==> r == Err::<(), NetworkError>(NetworkError::DanglingReference)
                && final(self)@ == old(self)@,
            old(self)@.is_node(n) && !old(self)@.is_inner(n) ==> r == Err::<(), NetworkError>(
                NetworkError::NoEligibleMutationTarget,
            ) && final(self)@ == old(self)@,
            old(self)@.is_inner(n) ==> r is Ok && final(self)@ == old(self)@.remove_node(n),
    {
        if !self.has_node(n) {
            return Err(NetworkError::DanglingReference);
        }
        if n < self.inputs || n - self.inputs < self.outputs {
            return Err(NetworkError::NoEligibleMutationTarget);
        }
        let ghost start = self@;
        let plan = self.plan_bridges(n);
        let doomed = self.incident_edges(n);
        proof {
            lemma_incident(start, n);
        }
        let mut i: usize = 0;
        while i < doomed.len()
            invariant
                i <= doomed.len(),
                self.wf(),
                start.wf(),
                start.is_node(n),
                doomed@ == start.incident(n),
                doomed@.no_duplicates(),
                forall|k: int| 0 <= k < doomed@.len() ==> start.is_edge(#[trigger] doomed@[k]),
                self@ == start.unlink_each(doomed@, i as nat),
                start.same_nodes(self@),
                start.lost_edges(self@, doomed@.take(i as int)),
            decreases doomed.len() - i,
        {
            let e: usize = doomed[i];
            proof {
                assert(start.is_edge(doomed@[i as int]));
                if doomed@.take(i as int).contains(e) {
                    let k = doomed@.take(i as int).index_of(e);
                    assert(doomed@[k] == e);
                }
                assert(self@.is_edge(e));
                lemma_unlink_wf(self@, e);
                lemma_unlink_lost(self@, start, doomed@.take(i as int), e);
                assert(doomed@.take(i + 1) =~= doomed@.take(i as int).push(e));
                lemma_same_nodes_trans(start, self@, self@.unlink(e));
            }
            self.unlink(e);
            i += 1;
        }
        proof {
            assert(doomed@.take(doomed@.len() as int) =~= doomed@);
            lemma_stripped_isolated(start, self@, n);
        }
        let ghost bare = self@;
        self.delete_node(n);
        let ghost mid = self@;
        proof {
            assert forall|k: int| 0 <= k < plan@.len() implies mid.bridge_ok(#[trigger] plan@[k], n) by {
                assert(start.bridge_ok(plan@[k], n));
                assert(bare.is_node(plan@[k].from));
                assert(bare.is_node(plan@[k].to));
            }
        }
        let mut j: usize = 0;
        while j < plan.len()
            invariant
                j <= plan.len(),
                self.wf(),
                self@ == mid.bridge_each(plan@, j as nat),
                mid.same_nodes(self@),
                self@.weights == mid.weights,
                forall|k: int| 0 <= k < plan@.len() ==> mid.bridge_ok(#[trigger] plan@[k], n),
            decreases plan.len() - j,
        {
            let from: usize = plan[j].from;
            let to: usize = plan[j].to;
            let cell: usize = plan[j].cell;
            proof {
                assert(mid.bridge_ok(plan@[j as int], n));
                assert(self@.is_node(from) && self@.is_node(to));
            }
            if !self.is_connected(from, to) {
                let ghost prev = self@;
                proof {
                    if from == to {
                        if let Some(x) = self@.links(from).to_self {
                            assert(self@.links_wf(from));
                            assert(self@.joins(x, from, to));
                        }
                    }
                }
                self.link(from, to, cell);
                proof {
                    assert(self@.edges.len() == prev.edges.len() + 1);
                    lemma_link_wf(prev, from, to, cell);
                    lemma_same_nodes_trans(mid, prev, self@);
                }
            }
            j += 1;
        }
        Ok(())
    }
}

/// Having the same nodes carries over from one network to the next.
pub proof fn lemma_same_nodes_trans(a: NetworkView, b: NetworkView, c: NetworkView)
    requires
        a.same_nodes(b),
        b.same_nodes(c),
    ensures
        a.same_nodes(c),
{
    assert forall|n: usize| #[trigger] c.is_node(n) <==> a.is_node(n) by {
        assert(b.is_node(n) <==> a.is_node(n));
    }
    assert forall|n: usize| #[trigger] a.is_node(n) implies c.node(n).state == a.node(n).state by {
        assert(b.is_node(n));
    }
}

} // verus!
