use vstd::prelude::*;
use crate::error::NetworkError;
use crate::kinds::{ConnectionKind, GatingKind};
use crate::network::{Network, NetworkView};
use crate::scalar::NeuroFloat;

verus! {

/// The pairs that fan `from` out to each of `targets`, in their order.
pub open spec fn fan_out(from: usize, targets: Seq<usize>) -> Seq<(usize, usize)> {
    Seq::new(targets.len(), |i: int| (from, targets[i]))
}

/// Whether a pair joins two different nodes.
pub open spec fn distinct_ends(pair: (usize, usize)) -> bool {
    pair.0 != pair.1
}

/// The pairs from one node of the first group to the second group: all of
/// them, or all but the pair of the node with itself.
pub open spec fn group_row(from: usize, to_nodes: Seq<usize>, skip_same: bool) -> Seq<(usize, usize)> {
    if skip_same {
        fan_out(from, to_nodes).filter(|pair: (usize, usize)| distinct_ends(pair))
    } else {
        fan_out(from, to_nodes)
    }
}

/// The rows of the first `n` nodes of the first group, one after another.
pub open spec fn group_rows(from_nodes: Seq<usize>, to_nodes: Seq<usize>, skip_same: bool, n: nat) -> Seq<
    (usize, usize),
>
    decreases n,
{
    if n == 0 {
        Seq::empty()
    } else {
        group_rows(from_nodes, to_nodes, skip_same, (n - 1) as nat) + group_row(
            from_nodes[n - 1],
            to_nodes,
            skip_same,
        )
    }
}

/// The pairs of nodes that a group connection of the given kind joins, in
/// the order in which they are joined: by the first group's order, then by
/// the second's.
pub open spec fn group_pairs(from_nodes: Seq<usize>, to_nodes: Seq<usize>, kind: ConnectionKind) -> Seq<
    (usize, usize),
> {
    match kind {
        ConnectionKind::AllToAll => group_rows(from_nodes, to_nodes, false, from_nodes.len()),
        ConnectionKind::AllToElse => group_rows(from_nodes, to_nodes, true, from_nodes.len()),
        ConnectionKind::OneToOne => Seq::new(from_nodes.len(), |i: int| (from_nodes[i], to_nodes[i])),
    }
}

/// The `n` handles that follow the first `start` slots of an arena.
pub open spec fn fresh_handles(start: nat, n: nat) -> Seq<usize> {
    Seq::new(n, |i: int| (start + i) as usize)
}

impl NetworkView {
    /// The network after connecting the first `k` of `pairs` one by one, and
    /// the error that stopped the work, if one did: nothing is connected
    /// from the first refused pair on.
    pub open spec fn connect_each(self, pairs: Seq<(usize, usize)>, k: nat) -> (
        NetworkView,
        Option<NetworkError>,
    )
        decreases k,
    {
        if k == 0 {
            (self, None)
        } else {
            let (v, stopped) = self.connect_each(pairs, (k - 1) as nat);
            let (from, to) = pairs[k - 1];
            if stopped is Some {
                (v, stopped)
            } else if v.connect_error(from, to, false) is Some {
                (v, v.connect_error(from, to, false))
            } else {
                (v.connect(from, to), None)
            }
        }
    }

    /// The network after making `g` the gater of the first `k` of `edges`
    /// one by one, and the error that stopped the work, if one did: nothing
    /// is gated from the first refused edge on.
    pub open spec fn gate_each(self, g: usize, edges: Seq<usize>, kind: GatingKind, k: nat) -> (
        NetworkView,
        Option<NetworkError>,
    )
        decreases k,
    {
        if k == 0 {
            (self, None)
        } else {
            let (v, stopped) = self.gate_each(g, edges, kind, (k - 1) as nat);
            if stopped is Some {
                (v, stopped)
            } else if v.gate_error(g, edges[k - 1], kind) is Some {
                (v, v.gate_error(g, edges[k - 1], kind))
            } else {
                (v.gate_edge(g, edges[k - 1]), None)
            }
        }
    }
}

/// Once a pair was refused, the rest of the pairs changes nothing.
pub proof fn lemma_connect_each_stopped(v: NetworkView, pairs: Seq<(usize, usize)>, k: nat, m: nat)
    requires
        k <= m,
        v.connect_each(pairs, k).1 is Some,
    ensures
        v.connect_each(pairs, m) == v.connect_each(pairs, k),
    decreases m - k,
{
    if k < m {
        lemma_connect_each_stopped(v, pairs, k, (m - 1) as nat);
    }
}

/// Once an edge was refused, the rest of the edges changes nothing.
pub proof fn lemma_gate_each_stopped(
    v: NetworkView,
    g: usize,
    edges: Seq<usize>,
    kind: GatingKind,
    k: nat,
    m: nat,
)
    requires
        k <= m,
        v.gate_each(g, edges, kind, k).1 is Some,
    ensures
        v.gate_each(g, edges, kind, m) == v.gate_each(g, edges, kind, k),
    decreases m - k,
{
    if k < m {
        lemma_gate_each_stopped(v, g, edges, kind, k, (m - 1) as nat);
    }
}

/// Builds the pairs of a group connection that joins every node of the
/// first group to every node of the second, but not a node to itself where
/// `skip_same` is set.
fn pair_up(from_nodes: &Vec<usize>, to_nodes: &Vec<usize>, skip_same: bool) -> (r: Vec<(usize, usize)>)
    ensures
        r@ == group_rows(from_nodes@, to_nodes@, skip_same, from_nodes@.len()),
{
    let mut pairs: Vec<(usize, usize)> = Vec::new();
    let mut i: usize = 0;
    while i < from_nodes.len()
        invariant
            i <= from_nodes.len(),
            pairs@ == group_rows(from_nodes@, to_nodes@, skip_same, i as nat),
        decreases from_nodes.len() - i,
    {
        let from: usize = from_nodes[i];
        let ghost done = pairs@;
        let ghost keep = |pair: (usize, usize)| distinct_ends(pair);
        let mut j: usize = 0;
        while j < to_nodes.len()
            invariant
                j <= to_nodes.len(),
                keep == (|pair: (usize, usize)| distinct_ends(pair)),
                pairs@ == done + (if skip_same {
                    fan_out(from, to_nodes@).take(j as int).filter(keep)
                } else {
                    fan_out(from, to_nodes@).take(j as int)
                }),
            decreases to_nodes.len() - j,
        {
            let to: usize = to_nodes[j];
            proof {
                let row = fan_out(from, to_nodes@);
                assert(row.take(j + 1) =~= row.take(j as int).push((from, to)));
                row.take(j as int).lemma_filter_push((from, to), keep);
            }
            if !skip_same || from != to {
                pairs.push((from, to));
            }
            proof {
                let row = fan_out(from, to_nodes@);
                if skip_same {
                    assert(pairs@ =~= done + row.take(j + 1).filter(keep));
                } else {
                    assert(pairs@ =~= done + row.take(j + 1));
                }
            }
            j += 1;
        }
        proof {
            let row = fan_out(from, to_nodes@);
            assert(row.take(to_nodes@.len() as int) =~= row);
        }
        i += 1;
    }
    pairs
}

impl Network {
    /// Connects the pairs one by one, each by an edge of weight zero, until
    /// one is refused.
    pub(crate) fn connect_pairs(&mut self, pairs: &Vec<(usize, usize)>) -> (r: Result<
        Vec<usize>,
        NetworkError,
    >)
        requires
            old(self).wf(),
        ensures
            final(self).wf(),
            final(self)@ == old(self)@.connect_each(pairs@, pairs@.len()).0,
            match old(self)@.connect_each(pairs@, pairs@.len()).1 {
                Some(e) => r == Err::<Vec<usize>, NetworkError>(e),
                None => r is Ok && r->Ok_0@ == fresh_handles(old(self)@.edges.len(), pairs@.len()),
            },
    {
        let ghost start = self@;
        let mut made: Vec<usize> = Vec::new();
        let mut i: usize = 0;
        while i < pairs.len()
            invariant
                i <= pairs.len(),
                self.wf(),
                start == old(self)@,
                start.connect_each(pairs@, i as nat) == (self@, None::<NetworkError>),
                self@.edges.len() == start.edges.len() + i,
                made@ == fresh_handles(start.edges.len(), i as nat),
            decreases pairs.len() - i,
        {
            let (from, to) = pairs[i];
            match self.join(from, to, NeuroFloat::zero(), false) {
                Ok(id) => {
                    made.push(id);
                    proof {
                        assert(made@ =~= fresh_handles(start.edges.len(), (i + 1) as nat));
                    }
                },
                Err(e) => {
                    proof {
                        assert(start.connect_each(pairs@, (i + 1) as nat) == (self@, Some(e)));
                        lemma_connect_each_stopped(start, pairs@, (i + 1) as nat, pairs@.len());
                    }
                    return Err(e);
                },
            }
            i += 1;
        }
        Ok(made)
    }

    /// Connects `from` to each of `to_nodes` in turn, as `connect` would,
    /// and returns the handles of the new edges.
    ///
    /// The first refused connection ends the work and its error is
    /// returned; the edges made before it stay.
    pub fn project(&mut self, from: usize, to_nodes: &Vec<usize>) -> (r: Result<Vec<usize>, NetworkError>)
        requires
            old(self).wf(),
        ensures
            final(self).wf(),
            final(self)@ == old(self)@.connect_each(fan_out(from, to_nodes@), to_nodes@.len()).0,
            match old(self)@.connect_each(fan_out(from, to_nodes@), to_nodes@.len()).1 {
                Some(e) => r == Err::<Vec<usize>, NetworkError>(e),
                None => r is Ok && r->Ok_0@ == fresh_handles(old(self)@.edges.len(), to_nodes@.len()),
            },
    {
        let mut pairs: Vec<(usize, usize)> = Vec::new();
        let mut i: usize = 0;
        while i < to_nodes.len()
            invariant
                i <= to_nodes.len(),
                pairs@ == fan_out(from, to_nodes@).take(i as int),
            decreases to_nodes.len() - i,
        {
            pairs.push((from, to_nodes[i]));
            proof {
                assert(pairs@ =~= fan_out(from, to_nodes@).take(i + 1));
            }
            i += 1;
        }
        proof {
            assert(pairs@ =~= fan_out(from, to_nodes@));
        }
        self.connect_pairs(&pairs)
    }

    /// Connects two groups of nodes: every pair, every pair of different
    /// nodes, or the nodes at the same position, as `kind` says. The pairs
    /// are connected one by one as `connect` would, and the handles of the
    /// new edges are returned.
    ///
    /// Fails with `SizeMismatch`, changing nothing, if the groups are to be
    /// paired one to one and differ in length. Else the first refused
    /// connection ends the work and its error is returned; the edges made
    /// before it stay.
    pub fn connect_groups(
        &mut self,
        from_nodes: &Vec<usize>,
        to_nodes: &Vec<usize>,
        kind: ConnectionKind,
    ) -> (r: Result<Vec<usize>, NetworkError>)
        requires
            old(self).wf(),
        ensures
            final(self).wf(),
            kind == ConnectionKind::OneToOne && from_nodes@.len() != to_nodes@.len() ==> r == Err::<
                Vec<usize>,
                NetworkError,
            >(NetworkError::SizeMismatch) && final(self)@ == old(self)@,
            !(kind == ConnectionKind::OneToOne && from_nodes@.len() != to_nodes@.len()) ==> ({
                let pairs = group_pairs(from_nodes@, to_nodes@, kind);
                let (v, stopped) = old(self)@.connect_each(pairs, pairs.len());
                &&& final(self)@ == v
                &&& match stopped {
                    Some(e) => r == Err::<Vec<usize>, NetworkError>(e),
                    None => r is Ok && r->Ok_0@ == fresh_handles(old(self)@.edges.len(), pairs.len()),
                }
            }),
    {
        let pairs = match kind {
            ConnectionKind::AllToAll => pair_up(from_nodes, to_nodes, false),
            ConnectionKind::AllToElse => pair_up(from_nodes, to_nodes, true),
            ConnectionKind::OneToOne => {
                if from_nodes.len() != to_nodes.len() {
                    return Err(NetworkError::SizeMismatch);
                }
                let mut pairs: Vec<(usize, usize)> = Vec::new();
                let mut i: usize = 0;
                while i < from_nodes.len()
                    invariant
                        i <= from_nodes.len(),
                        from_nodes@.len() == to_nodes@.len(),
                        pairs@ == group_pairs(from_nodes@, to_nodes@, ConnectionKind::OneToOne).take(
                            i as int,
                        ),
                    decreases from_nodes.len() - i,
                {
                    pairs.push((from_nodes[i], to_nodes[i]));
                    proof {
                        assert(pairs@ =~= group_pairs(
                            from_nodes@,
                            to_nodes@,
                            ConnectionKind::OneToOne,
                        ).take(i + 1));
                    }
                    i += 1;
                }
                proof {
                    assert(pairs@ =~= group_pairs(from_nodes@, to_nodes@, ConnectionKind::OneToOne));
                }
                pairs
            },
        };
        self.connect_pairs(&pairs)
    }

    /// Makes `gater` the gater of each of `edges` in turn: the edge records
    /// the gater and joins the end of the gater's gated list. An edge that
    /// had a gater loses it first.
    ///
    /// An edge is refused with `DanglingReference` if it or `gater` is not
    /// live, and with `InvalidGateTarget` if it does not stand in the
    /// relation to `gater` that `kind` names. The first refused edge ends
    /// the work and its error is returned; the edges gated before it stay
    /// gated.
    pub fn gate(&mut self, gater: usize, edges: &Vec<usize>, kind: GatingKind) -> (r: Result<
        (),
        NetworkError,
    >)
        requires
            old(self).wf(),
        ensures
            final(self).wf(),
            final(self)@ == old(self)@.gate_each(gater, edges@, kind, edges@.len()).0,
            match old(self)@.gate_each(gater, edges@, kind, edges@.len()).1 {
                Some(e) => r == Err::<(), NetworkError>(e),
                None => r is Ok,
            },
    {
        let ghost start = self@;
        let mut i: usize = 0;
        while i < edges.len()
            invariant
                i <= edges.len(),
                self.wf(),
                start == old(self)@,
                start.gate_each(gater, edges@, kind, i as nat) == (self@, None::<NetworkError>),
            decreases edges.len() - i,
        {
            let e: usize = edges[i];
            match self.check_gate(gater, e, kind) {
                Some(err) => {
                    proof {
                        assert(start.gate_each(gater, edges@, kind, (i + 1) as nat) == (
                            self@,
                            Some(err),
                        ));
                        lemma_gate_each_stopped(
                            start,
                            gater,
                            edges@,
                            kind,
                            (i + 1) as nat,
                            edges@.len(),
                        );
                    }
                    return Err(err);
                },
                None => {
                    self.gate_edge(gater, e);
                },
            }
            i += 1;
        }
        Ok(())
    }
}

} // verus!
