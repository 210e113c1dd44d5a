use vstd::prelude::*;
use crate::error::NetworkError;
use crate::groups::fan_out;
use crate::kinds::MutationKind;
use crate::network::{Network, NetworkView};

verus! {

/// What a mutation applies to.
#[derive(Clone, Copy, Debug, PartialEq, Eq, Structural)]
pub enum Target {
    /// One node.
    Node(usize),
    /// One connection.
    Edge(usize),
    /// Two nodes: the ends of a connection to be made, or two nodes to be
    /// swapped.
    Nodes(usize, usize),
    /// Two connections.
    Edges(usize, usize),
}

/// The element of a sequence that a draw picks: the one at the draw modulo
/// the length.
pub open spec fn pick<T>(s: Seq<T>, draw: u64) -> T
    recommends
        s.len() > 0,
{
    s[draw as int % s.len() as int]
}

/// The element that a second draw picks among the others, the first draw
/// having picked one: the one at the second draw modulo the length less
/// one, counted without the first pick.
pub open spec fn pick_other<T>(s: Seq<T>, first: u64, second: u64) -> T
    recommends
        s.len() > 1,
{
    let i = first as int % s.len() as int;
    let j = second as int % (s.len() - 1);
    if j >= i {
        s[j + 1]
    } else {
        s[j]
    }
}

impl NetworkView {
    /// Whether a mutation of the given kind may apply to node `n`.
    pub open spec fn node_eligible(self, kind: MutationKind, n: usize) -> bool {
        match kind {
            MutationKind::Activation | MutationKind::Bias | MutationKind::SwapNodes => self.is_hidden(
                n,
            ),
            MutationKind::AddSelfConnection => self.is_hidden(n) && self.links(n).to_self is None,
            MutationKind::SubSelfConnection => self.is_node(n) && self.links(n).to_self is Some,
            MutationKind::SubNode => self.is_inner(n),
            _ => false,
        }
    }

    /// Whether a mutation of the given kind may apply to connection `e`.
    pub open spec fn edge_eligible(self, kind: MutationKind, e: usize) -> bool {
        match kind {
            MutationKind::Weight | MutationKind::AddNode | MutationKind::ShareWeight => self.is_edge(
                e,
            ),
            MutationKind::SubConnection => self.is_edge(e) && self.before(
                self.edge(e).from,
                self.edge(e).to,
            ),
            MutationKind::SubBackConnection => self.is_edge(e) && self.before(
                self.edge(e).to,
                self.edge(e).from,
            ),
            MutationKind::AddGate => self.is_edge(e) && self.edge(e).gater is None,
            MutationKind::SubGate => self.is_edge(e) && self.edge(e).gater is Some,
            _ => false,
        }
    }

    /// Whether a mutation of the given kind may connect the first node of
    /// the pair to the second: the two are not connected yet, and the
    /// connection runs forward into a hidden node, or backward between two
    /// hidden nodes.
    pub open spec fn pair_eligible(self, kind: MutationKind, pair: (usize, usize)) -> bool {
        match kind {
            MutationKind::AddConnection => self.is_node(pair.0) && self.is_hidden(pair.1)
                && self.before(pair.0, pair.1) && !self.connected(pair.0, pair.1),
            MutationKind::AddBackConnection => self.is_hidden(pair.0) && self.is_hidden(pair.1)
                && self.before(pair.1, pair.0) && !self.connected(pair.0, pair.1),
            _ => false,
        }
    }

    /// The test a node passes where a mutation of the given kind may apply
    /// to it.
    pub open spec fn node_test(self, kind: MutationKind) -> spec_fn(usize) -> bool {
        |n: usize| self.node_eligible(kind, n)
    }

    /// The test a connection passes where a mutation of the given kind may
    /// apply to it.
    pub open spec fn edge_test(self, kind: MutationKind) -> spec_fn(usize) -> bool {
        |e: usize| self.edge_eligible(kind, e)
    }

    /// The test a pair of nodes passes where a mutation of the given kind
    /// may connect the first to the second.
    pub open spec fn pair_test(self, kind: MutationKind) -> spec_fn((usize, usize)) -> bool {
        |pair: (usize, usize)| self.pair_eligible(kind, pair)
    }

    /// Every connection slot, in slot order.
    pub open spec fn slots(self) -> Seq<usize> {
        Seq::new(self.edges.len(), |i: int| i as usize)
    }

    /// The nodes a mutation of the given kind may apply to, in evaluation
    /// order.
    pub open spec fn node_candidates(self, kind: MutationKind) -> Seq<usize> {
        self.order.filter(self.node_test(kind))
    }

    /// The connections a mutation of the given kind may apply to, in slot
    /// order.
    pub open spec fn edge_candidates(self, kind: MutationKind) -> Seq<usize> {
        self.slots().filter(self.edge_test(kind))
    }

    /// The eligible pairs whose first node is one of the first `k` of the
    /// evaluation order.
    pub open spec fn pair_rows(self, kind: MutationKind, k: nat) -> Seq<(usize, usize)>
        decreases k,
    {
        if k == 0 {
            Seq::empty()
        } else {
            self.pair_rows(kind, (k - 1) as nat) + fan_out(self.order[k - 1], self.order).filter(
                self.pair_test(kind),
            )
        }
    }

    /// The pairs of nodes a mutation of the given kind may connect, by the
    /// first node's place in the evaluation order, then by the second's.
    pub open spec fn pair_candidates(self, kind: MutationKind) -> Seq<(usize, usize)> {
        self.pair_rows(kind, self.order.len())
    }

    /// What a mutation of the given kind applies to under the two draws, if
    /// anything is eligible.
    ///
    /// A kind that edits one node or one connection takes the candidate
    /// that the first draw picks. A kind that connects two nodes takes the
    /// pair that the first draw picks. A kind that needs two nodes or two
    /// connections takes the candidate that the first draw picks and, among
    /// the others, the one that the second draw picks; it has no target
    /// where there are fewer than two candidates.
    pub open spec fn target(self, kind: MutationKind, first: u64, second: u64) -> Option<Target> {
        match kind {
            MutationKind::Activation
            | MutationKind::Bias
            | MutationKind::AddSelfConnection
            | MutationKind::SubSelfConnection
            | MutationKind::SubNode => {
                let c = self.node_candidates(kind);
                if c.len() == 0 {
                    None
                } else {
                    Some(Target::Node(pick(c, first)))
                }
            },
            MutationKind::SwapNodes => {
                let c = self.node_candidates(kind);
                if c.len() < 2 {
                    None
                } else {
                    Some(Target::Nodes(pick(c, first), pick_other(c, first, second)))
                }
            },
            MutationKind::Weight
            | MutationKind::AddNode
            | MutationKind::SubConnection
            | MutationKind::SubBackConnection
            | MutationKind::AddGate
            | MutationKind::SubGate => {
                let c = self.edge_candidates(kind);
                if c.len() == 0 {
                    None
                } else {
                    Some(Target::Edge(pick(c, first)))
                }
            },
            MutationKind::ShareWeight => {
                let c = self.edge_candidates(kind);
                if c.len() < 2 {
                    None
                } else {
                    Some(Target::Edges(pick(c, first), pick_other(c, first, second)))
                }
            },
            MutationKind::AddConnection | MutationKind::AddBackConnection => {
                let c = self.pair_candidates(kind);
                if c.len() == 0 {
                    None
                } else {
                    Some(Target::Nodes(pick(c, first).0, pick(c, first).1))
                }
            },
        }
    }
}

/// Picks the element of a list at a draw modulo the length.
fn pick_at(len: usize, draw: u64) -> (r: usize)
    requires
        len > 0,
    ensures
        r == draw as int % len as int,
        r < len,
{
    (draw % (len as u64)) as usize
}

/// Picks the place of another element than that of the first draw.
fn pick_other_at(len: usize, first: u64, second: u64) -> (r: usize)
    requires
        len > 1,
    ensures
        r < len,
        r != first as int % len as int,
        ({
            let i = first as int % len as int;
            let j = second as int % (len - 1);
            r == if j >= i {
                j + 1
            } else {
                j
            }
        }),
{
    let i: usize = pick_at(len, first);
    let j: usize = pick_at(len - 1, second);
    if j >= i {
        j + 1
    } else {
        j
    }
}

impl Network {
    /// Whether a mutation of the given kind may apply to node `n`.
    fn node_eligible(&self, kind: MutationKind, n: usize) -> (r: bool)
        requires
            self.wf(),
        ensures
            r == self@.node_eligible(kind, n),
    {
        match kind {
            MutationKind::Activation | MutationKind::Bias | MutationKind::SwapNodes => self.has_hidden(
                n,
            ),
            MutationKind::AddSelfConnection => {
                self.has_hidden(n) && match &self.nodes[n] {
                    Some(node) => node.connections().to_self.is_none(),
                    None => false,
                }
            },
            MutationKind::SubSelfConnection => {
                self.has_node(n) && match &self.nodes[n] {
                    Some(node) => node.connections().to_self.is_some(),
                    None => false,
                }
            },
            MutationKind::SubNode => self.has_node(n) && n >= self.inputs && n - self.inputs
                >= self.outputs,
            _ => false,
        }
    }

    /// Whether node `a` is evaluated before node `b`, both being live.
    fn is_before(&self, a: usize, b: usize) -> (r: bool)
        requires
            self.wf(),
            self@.is_node(a),
            self@.is_node(b),
        ensures
            r == self@.before(a, b),
    {
        let p = self.position_of(a);
        let q = self.position_of(b);
        match p {
            Some(p) => match q {
                Some(q) => p < q,
                None => false,
            },
            None => false,
        }
    }

    /// Whether a mutation of the given kind may apply to connection `e`.
    fn edge_eligible(&self, kind: MutationKind, e: usize) -> (r: bool)
        requires
            self.wf(),
        ensures
            r == self@.edge_eligible(kind, e),
    {
        let c = match self.connection(e) {
            Some(c) => c,
            None => { return false; },
        };
        proof {
            assert(self@.edge_wf(e));
        }
        match kind {
            MutationKind::Weight | MutationKind::AddNode | MutationKind::ShareWeight => true,
            MutationKind::SubConnection => self.is_before(c.from, c.to),
            MutationKind::SubBackConnection => self.is_before(c.to, c.from),
            MutationKind::AddGate => c.gater.is_none(),
            MutationKind::SubGate => c.gater.is_some(),
            _ => false,
        }
    }

    /// The nodes a mutation of the given kind may apply to.
    pub fn node_candidates(&self, kind: MutationKind) -> (r: Vec<usize>)
        requires
            self.wf(),
        ensures
            r@ == self@.node_candidates(kind),
            r@.no_duplicates(),
            forall|i: int| 0 <= i < r@.len() ==> self@.node_eligible(kind, #[trigger] r@[i]),
    {
        let ghost test = self@.node_test(kind);
        let mut r: Vec<usize> = Vec::new();
        let mut p: usize = 0;
        while p < self.order.len()
            invariant
                p <= self.order.len(),
                self.wf(),
                test == self@.node_test(kind),
                self.order@ == self@.order,
                r@ == self@.order.take(p as int).filter(test),
                forall|i: int| 0 <= i < r@.len() ==> self@.node_eligible(kind, #[trigger] r@[i]),
            decreases self.order.len() - p,
        {
            let n: usize = self.order[p];
            proof {
                assert(self@.order.take(p + 1) =~= self@.order.take(p as int).push(n));
                self@.order.take(p as int).lemma_filter_push(n, test);
            }
            if self.node_eligible(kind, n) {
                r.push(n);
            }
            p += 1;
        }
        proof {
            assert(self@.order.take(self@.order.len() as int) =~= self@.order);
            crate::lists::lemma_filter_no_duplicates(self@.order, test);
        }
        r
    }

    /// The connections a mutation of the given kind may apply to.
    pub fn edge_candidates(&self, kind: MutationKind) -> (r: Vec<usize>)
        requires
            self.wf(),
        ensures
            r@ == self@.edge_candidates(kind),
            r@.no_duplicates(),
            forall|i: int| 0 <= i < r@.len() ==> self@.edge_eligible(kind, #[trigger] r@[i]),
    {
        let ghost test = self@.edge_test(kind);
        let mut r: Vec<usize> = Vec::new();
        let mut e: usize = 0;
        while e < self.connections.len()
            invariant
                e <= self.connections.len(),
                self.wf(),
                test == self@.edge_test(kind),
                self.connections@.len() == self@.edges.len(),
                r@ == self@.slots().take(e as int).filter(test),
                forall|i: int| 0 <= i < r@.len() ==> self@.edge_eligible(kind, #[trigger] r@[i]),
            decreases self.connections.len() - e,
        {
            proof {
                assert(self@.slots().take(e + 1) =~= self@.slots().take(e as int).push(e));
                self@.slots().take(e as int).lemma_filter_push(e, test);
            }
            if self.edge_eligible(kind, e) {
                r.push(e);
            }
            e += 1;
        }
        proof {
            assert(self@.slots().take(self@.edges.len() as int) =~= self@.slots());
            crate::lists::lemma_filter_no_duplicates(self@.slots(), test);
        }
        r
    }

    /// The pairs of nodes a mutation of the given kind may connect.
    pub fn pair_candidates(&self, kind: MutationKind) -> (r: Vec<(usize, usize)>)
        requires
            self.wf(),
        ensures
            r@ == self@.pair_candidates(kind),
            forall|i: int| 0 <= i < r@.len() ==> self@.pair_eligible(kind, #[trigger] r@[i]),
    {
        let ghost test = self@.pair_test(kind);
        let mut r: Vec<(usize, usize)> = Vec::new();
        let forward = match kind {
            MutationKind::AddConnection => true,
            MutationKind::AddBackConnection => false,
            _ => {
                proof {
                    lemma_no_pairs(self@, kind, self@.order.len());
                }
                return r;
            },
        };
        let mut p: usize = 0;
        while p < self.order.len()
            invariant
                p <= self.order.len(),
                self.wf(),
                test == self@.pair_test(kind),
                self.order@ == self@.order,
                forward <==> kind == MutationKind::AddConnection,
                !forward <==> kind == MutationKind::AddBackConnection,
                r@ == self@.pair_rows(kind, p as nat),
                forall|i: int| 0 <= i < r@.len() ==> self@.pair_eligible(kind, #[trigger] r@[i]),
            decreases self.order.len() - p,
        {
            let a: usize = self.order[p];
            let ghost done = r@;
            let ghost row = fan_out(a, self@.order);
            let mut q: usize = 0;
            while q < self.order.len()
                invariant
                    q <= self.order.len(),
                    p < self.order.len(),
                    self.wf(),
                    test == self@.pair_test(kind),
                    self.order@ == self@.order,
                    a == self@.order[p as int],
                    row == fan_out(a, self@.order),
                    forward <==> kind == MutationKind::AddConnection,
                    !forward <==> kind == MutationKind::AddBackConnection,
                    r@ == done + row.take(q as int).filter(test),
                    forall|i: int| 0 <= i < r@.len() ==> self@.pair_eligible(kind, #[trigger] r@[i]),
                decreases self.order.len() - q,
            {
                let b: usize = self.order[q];
                proof {
                    assert(row.take(q + 1) =~= row.take(q as int).push((a, b)));
                    row.take(q as int).lemma_filter_push((a, b), test);
                    lemma_positions(self@, p as int, q as int);
                    assert(self@.is_node(self@.order[p as int]));
                    assert(self@.is_node(self@.order[q as int]));
                }
                let ok = if forward {
                    p < q && self.has_hidden(b) && !self.is_connected(a, b)
                } else {
                    q < p && self.has_hidden(a) && self.has_hidden(b) && !self.is_connected(a, b)
                };
                if ok {
                    r.push((a, b));
                }
                proof {
                    assert(r@ =~= done + row.take(q + 1).filter(test));
                }
                q += 1;
            }
            proof {
                assert(row.take(self@.order.len() as int) =~= row);
            }
            p += 1;
        }
        r
    }

    /// What a mutation of the given kind would apply to under the two
    /// draws.
    ///
    /// Fails with `NoEligibleMutationTarget` if and only if the network
    /// holds nothing the mutation could apply to.
    pub fn target(&self, kind: MutationKind, first: u64, second: u64) -> (r: Result<
        Target,
        NetworkError,
    >)
        requires
            self.wf(),
        ensures
            match self@.target(kind, first, second) {
                Some(t) => r == Ok::<Target, NetworkError>(t) && self@.target_ok(kind, t),
                None => r == Err::<Target, NetworkError>(NetworkError::NoEligibleMutationTarget),
            },
    {
        match kind {
            MutationKind::Activation
            | MutationKind::Bias
            | MutationKind::AddSelfConnection
            | MutationKind::SubSelfConnection
            | MutationKind::SubNode => {
                let c = self.node_candidates(kind);
                if c.len() == 0 {
                    Err(NetworkError::NoEligibleMutationTarget)
                } else {
                    Ok(Target::Node(c[pick_at(c.len(), first)]))
                }
            },
            MutationKind::SwapNodes => {
                let c = self.node_candidates(kind);
                if c.len() < 2 {
                    Err(NetworkError::NoEligibleMutationTarget)
                } else {
                    Ok(
                        Target::Nodes(
                            c[pick_at(c.len(), first)],
                            c[pick_other_at(c.len(), first, second)],
                        ),
                    )
                }
            },
            MutationKind::Weight
            | MutationKind::AddNode
            | MutationKind::SubConnection
            | MutationKind::SubBackConnection
            | MutationKind::AddGate
            | MutationKind::SubGate => {
                let c = self.edge_candidates(kind);
                if c.len() == 0 {
                    Err(NetworkError::NoEligibleMutationTarget)
                } else {
                    Ok(Target::Edge(c[pick_at(c.len(), first)]))
                }
            },
            MutationKind::ShareWeight => {
                let c = self.edge_candidates(kind);
                if c.len() < 2 {
                    Err(NetworkError::NoEligibleMutationTarget)
                } else {
                    Ok(
                        Target::Edges(
                            c[pick_at(c.len(), first)],
                            c[pick_other_at(c.len(), first, second)],
                        ),
                    )
                }
            },
            MutationKind::AddConnection | MutationKind::AddBackConnection => {
                let c = self.pair_candidates(kind);
                if c.len() == 0 {
                    Err(NetworkError::NoEligibleMutationTarget)
                } else {
                    let pair = c[pick_at(c.len(), first)];
                    Ok(Target::Nodes(pair.0, pair.1))
                }
            },
        }
    }
}

impl NetworkView {
    /// Whether a target is one that a mutation of the given kind may apply
    /// to.
    pub open spec fn target_ok(self, kind: MutationKind, target: Target) -> bool {
        match target {
            Target::Node(n) => self.node_eligible(kind, n),
            Target::Edge(e) => self.edge_eligible(kind, e),
            Target::Nodes(a, b) => if kind == MutationKind::SwapNodes {
                a != b && self.node_eligible(kind, a) && self.node_eligible(kind, b)
            } else {
                self.pair_eligible(kind, (a, b))
            },
            Target::Edges(a, b) => a != b && self.edge_eligible(kind, a) && self.edge_eligible(
                kind,
                b,
            ),
        }
    }
}

/// A node's place in the evaluation order is where the order holds it.
pub proof fn lemma_positions(v: NetworkView, p: int, q: int)
    requires
        v.order_wf(),
        0 <= p < v.order.len(),
        0 <= q < v.order.len(),
    ensures
        v.position(v.order[p]) == p,
        v.position(v.order[q]) == q,
        v.before(v.order[p], v.order[q]) <==> p < q,
{
    assert(v.order.contains(v.order[p]));
    assert(v.order.contains(v.order[q]));
}

/// A kind that connects no nodes has no eligible pair.
pub proof fn lemma_no_pairs(v: NetworkView, kind: MutationKind, k: nat)
    requires
        kind != MutationKind::AddConnection,
        kind != MutationKind::AddBackConnection,
    ensures
        v.pair_rows(kind, k) == Seq::<(usize, usize)>::empty(),
    decreases k,
{
    if k > 0 {
        lemma_no_pairs(v, kind, (k - 1) as nat);
        let row = fan_out(v.order[k - 1], v.order);
        row.lemma_all_neg_filter_empty(v.pair_test(kind));
        assert(v.pair_rows(kind, k) =~= Seq::<(usize, usize)>::empty());
    }
}

} // verus!
