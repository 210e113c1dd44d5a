use vstd::prelude::*;
use crate::connection::Connection;
use crate::error::NetworkError;
use crate::lists::{copy_handles, lemma_push_contains};
use crate::network::{Network, NetworkView};
use crate::node::Neuron;
use crate::params::{lemma_same_wiring, lemma_set_neuron};
use crate::scalar::NeuroFloat;

verus! {

/// What a pass reads of one connection: its record, its weight, and what
/// its source carries.
#[derive(Clone, Copy, Debug, PartialEq, Eq, Structural)]
pub struct Term {
    /// The connection's handle.
    pub edge: usize,
    /// The connection's record.
    pub connection: Connection,
    /// What the connection's weight cell holds.
    pub weight: NeuroFloat,
    /// What the source node carries: an input's value, a hidden node's
    /// activation.
    pub signal: NeuroFloat,
}

/// What a backward pass writes back for one inbound connection.
#[derive(Clone, Copy, Debug, PartialEq, Eq, Structural)]
pub struct WeightUpdate {
    /// The connection's weight after the pass.
    pub weight: NeuroFloat,
    /// The weight change of this pass.
    pub prev_delta_weight: NeuroFloat,
    /// The weight changes accumulated and not yet applied.
    pub total_delta_weight: NeuroFloat,
}

/// One step of a backward pass: the node, and its target if it is an
/// output node.
#[derive(Clone, Copy, Debug, PartialEq, Eq, Structural)]
pub struct BackwardStep {
    pub node: usize,
    pub target: Option<NeuroFloat>,
}

impl NetworkView {
    /// What a pass reads of connection `e`.
    pub open spec fn term(self, e: usize) -> Term
        recommends
            self.is_edge(e),
    {
        Term {
            edge: e,
            connection: self.edge(e),
            weight: self.weight_of(e),
            signal: self.node(self.edge(e).from).signal(),
        }
    }

    /// What a pass reads of each connection of a list, in the list's order.
    pub open spec fn terms(self, list: Seq<usize>) -> Seq<Term> {
        Seq::new(list.len(), |k: int| self.term(list[k]))
    }

    /// What record connection `x` has after the forward pass of node `n`:
    /// the node's activation as gain where the node gates the connection,
    /// and the trace handed in for it as eligibility where the connection
    /// enters the node.
    pub open spec fn fired_edge(self, n: usize, x: usize, activation: NeuroFloat, traces: Seq<NeuroFloat>) -> Connection
        recommends
            self.is_edge(x),
    {
        let c = self.edge(x);
        Connection {
            gain: if c.gater == Some(n) {
                activation
            } else {
                c.gain
            },
            eligibility: if self.enters(x, n) {
                traces[self.links(n).inbound.index_of(x)]
            } else {
                c.eligibility
            },
            ..c
        }
    }

    /// The network after the forward pass of hidden node `n` was recorded.
    ///
    /// The node holds the new state, also as its previous state for the
    /// next pass, the new activation and the new derivative. Every
    /// connection the node gates has the activation as gain, and the
    /// `k`-th connection that enters the node has `traces[k]` as
    /// eligibility. Nothing else changes: no other node, no weight.
    pub open spec fn record_forward(
        self,
        n: usize,
        state: NeuroFloat,
        activation: NeuroFloat,
        derivative: NeuroFloat,
        traces: Seq<NeuroFloat>,
    ) -> NetworkView
        recommends
            self.is_hidden(n),
            traces.len() == self.links(n).inbound.len(),
    {
        NetworkView {
            nodes: self.set_neuron(
                n,
                Neuron { state, previous: state, activation, derivative, ..self.neuron(n) },
            ).nodes,
            edges: Seq::new(
                self.edges.len(),
                |x: int|
                    if self.edges[x] is Some {
                        Some(self.fired_edge(n, x as usize, activation, traces))
                    } else {
                        None
                    },
            ),
            ..self
        }
    }

    /// The weight cells after the first `k` of `updates` were written, each
    /// to the cell of the connection at its place in `list`, one after
    /// another.
    pub open spec fn stored_weights(self, list: Seq<usize>, updates: Seq<WeightUpdate>, k: nat) -> Seq<
        NeuroFloat,
    >
        decreases k,
    {
        if k == 0 {
            self.weights
        } else {
            self.stored_weights(list, updates, (k - 1) as nat).update(
                self.edge(list[k - 1]).weight as int,
                updates[k - 1].weight,
            )
        }
    }

    /// What record connection `x` has after the backward pass of node `n`:
    /// the two weight changes handed in for it, where it enters the node.
    pub open spec fn learned_edge(self, n: usize, x: usize, updates: Seq<WeightUpdate>) -> Connection
        recommends
            self.is_edge(x),
    {
        let c = self.edge(x);
        if self.enters(x, n) {
            let u = updates[self.links(n).inbound.index_of(x)];
            Connection {
                prev_delta_weight: u.prev_delta_weight,
                total_delta_weight: u.total_delta_weight,
                ..c
            }
        } else {
            c
        }
    }

    /// The network after the backward pass of hidden node `n` was recorded.
    ///
    /// The node holds the new bias and the two new bias changes. The
    /// `k`-th connection that enters the node holds the two weight changes
    /// of `updates[k]`, and its weight cell holds the weight of
    /// `updates[k]`; where two of them share a cell, the later one's weight
    /// stays. Nothing else changes.
    pub open spec fn record_backward(
        self,
        n: usize,
        bias: NeuroFloat,
        prev_delta_bias: NeuroFloat,
        total_delta_bias: NeuroFloat,
        updates: Seq<WeightUpdate>,
    ) -> NetworkView
        recommends
            self.is_hidden(n),
            updates.len() == self.links(n).inbound.len(),
    {
        NetworkView {
            nodes: self.set_neuron(
                n,
                Neuron { bias, prev_delta_bias, total_delta_bias, ..self.neuron(n) },
            ).nodes,
            edges: Seq::new(
                self.edges.len(),
                |x: int|
                    if self.edges[x] is Some {
                        Some(self.learned_edge(n, x as usize, updates))
                    } else {
                        None
                    },
            ),
            weights: self.stored_weights(self.links(n).inbound, updates, updates.len()),
            ..self
        }
    }

    /// Whether `n` is an output node.
    pub open spec fn is_output(self, n: usize) -> bool {
        self.inputs <= n < self.inputs + self.outputs
    }

    /// The steps of a backward pass: every node in the reverse of the
    /// evaluation order, each output node with the target at its place
    /// among the outputs.
    pub open spec fn backward_steps(self, targets: Seq<NeuroFloat>) -> Seq<BackwardStep>
        recommends
            targets.len() == self.outputs,
    {
        Seq::new(
            self.order.len(),
            |k: int|
                {
                    let n = self.order[self.order.len() - 1 - k];
                    BackwardStep {
                        node: n,
                        target: if self.is_output(n) {
                            Some(targets[n - self.inputs])
                        } else {
                            None
                        },
                    }
                },
        )
    }

    /// Why the outcome of a pass of node `n` with `count` entries for its
    /// inbound connections cannot be recorded, if it cannot:
    /// `DanglingReference` where `n` names no live node,
    /// `NoEligibleMutationTarget` where it names an input node, which has
    /// nothing to record, and `SizeMismatch` where `count` is not the number
    /// of connections that enter the node.
    pub open spec fn record_error(self, n: usize, count: nat) -> Option<NetworkError> {
        if !self.is_node(n) {
            Some(NetworkError::DanglingReference)
        } else if !self.is_hidden(n) {
            Some(NetworkError::NoEligibleMutationTarget)
        } else if count != self.links(n).inbound.len() {
            Some(NetworkError::SizeMismatch)
        } else {
            None
        }
    }
}

/// Writing weights into cells in use keeps the number of cells.
pub proof fn lemma_stored_weights_len(v: NetworkView, list: Seq<usize>, updates: Seq<WeightUpdate>, k: nat)
    requires
        k <= list.len(),
        forall|j: int| 0 <= j < list.len() ==> (#[trigger] v.edge(list[j])).weight < v.weights.len(),
    ensures
        v.stored_weights(list, updates, k).len() == v.weights.len(),
    decreases k,
{
    if k > 0 {
        lemma_stored_weights_len(v, list, updates, (k - 1) as nat);
    }
}

impl Network {
    /// The steps of a backward pass for the given targets: every node in
    /// the reverse of the evaluation order, each output node with its
    /// target.
    ///
    /// Fails with `TargetSizeMismatch` unless there are as many targets as
    /// output nodes.
    pub fn backward_steps(&self, targets: &Vec<NeuroFloat>) -> (r: Result<
        Vec<BackwardStep>,
        NetworkError,
    >)
        requires
            self.wf(),
        ensures
            targets@.len() == self@.outputs ==> r is Ok && r->Ok_0@ == self@.backward_steps(
                targets@,
            ),
            targets@.len() != self@.outputs ==> r == Err::<Vec<BackwardStep>, NetworkError>(
                NetworkError::TargetSizeMismatch,
            ),
    {
        if targets.len() != self.outputs {
            return Err(NetworkError::TargetSizeMismatch);
        }
        let mut steps: Vec<BackwardStep> = Vec::new();
        let len: usize = self.order.len();
        let mut k: usize = 0;
        while k < len
            invariant
                k <= len,
                len == self.order@.len(),
                self.order@ == self@.order,
                targets@.len() == self@.outputs,
                self.inputs == self@.inputs,
                self.outputs == self@.outputs,
                self@.inputs + self@.outputs <= usize::MAX,
                steps@ == self@.backward_steps(targets@).take(k as int),
            decreases len - k,
        {
            let n: usize = self.order[len - 1 - k];
            let target = if n >= self.inputs && n - self.inputs < self.outputs {
                Some(targets[n - self.inputs])
            } else {
                None
            };
            steps.push(BackwardStep { node: n, target });
            proof {
                assert(steps@ =~= self@.backward_steps(targets@).take(k + 1));
            }
            k += 1;
        }
        proof {
            assert(steps@ =~= self@.backward_steps(targets@));
        }
        Ok(steps)
    }

    /// What a pass reads of connection `e`, if it is live.
    pub fn term(&self, e: usize) -> (r: Option<Term>)
        requires
            self.wf(),
        ensures
            self@.is_edge(e) ==> r == Some(self@.term(e)),
            !self@.is_edge(e) ==> r is None,
    {
        let c = match self.connection(e) {
            Some(c) => c,
            None => { return None; },
        };
        proof {
            assert(self@.edge_wf(e));
        }
        let signal = match &self.nodes[c.from] {
            Some(node) => node.signal(),
            None => NeuroFloat::zero(),
        };
        Some(Term { edge: e, connection: c, weight: self.weights[c.weight], signal })
    }

    /// What a pass reads of each connection of a list of live connections.
    fn terms(&self, list: &Vec<usize>) -> (r: Vec<Term>)
        requires
            self.wf(),
            forall|k: int| 0 <= k < list@.len() ==> self@.is_edge(#[trigger] list@[k]),
        ensures
            r@ == self@.terms(list@),
    {
        let mut r: Vec<Term> = Vec::new();
        let mut k: usize = 0;
        while k < list.len()
            invariant
                k <= list.len(),
                self.wf(),
                forall|k: int| 0 <= k < list@.len() ==> self@.is_edge(#[trigger] list@[k]),
                r@ == self@.terms(list@).take(k as int),
            decreases list.len() - k,
        {
            proof {
                assert(self@.is_edge(list@[k as int]));
            }
            match self.term(list[k]) {
                Some(t) => {
                    r.push(t);
                },
                None => {},
            }
            proof {
                assert(r@ =~= self@.terms(list@).take(k + 1));
            }
            k += 1;
        }
        proof {
            assert(r@ =~= self@.terms(list@));
        }
        r
    }

    /// What a pass reads of the connections that enter node `n`, in the
    /// order of the node's inbound list; nothing for a handle that names no
    /// live node.
    pub fn inbound_terms(&self, n: usize) -> (r: Vec<Term>)
        requires
            self.wf(),
        ensures
            self@.is_node(n) ==> r@ == self@.terms(self@.links(n).inbound),
            !self@.is_node(n) ==> r@.len() == 0,
    {
        if !self.has_node(n) {
            return Vec::new();
        }
        proof {
            assert(self@.links_wf(n));
            assert forall|k: int| 0 <= k < self@.links(n).inbound.len() implies self@.is_edge(
                #[trigger] self@.links(n).inbound[k],
            ) by {
                assert(self@.enters(self@.links(n).inbound[k], n));
            }
        }
        match &self.nodes[n] {
            Some(node) => self.terms(&node.connections().inbound),
            None => Vec::new(),
        }
    }

    /// What a pass reads of the connections that leave node `n`, in the
    /// order of the node's outbound list; nothing for a handle that names
    /// no live node.
    pub fn outbound_terms(&self, n: usize) -> (r: Vec<Term>)
        requires
            self.wf(),
        ensures
            self@.is_node(n) ==> r@ == self@.terms(self@.links(n).outbound),
            !self@.is_node(n) ==> r@.len() == 0,
    {
        if !self.has_node(n) {
            return Vec::new();
        }
        proof {
            assert(self@.links_wf(n));
            assert forall|k: int| 0 <= k < self@.links(n).outbound.len() implies self@.is_edge(
                #[trigger] self@.links(n).outbound[k],
            ) by {
                assert(self@.leaves(self@.links(n).outbound[k], n));
            }
        }
        match &self.nodes[n] {
            Some(node) => self.terms(&node.connections().outbound),
            None => Vec::new(),
        }
    }

    /// What a pass reads of the connections that node `n` gates, in the
    /// order of the node's gated list; nothing for a handle that names no
    /// live node.
    pub fn gated_terms(&self, n: usize) -> (r: Vec<Term>)
        requires
            self.wf(),
        ensures
            self@.is_node(n) ==> r@ == self@.terms(self@.links(n).gated),
            !self@.is_node(n) ==> r@.len() == 0,
    {
        if !self.has_node(n) {
            return Vec::new();
        }
        proof {
            assert(self@.links_wf(n));
            assert forall|k: int| 0 <= k < self@.links(n).gated.len() implies self@.is_edge(
                #[trigger] self@.links(n).gated[k],
            ) by {
                assert(self@.gated_by(self@.links(n).gated[k], n));
            }
        }
        match &self.nodes[n] {
            Some(node) => self.terms(&node.connections().gated),
            None => Vec::new(),
        }
    }

    /// What a pass reads of the self-connection of node `n`, if it has one.
    pub fn self_term(&self, n: usize) -> (r: Option<Term>)
        requires
            self.wf(),
        ensures
            self@.is_node(n) && self@.links(n).to_self is Some ==> r == Some(
                self@.term(self@.links(n).to_self->0),
            ),
            !(self@.is_node(n) && self@.links(n).to_self is Some) ==> r is None,
    {
        if !self.has_node(n) {
            return None;
        }
        proof {
            assert(self@.links_wf(n));
        }
        let e = match &self.nodes[n] {
            Some(node) => node.connections().to_self,
            None => None,
        };
        match e {
            Some(e) => self.term(e),
            None => None,
        }
    }
}

/// Recording a forward pass changes scalars only, and no weight.
pub proof fn lemma_record_forward(
    v: NetworkView,
    n: usize,
    state: NeuroFloat,
    activation: NeuroFloat,
    derivative: NeuroFloat,
    traces: Seq<NeuroFloat>,
)
    requires
        v.wf(),
        v.is_hidden(n),
    ensures
        v.same_wiring(v.record_forward(n, state, activation, derivative, traces)),
        v.record_forward(n, state, activation, derivative, traces).wf(),
{
    let w = v.record_forward(n, state, activation, derivative, traces);
    let neuron = Neuron { state, previous: state, activation, derivative, ..v.neuron(n) };
    let m = v.set_neuron(n, neuron);
    lemma_set_neuron(v, n, neuron);
    assert(v.same_wiring(w)) by {
        assert forall|x: usize| #[trigger] v.is_edge(x) implies w.edge(x).weight
            < w.weights.len() by {
            assert(v.edge_wf(x));
        }
        assert forall|y: usize| #[trigger] w.is_node(y) <==> v.is_node(y) by {
            assert(m.is_node(y) <==> v.is_node(y));
        }
        assert forall|y: usize| #[trigger] v.is_node(y) implies w.links(y) == v.links(y) by {
            assert(m.links(y) == v.links(y));
        }
    }
    lemma_same_wiring(v, w);
}

/// Recording a backward pass changes scalars only.
pub proof fn lemma_record_backward(
    v: NetworkView,
    n: usize,
    bias: NeuroFloat,
    prev_delta_bias: NeuroFloat,
    total_delta_bias: NeuroFloat,
    updates: Seq<WeightUpdate>,
)
    requires
        v.wf(),
        v.is_hidden(n),
        updates.len() == v.links(n).inbound.len(),
    ensures
        v.same_wiring(v.record_backward(n, bias, prev_delta_bias, total_delta_bias, updates)),
        v.record_backward(n, bias, prev_delta_bias, total_delta_bias, updates).wf(),
{
    let w = v.record_backward(n, bias, prev_delta_bias, total_delta_bias, updates);
    let neuron = Neuron { bias, prev_delta_bias, total_delta_bias, ..v.neuron(n) };
    let m = v.set_neuron(n, neuron);
    let inbound = v.links(n).inbound;
    assert(v.links_wf(n));
    assert forall|j: int| 0 <= j < inbound.len() implies (#[trigger] v.edge(inbound[j])).weight
        < v.weights.len() by {
        assert(v.enters(inbound[j], n));
        assert(v.edge_wf(inbound[j]));
    }
    lemma_stored_weights_len(v, inbound, updates, updates.len());
    lemma_set_neuron(v, n, neuron);
    assert(v.same_wiring(w)) by {
        assert forall|x: usize| #[trigger] v.is_edge(x) implies w.edge(x).weight
            < w.weights.len() by {
            assert(v.edge_wf(x));
        }
        assert forall|y: usize| #[trigger] w.is_node(y) <==> v.is_node(y) by {
            assert(m.is_node(y) <==> v.is_node(y));
        }
        assert forall|y: usize| #[trigger] v.is_node(y) implies w.links(y) == v.links(y) by {
            assert(m.links(y) == v.links(y));
        }
    }
    lemma_same_wiring(v, w);
}

/// The connection records while a forward pass is being recorded: the
/// connections in `gated` have the activation as gain, and those in `traced`
/// have their trace as eligibility.
pub open spec fn partly_fired(
    v: NetworkView,
    n: usize,
    activation: NeuroFloat,
    traces: Seq<NeuroFloat>,
    gated: Seq<usize>,
    traced: Seq<usize>,
) -> Seq<Option<Connection>> {
    Seq::new(
        v.edges.len(),
        |x: int|
            if v.edges[x] is Some {
                let c = v.edges[x]->0;
                Some(
                    Connection {
                        gain: if gated.contains(x as usize) {
                            activation
                        } else {
                            c.gain
                        },
                        eligibility: if traced.contains(x as usize) {
                            traces[v.links(n).inbound.index_of(x as usize)]
                        } else {
                            c.eligibility
                        },
                        ..c
                    },
                )
            } else {
                None
            },
    )
}

/// The connection records while a backward pass is being recorded: the
/// connections in `done` have the weight changes handed in for them.
pub open spec fn partly_learned(v: NetworkView, n: usize, updates: Seq<WeightUpdate>, done: Seq<usize>) -> Seq<
    Option<Connection>,
> {
    Seq::new(
        v.edges.len(),
        |x: int|
            if v.edges[x] is Some && done.contains(x as usize) {
                let c = v.edges[x]->0;
                let u = updates[v.links(n).inbound.index_of(x as usize)];
                Some(
                    Connection {
                        prev_delta_weight: u.prev_delta_weight,
                        total_delta_weight: u.total_delta_weight,
                        ..c
                    },
                )
            } else {
                v.edges[x]
            },
    )
}

impl Network {
    /// The lists of the connections that node `n` gates and of those that
    /// enter it.
    fn gated_and_inbound(&self, n: usize) -> (r: (Vec<usize>, Vec<usize>))
        requires
            self@.is_node(n),
        ensures
            r.0@ == self@.links(n).gated,
            r.1@ == self@.links(n).inbound,
    {
        let mut gated: Vec<usize> = Vec::new();
        let mut inbound: Vec<usize> = Vec::new();
        match &self.nodes[n] {
            Some(node) => {
                copy_handles(&node.connections().gated, &mut gated);
                copy_handles(&node.connections().inbound, &mut inbound);
                proof {
                    assert(gated@ =~= self@.links(n).gated);
                    assert(inbound@ =~= self@.links(n).inbound);
                }
            },
            None => {},
        }
        (gated, inbound)
    }

    /// Why the outcome of a pass of node `n` cannot be recorded, if it
    /// cannot.
    fn check_record(&self, n: usize, count: usize) -> (r: Option<NetworkError>)
        ensures
            r == self@.record_error(n, count as nat),
    {
        if !self.has_node(n) {
            return Some(NetworkError::DanglingReference);
        }
        if !self.has_hidden(n) {
            return Some(NetworkError::NoEligibleMutationTarget);
        }
        let inbound: usize = match &self.nodes[n] {
            Some(node) => node.connections().inbound.len(),
            None => 0,
        };
        if count != inbound {
            Some(NetworkError::SizeMismatch)
        } else {
            None
        }
    }

    /// Records the outcome of the forward pass of hidden node `n`.
    ///
    /// The node takes the new state, which is also its previous state for
    /// the next pass, the new activation and the new derivative. Every
    /// connection the node gates takes the activation as gain. The `k`-th
    /// connection that enters the node takes `traces[k]` as eligibility.
    /// No other node and no weight is touched.
    ///
    /// Fails, changing nothing, with `DanglingReference` if `n` names no
    /// live node, with `NoEligibleMutationTarget` if it names an input
    /// node, whose forward pass changes nothing, and with `SizeMismatch`
    /// unless there are as many traces as connections that enter the node.
    pub fn record_forward(
        &mut self,
        n: usize,
        state: NeuroFloat,
        activation: NeuroFloat,
        derivative: NeuroFloat,
        traces: &Vec<NeuroFloat>,
    ) -> (r: Result<(), NetworkError>)
        requires
            old(self).wf(),
        ensures
            final(self).wf(),
            match old(self)@.record_error(n, traces@.len()) {
                Some(e) => r == Err::<(), NetworkError>(e) && final(self)@ == old(self)@,
                None => r is Ok && final(self)@ == old(self)@.record_forward(
                    n,
                    state,
                    activation,
                    derivative,
                    traces@,
                ),
            },
    {
        match self.check_record(n, traces.len()) {
            Some(e) => { return Err(e); },
            None => {},
        }
        let ghost start = self@;
        let (gated, inbound) = self.gated_and_inbound(n);
        let old_neuron = match self.neuron(n) {
            Some(neuron) => neuron,
            None => { return Err(NetworkError::DanglingReference); },
        };
        let new_neuron = Neuron {
            activation,
            bias: old_neuron.bias,
            squash: old_neuron.squash,
            state,
            previous: state,
            mask: old_neuron.mask,
            derivative,
            prev_delta_bias: old_neuron.prev_delta_bias,
            total_delta_bias: old_neuron.total_delta_bias,
            output: old_neuron.output,
        };
        self.store_neuron(n, new_neuron);
        let ghost nodes = self@.nodes;
        let ghost none = Seq::<usize>::empty();
        proof {
            assert(start.links_wf(n));
            assert(self@.edges =~= partly_fired(start, n, activation, traces@, none, none));
        }
        let mut i: usize = 0;
        while i < gated.len()
            invariant
                i <= gated.len(),
                start.wf(),
                start.is_node(n),
                gated@ == start.links(n).gated,
                none == Seq::<usize>::empty(),
                self@.nodes == nodes,
                self@.weights == start.weights,
                self@.order == start.order,
                self@.inputs == start.inputs,
                self@.outputs == start.outputs,
                self@.edges == partly_fired(start, n, activation, traces@, gated@.take(i as int), none),
            decreases gated.len() - i,
        {
            let e: usize = gated[i];
            proof {
                assert(start.links_wf(n));
                assert(start.gated_by(gated@[i as int], n));
                assert(gated@.take(i + 1) =~= gated@.take(i as int).push(e));
                lemma_push_contains(gated@.take(i as int), e);
            }
            match self.connections[e] {
                Some(c) => {
                    self.connections[e] = Some(
                        Connection {
                            from: c.from,
                            to: c.to,
                            weight: c.weight,
                            gain: activation,
                            gater: c.gater,
                            eligibility: c.eligibility,
                            prev_delta_weight: c.prev_delta_weight,
                            total_delta_weight: c.total_delta_weight,
                        },
                    );
                },
                None => {},
            }
            proof {
                assert(self@.edges =~= partly_fired(
                    start,
                    n,
                    activation,
                    traces@,
                    gated@.take(i + 1),
                    none,
                ));
            }
            i += 1;
        }
        proof {
            assert(gated@.take(gated@.len() as int) =~= gated@);
        }
        let mut k: usize = 0;
        while k < inbound.len()
            invariant
                k <= inbound.len(),
                start.wf(),
                start.is_node(n),
                gated@ == start.links(n).gated,
                inbound@ == start.links(n).inbound,
                traces@.len() == inbound@.len(),
                self@.nodes == nodes,
                self@.weights == start.weights,
                self@.order == start.order,
                self@.inputs == start.inputs,
                self@.outputs == start.outputs,
                self@.edges == partly_fired(
                    start,
                    n,
                    activation,
                    traces@,
                    gated@,
                    inbound@.take(k as int),
                ),
            decreases inbound.len() - k,
        {
            let e: usize = inbound[k];
            proof {
                assert(start.links_wf(n));
                assert(start.enters(inbound@[k as int], n));
                assert(inbound@.take(k + 1) =~= inbound@.take(k as int).push(e));
                lemma_push_contains(inbound@.take(k as int), e);
                assert(inbound@.contains(e));
                assert(inbound@.index_of(e) == k);
                if inbound@.take(k as int).contains(e) {
                    let j = inbound@.take(k as int).index_of(e);
                    assert(inbound@[j] == e);
                }
            }
            match self.connections[e] {
                Some(c) => {
                    self.connections[e] = Some(
                        Connection {
                            from: c.from,
                            to: c.to,
                            weight: c.weight,
                            gain: c.gain,
                            gater: c.gater,
                            eligibility: traces[k],
                            prev_delta_weight: c.prev_delta_weight,
                            total_delta_weight: c.total_delta_weight,
                        },
                    );
                },
                None => {},
            }
            proof {
                assert(self@.edges =~= partly_fired(
                    start,
                    n,
                    activation,
                    traces@,
                    gated@,
                    inbound@.take(k + 1),
                ));
            }
            k += 1;
        }
        proof {
            assert(inbound@.take(inbound@.len() as int) =~= inbound@);
            let w = start.record_forward(n, state, activation, derivative, traces@);
            assert(self@.edges =~= w.edges) by {
                assert forall|x: int| 0 <= x < start.edges.len() implies self@.edges[x]
                    == w.edges[x] by {
                    if start.edges[x] is Some {
                        let xe = x as usize;
                        assert(start.is_edge(xe));
                        assert(start.edge_wf(xe));
                        assert(start.links_wf(n));
                        if gated@.contains(xe) {
                            let j = gated@.index_of(xe);
                            assert(start.gated_by(gated@[j], n));
                        }
                        if inbound@.contains(xe) {
                            let j = inbound@.index_of(xe);
                            assert(start.enters(inbound@[j], n));
                        }
                    }
                }
            }
            assert(self@ =~= w);
            lemma_record_forward(start, n, state, activation, derivative, traces@);
        }
        Ok(())
    }

    /// Records the outcome of the backward pass of hidden node `n`.
    ///
    /// The node takes the new bias and the two new bias changes. The
    /// `k`-th connection that enters the node takes the two weight changes
    /// of `updates[k]`, and its weight cell takes the weight of
    /// `updates[k]`, in the order of the node's inbound list. Nothing else
    /// is touched.
    ///
    /// Fails, changing nothing, with `DanglingReference` if `n` names no
    /// live node, with `NoEligibleMutationTarget` if it names an input
    /// node, which has nothing to train, and with `SizeMismatch` unless
    /// there are as many updates as connections that enter the node.
    pub fn record_backward(
        &mut self,
        n: usize,
        bias: NeuroFloat,
        prev_delta_bias: NeuroFloat,
        total_delta_bias: NeuroFloat,
        updates: &Vec<WeightUpdate>,
    ) -> (r: Result<(), NetworkError>)
        requires
            old(self).wf(),
        ensures
            final(self).wf(),
            match old(self)@.record_error(n, updates@.len()) {
                Some(e) => r == Err::<(), NetworkError>(e) && final(self)@ == old(self)@,
                None => r is Ok && final(self)@ == old(self)@.record_backward(
                    n,
                    bias,
                    prev_delta_bias,
                    total_delta_bias,
                    updates@,
                ),
            },
    {
        match self.check_record(n, updates.len()) {
            Some(e) => { return Err(e); },
            None => {},
        }
        let ghost start = self@;
        let (gated, inbound) = self.gated_and_inbound(n);
        let old_neuron = match self.neuron(n) {
            Some(neuron) => neuron,
            None => { return Err(NetworkError::DanglingReference); },
        };
        let new_neuron = Neuron {
            activation: old_neuron.activation,
            bias,
            squash: old_neuron.squash,
            state: old_neuron.state,
            previous: old_neuron.previous,
            mask: old_neuron.mask,
            derivative: old_neuron.derivative,
            prev_delta_bias,
            total_delta_bias,
            output: old_neuron.output,
        };
        self.store_neuron(n, new_neuron);
        let ghost nodes = self@.nodes;
        proof {
            assert(start.links_wf(n));
            assert(self@.edges =~= partly_learned(start, n, updates@, Seq::<usize>::empty()));
            assert forall|j: int| 0 <= j < inbound@.len() implies (#[trigger] start.edge(
                inbound@[j],
            )).weight < start.weights.len() by {
                assert(start.enters(inbound@[j], n));
                assert(start.edge_wf(inbound@[j]));
            }
        }
        let mut k: usize = 0;
        while k < inbound.len()
            invariant
                k <= inbound.len(),
                start.wf(),
                start.is_node(n),
                inbound@ == start.links(n).inbound,
                updates@.len() == inbound@.len(),
                forall|j: int|
                    0 <= j < inbound@.len() ==> (#[trigger] start.edge(inbound@[j])).weight
                        < start.weights.len(),
                self@.nodes == nodes,
                self@.order == start.order,
                self@.inputs == start.inputs,
                self@.outputs == start.outputs,
                self@.weights == start.stored_weights(inbound@, updates@, k as nat),
                self@.edges == partly_learned(start, n, updates@, inbound@.take(k as int)),
            decreases inbound.len() - k,
        {
            let e: usize = inbound[k];
            proof {
                assert(start.links_wf(n));
                assert(start.enters(inbound@[k as int], n));
                assert(inbound@.take(k + 1) =~= inbound@.take(k as int).push(e));
                lemma_push_contains(inbound@.take(k as int), e);
                assert(inbound@.contains(e));
                assert(inbound@.index_of(e) == k);
                if inbound@.take(k as int).contains(e) {
                    let j = inbound@.take(k as int).index_of(e);
                    assert(inbound@[j] == e);
                }
                lemma_stored_weights_len(start, inbound@, updates@, k as nat);
                assert((start.edge(inbound@[k as int])).weight < start.weights.len());
            }
            match self.connections[e] {
                Some(c) => {
                    self.connections[e] = Some(
                        Connection {
                            from: c.from,
                            to: c.to,
                            weight: c.weight,
                            gain: c.gain,
                            gater: c.gater,
                            eligibility: c.eligibility,
                            prev_delta_weight: updates[k].prev_delta_weight,
                            total_delta_weight: updates[k].total_delta_weight,
                        },
                    );
                    self.weights[c.weight] = updates[k].weight;
                },
                None => {},
            }
            proof {
                assert(self@.edges =~= partly_learned(start, n, updates@, inbound@.take(k + 1)));
            }
            k += 1;
        }
        proof {
            assert(inbound@.take(inbound@.len() as int) =~= inbound@);
            let w = start.record_backward(n, bias, prev_delta_bias, total_delta_bias, updates@);
            assert(self@.edges =~= w.edges) by {
                assert forall|x: int| 0 <= x < start.edges.len() implies self@.edges[x]
                    == w.edges[x] by {
                    if start.edges[x] is Some {
                        let xe = x as usize;
                        assert(start.is_edge(xe));
                        assert(start.edge_wf(xe));
                        assert(start.links_wf(n));
                        if inbound@.contains(xe) {
                            let j = inbound@.index_of(xe);
                            assert(start.enters(inbound@[j], n));
                        }
                    }
                }
            }
            assert(self@ =~= w);
            lemma_record_backward(start, n, bias, prev_delta_bias, total_delta_bias, updates@);
        }
        Ok(())
    }
}

} // verus!
