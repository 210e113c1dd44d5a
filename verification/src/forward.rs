use vstd::prelude::*;
use crate::error::NetworkError;
use crate::evaluate::{lemma_record_forward, Term};
use crate::network::{Network, NetworkView};
use crate::node::Neuron;
use crate::scalar::NeuroFloat;

verus! {

/// What the forward pass of a hidden node reads.
#[derive(Debug)]
pub struct Stimulus {
    /// The node's handle.
    pub node: usize,
    /// What the node holds before the pass.
    pub neuron: Neuron,
    /// What the pass reads of the node's self-connection, if it has one.
    pub feedback: Option<Term>,
    /// What the pass reads of the connections that enter the node, in the
    /// order of its inbound list.
    pub terms: Vec<Term>,
}

/// A stimulus with its terms as a sequence.
pub struct StimulusView {
    pub node: usize,
    pub neuron: Neuron,
    pub feedback: Option<Term>,
    pub terms: Seq<Term>,
}

impl View for Stimulus {
    type V = StimulusView;

    open spec fn view(&self) -> StimulusView {
        StimulusView {
            node: self.node,
            neuron: self.neuron,
            feedback: self.feedback,
            terms: self.terms@,
        }
    }
}

/// What the forward pass of a hidden node computes.
#[derive(Debug)]
pub struct Outcome {
    /// The node's accumulator before the squash.
    pub state: NeuroFloat,
    /// The node's squashed and masked output.
    pub activation: NeuroFloat,
    /// The slope of the squash.
    pub derivative: NeuroFloat,
    /// The new eligibility of each connection that enters the node, in the
    /// order of its inbound list.
    pub traces: Vec<NeuroFloat>,
}

/// An outcome with its traces as a sequence.
pub struct OutcomeView {
    pub state: NeuroFloat,
    pub activation: NeuroFloat,
    pub derivative: NeuroFloat,
    pub traces: Seq<NeuroFloat>,
}

impl View for Outcome {
    type V = OutcomeView;

    open spec fn view(&self) -> OutcomeView {
        OutcomeView {
            state: self.state,
            activation: self.activation,
            derivative: self.derivative,
            traces: self.traces@,
        }
    }
}

/// The outcomes as the contracts see them.
pub open spec fn outcome_views(outcomes: Seq<Outcome>) -> Seq<OutcomeView> {
    outcomes.map_values(|o: Outcome| o@)
}

impl NetworkView {
    /// What a pass reads of the self-connection of node `n`, if it has one.
    pub open spec fn self_term(self, n: usize) -> Option<Term>
        recommends
            self.is_node(n),
    {
        match self.links(n).to_self {
            Some(e) => Some(self.term(e)),
            None => None,
        }
    }

    /// What the forward pass of hidden node `n` reads.
    pub open spec fn stimulus(self, n: usize) -> StimulusView
        recommends
            self.is_hidden(n),
    {
        StimulusView {
            node: n,
            neuron: self.neuron(n),
            feedback: self.self_term(n),
            terms: self.terms(self.links(n).inbound),
        }
    }

    /// The network after the forward pass of node `n` with the given
    /// outcome: the outcome is recorded for a hidden node, and an input
    /// node changes nothing.
    pub open spec fn forward_step(self, n: usize, outcome: OutcomeView) -> NetworkView {
        if self.is_hidden(n) {
            self.record_forward(
                n,
                outcome.state,
                outcome.activation,
                outcome.derivative,
                outcome.traces,
            )
        } else {
            self
        }
    }

    /// The network after the forward pass of the first `k` nodes of the
    /// evaluation order, the `j`-th of them with the `j`-th outcome.
    pub open spec fn forward_run(self, outcomes: Seq<OutcomeView>, k: nat) -> NetworkView
        decreases k,
    {
        if k == 0 {
            self
        } else {
            self.forward_run(outcomes, (k - 1) as nat).forward_step(
                self.order[k - 1],
                outcomes[k - 1],
            )
        }
    }
}

/// Whether the first `k` outcomes are what `fire` made of the first `k`
/// stimuli, and each stimulus is what the pass of its node reads once the
/// nodes before it have run. Input nodes have no pass: what stands at
/// their place says nothing.
pub open spec fn fired_by<F: Fn(&Stimulus) -> Outcome>(
    fire: F,
    start: NetworkView,
    stimuli: Seq<Stimulus>,
    outcomes: Seq<Outcome>,
    k: nat,
) -> bool {
    &&& k <= stimuli.len()
    &&& k <= outcomes.len()
    &&& forall|j: int|
        0 <= j < k && start.is_hidden(#[trigger] start.order[j]) ==> {
            &&& stimuli[j]@ == start.forward_run(outcome_views(outcomes), j as nat).stimulus(
                start.order[j],
            )
            &&& call_ensures(fire, (&stimuli[j],), outcomes[j])
            &&& outcomes[j]@.traces.len() == stimuli[j]@.terms.len()
        }
}

/// A run depends on the outcomes of the nodes that ran, and on no others.
pub proof fn lemma_forward_run_prefix(
    v: NetworkView,
    a: Seq<OutcomeView>,
    b: Seq<OutcomeView>,
    k: nat,
)
    requires
        k <= a.len(),
        k <= b.len(),
        forall|j: int| 0 <= j < k ==> a[j] == b[j],
    ensures
        v.forward_run(a, k) == v.forward_run(b, k),
    decreases k,
{
    if k > 0 {
        lemma_forward_run_prefix(v, a, b, (k - 1) as nat);
    }
}

/// Differing in scalars only carries over from one network to the next.
pub proof fn lemma_same_wiring_trans(a: NetworkView, b: NetworkView, c: NetworkView)
    requires
        a.same_wiring(b),
        b.same_wiring(c),
    ensures
        a.same_wiring(c),
{
    assert forall|n: usize| #[trigger] c.is_node(n) <==> a.is_node(n) by {
        assert(b.is_node(n) <==> a.is_node(n));
    }
    assert forall|n: usize| #[trigger] a.is_node(n) implies {
        &&& c.links(n) == a.links(n)
        &&& c.node(n).is_input() <==> a.node(n).is_input()
        &&& a.node(n).is_hidden() ==> c.node(n).neuron().output == a.node(n).neuron().output
    } by {
        assert(b.is_node(n));
    }
    assert forall|e: usize| #[trigger] c.is_edge(e) <==> a.is_edge(e) by {
        assert(b.is_edge(e) <==> a.is_edge(e));
    }
    assert forall|e: usize| #[trigger] a.is_edge(e) implies {
        &&& c.edge(e).from == a.edge(e).from
        &&& c.edge(e).to == a.edge(e).to
        &&& c.edge(e).gater == a.edge(e).gater
        &&& c.edge(e).weight < c.weights.len()
    } by {
        assert(b.is_edge(e));
    }
}

impl Network {
    /// What the forward pass of hidden node `n` reads; nothing for an input
    /// node or a handle that names no live node.
    pub fn stimulus(&self, n: usize) -> (r: Option<Stimulus>)
        requires
            self.wf(),
        ensures
            self@.is_hidden(n) ==> r is Some && r->0@ == self@.stimulus(n),
            !self@.is_hidden(n) ==> r is None,
    {
        match self.neuron(n) {
            Some(neuron) => Some(
                Stimulus {
                    node: n,
                    neuron,
                    feedback: self.self_term(n),
                    terms: self.inbound_terms(n),
                },
            ),
            None => None,
        }
    }

    /// Runs the forward pass of node `n` and returns what the node carries
    /// after it.
    ///
    /// An input node returns its value and nothing changes. For a hidden
    /// node, `fire` is handed what the pass reads, what it returns is
    /// recorded as `record_forward` does, and the new activation is
    /// returned.
    ///
    /// Fails, changing nothing, with `DanglingReference` if `n` names no
    /// live node, and with `SizeMismatch` where `fire` returned another
    /// number of traces than the node has inbound connections.
    pub fn forward<F: Fn(&Stimulus) -> Outcome>(&mut self, n: usize, fire: F) -> (r: Result<
        NeuroFloat,
        NetworkError,
    >)
        requires
            old(self).wf(),
            forall|s: &Stimulus| call_requires(fire, (s,)),
        ensures
            final(self).wf(),
            !old(self)@.is_node(n) ==> r == Err::<NeuroFloat, NetworkError>(
                NetworkError::DanglingReference,
            ) && final(self)@ == old(self)@,
            old(self)@.is_node(n) && !old(self)@.is_hidden(n) ==> r == Ok::<NeuroFloat, NetworkError>(
                old(self)@.node(n).signal(),
            ) && final(self)@ == old(self)@,
            old(self)@.is_hidden(n) ==> exists|s: Stimulus, o: Outcome|
                {
                    &&& s@ == old(self)@.stimulus(n)
                    &&& #[trigger] call_ensures(fire, (&s,), o)
                    &&& if o@.traces.len() == s@.terms.len() {
                        &&& r == Ok::<NeuroFloat, NetworkError>(o.activation)
                        &&& final(self)@ == old(self)@.forward_step(n, o@)
                    } else {
                        &&& r == Err::<NeuroFloat, NetworkError>(NetworkError::SizeMismatch)
                        &&& final(self)@ == old(self)@
                    }
                },
    {
        if !self.has_node(n) {
            return Err(NetworkError::DanglingReference);
        }
        match self.stimulus(n) {
            None => match &self.nodes[n] {
                Some(node) => Ok(node.signal()),
                None => Err(NetworkError::DanglingReference),
            },
            Some(s) => {
                let o = fire(&s);
                match self.record_forward(n, o.state, o.activation, o.derivative, &o.traces) {
                    Ok(()) => {
                        proof {
                            assert(call_ensures(fire, (&s,), o));
                        }
                        Ok(o.activation)
                    },
                    Err(e) => {
                        proof {
                            assert(call_ensures(fire, (&s,), o));
                        }
                        Err(e)
                    },
                }
            },
        }
    }

    /// Runs the network forward on the given inputs and returns the
    /// activations of the output nodes.
    ///
    /// The `k`-th input node takes `inputs[k]`. Then the nodes run in
    /// evaluation order: for each hidden node, `fire` is handed what the
    /// node's pass reads and what it returns is recorded; an input node
    /// changes nothing. No connection is made or removed and no weight
    /// changes.
    ///
    /// Fails with `InputSizeMismatch`, changing nothing, unless there are
    /// as many inputs as input nodes. Fails with `SizeMismatch` where
    /// `fire` returned another number of traces than the node has inbound
    /// connections; the nodes before that one have run.
    pub fn activate<F: Fn(&Stimulus) -> Outcome>(&mut self, inputs: &Vec<NeuroFloat>, fire: F) -> (r:
        Result<Vec<NeuroFloat>, NetworkError>)
        requires
            old(self).wf(),
            forall|s: &Stimulus| call_requires(fire, (s,)),
        ensures
            final(self).wf(),
            inputs@.len() != old(self)@.inputs ==> r == Err::<Vec<NeuroFloat>, NetworkError>(
                NetworkError::InputSizeMismatch,
            ) && final(self)@ == old(self)@,
            inputs@.len() == old(self)@.inputs ==> ({
                let start = old(self)@.set_inputs(inputs@);
                &&& start.same_wiring(final(self)@)
                &&& final(self)@.weights == start.weights
                &&& match r {
                    Ok(signals) => {
                        &&& signals@ == final(self)@.output_signals()
                        &&& exists|stimuli: Seq<Stimulus>, outcomes: Seq<Outcome>|
                            {
                                &&& #[trigger] fired_by(
                                    fire,
                                    start,
                                    stimuli,
                                    outcomes,
                                    start.order.len(),
                                )
                                &&& final(self)@ == start.forward_run(
                                    outcome_views(outcomes),
                                    start.order.len(),
                                )
                            }
                    },
                    Err(e) => {
                        &&& e == NetworkError::SizeMismatch
                        &&& exists|s: Stimulus, o: Outcome| #[trigger]
                            call_ensures(fire, (&s,), o) && o@.traces.len() != s@.terms.len()
                    },
                }
            }),
    {
        match self.set_inputs(inputs) {
            Err(e) => { return Err(e); },
            Ok(()) => {},
        }
        let ghost start = self@;
        let ghost mut stimuli: Seq<Stimulus> = Seq::empty();
        let ghost mut outcomes: Seq<Outcome> = Seq::empty();
        let len: usize = self.order.len();
        proof {
            lemma_same_wiring_refl(start);
        }
        let mut p: usize = 0;
        while p < len
            invariant
                p <= len,
                len == start.order.len(),
                start.wf(),
                self.wf(),
                start == old(self)@.set_inputs(inputs@),
                inputs@.len() == old(self)@.inputs,
                start.same_wiring(self@),
                self@.weights == start.weights,
                stimuli.len() == p,
                outcomes.len() == p,
                fired_by(fire, start, stimuli, outcomes, p as nat),
                self@ == start.forward_run(outcome_views(outcomes), p as nat),
                forall|s: &Stimulus| call_requires(fire, (s,)),
            decreases len - p,
        {
            let n: usize = self.order[p];
            let ghost before = self@;
            let ghost seen = outcomes;
            let ghost read = stimuli;
            proof {
                assert(start.is_node(start.order[p as int]));
                assert(before.is_node(n));
            }
            match self.stimulus(n) {
                Some(s) => {
                    let o = fire(&s);
                    proof {
                        stimuli = stimuli.push(s);
                        outcomes = outcomes.push(o);
                    }
                    match self.record_forward(n, o.state, o.activation, o.derivative, &o.traces) {
                        Ok(()) => {},
                        Err(e) => {
                            proof {
                                assert(before.record_error(n, o@.traces.len()) is Some);
                                assert(call_ensures(fire, (&s,), o) && o@.traces.len()
                                    != s@.terms.len());
                            }
                            return Err(e);
                        },
                    }
                    proof {
                        lemma_record_forward(
                            before,
                            n,
                            o.state,
                            o.activation,
                            o.derivative,
                            o.traces@,
                        );
                        lemma_same_wiring_trans(start, before, self@);
                    }
                },
                None => {
                    proof {
                        stimuli = stimuli.push(arbitrary());
                        outcomes = outcomes.push(arbitrary());
                    }
                },
            }
            proof {
                let now = outcome_views(outcomes);
                let was = outcome_views(seen);
                lemma_forward_run_prefix(start, was, now, p as nat);
                assert(start.forward_run(now, p as nat) == before);
                assert(start.is_hidden(n) <==> before.is_hidden(n));
                assert(self@ == before.forward_step(n, now[p as int]));
                assert(self@ == start.forward_run(now, (p + 1) as nat));
                assert forall|j: int|
                    0 <= j < p + 1 && start.is_hidden(#[trigger] start.order[j]) implies {
                    &&& stimuli[j]@ == start.forward_run(now, j as nat).stimulus(start.order[j])
                    &&& call_ensures(fire, (&stimuli[j],), outcomes[j])
                    &&& outcomes[j]@.traces.len() == stimuli[j]@.terms.len()
                } by {
                    lemma_forward_run_prefix(start, was, now, j as nat);
                    if j < p {
                        assert(stimuli[j] == read[j]);
                        assert(outcomes[j] == seen[j]);
                    }
                }
            }
            p += 1;
        }
        let signals = self.outputs();
        Ok(signals)
    }
}

/// A network differs from itself in nothing.
pub proof fn lemma_same_wiring_refl(v: NetworkView)
    requires
        v.wf(),
    ensures
        v.same_wiring(v),
{
    assert forall|e: usize| #[trigger] v.is_edge(e) implies v.edge(e).weight < v.weights.len() by {
        assert(v.edge_wf(e));
    }
}

} // verus!
