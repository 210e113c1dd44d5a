use vstd::prelude::*;
use crate::error::NetworkError;
use crate::evaluate::{lemma_record_backward, BackwardStep, Term, WeightUpdate};
use crate::forward::{lemma_same_wiring_refl, lemma_same_wiring_trans};
use crate::network::{Network, NetworkView};
use crate::node::Neuron;
use crate::scalar::NeuroFloat;

verus! {

/// What the backward pass of a hidden node reads.
#[derive(Debug)]
pub struct Lesson {
    /// The node's handle.
    pub node: usize,
    /// What the node holds before the pass.
    pub neuron: Neuron,
    /// What the node should have put out, if it is an output node.
    pub target: Option<NeuroFloat>,
    /// What the pass reads of the connections that enter the node, in the
    /// order of its inbound list: the connections it trains.
    pub inbound: Vec<Term>,
    /// What the pass reads of the node's self-connection, if it has one.
    pub feedback: Option<Term>,
    /// What the pass reads of the connections that leave the node, in the
    /// order of its outbound list.
    pub outbound: Vec<Term>,
    /// The responsibility of the destination of each of `outbound`.
    pub downstream: Vec<NeuroFloat>,
    /// What the pass reads of the connections that the node gates, in the
    /// order of its gated list.
    pub gated: Vec<Term>,
    /// The responsibility of the destination of each of `gated`.
    pub influenced: Vec<NeuroFloat>,
}

/// A lesson with its lists as sequences.
pub struct LessonView {
    pub node: usize,
    pub neuron: Neuron,
    pub target: Option<NeuroFloat>,
    pub inbound: Seq<Term>,
    pub feedback: Option<Term>,
    pub outbound: Seq<Term>,
    pub downstream: Seq<NeuroFloat>,
    pub gated: Seq<Term>,
    pub influenced: Seq<NeuroFloat>,
}

impl View for Lesson {
    type V = LessonView;

    open spec fn view(&self) -> LessonView {
        LessonView {
            node: self.node,
            neuron: self.neuron,
            target: self.target,
            inbound: self.inbound@,
            feedback: self.feedback,
            outbound: self.outbound@,
            downstream: self.downstream@,
            gated: self.gated@,
            influenced: self.influenced@,
        }
    }
}

/// What the backward pass of a hidden node computes.
#[derive(Debug)]
pub struct Correction {
    /// The node's share in the error, which the passes of the nodes before
    /// it read.
    pub responsibility: NeuroFloat,
    /// The node's bias after the pass.
    pub bias: NeuroFloat,
    /// The bias change of this pass.
    pub prev_delta_bias: NeuroFloat,
    /// The bias changes accumulated and not yet applied.
    pub total_delta_bias: NeuroFloat,
    /// What to write back for each connection that enters the node, in the
    /// order of its inbound list.
    pub updates: Vec<WeightUpdate>,
}

/// A correction with its updates as a sequence.
pub struct CorrectionView {
    pub responsibility: NeuroFloat,
    pub bias: NeuroFloat,
    pub prev_delta_bias: NeuroFloat,
    pub total_delta_bias: NeuroFloat,
    pub updates: Seq<WeightUpdate>,
}

impl View for Correction {
    type V = CorrectionView;

    open spec fn view(&self) -> CorrectionView {
        CorrectionView {
            responsibility: self.responsibility,
            bias: self.bias,
            prev_delta_bias: self.prev_delta_bias,
            total_delta_bias: self.total_delta_bias,
            updates: self.updates@,
        }
    }
}

/// The corrections as the contracts see them.
pub open spec fn correction_views(corrections: Seq<Correction>) -> Seq<CorrectionView> {
    corrections.map_values(|c: Correction| c@)
}

/// The responsibility of the destination of each of `terms`, read from a
/// table that holds one responsibility for each node slot.
pub open spec fn destinations(terms: Seq<Term>, table: Seq<NeuroFloat>) -> Seq<NeuroFloat> {
    Seq::new(terms.len(), |j: int| table[terms[j].connection.to as int])
}

/// A network during a backward pass: the network, and the responsibility
/// of each node slot, zero where the node has not run yet.
pub struct Descent {
    pub network: NetworkView,
    pub table: Seq<NeuroFloat>,
}

impl NetworkView {
    /// What the backward pass of hidden node `n` reads, given the
    /// responsibilities found so far.
    pub open spec fn lesson(self, table: Seq<NeuroFloat>, step: BackwardStep) -> LessonView
        recommends
            self.is_hidden(step.node),
    {
        let n = step.node;
        LessonView {
            node: n,
            neuron: self.neuron(n),
            target: step.target,
            inbound: self.terms(self.links(n).inbound),
            feedback: self.self_term(n),
            outbound: self.terms(self.links(n).outbound),
            downstream: destinations(self.terms(self.links(n).outbound), table),
            gated: self.terms(self.links(n).gated),
            influenced: destinations(self.terms(self.links(n).gated), table),
        }
    }

    /// Where a backward pass begins: the network as it is, and every
    /// responsibility zero.
    pub open spec fn descent(self) -> Descent {
        Descent { network: self, table: Seq::new(self.nodes.len(), |n: int| NeuroFloat::spec_zero()) }
    }
}

impl Descent {
    /// The pass after the step of one node with the given correction: for a
    /// hidden node the correction is recorded and its responsibility
    /// entered in the table; an input node changes nothing.
    pub open spec fn step(self, step: BackwardStep, correction: CorrectionView) -> Descent {
        if self.network.is_hidden(step.node) {
            Descent {
                network: self.network.record_backward(
                    step.node,
                    correction.bias,
                    correction.prev_delta_bias,
                    correction.total_delta_bias,
                    correction.updates,
                ),
                table: self.table.update(step.node as int, correction.responsibility),
            }
        } else {
            self
        }
    }

    /// The pass after the first `k` of `steps`, the `j`-th of them with the
    /// `j`-th correction.
    pub open spec fn run(self, steps: Seq<BackwardStep>, corrections: Seq<CorrectionView>, k: nat) -> Descent
        decreases k,
    {
        if k == 0 {
            self
        } else {
            self.run(steps, corrections, (k - 1) as nat).step(steps[k - 1], corrections[k - 1])
        }
    }
}

/// Whether the first `k` corrections are what `learn` made of the first
/// `k` lessons, and each lesson is what the pass of its node reads once
/// the nodes before it in `steps` have run. Input nodes have no pass: what
/// stands at their place says nothing.
pub open spec fn learned_by<F: Fn(&Lesson) -> Correction>(
    learn: F,
    start: NetworkView,
    steps: Seq<BackwardStep>,
    lessons: Seq<Lesson>,
    corrections: Seq<Correction>,
    k: nat,
) -> bool {
    &&& k <= steps.len()
    &&& k <= lessons.len()
    &&& k <= corrections.len()
    &&& forall|j: int|
        0 <= j < k && start.is_hidden((#[trigger] steps[j]).node) ==> {
            let at = start.descent().run(steps, correction_views(corrections), j as nat);
            &&& lessons[j]@ == at.network.lesson(at.table, steps[j])
            &&& call_ensures(learn, (&lessons[j],), corrections[j])
            &&& corrections[j]@.updates.len() == lessons[j]@.inbound.len()
        }
}

/// A pass depends on the corrections of the nodes that ran, and on no
/// others.
pub proof fn lemma_descent_prefix(
    d: Descent,
    steps: Seq<BackwardStep>,
    a: Seq<CorrectionView>,
    b: Seq<CorrectionView>,
    k: nat,
)
    requires
        k <= a.len(),
        k <= b.len(),
        forall|j: int| 0 <= j < k ==> a[j] == b[j],
    ensures
        d.run(steps, a, k) == d.run(steps, b, k),
    decreases k,
{
    if k > 0 {
        lemma_descent_prefix(d, steps, a, b, (k - 1) as nat);
    }
}

/// Reads the responsibility of the destination of each term.
fn read_destinations(terms: &Vec<Term>, table: &Vec<NeuroFloat>) -> (r: Vec<NeuroFloat>)
    requires
        forall|j: int| 0 <= j < terms@.len() ==> (#[trigger] terms@[j]).connection.to < table@.len(),
    ensures
        r@ == destinations(terms@, table@),
{
    let mut r: Vec<NeuroFloat> = Vec::new();
    let mut j: usize = 0;
    while j < terms.len()
        invariant
            j <= terms.len(),
            forall|j: int|
                0 <= j < terms@.len() ==> (#[trigger] terms@[j]).connection.to < table@.len(),
            r@ == destinations(terms@, table@).take(j as int),
        decreases terms.len() - j,
    {
        r.push(table[terms[j].connection.to]);
        proof {
            assert(r@ =~= destinations(terms@, table@).take(j + 1));
        }
        j += 1;
    }
    proof {
        assert(r@ =~= destinations(terms@, table@));
    }
    r
}

impl Network {
    /// What the backward pass of the node of `step` reads, given a table
    /// with the responsibility of each node slot; nothing for an input
    /// node, for a handle that names no live node, and for a table that
    /// has not one entry for each node slot.
    pub fn lesson(&self, table: &Vec<NeuroFloat>, step: BackwardStep) -> (r: Option<Lesson>)
        requires
            self.wf(),
        ensures
            self@.is_hidden(step.node) && table@.len() == self@.nodes.len() ==> r is Some && r->0@
                == self@.lesson(table@, step),
            !(self@.is_hidden(step.node) && table@.len() == self@.nodes.len()) ==> r is None,
    {
        let n: usize = step.node;
        if table.len() != self.nodes.len() {
            return None;
        }
        let neuron = match self.neuron(n) {
            Some(neuron) => neuron,
            None => { return None; },
        };
        let inbound = self.inbound_terms(n);
        let outbound = self.outbound_terms(n);
        let gated = self.gated_terms(n);
        proof {
            assert(self@.links_wf(n));
            assert forall|j: int| 0 <= j < outbound@.len() implies (#[trigger] outbound@[j]).connection.to
                < table@.len() by {
                let e = self@.links(n).outbound[j];
                assert(self@.leaves(e, n));
                assert(self@.edge_wf(e));
            }
            assert forall|j: int| 0 <= j < gated@.len() implies (#[trigger] gated@[j]).connection.to
                < table@.len() by {
                let e = self@.links(n).gated[j];
                assert(self@.gated_by(e, n));
                assert(self@.edge_wf(e));
            }
        }
        let downstream = read_destinations(&outbound, table);
        let influenced = read_destinations(&gated, table);
        Some(
            Lesson {
                node: n,
                neuron,
                target: step.target,
                inbound,
                feedback: self.self_term(n),
                outbound,
                downstream,
                gated,
                influenced,
            },
        )
    }

    /// Runs the backward pass of the node of `step`.
    ///
    /// An input node has nothing to train: nothing changes. For a hidden
    /// node, `learn` is handed what the pass reads, with the
    /// responsibilities of `table`; what it returns is recorded as
    /// `record_backward` does, and its responsibility is entered in `table`
    /// at the node's slot.
    ///
    /// Fails, changing nothing, with `DanglingReference` if the step names
    /// no live node, and with `SizeMismatch` if `table` has not one entry
    /// for each node slot or `learn` returned another number of updates
    /// than the node has inbound connections.
    pub fn backward<F: Fn(&Lesson) -> Correction>(
        &mut self,
        table: &mut Vec<NeuroFloat>,
        step: BackwardStep,
        learn: F,
    ) -> (r: Result<(), NetworkError>)
        requires
            old(self).wf(),
            forall|l: &Lesson| call_requires(learn, (l,)),
        ensures
            final(self).wf(),
            !old(self)@.is_node(step.node) ==> r == Err::<(), NetworkError>(
                NetworkError::DanglingReference,
            ) && final(self)@ == old(self)@ && final(table)@ == old(table)@,
            old(self)@.is_node(step.node) && !old(self)@.is_hidden(step.node) ==> r is Ok
                && final(self)@ == old(self)@ && final(table)@ == old(table)@,
            old(self)@.is_hidden(step.node) && old(table)@.len() != old(self)@.nodes.len() ==> r
                == Err::<(), NetworkError>(NetworkError::SizeMismatch) && final(self)@ == old(self)@
                && final(table)@ == old(table)@,
            old(self)@.is_hidden(step.node) && old(table)@.len() == old(self)@.nodes.len()
                ==> exists|l: Lesson, c: Correction|
                {
                    let before = Descent { network: old(self)@, table: old(table)@ };
                    let after = Descent { network: final(self)@, table: final(table)@ };
                    &&& l@ == old(self)@.lesson(old(table)@, step)
                    &&& #[trigger] call_ensures(learn, (&l,), c)
                    &&& if c@.updates.len() == l@.inbound.len() {
                        r is Ok && after == before.step(step, c@)
                    } else {
                        r == Err::<(), NetworkError>(NetworkError::SizeMismatch) && after == before
                    }
                },
    {
        if !self.has_node(step.node) {
            return Err(NetworkError::DanglingReference);
        }
        if !self.has_hidden(step.node) {
            return Ok(());
        }
        match self.lesson(table, step) {
            None => Err(NetworkError::SizeMismatch),
            Some(l) => {
                let c = learn(&l);
                match self.record_backward(
                    step.node,
                    c.bias,
                    c.prev_delta_bias,
                    c.total_delta_bias,
                    &c.updates,
                ) {
                    Ok(()) => {
                        table[step.node] = c.responsibility;
                        proof {
                            assert(call_ensures(learn, (&l,), c));
                        }
                        Ok(())
                    },
                    Err(e) => {
                        proof {
                            assert(call_ensures(learn, (&l,), c));
                        }
                        Err(e)
                    },
                }
            },
        }
    }

    /// Runs the network backward on the given targets.
    ///
    /// The nodes run against the evaluation order, each output node with
    /// the target at its place among the outputs. For each hidden node,
    /// `learn` is handed what the node's pass reads, with the
    /// responsibilities of the nodes that have run in this pass and zero
    /// for the others; what it returns is recorded, and its responsibility
    /// is what the later passes read. An input node changes nothing. No
    /// connection is made or removed.
    ///
    /// The pass reads the activations, derivatives and traces that the last
    /// forward run left; it is meant to follow a forward run on the inputs
    /// that the targets belong to.
    ///
    /// Fails with `TargetSizeMismatch`, changing nothing, unless there are
    /// as many targets as output nodes. Fails with `SizeMismatch` where
    /// `learn` returned another number of updates than the node has inbound
    /// connections; the nodes before that one have run.
    pub fn propagate<F: Fn(&Lesson) -> Correction>(&mut self, targets: &Vec<NeuroFloat>, learn: F) -> (r:
        Result<(), NetworkError>)
        requires
            old(self).wf(),
            forall|l: &Lesson| call_requires(learn, (l,)),
        ensures
            final(self).wf(),
            targets@.len() != old(self)@.outputs ==> r == Err::<(), NetworkError>(
                NetworkError::TargetSizeMismatch,
            ) && final(self)@ == old(self)@,
            targets@.len() == old(self)@.outputs ==> ({
                let start = old(self)@;
                let steps = start.backward_steps(targets@);
                &&& start.same_wiring(final(self)@)
                &&& match r {
                    Ok(()) => exists|lessons: Seq<Lesson>, corrections: Seq<Correction>|
                        {
                            &&& #[trigger] learned_by(
                                learn,
                                start,
                                steps,
                                lessons,
                                corrections,
                                steps.len(),
                            )
                            &&& final(self)@ == start.descent().run(
                                steps,
                                correction_views(corrections),
                                steps.len(),
                            ).network
                        },
                    Err(e) => {
                        &&& e == NetworkError::SizeMismatch
                        &&& exists|l: Lesson, c: Correction| #[trigger]
                            call_ensures(learn, (&l,), c) && c@.updates.len() != l@.inbound.len()
                    },
                }
            }),
    {
        let steps = match self.backward_steps(targets) {
            Ok(steps) => steps,
            Err(e) => { return Err(e); },
        };
        let ghost start = self@;
        let ghost mut lessons: Seq<Lesson> = Seq::empty();
        let ghost mut corrections: Seq<Correction> = Seq::empty();
        let mut table: Vec<NeuroFloat> = Vec::new();
        let slots: usize = self.nodes.len();
        let mut n: usize = 0;
        while n < slots
            invariant
                n <= slots,
                slots == start.nodes.len(),
                table@ == start.descent().table.take(n as int),
            decreases slots - n,
        {
            table.push(NeuroFloat::zero());
            proof {
                assert(table@ =~= start.descent().table.take(n + 1));
            }
            n += 1;
        }
        proof {
            assert(table@ =~= start.descent().table);
            lemma_same_wiring_refl(start);
        }
        let mut p: usize = 0;
        while p < steps.len()
            invariant
                p <= steps.len(),
                start.wf(),
                self.wf(),
                start == old(self)@,
                targets@.len() == start.outputs,
                steps@ == start.backward_steps(targets@),
                start.same_wiring(self@),
                table@.len() == start.nodes.len(),
                lessons.len() == p,
                corrections.len() == p,
                learned_by(learn, start, steps@, lessons, corrections, p as nat),
                start.descent().run(steps@, correction_views(corrections), p as nat) == (Descent {
                    network: self@,
                    table: table@,
                }),
                forall|l: &Lesson| call_requires(learn, (l,)),
            decreases steps.len() - p,
        {
            let step = steps[p];
            let ghost before = Descent { network: self@, table: table@ };
            let ghost seen = corrections;
            let ghost read = lessons;
            match self.lesson(&table, step) {
                Some(l) => {
                    let c = learn(&l);
                    proof {
                        lessons = lessons.push(l);
                        corrections = corrections.push(c);
                    }
                    match self.record_backward(
                        step.node,
                        c.bias,
                        c.prev_delta_bias,
                        c.total_delta_bias,
                        &c.updates,
                    ) {
                        Ok(()) => {},
                        Err(e) => {
                            proof {
                                assert(before.network.record_error(step.node, c@.updates.len())
                                    is Some);
                                assert(call_ensures(learn, (&l,), c) && c@.updates.len()
                                    != l@.inbound.len());
                            }
                            return Err(e);
                        },
                    }
                    table[step.node] = c.responsibility;
                    proof {
                        lemma_record_backward(
                            before.network,
                            step.node,
                            c.bias,
                            c.prev_delta_bias,
                            c.total_delta_bias,
                            c.updates@,
                        );
                        lemma_same_wiring_trans(start, before.network, self@);
                    }
                },
                None => {
                    proof {
                        lessons = lessons.push(arbitrary());
                        corrections = corrections.push(arbitrary());
                    }
                },
            }
            proof {
                let now = correction_views(corrections);
                let was = correction_views(seen);
                let d = start.descent();
                lemma_descent_prefix(d, steps@, was, now, p as nat);
                assert(d.run(steps@, now, p as nat) == before);
                assert(start.is_hidden(step.node) <==> before.network.is_hidden(step.node));
                assert((Descent { network: self@, table: table@ }) == before.step(
                    step,
                    now[p as int],
                ));
                assert forall|j: int|
                    0 <= j < p + 1 && start.is_hidden((#[trigger] steps@[j]).node) implies {
                    let at = d.run(steps@, now, j as nat);
                    &&& lessons[j]@ == at.network.lesson(at.table, steps@[j])
                    &&& call_ensures(learn, (&lessons[j],), corrections[j])
                    &&& corrections[j]@.updates.len() == lessons[j]@.inbound.len()
                } by {
                    lemma_descent_prefix(d, steps@, was, now, j as nat);
                    if j < p {
                        assert(lessons[j] == read[j]);
                        assert(corrections[j] == seen[j]);
                    }
                }
            }
            p += 1;
        }
        Ok(())
    }
}

} // verus!
