use vstd::prelude::*;
use crate::evaluate::{lemma_record_forward, Term};
use crate::forward::{lemma_same_wiring_refl, lemma_same_wiring_trans, OutcomeView, StimulusView};
use crate::network::NetworkView;
use crate::node::Neuron;
use crate::params::lemma_same_wiring;
use crate::scalar::NeuroFloat;
use crate::activation::Activation;

verus! {

/// What one connection adds to a node's state: the product of the three.
pub struct Load {
    pub gain: NeuroFloat,
    pub weight: NeuroFloat,
    pub signal: NeuroFloat,
}

/// The part of a stimulus that a node's state and activation are computed
/// from: bias, squash and mask, the load of the self-connection, which
/// carries the node's previous state, and the loads of the inbound
/// connections.
pub struct Essence {
    pub bias: NeuroFloat,
    pub squash: Activation,
    pub mask: NeuroFloat,
    pub feedback: Option<Load>,
    pub loads: Seq<Load>,
}

/// The load of a connection that enters a node.
pub open spec fn load(term: Term) -> Load {
    Load { gain: term.connection.gain, weight: term.weight, signal: term.signal }
}

/// The part of a stimulus that a node's state and activation are computed
/// from.
pub open spec fn essence(s: StimulusView) -> Essence {
    Essence {
        bias: s.neuron.bias,
        squash: s.neuron.squash,
        mask: s.neuron.mask,
        feedback: match s.feedback {
            Some(term) => Some(
                Load { gain: term.connection.gain, weight: term.weight, signal: s.neuron.previous },
            ),
            None => None,
        },
        loads: Seq::new(s.terms.len(), |j: int| load(s.terms[j])),
    }
}

/// Whether each outcome of a run from `start` has the state and the
/// activation that `rule` gives for what the node's pass reads.
pub open spec fn follows(
    rule: spec_fn(Essence) -> (NeuroFloat, NeuroFloat),
    start: NetworkView,
    outcomes: Seq<OutcomeView>,
) -> bool {
    &&& outcomes.len() == start.order.len()
    &&& forall|j: int|
        0 <= j < start.order.len() && start.is_hidden(#[trigger] start.order[j]) ==> ({
            let at = start.forward_run(outcomes, j as nat);
            (outcomes[j].state, outcomes[j].activation) == rule(
                essence(at.stimulus(start.order[j])),
            )
        })
}

impl NetworkView {
    /// Whether every connection runs from an earlier node to a later one
    /// and none is gated by its destination: no node then reads what a
    /// pass before the current one left.
    pub open spec fn feed_forward(self) -> bool {
        forall|e: usize| #[trigger]
            self.is_edge(e) ==> self.before(self.edge(e).from, self.edge(e).to) && self.edge(
                e,
            ).gater != Some(self.edge(e).to)
    }

    /// Whether `other` has the wiring of this network and agrees with it on
    /// all that forward passes do not write: weights, bias, squash and
    /// mask, the values of the inputs, and the gain of the connections that
    /// no hidden node gates.
    pub open spec fn same_setting(self, other: NetworkView) -> bool {
        &&& self.same_wiring(other)
        &&& other.weights == self.weights
        &&& forall|e: usize| #[trigger]
            self.is_edge(e) ==> other.edge(e).weight == self.edge(e).weight
        &&& forall|n: usize| #[trigger]
            self.is_hidden(n) ==> {
                &&& other.neuron(n).bias == self.neuron(n).bias
                &&& other.neuron(n).squash == self.neuron(n).squash
                &&& other.neuron(n).mask == self.neuron(n).mask
            }
        &&& forall|n: usize| #[trigger]
            self.is_node(n) && self.node(n).is_input() ==> other.node(n).state == self.node(n).state
        &&& forall|e: usize| #[trigger]
            self.is_edge(e) && !self.hidden_gated(e) ==> other.edge(e).gain == self.edge(e).gain
    }

    /// Whether a hidden node gates connection `e`.
    pub open spec fn hidden_gated(self, e: usize) -> bool
        recommends
            self.is_edge(e),
    {
        self.edge(e).gater matches Some(g) && self.is_hidden(g)
    }

    /// Whether two runs from networks of one setting agree after the first
    /// `k` nodes: on the signal of every input node and of every node that
    /// has run, and on the gain of every connection whose source has run.
    pub open spec fn runs_agree(self, a: NetworkView, b: NetworkView, k: nat) -> bool {
        &&& forall|p: int|
            0 <= p < k && p < self.order.len() ==> a.node(#[trigger] self.order[p]).signal()
                == b.node(self.order[p]).signal()
        &&& forall|e: usize| #[trigger]
            self.is_edge(e) && self.position(self.edge(e).from) < k ==> a.edge(e).gain == b.edge(
                e,
            ).gain
    }
}

/// What the pass of one node changes: the node's own state, and the gain
/// of the connections it gates.
pub proof fn lemma_forward_step_effect(v: NetworkView, n: usize, o: OutcomeView)
    requires
        v.wf(),
    ensures
        v.forward_step(n, o).wf(),
        v.same_wiring(v.forward_step(n, o)),
        v.forward_step(n, o).weights == v.weights,
        forall|m: usize| #[trigger]
            v.is_node(m) && m != n ==> v.forward_step(n, o).node(m) == v.node(m),
        v.is_hidden(n) ==> v.forward_step(n, o).neuron(n) == (Neuron {
            state: o.state,
            previous: o.state,
            activation: o.activation,
            derivative: o.derivative,
            ..v.neuron(n)
        }),
        forall|e: usize| #[trigger]
            v.is_edge(e) ==> v.forward_step(n, o).edge(e).gain == (if v.is_hidden(n) && v.edge(
                e,
            ).gater == Some(n) {
                o.activation
            } else {
                v.edge(e).gain
            }),
{
    if v.is_hidden(n) {
        lemma_record_forward(v, n, o.state, o.activation, o.derivative, o.traces);
    } else {
        lemma_same_wiring_refl(v);
    }
}

/// Same setting carries over from one network to the next.
pub proof fn lemma_same_setting_trans(a: NetworkView, b: NetworkView, c: NetworkView)
    requires
        a.wf(),
        a.same_setting(b),
        b.same_setting(c),
    ensures
        a.same_setting(c),
{
    lemma_same_wiring_trans(a, b, c);
    assert forall|n: usize| #[trigger] a.is_hidden(n) implies {
        &&& c.neuron(n).bias == a.neuron(n).bias
        &&& c.neuron(n).squash == a.neuron(n).squash
        &&& c.neuron(n).mask == a.neuron(n).mask
    } by {
        assert(a.is_node(n));
        assert(b.is_node(n));
        assert(b.is_hidden(n));
    }
    assert forall|n: usize| #[trigger] a.is_node(n) && a.node(n).is_input() implies c.node(n).state
        == a.node(n).state by {
        assert(b.is_node(n));
    }
    assert forall|e: usize| #[trigger] a.is_edge(e) implies c.edge(e).weight == a.edge(e).weight by {
        assert(b.is_edge(e));
    }
    assert forall|e: usize| #[trigger] a.is_edge(e) && !a.hidden_gated(e) implies c.edge(e).gain
        == a.edge(e).gain by {
        assert(b.is_edge(e));
        if let Some(g) = a.edge(e).gater {
            assert(a.edge_wf(e));
            assert(a.is_node(g));
            assert(b.is_node(g));
        }
    }
}

/// The pass of one node keeps the setting.
pub proof fn lemma_forward_step_setting(v: NetworkView, n: usize, o: OutcomeView)
    requires
        v.wf(),
    ensures
        v.same_setting(v.forward_step(n, o)),
        v.forward_step(n, o).wf(),
{
    lemma_forward_step_effect(v, n, o);
    let w = v.forward_step(n, o);
    assert forall|m: usize| #[trigger] v.is_hidden(m) implies {
        &&& w.neuron(m).bias == v.neuron(m).bias
        &&& w.neuron(m).squash == v.neuron(m).squash
        &&& w.neuron(m).mask == v.neuron(m).mask
    } by {
        assert(v.is_node(m));
    }
    assert forall|m: usize| #[trigger] v.is_node(m) && v.node(m).is_input() implies w.node(m).state
        == v.node(m).state by {}
}

/// A run keeps the setting.
pub proof fn lemma_forward_run_setting(v: NetworkView, outcomes: Seq<OutcomeView>, k: nat)
    requires
        v.wf(),
    ensures
        v.same_setting(v.forward_run(outcomes, k)),
        v.forward_run(outcomes, k).wf(),
    decreases k,
{
    if k == 0 {
        lemma_same_wiring_refl(v);
    } else {
        lemma_forward_run_setting(v, outcomes, (k - 1) as nat);
        let r = v.forward_run(outcomes, (k - 1) as nat);
        lemma_forward_step_setting(r, v.order[k - 1], outcomes[k - 1]);
        lemma_same_setting_trans(v, r, r.forward_step(v.order[k - 1], outcomes[k - 1]));
    }
}

/// Handing a network its inputs keeps all of the setting but the input
/// values.
pub proof fn lemma_set_inputs_wiring(v: NetworkView, inputs: Seq<NeuroFloat>)
    requires
        v.wf(),
        inputs.len() == v.inputs,
    ensures
        v.set_inputs(inputs).wf(),
        v.same_wiring(v.set_inputs(inputs)),
        forall|n: usize| #[trigger]
            v.is_node(n) && v.node(n).is_input() ==> v.set_inputs(inputs).node(n).signal()
                == inputs[n as int],
        forall|n: usize| #[trigger]
            v.is_hidden(n) ==> v.set_inputs(inputs).node(n) == v.node(n),
{
    let w = v.set_inputs(inputs);
    assert forall|n: usize| #[trigger] w.is_node(n) <==> v.is_node(n) by {
        if n < v.inputs {
            assert(v.is_node(n));
        }
    }
    assert forall|n: usize| #[trigger] v.is_node(n) implies w.links(n) == v.links(n) && (w.node(
        n,
    ).is_input() <==> v.node(n).is_input()) by {}
    assert forall|x: usize| #[trigger] v.is_edge(x) implies w.edge(x).weight < w.weights.len() by {
        assert(v.edge_wf(x));
    }
    lemma_same_wiring(v, w);
}

/// Where two runs agree on the nodes before a hidden node of a
/// feed-forward network, the node's pass reads the same in both.
pub proof fn lemma_same_essence(s: NetworkView, a: NetworkView, b: NetworkView, j: nat)
    requires
        s.wf(),
        s.feed_forward(),
        j < s.order.len(),
        s.is_hidden(s.order[j as int]),
        s.same_setting(a),
        s.same_setting(b),
        s.runs_agree(a, b, j),
    ensures
        essence(a.stimulus(s.order[j as int])) == essence(b.stimulus(s.order[j as int])),
{
    let n = s.order[j as int];
    assert(s.is_node(n));
    assert(s.links_wf(n));
    crate::select::lemma_positions(s, j as int, j as int);
    let ea = essence(a.stimulus(n));
    let eb = essence(b.stimulus(n));
    assert(a.links(n) == s.links(n));
    assert(b.links(n) == s.links(n));
    assert(s.links(n).to_self is None) by {
        if let Some(x) = s.links(n).to_self {
            assert(s.loops_on(x, n));
            assert(s.is_edge(x));
        }
    }
    let inbound = s.links(n).inbound;
    assert forall|i: int| 0 <= i < inbound.len() implies #[trigger] ea.loads[i] == eb.loads[i] by {
        let e = inbound[i];
        assert(s.enters(e, n));
        assert(s.is_edge(e));
        assert(s.edge_wf(e));
        let from = s.edge(e).from;
        assert(a.is_edge(e) && b.is_edge(e));
        assert(a.edge(e).from == from && b.edge(e).from == from);
        assert(a.edge(e).weight == s.edge(e).weight);
        assert(b.edge(e).weight == s.edge(e).weight);
        assert(s.order.contains(from));
        let p = s.position(from);
        assert(p < j);
        assert(s.order[p] == from);
        assert(a.node(s.order[p]).signal() == b.node(s.order[p]).signal());
        assert(a.edge(e).gain == b.edge(e).gain);
    }
    assert(ea.loads =~= eb.loads);
    assert(s.is_hidden(n));
}

/// The pass of one more node keeps two runs in agreement, where the node,
/// if it is hidden, gets the same activation in both.
pub proof fn lemma_agree_step(
    s: NetworkView,
    a: NetworkView,
    b: NetworkView,
    oa: OutcomeView,
    ob: OutcomeView,
    j: nat,
)
    requires
        s.wf(),
        a.wf(),
        b.wf(),
        s.feed_forward(),
        j < s.order.len(),
        s.same_setting(a),
        s.same_setting(b),
        s.runs_agree(a, b, j),
        s.is_hidden(s.order[j as int]) ==> oa.activation == ob.activation,
    ensures
        s.runs_agree(
            a.forward_step(s.order[j as int], oa),
            b.forward_step(s.order[j as int], ob),
            j + 1,
        ),
{
    let n = s.order[j as int];
    let a2 = a.forward_step(n, oa);
    let b2 = b.forward_step(n, ob);
    assert(s.is_node(n));
    assert(a.is_node(n) && b.is_node(n));
    assert(s.is_hidden(n) <==> a.is_hidden(n));
    assert(s.is_hidden(n) <==> b.is_hidden(n));
    crate::select::lemma_positions(s, j as int, j as int);
    assert(a2.node(n).signal() == b2.node(n).signal()) by {
        lemma_forward_step_effect(a, n, oa);
        lemma_forward_step_effect(b, n, ob);
        if !s.is_hidden(n) {
            assert(s.node(n).is_input());
            assert(a.node(n).state == s.node(n).state);
            assert(b.node(n).state == s.node(n).state);
        }
    }
    assert forall|p: int| 0 <= p < j + 1 && p < s.order.len() implies a2.node(
        #[trigger] s.order[p],
    ).signal() == b2.node(s.order[p]).signal() by {
        if p < j {
            let m = s.order[p];
            assert(s.is_node(m));
            assert(m != n);
            assert(a.is_node(m) && b.is_node(m));
            lemma_forward_step_effect(a, n, oa);
            lemma_forward_step_effect(b, n, ob);
            assert(a2.node(m) == a.node(m));
            assert(b2.node(m) == b.node(m));
        }
    }
    assert forall|e: usize| #[trigger] s.is_edge(e) && s.position(s.edge(e).from) < j
        + 1 implies a2.edge(e).gain == b2.edge(e).gain by {
        assert(a.is_edge(e) && b.is_edge(e));
        assert(s.edge_wf(e));
        let from = s.edge(e).from;
        assert(s.order.contains(from));
        lemma_forward_step_effect(a, n, oa);
        lemma_forward_step_effect(b, n, ob);
        assert(a.edge(e).gater == s.edge(e).gater);
        assert(b.edge(e).gater == s.edge(e).gater);
        if s.is_hidden(n) && s.edge(e).gater == Some(n) {
        } else if s.position(from) < j {
        } else {
            assert(from == n);
            if let Some(g) = s.edge(e).gater {
                assert(g == n);
                assert(!s.hidden_gated(e));
            }
            assert(a.edge(e).gain == s.edge(e).gain);
            assert(b.edge(e).gain == s.edge(e).gain);
        }
    }
}

/// Two runs from networks of one setting keep that setting.
pub proof fn lemma_runs_setting(
    s: NetworkView,
    t: NetworkView,
    first: Seq<OutcomeView>,
    second: Seq<OutcomeView>,
    k: nat,
)
    requires
        s.wf(),
        t.wf(),
        s.same_setting(t),
    ensures
        s.forward_run(first, k).wf(),
        t.forward_run(second, k).wf(),
        s.same_setting(s.forward_run(first, k)),
        s.same_setting(t.forward_run(second, k)),
{
    lemma_forward_run_setting(s, first, k);
    lemma_forward_run_setting(t, second, k);
    lemma_same_setting_trans(s, t, t.forward_run(second, k));
}

/// Two runs by one rule, from feed-forward networks of one setting, agree
/// on every node that has run.
pub proof fn lemma_runs_agree(
    s: NetworkView,
    t: NetworkView,
    rule: spec_fn(Essence) -> (NeuroFloat, NeuroFloat),
    first: Seq<OutcomeView>,
    second: Seq<OutcomeView>,
    k: nat,
)
    requires
        s.wf(),
        t.wf(),
        s.feed_forward(),
        s.same_setting(t),
        follows(rule, s, first),
        follows(rule, t, second),
        k <= s.order.len(),
    ensures
        s.runs_agree(s.forward_run(first, k), t.forward_run(second, k), k),
    decreases k,
{
    if k == 0 {
        assert forall|e: usize| #[trigger] s.is_edge(e) implies s.position(s.edge(e).from)
            >= 0 by {
            assert(s.edge_wf(e));
            assert(s.order.contains(s.edge(e).from));
        }
    } else {
        let j = (k - 1) as nat;
        lemma_runs_agree(s, t, rule, first, second, j);
        let a = s.forward_run(first, j);
        let b = t.forward_run(second, j);
        let n = s.order[j as int];
        assert(t.order == s.order);
        lemma_runs_setting(s, t, first, second, j);
        assert(s.is_hidden(n) ==> first[j as int].activation == second[j as int].activation) by {
            if s.is_hidden(n) {
                lemma_same_essence(s, a, b, j);
                assert(s.is_hidden(s.order[j as int]));
                assert((first[j as int].state, first[j as int].activation) == rule(
                    essence(a.stimulus(n)),
                ));
                assert(s.is_node(n));
                assert(t.is_hidden(t.order[j as int]));
                assert((second[j as int].state, second[j as int].activation) == rule(
                    essence(b.stimulus(n)),
                ));
            }
        }
        lemma_agree_step(s, a, b, first[j as int], second[j as int], j);
    }
}

/// Handing a network the inputs it had before a run restores the setting
/// it had before the run.
pub proof fn lemma_rerun_setting(s: NetworkView, once: NetworkView, inputs: Seq<NeuroFloat>)
    requires
        s.wf(),
        once.wf(),
        s.same_setting(once),
        inputs.len() == s.inputs,
        forall|n: usize| #[trigger]
            s.is_node(n) && s.node(n).is_input() ==> s.node(n).signal() == inputs[n as int],
    ensures
        s.same_setting(once.set_inputs(inputs)),
{
    let t = once.set_inputs(inputs);
    lemma_set_inputs_wiring(once, inputs);
    lemma_same_wiring_trans(s, once, t);
    assert forall|n: usize| #[trigger] s.is_hidden(n) implies {
        &&& t.neuron(n).bias == s.neuron(n).bias
        &&& t.neuron(n).squash == s.neuron(n).squash
        &&& t.neuron(n).mask == s.neuron(n).mask
    } by {
        assert(s.is_node(n));
        assert(once.is_node(n));
        assert(once.is_hidden(n));
    }
    assert forall|n: usize| #[trigger] s.is_node(n) && s.node(n).is_input() implies t.node(n).state
        == s.node(n).state by {
        assert(once.is_node(n));
        assert(once.node(n).is_input());
        assert(t.node(n).signal() == inputs[n as int]);
    }
    assert forall|e: usize| #[trigger] s.is_edge(e) implies t.edge(e).weight == s.edge(e).weight by {}
    assert forall|e: usize| #[trigger] s.is_edge(e) && !s.hidden_gated(e) implies t.edge(e).gain
        == s.edge(e).gain by {}
}

/// Handing a feed-forward network its inputs leaves it feed-forward.
pub proof fn lemma_first_start(v: NetworkView, inputs: Seq<NeuroFloat>)
    requires
        v.wf(),
        v.feed_forward(),
        inputs.len() == v.inputs,
    ensures
        v.set_inputs(inputs).wf(),
        v.set_inputs(inputs).feed_forward(),
        v.set_inputs(inputs).order == v.order,
        v.set_inputs(inputs).inputs == v.inputs,
        forall|n: usize| #[trigger]
            v.set_inputs(inputs).is_node(n) && v.set_inputs(inputs).node(n).is_input()
                ==> v.set_inputs(inputs).node(n).signal() == inputs[n as int],
{
    let s = v.set_inputs(inputs);
    lemma_set_inputs_wiring(v, inputs);
    assert forall|e: usize| #[trigger] s.is_edge(e) implies s.before(s.edge(e).from, s.edge(e).to)
        && s.edge(e).gater != Some(s.edge(e).to) by {
        assert(v.is_edge(e));
    }
    assert forall|n: usize| #[trigger] s.is_node(n) && s.node(n).is_input() implies s.node(
        n,
    ).signal() == inputs[n as int] by {
        assert(v.is_node(n));
    }
}

/// Two runs that agree on every node agree on the outputs.
pub proof fn lemma_outputs_agree(s: NetworkView, once: NetworkView, twice: NetworkView)
    requires
        s.wf(),
        s.same_wiring(once),
        s.same_wiring(twice),
        s.runs_agree(once, twice, s.order.len()),
    ensures
        once.output_signals() == twice.output_signals(),
{
    assert forall|k: int| 0 <= k < once.outputs implies once.output_signals()[k]
        == twice.output_signals()[k] by {
        let n = (s.inputs + k) as usize;
        assert(s.is_node(n));
        assert(s.order.contains(n));
        let p = s.position(n);
        assert(once.node(s.order[p]).signal() == twice.node(s.order[p]).signal());
    }
    assert(once.output_signals() =~= twice.output_signals());
}

/// A feed-forward network answers the same inputs with the same outputs.
///
/// Let every connection of a network run from an earlier node to a later
/// one, so that no node is connected to itself, and let none be gated by
/// its destination. Let the state and the activation that a node's pass
/// computes be any function of what the state is made of: bias, squash,
/// mask, and gain, weight and source signal of each inbound connection.
/// Then a forward run on some inputs, followed by a second run on the same
/// inputs, leaves the output nodes with the activations that the first run
/// left them with.
pub proof fn law_feed_forward_activation_repeats(
    v: NetworkView,
    inputs: Seq<NeuroFloat>,
    rule: spec_fn(Essence) -> (NeuroFloat, NeuroFloat),
    first: Seq<OutcomeView>,
    second: Seq<OutcomeView>,
)
    requires
        v.wf(),
        v.feed_forward(),
        inputs.len() == v.inputs,
        follows(rule, v.set_inputs(inputs), first),
        follows(
            rule,
            v.set_inputs(inputs).forward_run(first, v.order.len()).set_inputs(inputs),
            second,
        ),
    ensures
        ({
            let once = v.set_inputs(inputs).forward_run(first, v.order.len());
            let twice = once.set_inputs(inputs).forward_run(second, v.order.len());
            once.output_signals() == twice.output_signals()
        }),
{
    let len = v.order.len();
    let s = v.set_inputs(inputs);
    lemma_first_start(v, inputs);
    let once = s.forward_run(first, len);
    lemma_forward_run_setting(s, first, len);
    let t = once.set_inputs(inputs);
    lemma_set_inputs_wiring(once, inputs);
    lemma_rerun_setting(s, once, inputs);
    lemma_runs_agree(s, t, rule, first, second, len);
    let twice = t.forward_run(second, len);
    lemma_forward_run_setting(t, second, len);
    lemma_outputs_agree(s, once, twice);
}

} // verus!
