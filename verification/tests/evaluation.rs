use neurograph::{
    Activation, BackwardStep, Correction, GatingKind, Lesson, Network, NetworkError, NeuroFloat,
    Outcome, Stimulus, WeightUpdate,
};

fn bits(x: f32) -> NeuroFloat {
    NeuroFloat::from_bits(x.to_bits())
}

fn num(x: NeuroFloat) -> f32 {
    f32::from_bits(x.to_bits())
}

fn squash_value(kind: Activation, x: f32) -> f32 {
    match kind {
        Activation::Identity => x,
        Activation::Relu => {
            if x > 0.0 {
                x
            } else {
                0.0
            }
        }
        Activation::Tanh => x.tanh(),
        _ => 1.0 / (1.0 + (-x).exp()),
    }
}

fn fire(s: &Stimulus) -> Outcome {
    let mut state = num(s.neuron.bias);
    let mut feedback = 0.0;
    if let Some(term) = &s.feedback {
        feedback = num(term.connection.gain) * num(term.weight);
        state += num(s.neuron.previous) * feedback;
    }
    let mut traces = Vec::new();
    for term in &s.terms {
        let gain = num(term.connection.gain);
        state += gain * num(term.weight) * num(term.signal);
        traces.push(bits(feedback * num(term.connection.eligibility) + num(term.signal) * gain));
    }
    let activation = num(s.neuron.mask) * squash_value(s.neuron.squash, state);
    Outcome { state: bits(state), activation: bits(activation), derivative: bits(1.0), traces }
}

fn activate(net: &mut Network, inputs: &[f32]) -> Result<Vec<f32>, NetworkError> {
    let values: Vec<NeuroFloat> = inputs.iter().map(|x| bits(*x)).collect();
    let signals = net.activate(&values, fire)?;
    Ok(signals.iter().map(|x| num(*x)).collect())
}

fn learn(l: &Lesson) -> Correction {
    let rate = 0.5;
    let mut error = 0.0;
    if let Some(target) = l.target {
        error = num(target) - num(l.neuron.activation);
    } else {
        for (term, r) in l.outbound.iter().zip(l.downstream.iter()) {
            error += num(term.weight) * num(term.connection.gain) * num(*r);
        }
    }
    let responsibility = error * num(l.neuron.derivative);
    let mut updates = Vec::new();
    for term in &l.inbound {
        let delta = rate * responsibility * num(term.connection.eligibility);
        updates.push(WeightUpdate {
            weight: bits(num(term.weight) + delta),
            prev_delta_weight: bits(delta),
            total_delta_weight: term.connection.total_delta_weight,
        });
    }
    let delta_bias = rate * responsibility;
    Correction {
        responsibility: bits(responsibility),
        bias: bits(num(l.neuron.bias) + delta_bias),
        prev_delta_bias: bits(delta_bias),
        total_delta_bias: l.neuron.total_delta_bias,
        updates,
    }
}

fn one_to_one(weight: f32, bias: f32) -> Network {
    let mut net = Network::new(1, 1);
    let e = net.connect(0, 1).unwrap();
    net.set_weight(e, bits(weight)).unwrap();
    net.set_bias(1, bits(bias)).unwrap();
    net.set_squash(1, Activation::Identity).unwrap();
    net
}

#[test]
fn identity_network_passes_its_input() {
    let mut net = one_to_one(1.0, 0.0);
    assert_eq!(activate(&mut net, &[2.0]), Ok(vec![2.0]));
}

#[test]
fn bias_is_added_to_the_weighted_input() {
    let mut net = one_to_one(0.5, 1.0);
    assert_eq!(activate(&mut net, &[2.0]), Ok(vec![2.0]));
    assert_eq!(num(net.neuron(1).unwrap().state), 2.0);
}

#[test]
fn self_connection_feeds_the_previous_state_back() {
    let mut net = Network::new(0, 1);
    let e = net.connect(0, 0).unwrap();
    net.set_weight(e, bits(0.5)).unwrap();
    net.set_bias(0, bits(1.0)).unwrap();
    net.set_squash(0, Activation::Identity).unwrap();
    assert_eq!(activate(&mut net, &[]), Ok(vec![1.0]));
    assert_eq!(num(net.neuron(0).unwrap().state), 1.0);
    assert_eq!(num(net.neuron(0).unwrap().previous), 1.0);
    assert_eq!(activate(&mut net, &[]), Ok(vec![1.5]));
    assert_eq!(num(net.neuron(0).unwrap().state), 1.5);
}

#[test]
fn feed_forward_activation_is_repeatable() {
    let mut net = Network::new(2, 1);
    let h = net.add_hidden(bits(0.25), Activation::Tanh);
    let edges = net.connect_groups(&vec![0, 1], &vec![h], neurograph::ConnectionKind::AllToAll).unwrap();
    net.set_weight(edges[0], bits(0.5)).unwrap();
    net.set_weight(edges[1], bits(-1.5)).unwrap();
    let out = net.connect(h, 2).unwrap();
    net.set_weight(out, bits(2.0)).unwrap();
    let first = activate(&mut net, &[1.0, 0.5]).unwrap();
    let second = activate(&mut net, &[1.0, 0.5]).unwrap();
    assert_eq!(first, second);
    let hidden = (0.25f32 + 0.5 * 1.0 + -1.5 * 0.5).tanh();
    assert_eq!(first, vec![1.0 / (1.0 + (-(2.0 * hidden)).exp())]);
}

#[test]
fn set_inputs_checks_the_length() {
    let mut net = Network::new(2, 1);
    assert_eq!(net.set_inputs(&vec![bits(1.0)]), Err(NetworkError::InputSizeMismatch));
    assert_eq!(
        net.set_inputs(&vec![bits(1.0), bits(2.0), bits(3.0)]),
        Err(NetworkError::InputSizeMismatch)
    );
    assert_eq!(net.node(0).unwrap().signal(), bits(0.0));
    assert_eq!(net.set_inputs(&vec![bits(1.0), bits(2.0)]), Ok(()));
    assert_eq!(net.node(0).unwrap().signal(), bits(1.0));
    assert_eq!(net.node(1).unwrap().signal(), bits(2.0));
    assert_eq!(activate(&mut net, &[1.0]), Err(NetworkError::InputSizeMismatch));
}

#[test]
fn backward_steps_check_the_length() {
    let net = Network::new(1, 2);
    assert_eq!(net.backward_steps(&vec![bits(1.0)]), Err(NetworkError::TargetSizeMismatch));
    assert_eq!(net.backward_steps(&vec![]), Err(NetworkError::TargetSizeMismatch));
    assert!(net.backward_steps(&vec![bits(1.0), bits(2.0)]).is_ok());
}

#[test]
fn backward_steps_run_against_the_order() {
    let mut net = Network::new(1, 2);
    let h = net.add_hidden(bits(0.0), Activation::Identity);
    assert_eq!(net.order(), vec![0, h, 1, 2]);
    let steps = net.backward_steps(&vec![bits(0.5), bits(-0.5)]).unwrap();
    assert_eq!(
        steps,
        vec![
            BackwardStep { node: 2, target: Some(bits(-0.5)) },
            BackwardStep { node: 1, target: Some(bits(0.5)) },
            BackwardStep { node: h, target: None },
            BackwardStep { node: 0, target: None },
        ]
    );
}

#[test]
fn outputs_are_read_in_slot_order() {
    let mut net = Network::new(0, 2);
    net.record_forward(0, bits(1.0), bits(3.0), bits(0.0), &vec![]).unwrap();
    net.record_forward(1, bits(2.0), bits(4.0), bits(0.0), &vec![]).unwrap();
    assert_eq!(net.outputs(), vec![bits(3.0), bits(4.0)]);
}

#[test]
fn terms_carry_record_weight_and_signal() {
    let mut net = Network::new(2, 1);
    let a = net.connect(0, 2).unwrap();
    let b = net.connect(1, 2).unwrap();
    net.set_weight(a, bits(0.5)).unwrap();
    net.set_weight(b, bits(0.25)).unwrap();
    net.set_inputs(&vec![bits(3.0), bits(5.0)]).unwrap();
    let terms = net.inbound_terms(2);
    assert_eq!(terms.len(), 2);
    assert_eq!(terms[0].edge, a);
    assert_eq!(terms[0].weight, bits(0.5));
    assert_eq!(terms[0].signal, bits(3.0));
    assert_eq!(terms[0].connection, net.connection(a).unwrap());
    assert_eq!(terms[1].edge, b);
    assert_eq!(terms[1].weight, bits(0.25));
    assert_eq!(terms[1].signal, bits(5.0));
    let out = net.outbound_terms(0);
    assert_eq!(out.len(), 1);
    assert_eq!(out[0].edge, a);
    assert_eq!(out[0].connection.to, 2);
    assert!(net.inbound_terms(0).is_empty());
    assert!(net.inbound_terms(9).is_empty());
    assert!(net.outbound_terms(9).is_empty());
    assert!(net.gated_terms(9).is_empty());
    assert_eq!(net.term(9), None);
    assert_eq!(net.self_term(2), None);
    assert_eq!(net.self_term(9), None);
}

#[test]
fn self_term_reads_the_self_connection() {
    let mut net = Network::new(0, 1);
    let e = net.connect(0, 0).unwrap();
    net.set_weight(e, bits(0.5)).unwrap();
    let term = net.self_term(0).unwrap();
    assert_eq!(term.edge, e);
    assert_eq!(term.weight, bits(0.5));
    assert_eq!(term.connection.from, 0);
    assert_eq!(term.connection.to, 0);
}

#[test]
fn record_forward_sets_the_gain_of_gated_edges() {
    let mut net = Network::new(1, 2);
    let a = net.connect(0, 1).unwrap();
    let b = net.connect(1, 2).unwrap();
    let c = net.connect(0, 2).unwrap();
    net.gate(1, &vec![b], GatingKind::Output).unwrap();
    net.gate(1, &vec![a], GatingKind::Input).unwrap();
    net.record_forward(1, bits(0.5), bits(0.75), bits(0.125), &vec![bits(9.0)]).unwrap();
    let neuron = net.neuron(1).unwrap();
    assert_eq!(neuron.state, bits(0.5));
    assert_eq!(neuron.previous, bits(0.5));
    assert_eq!(neuron.activation, bits(0.75));
    assert_eq!(neuron.derivative, bits(0.125));
    assert_eq!(net.connection(a).unwrap().gain, bits(0.75));
    assert_eq!(net.connection(a).unwrap().eligibility, bits(9.0));
    assert_eq!(net.connection(b).unwrap().gain, bits(0.75));
    assert_eq!(net.connection(b).unwrap().eligibility, bits(0.0));
    assert_eq!(net.connection(c).unwrap().gain, bits(1.0));
    assert_eq!(net.connection(c).unwrap().eligibility, bits(0.0));
    assert_eq!(net.neuron(2).unwrap().activation, bits(0.0));
    let gated = net.gated_terms(1);
    assert_eq!(gated.len(), 2);
    assert_eq!(gated[0].edge, b);
    assert_eq!(gated[1].edge, a);
}

#[test]
fn gated_edge_is_scaled_by_the_gater() {
    let mut net = Network::new(1, 2);
    let to_gater = net.connect(0, 1).unwrap();
    let gated = net.connect(1, 2).unwrap();
    net.set_weight(to_gater, bits(1.0)).unwrap();
    net.set_weight(gated, bits(1.0)).unwrap();
    net.set_squash(1, Activation::Identity).unwrap();
    net.set_squash(2, Activation::Identity).unwrap();
    net.gate(1, &vec![gated], GatingKind::Output).unwrap();
    assert_eq!(activate(&mut net, &[3.0]), Ok(vec![3.0, 9.0]));
}

#[test]
fn record_forward_refuses_what_it_cannot_record() {
    let mut net = Network::new(1, 1);
    net.connect(0, 1).unwrap();
    let z = bits(0.0);
    assert_eq!(net.record_forward(7, z, z, z, &vec![]), Err(NetworkError::DanglingReference));
    assert_eq!(net.record_forward(0, z, z, z, &vec![]), Err(NetworkError::NoEligibleMutationTarget));
    assert_eq!(net.record_forward(1, z, z, z, &vec![]), Err(NetworkError::SizeMismatch));
    assert_eq!(net.record_forward(1, z, z, z, &vec![z, z]), Err(NetworkError::SizeMismatch));
    assert_eq!(net.record_forward(1, z, z, z, &vec![z]), Ok(()));
}

#[test]
fn record_backward_writes_bias_deltas_and_weights() {
    let mut net = Network::new(2, 1);
    let a = net.connect(0, 2).unwrap();
    let b = net.connect(1, 2).unwrap();
    let updates = vec![
        WeightUpdate {
            weight: bits(0.5),
            prev_delta_weight: bits(0.25),
            total_delta_weight: bits(0.125),
        },
        WeightUpdate { weight: bits(1.5), prev_delta_weight: bits(2.0), total_delta_weight: bits(4.0) },
    ];
    net.record_backward(2, bits(7.0), bits(8.0), bits(9.0), &updates).unwrap();
    let neuron = net.neuron(2).unwrap();
    assert_eq!(neuron.bias, bits(7.0));
    assert_eq!(neuron.prev_delta_bias, bits(8.0));
    assert_eq!(neuron.total_delta_bias, bits(9.0));
    assert_eq!(net.weight(a), Some(bits(0.5)));
    assert_eq!(net.weight(b), Some(bits(1.5)));
    assert_eq!(net.connection(a).unwrap().prev_delta_weight, bits(0.25));
    assert_eq!(net.connection(a).unwrap().total_delta_weight, bits(0.125));
    assert_eq!(net.connection(b).unwrap().prev_delta_weight, bits(2.0));
    assert_eq!(net.connection(b).unwrap().total_delta_weight, bits(4.0));
}

#[test]
fn record_backward_on_a_shared_cell_keeps_the_later_weight() {
    let mut net = Network::new(2, 1);
    let a = net.connect(0, 2).unwrap();
    let b = net.connect(1, 2).unwrap();
    net.share_weight(a, b).unwrap();
    let z = bits(0.0);
    let updates = vec![
        WeightUpdate { weight: bits(0.5), prev_delta_weight: z, total_delta_weight: z },
        WeightUpdate { weight: bits(1.5), prev_delta_weight: z, total_delta_weight: z },
    ];
    net.record_backward(2, z, z, z, &updates).unwrap();
    assert_eq!(net.weight(a), Some(bits(1.5)));
    assert_eq!(net.weight(b), Some(bits(1.5)));
}

#[test]
fn record_backward_refuses_what_it_cannot_record() {
    let mut net = Network::new(1, 1);
    net.connect(0, 1).unwrap();
    let z = bits(0.0);
    assert_eq!(net.record_backward(7, z, z, z, &vec![]), Err(NetworkError::DanglingReference));
    assert_eq!(
        net.record_backward(0, z, z, z, &vec![]),
        Err(NetworkError::NoEligibleMutationTarget)
    );
    assert_eq!(net.record_backward(1, z, z, z, &vec![]), Err(NetworkError::SizeMismatch));
    assert_eq!(net.neuron(1).unwrap().bias, z);
}

#[test]
fn activate_with_wrong_input_length_changes_nothing() {
    let mut net = one_to_one(1.0, 0.0);
    activate(&mut net, &[2.0]).unwrap();
    assert_eq!(activate(&mut net, &[]), Err(NetworkError::InputSizeMismatch));
    assert_eq!(activate(&mut net, &[1.0, 2.0]), Err(NetworkError::InputSizeMismatch));
    assert_eq!(net.node(0).unwrap().signal(), bits(2.0));
    assert_eq!(net.outputs(), vec![bits(2.0)]);
}

#[test]
fn activate_refuses_ill_sized_traces() {
    let mut net = one_to_one(1.0, 0.0);
    let bad = |_: &Stimulus| Outcome {
        state: bits(0.0),
        activation: bits(0.0),
        derivative: bits(0.0),
        traces: vec![],
    };
    assert_eq!(net.activate(&vec![bits(1.0)], bad), Err(NetworkError::SizeMismatch));
}

#[test]
fn activate_hands_each_hidden_node_what_it_reads() {
    let mut net = Network::new(1, 1);
    let h = net.add_hidden(bits(0.5), Activation::Relu);
    let a = net.connect(0, h).unwrap();
    let b = net.connect(h, 1).unwrap();
    net.set_weight(a, bits(2.0)).unwrap();
    net.set_weight(b, bits(3.0)).unwrap();
    let seen = std::cell::RefCell::new(Vec::new());
    let out = net
        .activate(&vec![bits(4.0)], |s: &Stimulus| {
            seen.borrow_mut().push((s.node, s.terms.len(), s.terms[0].edge, s.terms[0].signal));
            Outcome {
                state: bits(7.0),
                activation: bits(s.node as f32),
                derivative: bits(0.0),
                traces: vec![bits(0.0)],
            }
        })
        .unwrap();
    assert_eq!(*seen.borrow(), vec![(h, 1, a, bits(4.0)), (1, 1, b, bits(h as f32))]);
    assert_eq!(out, vec![bits(1.0)]);
}

#[test]
fn stimulus_is_what_the_pass_reads() {
    let mut net = one_to_one(0.5, 1.0);
    net.set_inputs(&vec![bits(2.0)]).unwrap();
    let s = net.stimulus(1).unwrap();
    assert_eq!(s.node, 1);
    assert_eq!(s.neuron, net.neuron(1).unwrap());
    assert_eq!(s.feedback, None);
    assert_eq!(s.terms, net.inbound_terms(1));
    assert!(net.stimulus(0).is_none());
    assert!(net.stimulus(9).is_none());
}

#[test]
fn propagate_checks_the_target_length() {
    let mut net = one_to_one(1.0, 0.0);
    activate(&mut net, &[2.0]).unwrap();
    assert_eq!(net.propagate(&vec![], learn), Err(NetworkError::TargetSizeMismatch));
    assert_eq!(
        net.propagate(&vec![bits(1.0), bits(2.0)], learn),
        Err(NetworkError::TargetSizeMismatch)
    );
    assert_eq!(net.weight(0), Some(bits(1.0)));
    assert_eq!(net.neuron(1).unwrap().bias, bits(0.0));
}

#[test]
fn propagate_moves_weight_and_bias_toward_the_target() {
    let mut net = one_to_one(1.0, 0.0);
    assert_eq!(activate(&mut net, &[2.0]), Ok(vec![2.0]));
    assert_eq!(net.connection(0).unwrap().eligibility, bits(2.0));
    assert_eq!(net.propagate(&vec![bits(3.0)], learn), Ok(()));
    assert_eq!(net.weight(0), Some(bits(2.0)));
    assert_eq!(net.connection(0).unwrap().prev_delta_weight, bits(1.0));
    assert_eq!(net.neuron(1).unwrap().bias, bits(0.5));
    assert_eq!(net.neuron(1).unwrap().prev_delta_bias, bits(0.5));
}

#[test]
fn propagate_hands_responsibilities_upstream() {
    let mut net = Network::new(1, 1);
    let h = net.add_hidden(bits(0.0), Activation::Identity);
    let a = net.connect(0, h).unwrap();
    let b = net.connect(h, 1).unwrap();
    net.set_weight(a, bits(1.0)).unwrap();
    net.set_weight(b, bits(2.0)).unwrap();
    net.set_squash(1, Activation::Identity).unwrap();
    assert_eq!(activate(&mut net, &[1.0]), Ok(vec![2.0]));
    let seen = std::cell::RefCell::new(Vec::new());
    net.propagate(&vec![bits(3.0)], |l: &Lesson| {
        seen.borrow_mut().push((l.node, l.target, l.downstream.clone(), l.inbound.len()));
        let mut c = learn(l);
        c.responsibility = bits(l.node as f32 + 10.0);
        c
    })
    .unwrap();
    assert_eq!(
        *seen.borrow(),
        vec![(1, Some(bits(3.0)), vec![], 1), (h, None, vec![bits(11.0)], 1)]
    );
}

#[test]
fn propagate_refuses_ill_sized_updates() {
    let mut net = one_to_one(1.0, 0.0);
    let bad = |l: &Lesson| Correction {
        responsibility: bits(0.0),
        bias: l.neuron.bias,
        prev_delta_bias: bits(0.0),
        total_delta_bias: bits(0.0),
        updates: vec![],
    };
    assert_eq!(net.propagate(&vec![bits(1.0)], bad), Err(NetworkError::SizeMismatch));
}

#[test]
fn lesson_reads_gated_edges_and_their_destinations() {
    let mut net = Network::new(1, 2);
    let a = net.connect(0, 1).unwrap();
    let b = net.connect(1, 2).unwrap();
    net.gate(1, &vec![b], GatingKind::Output).unwrap();
    let table = vec![bits(0.0), bits(5.0), bits(7.0)];
    let l = net.lesson(&table, BackwardStep { node: 1, target: Some(bits(1.0)) }).unwrap();
    assert_eq!(l.node, 1);
    assert_eq!(l.target, Some(bits(1.0)));
    assert_eq!(l.inbound.len(), 1);
    assert_eq!(l.inbound[0].edge, a);
    assert_eq!(l.outbound.len(), 1);
    assert_eq!(l.outbound[0].edge, b);
    assert_eq!(l.downstream, vec![bits(7.0)]);
    assert_eq!(l.gated.len(), 1);
    assert_eq!(l.influenced, vec![bits(7.0)]);
    assert_eq!(l.feedback, None);
    assert!(net.lesson(&table, BackwardStep { node: 0, target: None }).is_none());
}

#[test]
fn forward_runs_one_node() {
    let mut net = one_to_one(0.5, 1.0);
    net.set_inputs(&vec![bits(2.0)]).unwrap();
    assert_eq!(net.forward(0, fire), Ok(bits(2.0)));
    assert_eq!(net.forward(1, fire), Ok(bits(2.0)));
    assert_eq!(net.neuron(1).unwrap().state, bits(2.0));
    assert_eq!(net.connection(0).unwrap().eligibility, bits(2.0));
    assert_eq!(net.forward(5, fire), Err(NetworkError::DanglingReference));
    let bad = |_: &Stimulus| Outcome {
        state: bits(9.0),
        activation: bits(9.0),
        derivative: bits(9.0),
        traces: vec![],
    };
    assert_eq!(net.forward(1, bad), Err(NetworkError::SizeMismatch));
    assert_eq!(net.neuron(1).unwrap().state, bits(2.0));
}

#[test]
fn backward_runs_one_node() {
    let mut net = one_to_one(1.0, 0.0);
    activate(&mut net, &[2.0]).unwrap();
    let mut table = vec![bits(0.0), bits(0.0)];
    assert_eq!(net.backward(&mut table, BackwardStep { node: 0, target: None }, learn), Ok(()));
    assert_eq!(table, vec![bits(0.0), bits(0.0)]);
    assert_eq!(
        net.backward(&mut table, BackwardStep { node: 1, target: Some(bits(3.0)) }, learn),
        Ok(())
    );
    assert_eq!(table, vec![bits(0.0), bits(1.0)]);
    assert_eq!(net.weight(0), Some(bits(2.0)));
    assert_eq!(net.neuron(1).unwrap().bias, bits(0.5));
    assert_eq!(
        net.backward(&mut table, BackwardStep { node: 7, target: None }, learn),
        Err(NetworkError::DanglingReference)
    );
    let mut short = vec![bits(0.0)];
    assert_eq!(
        net.backward(&mut short, BackwardStep { node: 1, target: None }, learn),
        Err(NetworkError::SizeMismatch)
    );
    assert_eq!(net.weight(0), Some(bits(2.0)));
}
