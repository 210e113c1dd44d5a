use neurograph::{
    Activation, Draw, GatingKind, MutationKind, Network, NetworkError, NeuroFloat, Seeded, Target,
};

fn value(x: f32) -> NeuroFloat {
    NeuroFloat::from_bits(x.to_bits())
}

fn draw(first: u64, second: u64, x: f32) -> Draw {
    Draw { first, second, value: value(x) }
}

fn ends(net: &Network, e: usize) -> (usize, usize) {
    let c = net.connection(e).unwrap();
    (c.from, c.to)
}

fn with_hidden() -> (Network, usize) {
    let mut net = Network::new(2, 1);
    let h = net.add_hidden(value(0.0), Activation::Sigmoid);
    (net, h)
}

#[test]
fn activation_indices_round_trip() {
    let all = [
        Activation::Sigmoid,
        Activation::Tanh,
        Activation::Identity,
        Activation::Relu,
        Activation::LeakyRelu,
        Activation::Step,
        Activation::Softsign,
        Activation::Sin,
        Activation::Gaussian,
        Activation::BentIdentity,
        Activation::Bipolar,
        Activation::BipolarSigmoid,
        Activation::HardTanh,
        Activation::Absolute,
        Activation::Inverse,
        Activation::Selu,
    ];
    for (i, kind) in all.iter().enumerate() {
        assert_eq!(kind.index(), i as u64);
        assert_eq!(Activation::from_index(i as u64), *kind);
        assert_eq!(Activation::from_index(i as u64 + 32), *kind);
    }
}

#[test]
fn mutate_activation_picks_node_and_squash() {
    let (mut net, h) = with_hidden();
    assert_eq!(net.order(), vec![0, 1, h, 2]);
    assert_eq!(net.target(MutationKind::Activation, 0, 0), Ok(Target::Node(h)));
    assert_eq!(net.target(MutationKind::Activation, 1, 0), Ok(Target::Node(2)));
    assert_eq!(net.target(MutationKind::Activation, 2, 0), Ok(Target::Node(h)));
    assert!(net.mutate(MutationKind::Activation, draw(1, 2, 0.0)));
    assert_eq!(net.neuron(2).unwrap().squash, Activation::Identity);
    assert_eq!(net.neuron(h).unwrap().squash, Activation::Sigmoid);
    assert!(net.mutate(MutationKind::Activation, draw(0, 19, 0.0)));
    assert_eq!(net.neuron(h).unwrap().squash, Activation::Relu);
}

#[test]
fn mutate_bias_writes_the_drawn_value() {
    let (mut net, h) = with_hidden();
    assert!(net.mutate(MutationKind::Bias, draw(4, 0, 0.75)));
    assert_eq!(net.neuron(h).unwrap().bias, value(0.75));
    assert_eq!(net.neuron(2).unwrap().bias, value(0.0));
}

#[test]
fn mutate_without_hidden_nodes_is_a_no_op() {
    let mut net = Network::new(2, 0);
    for kind in [
        MutationKind::Activation,
        MutationKind::Bias,
        MutationKind::AddSelfConnection,
        MutationKind::SubSelfConnection,
        MutationKind::Weight,
        MutationKind::AddNode,
        MutationKind::SubNode,
        MutationKind::AddConnection,
        MutationKind::SubConnection,
        MutationKind::AddGate,
        MutationKind::SubGate,
        MutationKind::AddBackConnection,
        MutationKind::SubBackConnection,
        MutationKind::SwapNodes,
        MutationKind::ShareWeight,
    ] {
        assert_eq!(net.target(kind, 3, 4), Err(NetworkError::NoEligibleMutationTarget));
        assert!(!net.mutate(kind, draw(3, 4, 1.0)));
    }
    assert_eq!(net.node_slots(), 2);
    assert_eq!(net.connection_slots(), 0);
    assert_eq!(net.order(), vec![0, 1]);
}

#[test]
fn mutate_self_connection_adds_then_removes() {
    let (mut net, h) = with_hidden();
    assert!(net.mutate(MutationKind::AddSelfConnection, draw(1, 0, 0.5)));
    let e = net.node(2).unwrap().connections().to_self.unwrap();
    assert_eq!(ends(&net, e), (2, 2));
    assert_eq!(net.weight(e), Some(value(0.5)));
    assert_eq!(net.target(MutationKind::AddSelfConnection, 1, 0), Ok(Target::Node(h)));
    assert!(net.mutate(MutationKind::AddSelfConnection, draw(0, 0, 0.25)));
    assert!(net.node(h).unwrap().connections().to_self.is_some());
    assert!(!net.mutate(MutationKind::AddSelfConnection, draw(0, 0, 0.25)));
    assert_eq!(net.target(MutationKind::SubSelfConnection, 1, 0), Ok(Target::Node(2)));
    assert!(net.mutate(MutationKind::SubSelfConnection, draw(1, 0, 0.0)));
    assert_eq!(net.node(2).unwrap().connections().to_self, None);
    assert!(net.connection(e).is_none());
    assert!(net.mutate(MutationKind::SubSelfConnection, draw(1, 0, 0.0)));
    assert_eq!(net.node(h).unwrap().connections().to_self, None);
    assert!(!net.mutate(MutationKind::SubSelfConnection, draw(1, 0, 0.0)));
}

#[test]
fn mutate_weight_writes_the_drawn_value() {
    let mut net = Network::new(2, 1);
    let a = net.connect(0, 2).unwrap();
    let b = net.connect(1, 2).unwrap();
    assert!(net.mutate(MutationKind::Weight, draw(3, 0, -0.5)));
    assert_eq!(net.weight(b), Some(value(-0.5)));
    assert_eq!(net.weight(a), Some(value(0.0)));
}

#[test]
fn add_node_then_sub_node_restores_the_edge() {
    let mut net = Network::new(1, 1);
    let e = net.connect(0, 1).unwrap();
    net.set_weight(e, value(0.75)).unwrap();
    assert!(net.mutate(MutationKind::AddNode, draw(0, 2, 0.0)));
    let n: usize = 2;
    assert_eq!(net.order(), vec![0, n, 1]);
    assert!(net.connection(e).is_none());
    assert_eq!(ends(&net, 1), (0, n));
    assert_eq!(ends(&net, 2), (n, 1));
    assert_eq!(net.weight(1), Some(value(1.0)));
    assert_eq!(net.weight(2), Some(value(0.75)));
    assert_eq!(net.neuron(n).unwrap().squash, Activation::Identity);
    assert_eq!(net.neuron(n).unwrap().bias, value(0.0));
    assert!(!net.neuron(n).unwrap().output);
    assert!(!net.is_connected(0, 1));
    assert_eq!(net.target(MutationKind::SubNode, 5, 0), Ok(Target::Node(n)));
    assert!(net.mutate(MutationKind::SubNode, draw(5, 0, 0.0)));
    assert!(net.node(n).is_none());
    assert_eq!(net.order(), vec![0, 1]);
    assert!(net.connection(1).is_none());
    assert!(net.connection(2).is_none());
    assert_eq!(ends(&net, 3), (0, 1));
    assert_eq!(net.weight(3), Some(value(0.75)));
    assert_eq!(net.node(0).unwrap().connections().outbound, vec![3]);
    assert_eq!(net.node(1).unwrap().connections().inbound, vec![3]);
    assert!(!net.mutate(MutationKind::SubNode, draw(0, 0, 0.0)));
}

#[test]
fn add_node_keeps_a_shared_weight_shared() {
    let mut net = Network::new(2, 1);
    let a = net.connect(0, 2).unwrap();
    let b = net.connect(1, 2).unwrap();
    net.share_weight(a, b).unwrap();
    let n = net.add_node(b, value(0.0), Activation::Identity).unwrap();
    let second = net.node(n).unwrap().connections().outbound[0];
    net.set_weight(a, value(4.0)).unwrap();
    assert_eq!(net.weight(second), Some(value(4.0)));
    assert_eq!(net.add_node(b, value(0.0), Activation::Identity), Err(NetworkError::DanglingReference));
}

#[test]
fn add_node_into_an_output_edge_stays_before_the_outputs() {
    let mut net = Network::new(1, 2);
    let e = net.connect(1, 2).unwrap();
    let n = net.add_node(e, value(0.0), Activation::Tanh).unwrap();
    assert_eq!(net.order(), vec![0, n, 1, 2]);
}

#[test]
fn remove_node_joins_sources_to_destinations() {
    let mut net = Network::new(2, 2);
    let h = net.add_hidden(value(0.0), Activation::Tanh);
    let ins = net.connect_groups(&vec![0, 1], &vec![h], neurograph::ConnectionKind::AllToAll).unwrap();
    let outs = net.project(h, &vec![2, 3]).unwrap();
    net.set_weight(outs[0], value(2.0)).unwrap();
    net.set_weight(outs[1], value(3.0)).unwrap();
    let direct = net.connect(0, 2).unwrap();
    net.set_weight(direct, value(9.0)).unwrap();
    net.gate(h, &vec![ins[0]], GatingKind::Input).unwrap();
    assert_eq!(net.remove_node(h), Ok(()));
    assert!(net.node(h).is_none());
    assert_eq!(net.order(), vec![0, 1, 2, 3]);
    for e in ins.iter().chain(outs.iter()) {
        assert!(net.connection(*e).is_none());
    }
    assert_eq!(net.weight(direct), Some(value(9.0)));
    assert_eq!(net.node(0).unwrap().connections().outbound, vec![direct, 5]);
    assert_eq!(ends(&net, 5), (0, 3));
    assert_eq!(net.weight(5), Some(value(3.0)));
    assert_eq!(ends(&net, 6), (1, 2));
    assert_eq!(net.weight(6), Some(value(2.0)));
    assert_eq!(ends(&net, 7), (1, 3));
    assert_eq!(net.weight(7), Some(value(3.0)));
    assert_eq!(net.connection_slots(), 8);
    assert_eq!(net.connection(5).unwrap().gater, None);
}

#[test]
fn remove_node_refuses_inputs_outputs_and_stale_handles() {
    let mut net = Network::new(1, 1);
    assert_eq!(net.remove_node(0), Err(NetworkError::NoEligibleMutationTarget));
    assert_eq!(net.remove_node(1), Err(NetworkError::NoEligibleMutationTarget));
    assert_eq!(net.remove_node(2), Err(NetworkError::DanglingReference));
    let h = net.add_hidden(value(0.0), Activation::Tanh);
    assert_eq!(net.remove_node(h), Ok(()));
    assert_eq!(net.remove_node(h), Err(NetworkError::DanglingReference));
    assert_eq!(net.order(), vec![0, 1]);
}

#[test]
fn remove_node_turns_a_loop_through_it_into_a_self_connection() {
    let mut net = Network::new(0, 1);
    let h = net.add_hidden(value(0.0), Activation::Tanh);
    net.connect(0, h).unwrap();
    let back = net.connect(h, 0).unwrap();
    net.set_weight(back, value(0.5)).unwrap();
    net.connect(h, h).unwrap();
    net.remove_node(h).unwrap();
    let e = net.node(0).unwrap().connections().to_self.unwrap();
    assert_eq!(ends(&net, e), (0, 0));
    assert_eq!(net.weight(e), Some(value(0.5)));
}

#[test]
fn mutate_add_connection_picks_a_forward_pair() {
    let (mut net, h) = with_hidden();
    assert_eq!(net.pair_candidates(MutationKind::AddConnection), vec![(0, h), (0, 2), (1, h), (1, 2), (h, 2)]);
    assert_eq!(net.target(MutationKind::AddConnection, 4, 0), Ok(Target::Nodes(h, 2)));
    assert!(net.mutate(MutationKind::AddConnection, draw(4, 0, 0.5)));
    assert_eq!(ends(&net, 0), (h, 2));
    assert_eq!(net.weight(0), Some(value(0.5)));
    assert_eq!(net.pair_candidates(MutationKind::AddConnection), vec![(0, h), (0, 2), (1, h), (1, 2)]);
    assert!(net.pair_candidates(MutationKind::Bias).is_empty());
}

#[test]
fn mutate_add_back_connection_picks_a_backward_pair() {
    let (mut net, h) = with_hidden();
    assert_eq!(net.pair_candidates(MutationKind::AddBackConnection), vec![(2, h)]);
    assert!(net.mutate(MutationKind::AddBackConnection, draw(7, 0, 0.25)));
    assert_eq!(ends(&net, 0), (2, h));
    assert_eq!(net.weight(0), Some(value(0.25)));
    assert!(!net.mutate(MutationKind::AddBackConnection, draw(7, 0, 0.25)));
}

#[test]
fn mutate_sub_connection_tells_forward_from_backward() {
    let (mut net, h) = with_hidden();
    let forward = net.connect(0, h).unwrap();
    let backward = net.connect(2, h).unwrap();
    let own = net.connect(h, h).unwrap();
    assert_eq!(net.edge_candidates(MutationKind::SubConnection), vec![forward]);
    assert_eq!(net.edge_candidates(MutationKind::SubBackConnection), vec![backward]);
    assert!(net.mutate(MutationKind::SubBackConnection, draw(0, 0, 0.0)));
    assert!(net.connection(backward).is_none());
    assert!(!net.mutate(MutationKind::SubBackConnection, draw(0, 0, 0.0)));
    assert!(net.mutate(MutationKind::SubConnection, draw(0, 0, 0.0)));
    assert!(net.connection(forward).is_none());
    assert!(!net.mutate(MutationKind::SubConnection, draw(0, 0, 0.0)));
    assert!(net.connection(own).is_some());
}

#[test]
fn mutate_gate_attaches_an_end_and_detaches_it() {
    let mut net = Network::new(1, 1);
    let e = net.connect(0, 1).unwrap();
    let s = net.connect(1, 1).unwrap();
    assert_eq!(net.edge_candidates(MutationKind::AddGate), vec![e, s]);
    assert!(net.mutate(MutationKind::AddGate, draw(0, 3, 0.0)));
    assert_eq!(net.connection(e).unwrap().gater, Some(1));
    assert_eq!(net.node(1).unwrap().connections().gated, vec![e]);
    assert_eq!(net.edge_candidates(MutationKind::AddGate), vec![s]);
    assert!(net.mutate(MutationKind::AddGate, draw(0, 0, 0.0)));
    assert_eq!(net.connection(s).unwrap().gater, Some(1));
    assert!(!net.mutate(MutationKind::AddGate, draw(0, 0, 0.0)));
    assert_eq!(net.edge_candidates(MutationKind::SubGate), vec![e, s]);
    assert!(net.mutate(MutationKind::SubGate, draw(2, 0, 0.0)));
    assert_eq!(net.connection(e).unwrap().gater, None);
    assert_eq!(net.node(1).unwrap().connections().gated, vec![s]);
    assert!(net.mutate(MutationKind::SubGate, draw(2, 0, 0.0)));
    assert!(!net.mutate(MutationKind::SubGate, draw(2, 0, 0.0)));
    assert!(net.node(1).unwrap().connections().gated.is_empty());
}

#[test]
fn mutate_add_gate_on_an_even_draw_takes_the_source() {
    let mut net = Network::new(1, 1);
    let e = net.connect(0, 1).unwrap();
    assert!(net.mutate(MutationKind::AddGate, draw(0, 4, 0.0)));
    assert_eq!(net.connection(e).unwrap().gater, Some(0));
    assert_eq!(net.node(0).unwrap().connections().gated, vec![e]);
}

#[test]
fn mutate_swap_nodes_exchanges_bias_and_squash() {
    let (mut net, h) = with_hidden();
    net.set_bias(h, value(0.5)).unwrap();
    net.set_squash(h, Activation::Tanh).unwrap();
    net.set_bias(2, value(-1.0)).unwrap();
    net.set_squash(2, Activation::Relu).unwrap();
    net.set_mask(h, value(0.0)).unwrap();
    assert_eq!(net.target(MutationKind::SwapNodes, 0, 0), Ok(Target::Nodes(h, 2)));
    assert_eq!(net.target(MutationKind::SwapNodes, 1, 0), Ok(Target::Nodes(2, h)));
    assert_eq!(net.target(MutationKind::SwapNodes, 1, 5), Ok(Target::Nodes(2, h)));
    assert!(net.mutate(MutationKind::SwapNodes, draw(0, 0, 0.0)));
    assert_eq!(net.neuron(h).unwrap().bias, value(-1.0));
    assert_eq!(net.neuron(h).unwrap().squash, Activation::Relu);
    assert_eq!(net.neuron(2).unwrap().bias, value(0.5));
    assert_eq!(net.neuron(2).unwrap().squash, Activation::Tanh);
    assert_eq!(net.neuron(h).unwrap().mask, value(0.0));
    assert_eq!(net.neuron(2).unwrap().mask, value(1.0));
    assert!(!net.neuron(h).unwrap().output);
    assert!(net.neuron(2).unwrap().output);
    assert_eq!(net.order(), vec![0, 1, h, 2]);
}

#[test]
fn mutate_swap_nodes_needs_two_hidden_nodes() {
    let mut net = Network::new(1, 1);
    assert!(!net.mutate(MutationKind::SwapNodes, draw(0, 0, 0.0)));
    assert_eq!(net.swap_nodes(0, 1), Err(NetworkError::NoEligibleMutationTarget));
    assert_eq!(net.swap_nodes(1, 0), Err(NetworkError::NoEligibleMutationTarget));
    assert_eq!(net.swap_nodes(1, 9), Err(NetworkError::DanglingReference));
    assert_eq!(net.swap_nodes(1, 1), Ok(()));
}

#[test]
fn mutate_share_weight_aliases_two_connections() {
    let mut net = Network::new(3, 1);
    let edges = net.connect_groups(&vec![0, 1, 2], &vec![3], neurograph::ConnectionKind::AllToAll).unwrap();
    net.set_weight(edges[0], value(1.0)).unwrap();
    net.set_weight(edges[1], value(2.0)).unwrap();
    net.set_weight(edges[2], value(3.0)).unwrap();
    assert_eq!(net.target(MutationKind::ShareWeight, 1, 1), Ok(Target::Edges(edges[1], edges[2])));
    assert_eq!(net.target(MutationKind::ShareWeight, 1, 0), Ok(Target::Edges(edges[1], edges[0])));
    assert!(net.mutate(MutationKind::ShareWeight, draw(1, 1, 0.0)));
    assert_eq!(net.weight(edges[2]), Some(value(2.0)));
    net.set_weight(edges[2], value(5.0)).unwrap();
    assert_eq!(net.weight(edges[1]), Some(value(5.0)));
    assert_eq!(net.weight(edges[0]), Some(value(1.0)));
    net.set_weight(edges[1], value(6.0)).unwrap();
    assert_eq!(net.weight(edges[2]), Some(value(6.0)));
}

#[test]
fn share_weight_needs_two_live_connections() {
    let mut net = Network::new(1, 1);
    let e = net.connect(0, 1).unwrap();
    assert_eq!(net.share_weight(e, 4), Err(NetworkError::DanglingReference));
    assert_eq!(net.share_weight(4, e), Err(NetworkError::DanglingReference));
    assert!(!net.mutate(MutationKind::ShareWeight, draw(0, 0, 0.0)));
    assert_eq!(net.share_weight(e, e), Ok(()));
}

#[test]
fn setters_refuse_inputs_and_stale_handles() {
    let mut net = Network::new(1, 1);
    assert_eq!(net.set_bias(0, value(1.0)), Err(NetworkError::NoEligibleMutationTarget));
    assert_eq!(net.set_squash(0, Activation::Tanh), Err(NetworkError::NoEligibleMutationTarget));
    assert_eq!(net.set_mask(0, value(1.0)), Err(NetworkError::NoEligibleMutationTarget));
    assert_eq!(net.set_bias(5, value(1.0)), Err(NetworkError::DanglingReference));
    assert_eq!(net.set_squash(5, Activation::Tanh), Err(NetworkError::DanglingReference));
    assert_eq!(net.set_mask(5, value(1.0)), Err(NetworkError::DanglingReference));
    assert_eq!(net.set_weight(0, value(1.0)), Err(NetworkError::DanglingReference));
    assert_eq!(net.weight(0), None);
    assert_eq!(net.set_mask(1, value(0.5)), Ok(()));
    assert_eq!(net.neuron(1).unwrap().mask, value(0.5));
}

#[test]
fn node_candidates_follow_the_order() {
    let (mut net, h) = with_hidden();
    assert_eq!(net.node_candidates(MutationKind::Bias), vec![h, 2]);
    assert_eq!(net.node_candidates(MutationKind::SubNode), vec![h]);
    assert!(net.node_candidates(MutationKind::Weight).is_empty());
    assert!(net.edge_candidates(MutationKind::Bias).is_empty());
    let e = net.connect(0, h).unwrap();
    assert_eq!(net.edge_candidates(MutationKind::Weight), vec![e]);
    assert_eq!(net.position_of(h), Some(2));
    assert_eq!(net.position_of(2), Some(3));
    assert_eq!(net.position_of(9), None);
    assert!(net.has_node(h));
    assert!(net.has_hidden(h));
    assert!(!net.has_hidden(0));
    assert!(net.has_connection(e));
    assert!(!net.has_connection(e + 1));
}

#[test]
fn seeded_source_gives_known_numbers() {
    let mut source = Seeded::new(0);
    assert_eq!(source.next(), 0xE220_A839_7B1D_CDAF);
    assert_eq!(source.next(), 0x6E78_9E6A_A1B9_65F4);
    assert_eq!(source.next(), 0x06C4_5D18_8009_454F);
    assert_eq!(source.next(), 0xF88B_B8A8_724C_81EC);
    let mut other = Seeded::new(42);
    assert_eq!(other.next(), 13679457532755275413);
}

#[test]
fn seeded_source_repeats_for_the_same_seed() {
    let mut a = Seeded::new(7);
    let mut b = Seeded::new(7);
    for _ in 0..10 {
        assert_eq!(a.next(), b.next());
    }
    assert_eq!(a, b);
}

#[test]
fn seeded_draw_takes_two_numbers() {
    let mut source = Seeded::new(42);
    let d = source.draw(value(0.5));
    assert_eq!(d.first, 13679457532755275413);
    assert_eq!(d.second, 2949826092126892291);
    assert_eq!(d.value, value(0.5));
    assert_eq!(source.next(), 5139283748462763858);
}

#[test]
fn seeded_mutations_are_reproducible() {
    let run = |seed: u64| {
        let mut net = Network::new(2, 2);
        net.connect_groups(&vec![0, 1], &vec![2, 3], neurograph::ConnectionKind::AllToAll).unwrap();
        let mut source = Seeded::new(seed);
        for kind in [
            MutationKind::AddNode,
            MutationKind::AddConnection,
            MutationKind::AddGate,
            MutationKind::AddSelfConnection,
            MutationKind::AddBackConnection,
            MutationKind::SwapNodes,
            MutationKind::ShareWeight,
            MutationKind::SubConnection,
            MutationKind::AddNode,
            MutationKind::SubNode,
            MutationKind::SubGate,
            MutationKind::Weight,
            MutationKind::Bias,
            MutationKind::Activation,
        ] {
            let d = source.draw(value(0.25));
            net.mutate(kind, d);
        }
        let edges: Vec<Option<neurograph::Connection>> =
            (0..net.connection_slots()).map(|e| net.connection(e)).collect();
        (net.order(), edges)
    };
    assert_eq!(run(3), run(3));
    assert!(run(3).0.len() >= 4);
}
