use neurograph::{
    Activation, ConnectionKind, Connections, GatingKind, Network, NetworkError, NeuroFloat, Node,
};

fn scalar(x: f32) -> NeuroFloat {
    NeuroFloat::from_bits(x.to_bits())
}

fn outbound(net: &Network, n: usize) -> Vec<usize> {
    net.node(n).unwrap().connections().outbound.clone()
}

fn inbound(net: &Network, n: usize) -> Vec<usize> {
    net.node(n).unwrap().connections().inbound.clone()
}

fn gated(net: &Network, n: usize) -> Vec<usize> {
    net.node(n).unwrap().connections().gated.clone()
}

fn to_self(net: &Network, n: usize) -> Option<usize> {
    net.node(n).unwrap().connections().to_self
}

#[test]
fn node() {
    let input = Node::Input { value: scalar(0.0), connections: Connections::default() };
    let network = Network::new(0, 0);
    assert_eq!(input.signal(), scalar(0.0));
    assert!(input.connections().outbound.is_empty());
    assert!(input.connections().inbound.is_empty());
    assert!(input.connections().gated.is_empty());
    assert_eq!(input.connections().to_self, None);
    assert_eq!(network.node_slots(), 0);
    assert_eq!(network.connection_slots(), 0);
}

#[test]
fn scalars_keep_their_bits() {
    assert_eq!(NeuroFloat::zero().to_bits(), 0.0f32.to_bits());
    assert_eq!(NeuroFloat::one().to_bits(), 1.0f32.to_bits());
    assert_eq!(f32::from_bits(scalar(-2.5).to_bits()), -2.5);
}

#[test]
fn new_network_has_inputs_then_outputs() {
    let net = Network::new(2, 3);
    assert_eq!(net.input_count(), 2);
    assert_eq!(net.output_count(), 3);
    assert_eq!(net.node_slots(), 5);
    assert_eq!(net.order(), vec![0, 1, 2, 3, 4]);
    assert!(matches!(net.node(0), Some(Node::Input { .. })));
    assert!(matches!(net.node(1), Some(Node::Input { .. })));
    for n in 2..5 {
        let neuron = net.neuron(n).unwrap();
        assert!(neuron.output);
        assert_eq!(neuron.bias, scalar(0.0));
        assert_eq!(neuron.mask, scalar(1.0));
        assert_eq!(neuron.squash, Activation::Sigmoid);
    }
    assert!(net.node(5).is_none());
    assert!(net.neuron(0).is_none());
}

#[test]
fn add_hidden_goes_before_the_outputs() {
    let mut net = Network::new(1, 2);
    let h = net.add_hidden(scalar(0.5), Activation::Tanh);
    assert_eq!(h, 3);
    assert_eq!(net.order(), vec![0, 3, 1, 2]);
    let neuron = net.neuron(h).unwrap();
    assert!(!neuron.output);
    assert_eq!(neuron.bias, scalar(0.5));
    assert_eq!(neuron.squash, Activation::Tanh);
    let g = net.add_hidden(scalar(0.0), Activation::Relu);
    assert_eq!(g, 4);
    assert_eq!(net.order(), vec![0, 3, 4, 1, 2]);
}

#[test]
fn connect_links_both_ends() {
    let mut net = Network::new(1, 1);
    let e = net.connect(0, 1).unwrap();
    assert_eq!(e, 0);
    let c = net.connection(e).unwrap();
    assert_eq!(c.from, 0);
    assert_eq!(c.to, 1);
    assert_eq!(c.gain, scalar(1.0));
    assert_eq!(c.gater, None);
    assert_eq!(c.eligibility, scalar(0.0));
    assert_eq!(net.weight(e), Some(scalar(0.0)));
    assert_eq!(outbound(&net, 0), vec![e]);
    assert_eq!(inbound(&net, 1), vec![e]);
    assert!(inbound(&net, 0).is_empty());
    assert!(outbound(&net, 1).is_empty());
    assert!(net.is_connected(0, 1));
    assert!(!net.is_connected(1, 0));
}

#[test]
fn connect_refuses_a_duplicate() {
    let mut net = Network::new(1, 1);
    net.connect(0, 1).unwrap();
    assert_eq!(net.connect(0, 1), Err(NetworkError::DuplicateConnection));
    assert_eq!(net.connection_slots(), 1);
    assert_eq!(outbound(&net, 0), vec![0]);
}

#[test]
fn connect_refuses_a_stale_handle() {
    let mut net = Network::new(1, 1);
    assert_eq!(net.connect(0, 7), Err(NetworkError::DanglingReference));
    assert_eq!(net.connect(7, 0), Err(NetworkError::DanglingReference));
    assert_eq!(net.connection_slots(), 0);
}

#[test]
fn connect_parallel_adds_a_second_edge() {
    let mut net = Network::new(1, 1);
    let a = net.connect(0, 1).unwrap();
    let b = net.connect_parallel(0, 1).unwrap();
    assert_ne!(a, b);
    assert_eq!(outbound(&net, 0), vec![a, b]);
    assert_eq!(inbound(&net, 1), vec![a, b]);
}

#[test]
fn self_connection_fills_the_slot_once() {
    let mut net = Network::new(0, 1);
    let e = net.connect(0, 0).unwrap();
    assert_eq!(to_self(&net, 0), Some(e));
    assert!(outbound(&net, 0).is_empty());
    assert!(inbound(&net, 0).is_empty());
    assert_eq!(net.connect(0, 0), Err(NetworkError::DuplicateConnection));
    assert_eq!(net.connect_parallel(0, 0), Err(NetworkError::DuplicateConnection));
}

#[test]
fn disconnect_unlinks_everywhere() {
    let mut net = Network::new(1, 1);
    let e = net.connect(0, 1).unwrap();
    net.gate(1, &vec![e], GatingKind::Input).unwrap();
    assert_eq!(gated(&net, 1), vec![e]);
    assert_eq!(net.disconnect(e), Ok(()));
    assert!(net.connection(e).is_none());
    assert!(outbound(&net, 0).is_empty());
    assert!(inbound(&net, 1).is_empty());
    assert!(gated(&net, 1).is_empty());
    assert!(!net.is_connected(0, 1));
    assert_eq!(net.disconnect(e), Err(NetworkError::DanglingReference));
    let again = net.connect(0, 1).unwrap();
    assert_eq!(again, 1);
}

#[test]
fn disconnect_clears_the_self_slot() {
    let mut net = Network::new(0, 1);
    let e = net.connect(0, 0).unwrap();
    net.gate(0, &vec![e], GatingKind::ToSelf).unwrap();
    net.disconnect(e).unwrap();
    assert_eq!(to_self(&net, 0), None);
    assert!(gated(&net, 0).is_empty());
}

#[test]
fn project_fans_out_in_order() {
    let mut net = Network::new(1, 3);
    let made = net.project(0, &vec![3, 1, 2]).unwrap();
    assert_eq!(made, vec![0, 1, 2]);
    assert_eq!(outbound(&net, 0), vec![0, 1, 2]);
    assert_eq!(net.connection(0).unwrap().to, 3);
    assert_eq!(net.connection(1).unwrap().to, 1);
    assert_eq!(net.connection(2).unwrap().to, 2);
}

#[test]
fn project_stops_at_the_first_refusal() {
    let mut net = Network::new(1, 3);
    assert_eq!(net.project(0, &vec![1, 1, 2]), Err(NetworkError::DuplicateConnection));
    assert_eq!(outbound(&net, 0), vec![0]);
    assert!(net.is_connected(0, 1));
    assert!(!net.is_connected(0, 2));
    assert_eq!(net.project(0, &vec![2, 9, 3]), Err(NetworkError::DanglingReference));
    assert!(net.is_connected(0, 2));
    assert!(!net.is_connected(0, 3));
}

#[test]
fn project_to_nothing_changes_nothing() {
    let mut net = Network::new(1, 1);
    assert_eq!(net.project(0, &vec![]), Ok(vec![]));
    assert_eq!(net.connection_slots(), 0);
}

#[test]
fn connect_groups_all_to_all() {
    let mut net = Network::new(2, 2);
    let made = net.connect_groups(&vec![0, 1], &vec![2, 3], ConnectionKind::AllToAll).unwrap();
    assert_eq!(made, vec![0, 1, 2, 3]);
    let ends: Vec<(usize, usize)> =
        made.iter().map(|e| (net.connection(*e).unwrap().from, net.connection(*e).unwrap().to)).collect();
    assert_eq!(ends, vec![(0, 2), (0, 3), (1, 2), (1, 3)]);
}

#[test]
fn connect_groups_all_to_else_skips_self() {
    let mut net = Network::new(0, 3);
    let made = net.connect_groups(&vec![0, 1, 2], &vec![0, 1, 2], ConnectionKind::AllToElse).unwrap();
    assert_eq!(made.len(), 6);
    for n in 0..3 {
        assert_eq!(to_self(&net, n), None);
        assert_eq!(outbound(&net, n).len(), 2);
        assert_eq!(inbound(&net, n).len(), 2);
    }
    let ends: Vec<(usize, usize)> =
        made.iter().map(|e| (net.connection(*e).unwrap().from, net.connection(*e).unwrap().to)).collect();
    assert_eq!(ends, vec![(0, 1), (0, 2), (1, 0), (1, 2), (2, 0), (2, 1)]);
}

#[test]
fn connect_groups_one_to_one_pairs_by_index() {
    let mut net = Network::new(2, 2);
    let made = net.connect_groups(&vec![0, 1], &vec![3, 2], ConnectionKind::OneToOne).unwrap();
    assert_eq!(made, vec![0, 1]);
    assert!(net.is_connected(0, 3));
    assert!(net.is_connected(1, 2));
    assert!(!net.is_connected(0, 2));
    assert!(!net.is_connected(1, 3));
}

#[test]
fn connect_groups_one_to_one_needs_equal_lengths() {
    let mut net = Network::new(2, 2);
    assert_eq!(
        net.connect_groups(&vec![0, 1], &vec![2], ConnectionKind::OneToOne),
        Err(NetworkError::SizeMismatch)
    );
    assert_eq!(net.connection_slots(), 0);
    assert!(net.connect_groups(&vec![0, 1], &vec![2], ConnectionKind::AllToAll).is_ok());
}

#[test]
fn connect_groups_stops_at_a_duplicate() {
    let mut net = Network::new(2, 1);
    net.connect(1, 2).unwrap();
    assert_eq!(
        net.connect_groups(&vec![0, 1], &vec![2], ConnectionKind::AllToAll),
        Err(NetworkError::DuplicateConnection)
    );
    assert!(net.is_connected(0, 2));
    assert_eq!(net.connection_slots(), 2);
}

#[test]
fn gate_output_links_both_ways() {
    let mut net = Network::new(1, 1);
    let e = net.connect(0, 1).unwrap();
    assert_eq!(net.gate(0, &vec![e], GatingKind::Output), Ok(()));
    assert_eq!(net.connection(e).unwrap().gater, Some(0));
    assert_eq!(gated(&net, 0), vec![e]);
    assert_eq!(net.ungate(e), Ok(()));
    assert_eq!(net.connection(e).unwrap().gater, None);
    assert_eq!(net.connection(e).unwrap().gain, scalar(1.0));
    assert!(gated(&net, 0).is_empty());
}

#[test]
fn gate_checks_the_relation() {
    let mut net = Network::new(1, 2);
    let e = net.connect(0, 1).unwrap();
    let s = net.connect(2, 2).unwrap();
    assert_eq!(net.gate(1, &vec![e], GatingKind::Output), Err(NetworkError::InvalidGateTarget));
    assert_eq!(net.gate(0, &vec![e], GatingKind::Input), Err(NetworkError::InvalidGateTarget));
    assert_eq!(net.gate(2, &vec![e], GatingKind::Input), Err(NetworkError::InvalidGateTarget));
    assert_eq!(net.gate(0, &vec![e], GatingKind::ToSelf), Err(NetworkError::InvalidGateTarget));
    assert_eq!(net.gate(2, &vec![s], GatingKind::Output), Err(NetworkError::InvalidGateTarget));
    assert_eq!(net.gate(2, &vec![s], GatingKind::Input), Err(NetworkError::InvalidGateTarget));
    assert_eq!(net.connection(e).unwrap().gater, None);
    assert_eq!(net.gate(1, &vec![e], GatingKind::Input), Ok(()));
    assert_eq!(net.gate(2, &vec![s], GatingKind::ToSelf), Ok(()));
    assert_eq!(net.connection(e).unwrap().gater, Some(1));
    assert_eq!(net.connection(s).unwrap().gater, Some(2));
    assert_eq!(gated(&net, 1), vec![e]);
    assert_eq!(gated(&net, 2), vec![s]);
}

#[test]
fn gate_refuses_stale_handles() {
    let mut net = Network::new(1, 1);
    let e = net.connect(0, 1).unwrap();
    assert_eq!(net.gate(5, &vec![e], GatingKind::Output), Err(NetworkError::DanglingReference));
    assert_eq!(net.gate(0, &vec![9], GatingKind::Output), Err(NetworkError::DanglingReference));
    assert_eq!(net.ungate(9), Err(NetworkError::DanglingReference));
}

#[test]
fn gate_moves_an_edge_to_its_new_gater() {
    let mut net = Network::new(1, 1);
    let e = net.connect(0, 1).unwrap();
    net.gate(0, &vec![e], GatingKind::Output).unwrap();
    net.gate(1, &vec![e], GatingKind::Input).unwrap();
    assert_eq!(net.connection(e).unwrap().gater, Some(1));
    assert!(gated(&net, 0).is_empty());
    assert_eq!(gated(&net, 1), vec![e]);
}

#[test]
fn gate_stops_at_the_first_refusal() {
    let mut net = Network::new(1, 2);
    let a = net.connect(0, 1).unwrap();
    let b = net.connect(0, 2).unwrap();
    let c = net.connect(1, 2).unwrap();
    assert_eq!(net.gate(0, &vec![a, c, b], GatingKind::Output), Err(NetworkError::InvalidGateTarget));
    assert_eq!(gated(&net, 0), vec![a]);
    assert_eq!(net.connection(b).unwrap().gater, None);
    assert_eq!(net.gate(0, &vec![a, b], GatingKind::Output), Ok(()));
    assert_eq!(gated(&net, 0), vec![a, b]);
}

#[test]
fn ungate_without_gater_is_a_no_op() {
    let mut net = Network::new(1, 1);
    let e = net.connect(0, 1).unwrap();
    assert_eq!(net.ungate(e), Ok(()));
    assert_eq!(net.connection(e).unwrap().gater, None);
}
