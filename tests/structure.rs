use rust_rl::activation::ActivationFunctionEnum;
use rust_rl::network::FlexibleNetwork;
use rust_rl::node::{Node, NodeFetchQueueItem};
use rust_rl::segment::SegmentTypes;

fn item(from_id: usize, to_id: usize, to_index: usize) -> NodeFetchQueueItem {
    NodeFetchQueueItem { from_id, to_id, to_index }
}

#[test]
fn node_slots_and_requests() {
    let mut node = Node::new(3);
    assert_eq!(node.get_id(), 3);
    assert_eq!(node.get_activation(), ActivationFunctionEnum::DoNothing);
    assert_eq!(node.new_input_source(7), 0);
    assert_eq!(node.new_input_source(5), 1);
    assert_eq!(node.input_ids(), &vec![7, 5]);
    assert_eq!(node.fetch_value(), vec![item(7, 3, 0), item(5, 3, 1)]);
    node.new_output_target(9, 4);
    assert_eq!(node.output_count(), 1);
    assert_eq!(node.fetch_partial(), vec![item(9, 3, 4)]);
}

#[test]
fn connect_returns_consecutive_slots() {
    let mut net = FlexibleNetwork::new();
    assert_eq!(net.get_type(), SegmentTypes::FlexibleNetwork);
    let a = net.new_node(ActivationFunctionEnum::DoNothing);
    let b = net.new_node(ActivationFunctionEnum::Sigmoid);
    assert_eq!((a, b), (0, 1));
    assert_eq!(net.connect(a, b), 0);
    assert_eq!(net.connect(b, b), 1);
    assert_eq!(net.get_node(b).input_ids(), &vec![a, b]);
    assert_eq!(net.get_node(b).get_activation(), ActivationFunctionEnum::Sigmoid);
    assert_eq!(net.get_node(a).fetch_partial(), vec![item(b, a, 0)]);
    assert_eq!(net.get_node(b).fetch_partial(), vec![item(b, b, 1)]);
}

#[test]
fn connect_layer_wires_every_pair() {
    let mut net = FlexibleNetwork::new();
    let from = net.new_layer(2, ActivationFunctionEnum::DoNothing);
    let to = net.new_layer(3, ActivationFunctionEnum::ReLU);
    assert_eq!((from, to), (0, 2));
    net.connect_layer(from, to);
    let mut edges = 0;
    for t in 0..5 {
        edges += net.get_node(t).input_count();
    }
    assert_eq!(edges, 2 * 3);
    for t in 2..5 {
        assert_eq!(net.get_node(t).input_ids(), &vec![0, 1]);
    }
    for f in 0..2 {
        assert_eq!(net.get_node(f).input_count(), 0);
        assert_eq!(net.get_node(f).output_count(), 3);
    }
}

#[test]
fn layers_designate_inputs_and_outputs() {
    let mut net = FlexibleNetwork::new();
    let input_layer = net.new_layer(2, ActivationFunctionEnum::DoNothing);
    let hidden_layer = net.new_layer(5, ActivationFunctionEnum::DoNothing);
    let output_layer = net.new_layer(1, ActivationFunctionEnum::ReLU);
    assert_eq!(net.get_layer_length(hidden_layer), Some(5));
    assert_eq!(net.get_layer_length(1), None);
    net.set_input_layer(input_layer);
    net.set_output_layer(output_layer);
    assert_eq!(net.get_input_ids(), &vec![0, 1]);
    assert_eq!(net.get_output_ids(), &vec![7]);
    net.set_output_id(vec![3]);
    assert_eq!(net.get_output_ids(), &vec![7, 3]);
}

#[test]
fn empty_layer_is_replaced_by_a_later_one_at_the_same_id() {
    let mut net = FlexibleNetwork::new();
    let empty = net.new_layer(0, ActivationFunctionEnum::DoNothing);
    let full = net.new_layer(4, ActivationFunctionEnum::DoNothing);
    assert_eq!(empty, full);
    assert_eq!(net.get_layer_length(0), Some(4));
    assert_eq!(net.get_layer_entries(), &vec![(0, 0), (0, 4)]);
}

#[test]
fn set_input_id_appends() {
    let mut net = FlexibleNetwork::new();
    net.new_layer(3, ActivationFunctionEnum::DoNothing);
    net.set_input_id(vec![2]);
    net.set_input_id(vec![0, 1]);
    assert_eq!(net.get_input_ids(), &vec![2, 0, 1]);
    assert_eq!(net.get_node_count(), 3);
}
