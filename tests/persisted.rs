use rust_rl::activation::ActivationFunctionEnum;
use rust_rl::data::{FlexibleNetworkData, NetworkDataError, NodeData};
use rust_rl::network::{FetchDirection, FlexibleNetwork};

fn looped_network() -> FlexibleNetwork {
    let mut net = FlexibleNetwork::new();
    let input_layer = net.new_layer(2, ActivationFunctionEnum::DoNothing);
    let hidden_layer = net.new_layer(2, ActivationFunctionEnum::Tanh);
    let output_layer = net.new_layer(1, ActivationFunctionEnum::Sigmoid);
    net.connect_layer(input_layer, hidden_layer);
    net.connect_layer(hidden_layer, output_layer);
    net.connect(3, 2);
    net.connect(4, 4);
    net.set_input_layer(input_layer);
    net.set_output_layer(output_layer);
    net
}

#[test]
fn export_records_the_structure() {
    let data = looped_network().export_data();
    assert_eq!(data.ns.len(), 5);
    assert_eq!(data.ns[2].id, 2);
    assert_eq!(data.ns[2].i_id, vec![0, 1, 3]);
    assert_eq!(data.ns[2].a_fn, ActivationFunctionEnum::Tanh);
    assert_eq!(data.ns[4].i_id, vec![2, 3, 4]);
    assert_eq!(data.i_id, vec![0, 1]);
    assert_eq!(data.o_id, vec![4]);
    assert_eq!(data.l_len, vec![(0, 2), (2, 2), (4, 1)]);
}

#[test]
fn import_of_export_gives_the_same_structure() {
    let first = looped_network();
    let data = first.export_data();
    let mut copy = FlexibleNetwork::new();
    assert_eq!(copy.import_data(&data), Ok(()));
    assert_eq!(copy.get_node_count(), first.get_node_count());
    for id in 0..first.get_node_count() {
        assert_eq!(copy.get_node(id).input_ids(), first.get_node(id).input_ids());
        assert_eq!(copy.get_node(id).get_activation(), first.get_node(id).get_activation());
        assert_eq!(copy.get_node(id).output_count(), first.get_node(id).output_count());
    }
    assert_eq!(copy.get_input_ids(), first.get_input_ids());
    assert_eq!(copy.get_output_ids(), first.get_output_ids());
    assert_eq!(copy.get_layer_entries(), first.get_layer_entries());
    let a = first.fetch_schedule(FetchDirection::Value);
    let b = copy.fetch_schedule(FetchDirection::Value);
    assert_eq!(a.ready, b.ready);
    assert_eq!(a.deferred, b.deferred);
}

#[test]
fn empty_data_imports_as_empty_network() {
    let mut net = looped_network();
    assert_eq!(net.import_data(&FlexibleNetworkData::new()), Ok(()));
    assert_eq!(net.get_node_count(), 0);
    assert!(net.get_input_ids().is_empty());
}

#[test]
fn import_rejects_misplaced_node_id() {
    let mut data = looped_network().export_data();
    data.ns[1].id = 3;
    let mut net = FlexibleNetwork::new();
    net.new_node(ActivationFunctionEnum::ReLU);
    assert_eq!(net.import_data(&data), Err(NetworkDataError::BadNode));
    assert_eq!(net.get_node_count(), 1);
}

#[test]
fn import_rejects_edge_from_missing_node() {
    let mut data = looped_network().export_data();
    data.ns.push(NodeData { id: 5, i_id: vec![6], a_fn: ActivationFunctionEnum::DoNothing });
    let mut net = FlexibleNetwork::new();
    assert_eq!(net.import_data(&data), Err(NetworkDataError::BadNode));
    assert_eq!(net.get_node_count(), 0);
}

#[test]
fn import_rejects_missing_output() {
    let mut data = looped_network().export_data();
    data.o_id = vec![5];
    let mut net = FlexibleNetwork::new();
    assert_eq!(net.import_data(&data), Err(NetworkDataError::BadDesignation));
}

#[test]
fn import_rejects_layer_past_the_end() {
    let mut data = looped_network().export_data();
    data.l_len.push((4, 2));
    let mut net = FlexibleNetwork::new();
    assert_eq!(net.import_data(&data), Err(NetworkDataError::BadDesignation));
    data.l_len.pop();
    data.l_len.push((usize::MAX, 2));
    assert_eq!(net.import_data(&data), Err(NetworkDataError::BadDesignation));
    data.l_len.pop();
    data.l_len.push((5, 0));
    assert_eq!(net.import_data(&data), Ok(()));
    assert_eq!(net.get_layer_length(5), Some(0));
}
