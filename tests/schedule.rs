use rust_rl::activation::ActivationFunctionEnum;
use rust_rl::network::{FetchDirection, FlexibleNetwork};
use rust_rl::node::NodeFetchQueueItem;

fn item(from_id: usize, to_id: usize, to_index: usize) -> NodeFetchQueueItem {
    NodeFetchQueueItem { from_id, to_id, to_index }
}

fn chain() -> FlexibleNetwork {
    let mut net = FlexibleNetwork::new();
    let i = net.new_node(ActivationFunctionEnum::DoNothing);
    let h = net.new_node(ActivationFunctionEnum::Tanh);
    let o = net.new_node(ActivationFunctionEnum::DoNothing);
    net.connect(i, h);
    net.connect(h, o);
    net.set_input_id(vec![i]);
    net.set_output_id(vec![o]);
    net
}

#[test]
fn value_pass_on_a_chain() {
    let s = chain().fetch_schedule(FetchDirection::Value);
    assert_eq!(s.ready, vec![item(0, 1, 0)]);
    assert_eq!(s.deferred, vec![item(1, 2, 0)]);
}

#[test]
fn partial_pass_on_a_chain() {
    let s = chain().fetch_schedule(FetchDirection::Partial);
    assert_eq!(s.ready, vec![item(2, 1, 0)]);
    assert_eq!(s.deferred, vec![item(1, 0, 0)]);
}

#[test]
fn direct_source_to_output() {
    let mut net = FlexibleNetwork::new();
    let i = net.new_node(ActivationFunctionEnum::DoNothing);
    let o = net.new_node(ActivationFunctionEnum::DoNothing);
    net.connect(i, o);
    net.set_input_id(vec![i]);
    net.set_output_id(vec![o]);
    let s = net.fetch_schedule(FetchDirection::Value);
    assert_eq!(s.ready, vec![item(i, o, 0)]);
    assert!(s.deferred.is_empty());
    let p = net.fetch_schedule(FetchDirection::Partial);
    assert_eq!(p.ready, vec![item(o, i, 0)]);
    assert!(p.deferred.is_empty());
}

#[test]
fn self_loop_is_answered_at_once() {
    let mut net = FlexibleNetwork::new();
    let i = net.new_node(ActivationFunctionEnum::DoNothing);
    let o = net.new_node(ActivationFunctionEnum::DoNothing);
    net.connect(i, o);
    net.connect(o, o);
    net.set_input_id(vec![i]);
    net.set_output_id(vec![o]);
    let s = net.fetch_schedule(FetchDirection::Value);
    assert_eq!(s.ready, vec![item(i, o, 0), item(o, o, 1)]);
    assert!(s.deferred.is_empty());
    let p = net.fetch_schedule(FetchDirection::Partial);
    assert_eq!(p.ready, vec![item(o, o, 1)]);
    assert_eq!(p.deferred, vec![item(o, i, 0)]);
}

#[test]
fn cycle_terminates_with_each_node_expanded_once() {
    let mut net = FlexibleNetwork::new();
    let i = net.new_node(ActivationFunctionEnum::DoNothing);
    let a = net.new_node(ActivationFunctionEnum::DoNothing);
    let b = net.new_node(ActivationFunctionEnum::DoNothing);
    let o = net.new_node(ActivationFunctionEnum::DoNothing);
    net.connect(i, a);
    net.connect(b, a);
    net.connect(a, b);
    net.connect(b, o);
    net.set_input_id(vec![i]);
    net.set_output_id(vec![o]);
    let s = net.fetch_schedule(FetchDirection::Value);
    assert_eq!(s.ready, vec![item(i, a, 0)]);
    assert_eq!(s.deferred, vec![item(b, o, 0), item(a, b, 0), item(b, a, 1)]);
    let p = net.fetch_schedule(FetchDirection::Partial);
    assert_eq!(p.ready, vec![item(o, b, 0)]);
    assert_eq!(p.deferred, vec![item(a, i, 0), item(b, a, 0), item(a, b, 1)]);
}

#[test]
fn shared_source_is_expanded_once() {
    let mut net = FlexibleNetwork::new();
    let input_layer = net.new_layer(1, ActivationFunctionEnum::DoNothing);
    let hidden_layer = net.new_layer(1, ActivationFunctionEnum::DoNothing);
    let output_layer = net.new_layer(2, ActivationFunctionEnum::DoNothing);
    net.connect_layer(input_layer, hidden_layer);
    net.connect_layer(hidden_layer, output_layer);
    net.set_input_layer(input_layer);
    net.set_output_layer(output_layer);
    let s = net.fetch_schedule(FetchDirection::Value);
    assert_eq!(s.deferred, vec![item(1, 2, 0), item(1, 3, 0)]);
    assert_eq!(s.ready, vec![item(0, 1, 0)]);
}

#[test]
fn no_outputs_means_nothing_to_fetch() {
    let mut net = FlexibleNetwork::new();
    net.new_layer(3, ActivationFunctionEnum::DoNothing);
    let s = net.fetch_schedule(FetchDirection::Value);
    assert!(s.ready.is_empty());
    assert!(s.deferred.is_empty());
}

#[test]
fn deferred_sources_have_all_their_requests_answered() {
    let mut net = FlexibleNetwork::new();
    let input_layer = net.new_layer(2, ActivationFunctionEnum::DoNothing);
    let hidden_layer = net.new_layer(3, ActivationFunctionEnum::Tanh);
    let output_layer = net.new_layer(2, ActivationFunctionEnum::DoNothing);
    net.connect_layer(input_layer, hidden_layer);
    net.connect_layer(hidden_layer, hidden_layer);
    net.connect_layer(hidden_layer, output_layer);
    net.connect(6, 6);
    net.set_input_layer(input_layer);
    net.set_output_layer(output_layer);
    for dir in [FetchDirection::Value, FetchDirection::Partial] {
        let s = net.fetch_schedule(dir);
        let answered = |x: &NodeFetchQueueItem| s.ready.contains(x) || s.deferred.contains(x);
        for x in &s.deferred {
            let node = net.get_node(x.from_id);
            let requests = match dir {
                FetchDirection::Value => node.fetch_value(),
                FetchDirection::Partial => node.fetch_partial(),
            };
            assert!(!requests.is_empty());
            assert_ne!(x.from_id, x.to_id);
            for r in &requests {
                assert!(answered(r));
            }
        }
        for x in &s.ready {
            assert!(x.from_id == x.to_id || match dir {
                FetchDirection::Value => net.get_node(x.from_id).input_count() == 0,
                FetchDirection::Partial => net.get_node(x.from_id).output_count() == 0,
            });
        }
        let total = s.ready.len() + s.deferred.len();
        assert!(total <= 2 * 3 + 7 * 5);
    }
    let s = net.fetch_schedule(FetchDirection::Value);
    assert_eq!(s.ready.len(), 1 + 3 * 3);
    assert_eq!(s.deferred.len(), 6 + 3 * 2);
}
