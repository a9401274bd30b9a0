use gossip_glomers::error::NodeError;
use gossip_glomers::message::{Body, Message, Request, Response};
use gossip_glomers::node::Node;
use gossip_glomers::topology::Topology;
use std::collections::HashSet;

fn ids(names: &[&str]) -> Vec<String> {
    names.iter().map(|name| name.to_string()).collect()
}

fn topology_of(node_id: &str, neighbors: &[&str]) -> Topology {
    let mut topology = Topology::new();
    topology.insert(node_id.to_string(), ids(neighbors));
    topology
}

fn node_with_neighbors(node_id: &str, node_ids: &[&str], neighbors: &[&str]) -> Node {
    let mut node = Node::new();
    let source = "c0".to_string();
    let init = Request::Init { node_id: node_id.to_string(), node_ids: ids(node_ids) };
    node.response(init, &source).unwrap();
    let topology = Request::Topology { topology: topology_of(node_id, neighbors) };
    node.response(topology, &source).unwrap();
    node
}

fn broadcast_to(source: &str, destination: &str, message: usize, id: usize) -> Message {
    Message {
        source: source.to_string(),
        destination: destination.to_string(),
        body: Body::Request { request: Request::Broadcast { message }, id },
    }
}

fn acknowledgment(source: &str, destination: &str, id: usize, request_id: usize) -> Message {
    Message {
        source: source.to_string(),
        destination: destination.to_string(),
        body: Body::Response { response: Response::Broadcast, id, request_id },
    }
}

fn read(node: &mut Node) -> HashSet<usize> {
    match node.response(Request::Read, &"c0".to_string()).unwrap().0 {
        Response::Read { messages } => messages,
        other => panic!("unexpected response {:?}", other),
    }
}

fn set(values: &[usize]) -> HashSet<usize> {
    values.iter().copied().collect()
}

#[test]
fn value_from_the_only_neighbor_is_stored_and_not_sent_back() {
    let mut node = Node::new();
    let client = "c1".to_string();
    let init = Request::Init { node_id: "n1".to_string(), node_ids: ids(&["n1", "n2", "n3"]) };
    node.response(init, &client).unwrap();
    let topology = Request::Topology { topology: topology_of("n1", &["n2"]) };
    node.response(topology, &client).unwrap();

    let effects = node.handle_message(broadcast_to("n2", "n1", 42, 5)).unwrap();
    assert_eq!(effects.reply, Some(acknowledgment("n1", "n2", 0, 5)));
    assert!(effects.started.is_empty());
    assert_eq!(effects.stopped, None);
    assert!(node.retransmission(1).is_none());
    assert_eq!(read(&mut node), set(&[42]));
}

#[test]
fn new_value_goes_to_every_neighbor_but_the_source() {
    let mut node = node_with_neighbors("n1", &["n1", "n2", "n3", "n4"], &["n2", "n3", "n4"]);
    let effects = node.handle_message(broadcast_to("n3", "n1", 7, 12)).unwrap();
    assert_eq!(effects.reply, Some(acknowledgment("n1", "n3", 0, 12)));
    assert_eq!(effects.started, vec![1, 2]);
    assert_eq!(node.retransmission(1), Some(&broadcast_to("n1", "n2", 7, 1)));
    assert_eq!(node.retransmission(2), Some(&broadcast_to("n1", "n4", 7, 2)));
    assert_eq!(node.retransmission(0), None);
    assert_eq!(node.retransmission(3), None);
}

#[test]
fn value_from_a_client_goes_to_every_neighbor() {
    let mut node = node_with_neighbors("n2", &["n1", "n2", "n3"], &["n3", "n1"]);
    let effects = node.handle_message(broadcast_to("c4", "n2", 1000, 1)).unwrap();
    assert_eq!(effects.reply, Some(acknowledgment("n2", "c4", 0, 1)));
    assert_eq!(effects.started, vec![1, 2]);
    assert_eq!(node.retransmission(1), Some(&broadcast_to("n2", "n3", 1000, 1)));
    assert_eq!(node.retransmission(2), Some(&broadcast_to("n2", "n1", 1000, 2)));
}

#[test]
fn repeated_value_is_acknowledged_and_changes_nothing() {
    let mut node = node_with_neighbors("n1", &["n1", "n2", "n3"], &["n2", "n3"]);
    let first = node.handle_message(broadcast_to("c1", "n1", 8, 1)).unwrap();
    assert_eq!(first.started, vec![1, 2]);
    for (count, source) in ["c1", "n2", "n3", "c1", "c9"].iter().enumerate() {
        let effects = node.handle_message(broadcast_to(source, "n1", 8, 1)).unwrap();
        assert_eq!(effects.reply, Some(acknowledgment("n1", source, 3 + count, 1)));
        assert!(effects.started.is_empty());
        assert_eq!(read(&mut node), set(&[8]));
    }
    assert_eq!(node.retransmission(1), Some(&broadcast_to("n1", "n2", 8, 1)));
    assert_eq!(node.retransmission(2), Some(&broadcast_to("n1", "n3", 8, 2)));
    assert_eq!(node.broadcast_messages_received().len(), 1);
}

#[test]
fn read_does_not_depend_on_the_number_of_repetitions() {
    let mut once = node_with_neighbors("n1", &["n1", "n2"], &["n2"]);
    let mut often = node_with_neighbors("n1", &["n1", "n2"], &["n2"]);
    let source = "c1".to_string();
    once.response(Request::Broadcast { message: 3 }, &source).unwrap();
    for _ in 0..17 {
        often.response(Request::Broadcast { message: 3 }, &source).unwrap();
    }
    assert_eq!(read(&mut once), set(&[3]));
    assert_eq!(read(&mut often), set(&[3]));
}

#[test]
fn new_value_before_a_topology_is_stored_and_not_sent_on() {
    let mut node = Node::new();
    let init = Request::Init { node_id: "n1".to_string(), node_ids: ids(&["n1", "n2"]) };
    node.handle_request(init, "c1".to_string(), 1).unwrap();

    let effects = node.handle_message(broadcast_to("c1", "n1", 6, 2)).unwrap();
    assert_eq!(effects.reply, Some(acknowledgment("n1", "c1", 1, 2)));
    assert!(effects.started.is_empty());
    assert_eq!(effects.stopped, None);
    assert_eq!(node.neighbors(), Err(NodeError::TopologyNotReceived));
    assert_eq!(read(&mut node), set(&[6]));

    let source = "c1".to_string();
    let topology = Request::Topology { topology: topology_of("n1", &["n2"]) };
    node.response(topology, &source).unwrap();
    assert_eq!(
        node.response(Request::Broadcast { message: 6 }, &source),
        Ok((Response::Broadcast, vec![]))
    );
    assert_eq!(
        node.response(Request::Broadcast { message: 7 }, &source),
        Ok((Response::Broadcast, vec![2]))
    );
    assert_eq!(read(&mut node), set(&[6, 7]));
}

#[test]
fn acknowledgment_stops_the_request() {
    let mut node = node_with_neighbors("n1", &["n1", "n2", "n3"], &["n2", "n3"]);
    node.handle_message(broadcast_to("c1", "n1", 8, 1)).unwrap();

    let effects = node.handle_message(acknowledgment("n2", "n1", 0, 1)).unwrap();
    assert_eq!(effects.reply, None);
    assert!(effects.started.is_empty());
    assert_eq!(effects.stopped, Some(1));
    assert_eq!(node.retransmission(1), None);
    assert_eq!(node.retransmission(2), Some(&broadcast_to("n1", "n3", 8, 2)));
}

#[test]
fn unacknowledged_request_is_sent_again_unchanged() {
    let mut node = node_with_neighbors("n1", &["n1", "n2", "n3"], &["n2", "n3"]);
    node.handle_message(broadcast_to("c1", "n1", 8, 1)).unwrap();
    let envelope = broadcast_to("n1", "n2", 8, 1);
    for round in 0..20 {
        assert_eq!(node.retransmission(1), Some(&envelope));
        node.handle_message(broadcast_to("c1", "n1", 100 + round, 2)).unwrap();
        node.handle_message(acknowledgment("n3", "n1", round, 2)).unwrap();
        node.handle_request(Request::Generate, "c2".to_string(), 3).unwrap();
    }
    assert_eq!(node.retransmission(1), Some(&envelope));

    node.handle_message(acknowledgment("n2", "n1", 0, 1)).unwrap();
    for round in 0..20 {
        assert_eq!(node.retransmission(1), None);
        node.handle_message(broadcast_to("c1", "n1", 200 + round, 2)).unwrap();
    }
    assert_eq!(node.retransmission(1), None);
}

#[test]
fn unmatched_acknowledgment_is_ignored() {
    let mut node = node_with_neighbors("n1", &["n1", "n2"], &["n2"]);
    node.handle_message(broadcast_to("c1", "n1", 8, 1)).unwrap();
    let envelope = broadcast_to("n1", "n2", 8, 1);

    let effects = node.handle_message(acknowledgment("n2", "n1", 0, 77)).unwrap();
    assert_eq!(effects.reply, None);
    assert_eq!(effects.stopped, None);
    assert_eq!(node.retransmission(1), Some(&envelope));

    let first = node.handle_message(acknowledgment("n2", "n1", 1, 1)).unwrap();
    assert_eq!(first.stopped, Some(1));
    let second = node.handle_message(acknowledgment("n2", "n1", 1, 1)).unwrap();
    assert_eq!(second.stopped, None);
    assert_eq!(read(&mut node), set(&[8]));
}

#[test]
fn acknowledgment_before_the_handshake_is_ignored() {
    let mut node = Node::new();
    let effects = node
        .handle_response(&Response::Broadcast, &"n2".to_string(), 4, 9)
        .unwrap();
    assert_eq!(effects.reply, None);
    assert!(effects.started.is_empty());
    assert_eq!(effects.stopped, None);
}

#[test]
fn stopping_hands_back_the_envelope_once() {
    let mut node = node_with_neighbors("n1", &["n1", "n2"], &["n2"]);
    let id = node.send_request(Request::Broadcast { message: 1 }, "n2".to_string()).unwrap();
    assert_eq!(id, 0);
    assert_eq!(node.stop_ongoing_request_if_exists(5), None);
    assert_eq!(node.stop_ongoing_request_if_exists(0), Some(broadcast_to("n1", "n2", 1, 0)));
    assert_eq!(node.stop_ongoing_request_if_exists(0), None);
}

#[test]
fn requests_for_several_destinations_take_consecutive_ids() {
    let mut node = node_with_neighbors("n1", &["n1", "n2", "n3"], &[]);
    assert_eq!(node.next_message_id(), Ok(0));
    let request = Request::Echo { echo: "ping".to_string() };
    let started = node
        .send_request_multiple_destinations(&request, &ids(&["n3", "n2", "n3"]))
        .unwrap();
    assert_eq!(started, vec![1, 2, 3]);
    for (id, destination) in [(1, "n3"), (2, "n2"), (3, "n3")] {
        assert_eq!(
            node.retransmission(id),
            Some(&Message {
                source: "n1".to_string(),
                destination: destination.to_string(),
                body: Body::Request { request: request.clone(), id },
            })
        );
    }
    assert_eq!(node.send_request_multiple_destinations(&request, &Vec::new()), Ok(vec![]));
    assert_eq!(node.next_message_id(), Ok(4));
}

#[test]
fn no_destination_needs_no_handshake() {
    let mut node = Node::new();
    assert_eq!(node.send_request_multiple_destinations(&Request::Read, &Vec::new()), Ok(vec![]));
    assert_eq!(
        node.send_request_multiple_destinations(&Request::Read, &ids(&["n2"])),
        Err(NodeError::NotInitialized)
    );
    assert_eq!(node.next_message_id(), Ok(0));
}
