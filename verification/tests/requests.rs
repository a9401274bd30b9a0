use gossip_glomers::error::NodeError;
use gossip_glomers::message::{clone_ids, others, same_ids, Body, Message, Request, Response};
use gossip_glomers::node::Node;
use gossip_glomers::topology::Topology;
use std::collections::HashSet;

fn ids(names: &[&str]) -> Vec<String> {
    names.iter().map(|name| name.to_string()).collect()
}

fn started_node(node_id: &str, node_ids: &[&str]) -> Node {
    let mut node = Node::new();
    let init = Request::Init { node_id: node_id.to_string(), node_ids: ids(node_ids) };
    node.response(init, &"c0".to_string()).unwrap();
    node
}

fn topology(entries: &[(&str, &[&str])]) -> Topology {
    let mut topology = Topology::new();
    for (node, neighbors) in entries {
        topology.insert(node.to_string(), ids(neighbors));
    }
    topology
}

fn set(values: &[usize]) -> HashSet<usize> {
    values.iter().copied().collect()
}

#[test]
fn echo_comes_back_unchanged() {
    let mut node = started_node("n1", &["n1"]);
    let request = Request::Echo { echo: "Please echo 35".to_string() };
    let effects = node.handle_request(request, "c1".to_string(), 7).unwrap();
    assert_eq!(
        effects.reply,
        Some(Message {
            source: "n1".to_string(),
            destination: "c1".to_string(),
            body: Body::Response {
                response: Response::Echo { echo: "Please echo 35".to_string() },
                id: 0,
                request_id: 7,
            },
        })
    );
    assert!(effects.started.is_empty());
    assert_eq!(effects.stopped, None);
}

#[test]
fn echo_needs_no_handshake_to_react() {
    let mut node = Node::new();
    let reaction = node.response(Request::Echo { echo: "x".to_string() }, &"c1".to_string());
    assert_eq!(reaction, Ok((Response::Echo { echo: "x".to_string() }, vec![])));
}

#[test]
fn generate_starts_at_zero_and_steps_by_three() {
    let mut node = started_node("n1", &["n1", "n2", "n3"]);
    let source = "c1".to_string();
    let first = node.response(Request::Generate, &source);
    assert_eq!(first, Ok((Response::Generate { id: 0 }, vec![])));
    let second = node.response(Request::Generate, &source);
    assert_eq!(second, Ok((Response::Generate { id: 3 }, vec![])));
}

#[test]
fn generate_follows_the_stripe_of_the_index() {
    let mut node = started_node("n3", &["n2", "n4", "n1", "n3"]);
    let source = "c1".to_string();
    for count in 0..10 {
        assert_eq!(
            node.response(Request::Generate, &source),
            Ok((Response::Generate { id: 2 + count * 4 }, vec![]))
        );
    }
}

#[test]
fn generated_ids_are_unique_in_the_cluster() {
    let names = ["n1", "n2", "n3", "n4", "n5"];
    let mut nodes: Vec<Node> = names.iter().map(|name| started_node(name, &names)).collect();
    let source = "c1".to_string();
    let mut seen = HashSet::new();
    for round in 0..40 {
        for (index, node) in nodes.iter_mut().enumerate() {
            if (round + index) % 3 == 0 {
                continue;
            }
            match node.response(Request::Generate, &source).unwrap().0 {
                Response::Generate { id } => assert!(seen.insert(id), "id {} came twice", id),
                other => panic!("unexpected response {:?}", other),
            }
        }
    }
    assert_eq!(seen.len(), 133);
}

#[test]
fn each_reply_takes_a_new_message_id() {
    let mut node = started_node("n1", &["n1"]);
    for expected in 0..5 {
        let effects = node.handle_request(Request::Generate, "c1".to_string(), 100).unwrap();
        match effects.reply.unwrap().body {
            Body::Response { id, request_id, response } => {
                assert_eq!(id, expected);
                assert_eq!(request_id, 100);
                assert_eq!(response, Response::Generate { id: expected });
            }
            Body::Request { .. } => panic!("the reply should be a response"),
        }
    }
    assert_eq!(node.next_message_id(), Ok(5));
    assert_eq!(node.next_message_id(), Ok(6));
}

#[test]
fn topology_sets_the_neighbors() {
    let mut node = started_node("n2", &["n1", "n2", "n3"]);
    let request = Request::Topology {
        topology: topology(&[("n1", &["n2"]), ("n2", &["n1", "n3"]), ("n3", &["n2"])]),
    };
    assert_eq!(node.response(request, &"c1".to_string()), Ok((Response::Topology, vec![])));
    assert_eq!(node.neighbors(), Ok(&ids(&["n1", "n3"])));
}

#[test]
fn topology_without_the_node_is_refused() {
    let mut node = started_node("n2", &["n1", "n2", "n3"]);
    let request = Request::Topology { topology: topology(&[("n1", &["n3"]), ("n3", &["n1"])]) };
    assert_eq!(node.response(request, &"c1".to_string()), Err(NodeError::NodeIdNotInTopology));
    assert_eq!(node.neighbors(), Err(NodeError::TopologyNotReceived));
    let empty = Request::Topology { topology: Topology::new() };
    assert_eq!(node.response(empty, &"c1".to_string()), Err(NodeError::NodeIdNotInTopology));
}

#[test]
fn second_topology_changes_nothing() {
    let mut node = started_node("n1", &["n1", "n2", "n3"]);
    let source = "c1".to_string();
    let first = Request::Topology { topology: topology(&[("n1", &["n2"])]) };
    node.response(first, &source).unwrap();
    let second = Request::Topology { topology: topology(&[("n1", &["n3"])]) };
    assert_eq!(node.response(second, &source), Ok((Response::Topology, vec![])));
    assert_eq!(node.neighbors(), Ok(&ids(&["n2"])));
    let without = Request::Topology { topology: topology(&[("n2", &["n3"])]) };
    assert_eq!(node.response(without, &source), Err(NodeError::NodeIdNotInTopology));
    assert_eq!(node.neighbors(), Ok(&ids(&["n2"])));
}

#[test]
fn topology_lists_no_node_twice() {
    let mut entries = Topology::new();
    assert_eq!(entries.len(), 0);
    assert_eq!(entries.insert("n2".to_string(), ids(&["n9"])), None);
    assert_eq!(entries.insert("n1".to_string(), ids(&["n2"])), None);
    assert_eq!(entries.insert("n1".to_string(), ids(&["n3"])), Some(ids(&["n2"])));
    assert_eq!(entries.len(), 2);
    assert_eq!(entries.get(&"n1".to_string()), Some(&ids(&["n3"])));
    assert_eq!(entries.get(&"n2".to_string()), Some(&ids(&["n9"])));
    assert_eq!(entries.get(&"n3".to_string()), None);
    assert_eq!(entries.entries().len(), 2);

    let copy = entries.clone();
    assert_eq!(entries.remove(&"n2".to_string()), Some(ids(&["n9"])));
    assert_eq!(entries.remove(&"n2".to_string()), None);
    assert_eq!(entries.len(), 1);
    assert_eq!(copy.len(), 2);
    assert_eq!(copy.get(&"n2".to_string()), Some(&ids(&["n9"])));

    let mut node = started_node("n1", &["n1", "n2", "n3"]);
    node.response(Request::Topology { topology: entries }, &"c1".to_string()).unwrap();
    assert_eq!(node.neighbors(), Ok(&ids(&["n3"])));
}

#[test]
fn others_leaves_the_source_out() {
    let all = ids(&["n1", "n2", "n3", "n2"]);
    assert_eq!(others(&all, &"n2".to_string()), ids(&["n1", "n3"]));
    assert_eq!(others(&all, &"c1".to_string()), all);
    assert_eq!(others(&ids(&["n2"]), &"n2".to_string()), Vec::<String>::new());
    assert_eq!(others(&Vec::new(), &"n2".to_string()), Vec::<String>::new());
}

#[test]
fn read_gives_a_snapshot() {
    let mut node = started_node("n1", &["n1"]);
    let source = "c1".to_string();
    node.response(Request::Topology { topology: topology(&[("n1", &[])]) }, &source).unwrap();
    assert_eq!(
        node.response(Request::Read, &source),
        Ok((Response::Read { messages: set(&[]) }, vec![]))
    );
    node.response(Request::Broadcast { message: 5 }, &source).unwrap();
    node.response(Request::Broadcast { message: 9 }, &source).unwrap();
    let first = node.response(Request::Read, &source).unwrap().0;
    node.response(Request::Broadcast { message: 11 }, &source).unwrap();
    assert_eq!(first, Response::Read { messages: set(&[5, 9]) });
    assert_eq!(
        node.response(Request::Read, &source),
        Ok((Response::Read { messages: set(&[5, 9, 11]) }, vec![]))
    );
    assert_eq!(node.broadcast_messages_received(), &set(&[5, 9, 11]));
}

#[test]
fn copies_equal_what_they_copy() {
    let names = ids(&["n3", "n1"]);
    assert_eq!(clone_ids(&names), names);
    let entries = topology(&[("n1", &["n2", "n3"]), ("n2", &[])]);
    assert_eq!(entries.clone(), entries);

    let requests = vec![
        Request::Init { node_id: "n1".to_string(), node_ids: names },
        Request::Echo { echo: "hello".to_string() },
        Request::Generate,
        Request::Broadcast { message: 4 },
        Request::Read,
        Request::Topology { topology: entries },
    ];
    for request in &requests {
        assert_eq!(&request.clone(), request);
    }
    let responses = vec![
        Response::Init,
        Response::Echo { echo: "hello".to_string() },
        Response::Generate { id: 8 },
        Response::Broadcast,
        Response::Read { messages: set(&[1, 2, 3]) },
        Response::Topology,
    ];
    for response in responses {
        let message = Message {
            source: "n1".to_string(),
            destination: "c1".to_string(),
            body: Body::Response { response, id: 3, request_id: 2 },
        };
        assert_eq!(message.clone(), message);
    }
    let message = Message {
        source: "n1".to_string(),
        destination: "n2".to_string(),
        body: Body::Request { request: Request::Broadcast { message: 4 }, id: 3 },
    };
    assert_eq!(message.clone(), message);
}

#[test]
fn topologies_are_equal_whatever_the_order_of_their_entries() {
    let one = topology(&[("n1", &["n2", "n3"]), ("n2", &["n1"]), ("n3", &[])]);
    let other = topology(&[("n3", &[]), ("n1", &["n2", "n3"]), ("n2", &["n1"])]);
    assert_eq!(one, other);
    assert_ne!(one, topology(&[("n1", &["n2", "n3"]), ("n2", &["n1"])]));
    assert_ne!(one, topology(&[("n1", &["n3", "n2"]), ("n2", &["n1"]), ("n3", &[])]));
    assert_ne!(one, topology(&[("n1", &["n2", "n3"]), ("n2", &["n1"]), ("n4", &[])]));
    assert_eq!(Topology::new(), topology(&[]));
}

#[test]
fn lists_are_compared_entry_by_entry() {
    assert!(same_ids(&ids(&["n1", "n2"]), &ids(&["n1", "n2"])));
    assert!(!same_ids(&ids(&["n1", "n2"]), &ids(&["n2", "n1"])));
    assert!(!same_ids(&ids(&["n1", "n2"]), &ids(&["n1"])));
    assert!(same_ids(&Vec::new(), &Vec::new()));
}
