use gossip_glomers::error::NodeError;
use gossip_glomers::membership::{find_position, sort_membership};
use gossip_glomers::message::{Body, Message, Request, Response};
use gossip_glomers::node::Node;
use gossip_glomers::topology::Topology;

fn ids(names: &[&str]) -> Vec<String> {
    names.iter().map(|name| name.to_string()).collect()
}

fn init(node_id: &str, node_ids: &[&str]) -> Request {
    Request::Init { node_id: node_id.to_string(), node_ids: ids(node_ids) }
}

fn request(source: &str, destination: &str, request: Request, id: usize) -> Message {
    Message {
        source: source.to_string(),
        destination: destination.to_string(),
        body: Body::Request { request, id },
    }
}

#[test]
fn a_new_node_knows_nothing() {
    let node = Node::new();
    assert_eq!(node.id(), Err(NodeError::NotInitialized));
    assert_eq!(node.all_ids(), Err(NodeError::NotInitialized));
    assert_eq!(node.neighbors(), Err(NodeError::TopologyNotReceived));
    assert!(node.broadcast_messages_received().is_empty());
    assert!(node.retransmission(0).is_none());
}

#[test]
fn handshake_stores_identity_and_sorted_membership() {
    let mut node = Node::new();
    let reaction = node.response(init("n2", &["n3", "n1", "n2"]), &"c1".to_string());
    assert_eq!(reaction, Ok((Response::Init, vec![])));
    assert_eq!(node.id(), Ok(&"n2".to_string()));
    assert_eq!(node.all_ids(), Ok(&ids(&["n1", "n2", "n3"])));
}

#[test]
fn handshake_is_answered_with_init_ok() {
    let mut node = Node::new();
    let effects = node
        .handle_message(request("c1", "n1", init("n1", &["n1", "n2", "n3"]), 1))
        .unwrap();
    assert_eq!(
        effects.reply,
        Some(Message {
            source: "n1".to_string(),
            destination: "c1".to_string(),
            body: Body::Response { response: Response::Init, id: 0, request_id: 1 },
        })
    );
    assert!(effects.started.is_empty());
    assert_eq!(effects.stopped, None);
}

#[test]
fn handshake_without_own_id_is_refused() {
    let mut node = Node::new();
    let reaction = node.response(init("n4", &["n1", "n2", "n3"]), &"c1".to_string());
    assert_eq!(reaction, Err(NodeError::NodeIdNotInMembership));
    assert_eq!(node.id(), Err(NodeError::NotInitialized));
    assert_eq!(node.all_ids(), Err(NodeError::NotInitialized));
}

#[test]
fn handshake_with_empty_membership_is_refused() {
    let mut node = Node::new();
    let reaction = node.response(init("n1", &[]), &"c1".to_string());
    assert_eq!(reaction, Err(NodeError::NodeIdNotInMembership));
}

#[test]
fn refused_handshake_takes_no_message_id() {
    let mut node = Node::new();
    let refused = node.handle_message(request("c1", "n1", init("n4", &["n1"]), 1));
    assert_eq!(refused.unwrap_err(), NodeError::NodeIdNotInMembership);
    let effects = node.handle_message(request("c1", "n1", init("n1", &["n1"]), 2)).unwrap();
    match effects.reply.unwrap().body {
        Body::Response { id, request_id, .. } => {
            assert_eq!(id, 0);
            assert_eq!(request_id, 2);
        }
        Body::Request { .. } => panic!("the reply should be a response"),
    }
}

#[test]
fn second_handshake_changes_nothing() {
    let mut node = Node::new();
    let source = "c1".to_string();
    node.response(init("n2", &["n1", "n2", "n3"]), &source).unwrap();
    let first = node.response(Request::Generate, &source);
    assert_eq!(first, Ok((Response::Generate { id: 1 }, vec![])));

    let again = node.response(init("n9", &["n9", "n8"]), &source);
    assert_eq!(again, Ok((Response::Init, vec![])));
    assert_eq!(node.id(), Ok(&"n2".to_string()));
    assert_eq!(node.all_ids(), Ok(&ids(&["n1", "n2", "n3"])));
    let second = node.response(Request::Generate, &source);
    assert_eq!(second, Ok((Response::Generate { id: 4 }, vec![])));
}

#[test]
fn second_handshake_without_own_id_is_refused_and_changes_nothing() {
    let mut node = Node::new();
    let source = "c1".to_string();
    node.response(init("n1", &["n1", "n2"]), &source).unwrap();
    let again = node.response(init("n7", &["n8", "n9"]), &source);
    assert_eq!(again, Err(NodeError::NodeIdNotInMembership));
    assert_eq!(node.id(), Ok(&"n1".to_string()));
    assert_eq!(node.all_ids(), Ok(&ids(&["n1", "n2"])));
}

#[test]
fn requests_before_the_handshake_are_refused() {
    let source = "c1".to_string();
    let mut node = Node::new();
    assert_eq!(node.response(Request::Generate, &source), Err(NodeError::NotInitialized));
    assert_eq!(node.response(Request::Read, &source), Err(NodeError::NotInitialized));
    assert_eq!(
        node.response(Request::Broadcast { message: 1 }, &source),
        Err(NodeError::NotInitialized)
    );
    assert_eq!(
        node.response(Request::Topology { topology: Topology::new() }, &source),
        Err(NodeError::NotInitialized)
    );
    let echo = Request::Echo { echo: "hello".to_string() };
    assert_eq!(
        node.handle_request(echo, source.clone(), 1).unwrap_err(),
        NodeError::NotInitialized
    );
    assert_eq!(
        node.send_request(Request::Read, "n2".to_string()),
        Err(NodeError::NotInitialized)
    );
    assert!(node.broadcast_messages_received().is_empty());
}

#[test]
fn every_node_sorts_the_membership_alike() {
    let orders: [&[&str]; 3] = [&["n3", "n1", "n2"], &["n2", "n3", "n1"], &["n1", "n2", "n3"]];
    let names = ["n1", "n2", "n3"];
    let mut indices = Vec::new();
    for (name, order) in names.iter().zip(orders.iter()) {
        let mut node = Node::new();
        let source = "c1".to_string();
        node.response(init(name, order), &source).unwrap();
        assert_eq!(node.all_ids(), Ok(&ids(&["n1", "n2", "n3"])));
        match node.response(Request::Generate, &source).unwrap().0 {
            Response::Generate { id } => indices.push(id),
            other => panic!("unexpected response {:?}", other),
        }
    }
    assert_eq!(indices, vec![0, 1, 2]);
}

#[test]
fn membership_is_sorted_by_code_points() {
    let mut names = ids(&["n10", "n2", "n1", "", "N1", "é", "z", "n"]);
    sort_membership(&mut names);
    assert_eq!(names, ids(&["", "N1", "n", "n1", "n10", "n2", "z", "é"]));
}

#[test]
fn position_is_the_first_occurrence() {
    let names = ids(&["a", "b", "b", "c"]);
    assert_eq!(find_position(&names, &"a".to_string()), Some(0));
    assert_eq!(find_position(&names, &"b".to_string()), Some(1));
    assert_eq!(find_position(&names, &"c".to_string()), Some(3));
    assert_eq!(find_position(&names, &"d".to_string()), None);
    assert_eq!(find_position(&Vec::new(), &"a".to_string()), None);
}

#[test]
fn errors_have_their_words() {
    assert_eq!(
        NodeError::NotInitialized.message(),
        "initial message with node id should have been received"
    );
    assert_eq!(NodeError::NodeIdNotInMembership.message(), "node id should be in the list of ids");
    assert_eq!(
        NodeError::TopologyNotReceived.message(),
        "topology message with neighbors should have been received"
    );
    assert_eq!(
        NodeError::NodeIdNotInTopology.message(),
        "node id should appear as key in received topology"
    );
    assert_eq!(
        NodeError::GuidsExhausted.message(),
        "next generated id should fit the integer range"
    );
    assert_eq!(
        NodeError::MessageIdsExhausted.message(),
        "next message id should fit the integer range"
    );
}
