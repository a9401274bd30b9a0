//! A cluster of nodes and the network between them, and the proof that
//! broadcast values reach every node.
//!
//! The network may lose, delay, repeat and reorder what the nodes send: all
//! that the model keeps of it is the set of envelopes sent so far, any of
//! which may arrive at any time. Clients send requests of their own. A
//! cluster in which no request is ongoing any more, and in which every node
//! can be reached from every other over the neighbors, has at every node
//! the values that clients have asked to broadcast, and no others. For this
//! each node must have its topology before it sees its first value.

use crate::message::{
    BodyView, BroadcastMessage, MessageId, MessageView, RequestView, ResponseView,
};
use crate::model::{
    acknowledges, forwards, lemma_handle_message_frame, lemma_new_value, outgoing, NodeState,
};
use vstd::prelude::*;

verus! {

/// The nodes of a cluster, by identifier, what they have sent, and the
/// values that clients have asked to broadcast in requests that a node has
/// accepted.
#[verifier::ext_equal]
pub ghost struct Cluster {
    pub nodes: Map<Seq<char>, NodeState>,
    pub sent: Set<MessageView>,
    pub asked: Set<BroadcastMessage>,
}

impl Cluster {
    /// A cluster of the nodes `ids`, none of which has received anything.
    pub open spec fn initial(ids: Set<Seq<char>>) -> Cluster {
        Cluster {
            nodes: Map::new(|id: Seq<char>| ids.contains(id), |id: Seq<char>| NodeState::initial()),
            sent: Set::empty(),
            asked: Set::empty(),
        }
    }

    /// Whether `message` may arrive. It goes to a node of the cluster. If it
    /// bears a node's identifier as its source, that node has sent it;
    /// otherwise it is a client's, and a request. A handshake tells the node
    /// the identifier under which envelopes reach it. A value that is new to
    /// a node arrives there only when the node has its topology.
    pub open spec fn deliverable(self, message: MessageView) -> bool {
        &&& self.nodes.contains_key(message.destination)
        &&& if self.nodes.contains_key(message.source) {
            self.sent.contains(message)
        } else {
            message.body is Request
        }
        &&& message.body matches BodyView::Request {
            request: RequestView::Init { node_id, .. },
            ..
        } ==> node_id == message.destination
        &&& message.body matches BodyView::Request {
            request: RequestView::Broadcast { message: value },
            ..
        } ==> {
            ||| self.nodes[message.destination].handshake is None
            ||| self.nodes[message.destination].received.contains(value)
            ||| self.nodes[message.destination].neighbors is Some
        }
    }

    /// The values that clients have asked to broadcast, once `message` has
    /// been accepted.
    pub open spec fn asked_with(self, message: MessageView) -> Set<BroadcastMessage> {
        match message.body {
            BodyView::Request { request: RequestView::Broadcast { message: value }, .. } => {
                if self.nodes.contains_key(message.source) {
                    self.asked
                } else {
                    self.asked.insert(value)
                }
            },
            _ => self.asked,
        }
    }

    /// The cluster after `message` has arrived at its destination. A
    /// refused message changes nothing.
    pub open spec fn deliver(self, message: MessageView) -> Cluster {
        match self.nodes[message.destination].handle_message(message) {
            Ok((next, effects)) => Cluster {
                nodes: self.nodes.insert(message.destination, next),
                sent: self.sent.union(outgoing(next, effects)),
                asked: self.asked_with(message),
            },
            Err(_) => self,
        }
    }

    /// The cluster after `messages` have arrived, one after the other.
    pub open spec fn deliver_all(self, messages: Seq<MessageView>) -> Cluster
        decreases messages.len(),
    {
        if messages.len() == 0 {
            self
        } else {
            self.deliver_all(messages.drop_last()).deliver(messages.last())
        }
    }

    /// Whether each of `messages` may arrive when its turn comes.
    pub open spec fn deliverable_all(self, messages: Seq<MessageView>) -> bool
        decreases messages.len(),
    {
        messages.len() > 0 ==> {
            &&& self.deliverable_all(messages.drop_last())
            &&& self.deliver_all(messages.drop_last()).deliverable(messages.last())
        }
    }

    /// Whether `node` is a node of the cluster that has seen `value`.
    pub open spec fn holds(self, node: Seq<char>, value: BroadcastMessage) -> bool {
        self.nodes.contains_key(node) && self.nodes[node].received.contains(value)
    }

    /// Whether the value `value`, which `node` has seen, has reached
    /// `neighbor` or is on its way there from `node`.
    pub open spec fn covered(
        self,
        node: Seq<char>,
        value: BroadcastMessage,
        neighbor: Seq<char>,
    ) -> bool {
        ||| self.nodes[neighbor].received.contains(value)
        ||| exists|id: MessageId| #[trigger] forwards(self.nodes[node], node, id, value, neighbor)
    }

    /// Whether a request among the envelopes sent is what its source holds:
    /// a value that the source has seen, under a message id that the source
    /// has taken; and if the request is still ongoing there, under that id,
    /// it is this envelope.
    pub open spec fn request_sent(self, message: MessageView) -> bool {
        message.body matches BodyView::Request { request, id } ==> {
            &&& self.nodes.contains_key(message.source)
            &&& request matches RequestView::Broadcast { message: value }
            &&& self.nodes[message.source].received.contains(value)
            &&& id < self.nodes[message.source].next_message_id
            &&& self.nodes[message.source].ongoing.contains_key(id)
                ==> self.nodes[message.source].ongoing[id] == message
        }
    }

    /// Whether a response among the envelopes sent acknowledges rightly: if
    /// it goes to a node for which the request is still ongoing, the
    /// request went to the response's source, which has seen its value.
    pub open spec fn response_sent(self, message: MessageView) -> bool {
        message.body matches BodyView::Response { request_id, .. } ==> {
            &&& self.nodes.contains_key(message.source)
            &&& self.nodes.contains_key(message.destination) ==> {
                let receiver = self.nodes[message.destination];
                &&& request_id < receiver.next_message_id
                &&& receiver.ongoing.contains_key(request_id) ==> {
                    &&& receiver.ongoing[request_id].destination == message.source
                    &&& receiver.ongoing[request_id].body matches BodyView::Request {
                        request: RequestView::Broadcast { message: value },
                        ..
                    }
                    &&& self.nodes[message.source].received.contains(value)
                }
            }
        }
    }

    /// What holds of a cluster whatever has arrived.
    pub open spec fn inv(self) -> bool {
        &&& forall|node: Seq<char>| #[trigger]
            self.nodes.contains_key(node) ==> {
                &&& self.nodes[node].wf()
                &&& self.nodes[node].handshake matches Some(handshake) ==> handshake.id == node
                &&& self.nodes[node].neighbors is None ==> self.nodes[node].received
                    == Set::<BroadcastMessage>::empty()
                &&& self.nodes[node].received.subset_of(self.asked)
            }
        &&& forall|value: BroadcastMessage| #[trigger]
            self.asked.contains(value) ==> exists|node: Seq<char>| #[trigger]
                self.holds(node, value)
        &&& forall|message: MessageView| #[trigger]
            self.sent.contains(message) ==> self.request_sent(message) && self.response_sent(
                message,
            )
        &&& forall|node: Seq<char>, value: BroadcastMessage, neighbor: Seq<char>|
            {
                &&& self.nodes.contains_key(node)
                &&& self.nodes.contains_key(neighbor)
                &&& self.nodes[node].received.contains(value)
                &&& self.nodes[node].neighbors is Some
                &&& self.nodes[node].neighbors->0.contains(neighbor)
            } ==> #[trigger] self.covered(node, value, neighbor)
    }

    /// Whether no request is ongoing at any node.
    pub open spec fn quiescent(self) -> bool {
        forall|node: Seq<char>, id: MessageId|
            self.nodes.contains_key(node) ==> !#[trigger] self.nodes[node].ongoing.contains_key(id)
    }

    /// Whether `path` leads from node to node, each one a neighbor of the
    /// one before.
    pub open spec fn is_path(self, path: Seq<Seq<char>>) -> bool {
        &&& path.len() > 0
        &&& forall|i: int| 0 <= i < path.len() ==> self.nodes.contains_key(#[trigger] path[i])
        &&& forall|i: int|
            0 <= i < path.len() - 1 ==> {
                &&& (#[trigger] self.nodes[path[i]]).neighbors is Some
                &&& self.nodes[path[i]].neighbors->0.contains(path[i + 1])
            }
    }

    /// Whether a path leads from every node to every other.
    pub open spec fn connected(self) -> bool {
        forall|from: Seq<char>, to: Seq<char>|
            #![trigger self.nodes.contains_key(from), self.nodes.contains_key(to)]
            self.nodes.contains_key(from) && self.nodes.contains_key(to) ==> exists|
                path: Seq<Seq<char>>,
            |
                #[trigger] self.is_path(path) && path.first() == from && path.last() == to
    }
}

/// A cluster that has received nothing is as it should be.
pub proof fn lemma_initial_inv(ids: Set<Seq<char>>)
    ensures
        Cluster::initial(ids).inv(),
{
}

/// An arrival leaves every node well-formed and under its own identifier.
proof fn lemma_deliver_nodes(cluster: Cluster, message: MessageView)
    requires
        cluster.inv(),
        cluster.deliverable(message),
    ensures
        forall|node: Seq<char>| #[trigger]
            cluster.deliver(message).nodes.contains_key(node) ==> {
                &&& cluster.nodes.contains_key(node)
                &&& cluster.deliver(message).nodes[node].wf()
                &&& cluster.deliver(message).nodes[node].handshake matches Some(handshake)
                    ==> handshake.id == node
                &&& cluster.deliver(message).nodes[node].neighbors is None
                    ==> cluster.deliver(message).nodes[node].received
                    == Set::<BroadcastMessage>::empty()
                &&& cluster.deliver(message).nodes[node].received.subset_of(
                    cluster.deliver(message).asked,
                )
            },
        forall|value: BroadcastMessage| #[trigger]
            cluster.deliver(message).asked.contains(value) ==> exists|node: Seq<char>| #[trigger]
                cluster.deliver(message).holds(node, value),
{
    let state = cluster.nodes[message.destination];
    let after = cluster.deliver(message);
    if state.handle_message(message) is Ok {
        lemma_handle_message_frame(state, message);
    }
    assert forall|value: BroadcastMessage| #[trigger] after.asked.contains(value) implies exists|
        node: Seq<char>,
    | #[trigger] after.holds(node, value) by {
        if cluster.asked.contains(value) {
            let node = choose|node: Seq<char>| #[trigger] cluster.holds(node, value);
            assert(after.holds(node, value));
        } else {
            // The value is that of the client's request just accepted.
            assert(after.holds(message.destination, value));
        }
    }
}

/// An arrival leaves the envelopes sent in keeping with their sources.
proof fn lemma_deliver_sent(cluster: Cluster, message: MessageView, sent: MessageView)
    requires
        cluster.inv(),
        cluster.deliverable(message),
        cluster.deliver(message).sent.contains(sent),
    ensures
        cluster.deliver(message).request_sent(sent),
        cluster.deliver(message).response_sent(sent),
{
    let state = cluster.nodes[message.destination];
    if state.handle_message(message) is Ok {
        lemma_handle_message_frame(state, message);
    }
}

/// An arrival leaves every value that a node has seen at each neighbor or
/// on its way there.
proof fn lemma_deliver_covered(
    cluster: Cluster,
    message: MessageView,
    node: Seq<char>,
    value: BroadcastMessage,
    neighbor: Seq<char>,
)
    requires
        cluster.inv(),
        cluster.deliverable(message),
        cluster.deliver(message).nodes.contains_key(node),
        cluster.deliver(message).nodes.contains_key(neighbor),
        cluster.deliver(message).nodes[node].received.contains(value),
        cluster.deliver(message).nodes[node].neighbors is Some,
        cluster.deliver(message).nodes[node].neighbors->0.contains(neighbor),
    ensures
        cluster.deliver(message).covered(node, value, neighbor),
{
    let state = cluster.nodes[message.destination];
    if state.handle_message(message) is Ok {
        let next = state.handle_message(message)->Ok_0.0;
        lemma_handle_message_frame(state, message);
        if node != message.destination || state.received.contains(value) {
            // The node had the value before. If the value was on its way,
            // it still is, unless the message acknowledges it: then the
            // neighbor has seen it.
            assert(cluster.covered(node, value, neighbor));
            if !cluster.nodes[neighbor].received.contains(value) {
                let id = choose|id: MessageId| #[trigger]
                    forwards(cluster.nodes[node], node, id, value, neighbor);
                if node == message.destination && !acknowledges(message, id) {
                    assert(forwards(next, node, id, value, neighbor));
                }
            }
        } else if neighbor != message.source {
            // The node sees the value for the first time and sends it on.
            lemma_new_value(state, message, value, neighbor);
        }
        // Otherwise the value comes from the neighbor, which has seen it.
    }
}

/// An arrival leaves the cluster as it should be.
pub proof fn lemma_deliver_inv(cluster: Cluster, message: MessageView)
    requires
        cluster.inv(),
        cluster.deliverable(message),
    ensures
        cluster.deliver(message).inv(),
{
    let after = cluster.deliver(message);
    lemma_deliver_nodes(cluster, message);
    assert forall|sent: MessageView| #[trigger] after.sent.contains(sent) implies {
        &&& after.request_sent(sent)
        &&& after.response_sent(sent)
    } by {
        lemma_deliver_sent(cluster, message, sent);
    }
    assert forall|node: Seq<char>, value: BroadcastMessage, neighbor: Seq<char>|
        {
            &&& after.nodes.contains_key(node)
            &&& after.nodes.contains_key(neighbor)
            &&& after.nodes[node].received.contains(value)
            &&& after.nodes[node].neighbors is Some
            &&& after.nodes[node].neighbors->0.contains(neighbor)
        } implies #[trigger] after.covered(node, value, neighbor) by {
        lemma_deliver_covered(cluster, message, node, value, neighbor);
    }
}

/// Whatever arrives, in whatever order and however often, the cluster
/// stays as it should be.
pub proof fn lemma_deliver_all_inv(cluster: Cluster, messages: Seq<MessageView>)
    requires
        cluster.inv(),
        cluster.deliverable_all(messages),
    ensures
        cluster.deliver_all(messages).inv(),
    decreases messages.len(),
{
    if messages.len() > 0 {
        lemma_deliver_all_inv(cluster, messages.drop_last());
        lemma_deliver_inv(cluster.deliver_all(messages.drop_last()), messages.last());
    }
}

/// In a cluster at rest, a value that the first node of a path has seen has
/// been seen by the last.
pub proof fn lemma_value_follows_path(
    cluster: Cluster,
    path: Seq<Seq<char>>,
    value: BroadcastMessage,
)
    requires
        cluster.inv(),
        cluster.quiescent(),
        cluster.is_path(path),
        cluster.nodes[path.first()].received.contains(value),
    ensures
        cluster.nodes[path.last()].received.contains(value),
    decreases path.len(),
{
    if path.len() > 1 {
        let shorter = path.drop_last();
        assert(cluster.is_path(shorter));
        lemma_value_follows_path(cluster, shorter, value);
        // No request is ongoing, so the value has reached the last node
        // from the one before.
        assert(cluster.covered(path[path.len() - 2], value, path.last()));
    }
}

/// Convergence. Let any envelopes arrive at the nodes of a cluster, lost,
/// delayed, repeated or reordered as the network pleases, each node having
/// its topology before it sees its first value. If afterwards no request is
/// ongoing any more, and a path leads from every node to every other, then
/// every node has seen just the values that clients have asked to
/// broadcast, and a read gives that set at every node that answers.
pub proof fn lemma_convergence(ids: Set<Seq<char>>, messages: Seq<MessageView>, node: Seq<char>)
    requires
        Cluster::initial(ids).deliverable_all(messages),
        Cluster::initial(ids).deliver_all(messages).quiescent(),
        Cluster::initial(ids).deliver_all(messages).connected(),
        Cluster::initial(ids).deliver_all(messages).nodes.contains_key(node),
    ensures
        ({
            let cluster = Cluster::initial(ids).deliver_all(messages);
            &&& cluster.nodes[node].received == cluster.asked
            &&& cluster.nodes[node].read() matches Ok(reaction) ==> reaction.response
                == (ResponseView::Read { messages: cluster.asked })
        }),
{
    let cluster = Cluster::initial(ids).deliver_all(messages);
    lemma_initial_inv(ids);
    lemma_deliver_all_inv(Cluster::initial(ids), messages);
    assert forall|value: BroadcastMessage| cluster.asked.contains(value) implies cluster.nodes[node]
        .received.contains(value) by {
        let holder = choose|holder: Seq<char>| #[trigger] cluster.holds(holder, value);
        let path = choose|path: Seq<Seq<char>>|
            #[trigger] cluster.is_path(path) && path.first() == holder && path.last() == node;
        lemma_value_follows_path(cluster, path, value);
    }
    assert(cluster.nodes[node].received =~= cluster.asked);
}

} // verus!
