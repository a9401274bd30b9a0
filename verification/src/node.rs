//! The executable node.
//!
//! A `Node` holds the state of one participant. Each method that handles a
//! message follows the transition of the same name in the model: it changes
//! the node as the transition says and hands back what the transport is to
//! do. The node sends nothing itself.

use crate::error::NodeError;
use crate::membership::{find_position, sort_membership};
use crate::message::{
    clone_values, ids_view, others, Body, BroadcastMessage, Guid, Message, MessageId, NodeId,
    Request, RequestView, Response, ResponseView,
};
use crate::model::{
    accepts, lemma_response_wf, lemma_send_request_multiple_destinations_wf, refuses,
    request_envelope, EffectsView, Handshake, NodeState, Reaction,
};
use crate::topology::Topology;
use std::collections::{HashMap, HashSet};
use vstd::prelude::*;

verus! {

broadcast use vstd::std_specs::hash::group_hash_axioms;

/// Identity and membership, as the handshake gave them.
struct Membership {
    id: NodeId,
    all_ids: Vec<NodeId>,
}

/// One participant of the cluster. A node is made by `Node::new` and
/// changed by its methods only, all of which keep it well-formed.
pub struct Node {
    membership: Option<Membership>,
    next_guid: Guid,
    neighbors: Option<Vec<NodeId>>,
    broadcast_messages_received: HashSet<BroadcastMessage>,
    next_message_id: MessageId,
    ongoing_requests: HashMap<MessageId, Message>,
}

/// What the transport is to do after the node has handled a message.
#[derive(Debug)]
pub struct Effects {
    /// The envelope to send once.
    pub reply: Option<Message>,
    /// The ongoing requests to send now and again at every interval, for as
    /// long as `Node::retransmission` gives their envelope.
    pub started: Vec<MessageId>,
    /// The request that has been acknowledged and is to be sent no more.
    pub stopped: Option<MessageId>,
}

impl View for Effects {
    type V = EffectsView;

    open spec fn view(&self) -> EffectsView {
        EffectsView {
            reply: match self.reply {
                Some(message) => Some(message@),
                None => None,
            },
            started: self.started@,
            stopped: self.stopped,
        }
    }
}

impl View for Node {
    type V = NodeState;

    closed spec fn view(&self) -> NodeState {
        NodeState {
            handshake: match self.membership {
                Some(membership) => Some(
                    Handshake { id: membership.id@, all_ids: ids_view(membership.all_ids@) },
                ),
                None => None,
            },
            next_guid: self.next_guid as nat,
            neighbors: match self.neighbors {
                Some(neighbors) => Some(ids_view(neighbors@)),
                None => None,
            },
            received: self.broadcast_messages_received@,
            next_message_id: self.next_message_id,
            ongoing: self.ongoing_requests@.map_values(|message: Message| message@),
        }
    }
}

impl Node {
    /// Whether the node is in a state that a node reaches. Every method
    /// keeps it so.
    pub open spec fn wf(&self) -> bool {
        self@.wf()
    }

    /// A node that has received nothing yet.
    pub fn new() -> (node: Node)
        ensures
            node.wf(),
            node@ == NodeState::initial(),
    {
        let node = Node {
            membership: None,
            next_guid: 0,
            neighbors: None,
            broadcast_messages_received: HashSet::new(),
            next_message_id: 0,
            ongoing_requests: HashMap::new(),
        };
        assert(node@ =~= NodeState::initial());
        node
    }

    /// The node's own identifier, once the handshake has taken place.
    pub fn id(&self) -> (id: Result<&NodeId, NodeError>)
        ensures
            match id {
                Ok(id) => self@.handshake matches Some(handshake) && handshake.id == id@,
                Err(error) => self@.handshake is None && error == NodeError::NotInitialized,
            },
    {
        match &self.membership {
            Some(membership) => Ok(&membership.id),
            None => Err(NodeError::NotInitialized),
        }
    }

    /// The membership in canonical order, once the handshake has taken
    /// place.
    pub fn all_ids(&self) -> (all_ids: Result<&Vec<NodeId>, NodeError>)
        ensures
            match all_ids {
                Ok(all_ids) => self@.handshake matches Some(handshake) && handshake.all_ids
                    == ids_view(all_ids@),
                Err(error) => self@.handshake is None && error == NodeError::NotInitialized,
            },
    {
        match &self.membership {
            Some(membership) => Ok(&membership.all_ids),
            None => Err(NodeError::NotInitialized),
        }
    }

    /// The neighbors, once a topology has named them.
    pub fn neighbors(&self) -> (neighbors: Result<&Vec<NodeId>, NodeError>)
        ensures
            match neighbors {
                Ok(neighbors) => self@.neighbors == Some(ids_view(neighbors@)),
                Err(error) => self@.neighbors is None && error == NodeError::TopologyNotReceived,
            },
    {
        match &self.neighbors {
            Some(neighbors) => Ok(neighbors),
            None => Err(NodeError::TopologyNotReceived),
        }
    }

    /// The broadcast values seen so far.
    pub fn broadcast_messages_received(&self) -> (received: &HashSet<BroadcastMessage>)
        ensures
            received@ == self@.received,
    {
        &self.broadcast_messages_received
    }

    /// Takes the next message id. Refused when none is left; the node is
    /// then unchanged.
    pub fn next_message_id(&mut self) -> (id: Result<MessageId, NodeError>)
        requires
            old(self).wf(),
        ensures
            final(self).wf(),
            match id {
                Ok(id) => {
                    &&& id == old(self)@.next_message_id
                    &&& id < usize::MAX
                    &&& final(self)@ == (NodeState {
                        next_message_id: (id + 1) as usize,
                        ..old(self)@
                    })
                },
                Err(error) => {
                    &&& error == NodeError::MessageIdsExhausted
                    &&& old(self)@.next_message_id == usize::MAX
                    &&& final(self)@ == old(self)@
                },
            },
    {
        if self.next_message_id == usize::MAX {
            Err(NodeError::MessageIdsExhausted)
        } else {
            let id = self.next_message_id;
            self.next_message_id = id + 1;
            Ok(id)
        }
    }

    /// Registers `request` for `destination` as ongoing, under the next
    /// message id, which is handed back. The transport sends an ongoing
    /// request until it is acknowledged.
    pub fn send_request(&mut self, request: Request, destination: NodeId) -> (id: Result<
        MessageId,
        NodeError,
    >)
        requires
            old(self).wf(),
        ensures
            final(self).wf(),
            match id {
                Ok(id) => {
                    &&& accepts(
                        old(self)@.send_request(request@, destination@),
                        (final(self)@, id),
                    )
                    &&& final(self)@.ongoing.len() == old(self)@.ongoing.len() + 1
                },
                Err(error) => {
                    &&& refuses(old(self)@.send_request(request@, destination@), error)
                    &&& final(self)@ == old(self)@
                },
            },
    {
        let source = match &self.membership {
            Some(membership) => membership.id.clone(),
            None => {
                return Err(NodeError::NotInitialized);
            },
        };
        if self.next_message_id == usize::MAX {
            return Err(NodeError::MessageIdsExhausted);
        }
        let id = self.next_message_id;
        let message = Message { source, destination, body: Body::Request { request, id } };
        assert(!self.ongoing_requests@.contains_key(id)) by {
            assert(self@.ongoing.contains_key(id) == self.ongoing_requests@.contains_key(id));
        }
        self.next_message_id = id + 1;
        self.ongoing_requests.insert(id, message);
        proof {
            assert(final(self)@.ongoing =~= old(self)@.ongoing.insert(
                id,
                request_envelope(old(self)@.handshake->0.id, destination@, request@, id),
            ));
        }
        Ok(id)
    }

    /// Registers `request` as ongoing once for each of `destinations`, in
    /// their order, and hands back the message ids: all of them or, where
    /// the node refuses, none.
    pub fn send_request_multiple_destinations(
        &mut self,
        request: &Request,
        destinations: &Vec<NodeId>,
    ) -> (started: Result<Vec<MessageId>, NodeError>)
        requires
            old(self).wf(),
        ensures
            final(self).wf(),
            match started {
                Ok(started) => {
                    &&& accepts(
                        old(self)@.send_request_multiple_destinations(
                            request@,
                            ids_view(destinations@),
                        ),
                        (final(self)@, started@),
                    )
                    &&& final(self)@.ongoing.len() == old(self)@.ongoing.len()
                        + destinations.len()
                },
                Err(error) => {
                    &&& refuses(
                        old(self)@.send_request_multiple_destinations(
                            request@,
                            ids_view(destinations@),
                        ),
                        error,
                    )
                    &&& final(self)@ == old(self)@
                },
            },
    {
        let mut started: Vec<MessageId> = Vec::new();
        if destinations.len() == 0 {
            return Ok(started);
        }
        if self.membership.is_none() {
            return Err(NodeError::NotInitialized);
        }
        if destinations.len() > usize::MAX - self.next_message_id {
            return Err(NodeError::MessageIdsExhausted);
        }
        let ghost before = self@;
        let ghost first = self@.next_message_id as int;
        let ghost source = self@.handshake->0.id;
        let ghost targets = ids_view(destinations@);
        let mut i: usize = 0;
        while i < destinations.len()
            invariant
                i <= destinations.len(),
                before.wf(),
                self.wf(),
                targets == ids_view(destinations@),
                first == before.next_message_id,
                first + destinations.len() <= usize::MAX,
                before.handshake is Some,
                source == before.handshake->0.id,
                self@.handshake == before.handshake,
                self@.next_guid == before.next_guid,
                self@.neighbors == before.neighbors,
                self@.received == before.received,
                self@.next_message_id == first + i,
                started@.len() == i,
                forall|k: int| 0 <= k < i ==> started@[k] == first + k,
                forall|id: MessageId|
                    #[trigger] self@.ongoing.contains_key(id) == (before.ongoing.contains_key(id)
                        || first <= id < first + i),
                forall|id: MessageId|
                    before.ongoing.contains_key(id) ==> self@.ongoing[id] == before.ongoing[id],
                forall|id: MessageId|
                    first <= id < first + i ==> self@.ongoing[id] == request_envelope(
                        source,
                        targets[id - first],
                        request@,
                        id,
                    ),
            decreases destinations.len() - i,
        {
            let ghost previous = self@;
            match self.send_request(request.clone(), destinations[i].clone()) {
                Ok(id) => {
                    started.push(id);
                    assert(self@.ongoing == previous.ongoing.insert(
                        id,
                        request_envelope(source, targets[i as int], request@, id),
                    ));
                },
                Err(error) => {
                    assert(false);
                    return Err(error);
                },
            }
            i += 1;
        }
        proof {
            lemma_send_request_multiple_destinations_wf(before, request@, targets);
            let expected = before.send_request_multiple_destinations(request@, targets)->Ok_0;
            assert(self@.ongoing =~= expected.0.ongoing);
            assert(started@ =~= expected.1);
        }
        Ok(started)
    }

    /// The handshake: the first one fixes identity, membership and index.
    fn init(&mut self, node_id: NodeId, node_ids: Vec<NodeId>) -> (done: Result<(), NodeError>)
        ensures
            match done {
                Ok(_) => accepts(
                    old(self)@.init(node_id@, ids_view(node_ids@)),
                    Reaction {
                        state: final(self)@,
                        response: ResponseView::Init,
                        started: Seq::empty(),
                    },
                ),
                Err(error) => {
                    &&& refuses(old(self)@.init(node_id@, ids_view(node_ids@)), error)
                    &&& final(self)@ == old(self)@
                },
            },
    {
        let mut all_ids = node_ids;
        sort_membership(&mut all_ids);
        match find_position(&all_ids, &node_id) {
            None => Err(NodeError::NodeIdNotInMembership),
            Some(index) => {
                if self.membership.is_none() {
                    self.membership = Some(Membership { id: node_id, all_ids });
                    self.next_guid = index;
                }
                Ok(())
            },
        }
    }

    /// A new identifier of the node's stripe.
    fn generate(&mut self) -> (id: Result<Guid, NodeError>)
        ensures
            match id {
                Ok(id) => accepts(
                    old(self)@.generate(),
                    Reaction {
                        state: final(self)@,
                        response: ResponseView::Generate { id },
                        started: Seq::empty(),
                    },
                ),
                Err(error) => {
                    &&& refuses(old(self)@.generate(), error)
                    &&& final(self)@ == old(self)@
                },
            },
    {
        let number_of_nodes = match &self.membership {
            Some(membership) => membership.all_ids.len(),
            None => {
                return Err(NodeError::NotInitialized);
            },
        };
        if number_of_nodes > usize::MAX - self.next_guid {
            return Err(NodeError::GuidsExhausted);
        }
        let id = self.next_guid;
        self.next_guid = id + number_of_nodes;
        Ok(id)
    }

    /// A value to broadcast: a new one is recorded and sent on to the
    /// neighbors, as far as they are known.
    fn broadcast(&mut self, message: BroadcastMessage, source: &NodeId) -> (started: Result<
        Vec<MessageId>,
        NodeError,
    >)
        requires
            old(self).wf(),
        ensures
            match started {
                Ok(started) => accepts(
                    old(self)@.broadcast(message, source@),
                    Reaction {
                        state: final(self)@,
                        response: ResponseView::Broadcast,
                        started: started@,
                    },
                ),
                Err(error) => {
                    &&& refuses(old(self)@.broadcast(message, source@), error)
                    &&& final(self)@ == old(self)@
                },
            },
    {
        if self.membership.is_none() {
            return Err(NodeError::NotInitialized);
        }
        if self.broadcast_messages_received.contains(&message) {
            return Ok(Vec::new());
        }
        let destinations = match &self.neighbors {
            Some(neighbors) => others(neighbors, source),
            None => Vec::new(),
        };
        if destinations.len() > usize::MAX - self.next_message_id {
            return Err(NodeError::MessageIdsExhausted);
        }
        self.broadcast_messages_received.insert(message);
        match self.send_request_multiple_destinations(
            &Request::Broadcast { message },
            &destinations,
        ) {
            Ok(started) => Ok(started),
            Err(error) => {
                assert(false);
                Err(error)
            },
        }
    }

    /// A topology: the first one fixes the neighbors.
    fn topology(&mut self, topology: Topology) -> (done: Result<(), NodeError>)
        ensures
            match done {
                Ok(_) => accepts(
                    old(self)@.topology(topology@),
                    Reaction {
                        state: final(self)@,
                        response: ResponseView::Topology,
                        started: Seq::empty(),
                    },
                ),
                Err(error) => {
                    &&& refuses(old(self)@.topology(topology@), error)
                    &&& final(self)@ == old(self)@
                },
            },
    {
        let mut topology = topology;
        let found = match &self.membership {
            Some(membership) => topology.remove(&membership.id),
            None => {
                return Err(NodeError::NotInitialized);
            },
        };
        match found {
            None => Err(NodeError::NodeIdNotInTopology),
            Some(neighbors) => {
                if self.neighbors.is_none() {
                    self.neighbors = Some(neighbors);
                }
                Ok(())
            },
        }
    }

    /// Reacts to a request from `source`: changes the node as the request
    /// asks and hands back the response, with the ids of the requests that
    /// the node has begun to send on its own. A refused request leaves the
    /// node unchanged.
    pub fn response(&mut self, request: Request, source: &NodeId) -> (reaction: Result<
        (Response, Vec<MessageId>),
        NodeError,
    >)
        requires
            old(self).wf(),
        ensures
            final(self).wf(),
            match reaction {
                Ok((response, started)) => {
                    &&& accepts(
                        old(self)@.response(request@, source@),
                        Reaction { state: final(self)@, response: response@, started: started@ },
                    )
                    &&& request@ matches RequestView::Broadcast { message } ==> {
                        &&& final(self)@.received == old(self)@.received.insert(message)
                        &&& final(self)@.received.len() == old(self)@.received.len()
                            + if old(self)@.received.contains(message) {
                            0int
                        } else {
                            1int
                        }
                    }
                },
                Err(error) => {
                    &&& refuses(old(self)@.response(request@, source@), error)
                    &&& final(self)@ == old(self)@
                },
            },
    {
        proof {
            lemma_response_wf(old(self)@, request@, source@);
        }
        match request {
            Request::Init { node_id, node_ids } => match self.init(node_id, node_ids) {
                Ok(_) => Ok((Response::Init, Vec::new())),
                Err(error) => Err(error),
            },
            Request::Echo { echo } => Ok((Response::Echo { echo }, Vec::new())),
            Request::Generate => match self.generate() {
                Ok(id) => Ok((Response::Generate { id }, Vec::new())),
                Err(error) => Err(error),
            },
            Request::Broadcast { message } => match self.broadcast(message, source) {
                Ok(started) => Ok((Response::Broadcast, started)),
                Err(error) => Err(error),
            },
            Request::Read => {
                if self.membership.is_none() {
                    Err(NodeError::NotInitialized)
                } else {
                    let messages = clone_values(&self.broadcast_messages_received);
                    Ok((Response::Read { messages }, Vec::new()))
                }
            },
            Request::Topology { topology } => match self.topology(topology) {
                Ok(_) => Ok((Response::Topology, Vec::new())),
                Err(error) => Err(error),
            },
        }
    }

    /// Handles a request that `source` sent under the id `request_id`: the
    /// node reacts as `response` says, and the reply to send goes back to
    /// `source` under a message id of its own. A refused request leaves the
    /// node unchanged.
    pub fn handle_request(
        &mut self,
        request: Request,
        source: NodeId,
        request_id: MessageId,
    ) -> (effects: Result<Effects, NodeError>)
        requires
            old(self).wf(),
        ensures
            final(self).wf(),
            match effects {
                Ok(effects) => accepts(
                    old(self)@.handle_request(request@, source@, request_id),
                    (final(self)@, effects@),
                ),
                Err(error) => {
                    &&& refuses(old(self)@.handle_request(request@, source@, request_id), error)
                    &&& final(self)@ == old(self)@
                },
            },
    {
        let id = match self.next_message_id() {
            Ok(id) => id,
            Err(error) => {
                return Err(error);
            },
        };
        let (response, started) = match self.response(request, &source) {
            Ok(reaction) => reaction,
            Err(error) => {
                self.next_message_id = id;
                return Err(error);
            },
        };
        let own_id = match &self.membership {
            Some(membership) => membership.id.clone(),
            None => {
                self.next_message_id = id;
                return Err(NodeError::NotInitialized);
            },
        };
        let reply = Message {
            source: own_id,
            destination: source,
            body: Body::Response { response, id, request_id },
        };
        Ok(Effects { reply: Some(reply), started, stopped: None })
    }

    /// Handles a response, which acknowledges the request `request_id`: the
    /// request is ongoing no more. A response that matches no ongoing
    /// request changes nothing.
    pub fn handle_response(
        &mut self,
        response: &Response,
        source: &NodeId,
        response_id: MessageId,
        request_id: MessageId,
    ) -> (effects: Result<Effects, NodeError>)
        requires
            old(self).wf(),
        ensures
            final(self).wf(),
            effects matches Ok(effects) && old(self)@.handle_response(request_id) == (
                final(self)@,
                effects@,
            ),
    {
        let stopped = match self.stop_ongoing_request_if_exists(request_id) {
            Some(_) => Some(request_id),
            None => None,
        };
        let effects = Effects { reply: None, started: Vec::new(), stopped };
        Ok(effects)
    }

    /// Handles an envelope from the transport: a request is answered, a
    /// response acknowledges a request of this node. A refused envelope
    /// leaves the node unchanged.
    pub fn handle_message(&mut self, message: Message) -> (effects: Result<Effects, NodeError>)
        requires
            old(self).wf(),
        ensures
            final(self).wf(),
            match effects {
                Ok(effects) => accepts(
                    old(self)@.handle_message(message@),
                    (final(self)@, effects@),
                ),
                Err(error) => {
                    &&& refuses(old(self)@.handle_message(message@), error)
                    &&& final(self)@ == old(self)@
                },
            },
    {
        let Message { source, destination: _, body } = message;
        match body {
            Body::Request { request, id } => self.handle_request(request, source, id),
            Body::Response { response, id, request_id } => self.handle_response(
                &response,
                &source,
                id,
                request_id,
            ),
        }
    }

    /// Takes the request `request_id` out of the ongoing ones, if it is
    /// among them, and hands back its envelope.
    pub fn stop_ongoing_request_if_exists(&mut self, request_id: MessageId) -> (stopped: Option<
        Message,
    >)
        requires
            old(self).wf(),
        ensures
            final(self).wf(),
            final(self)@ == (NodeState {
                ongoing: old(self)@.ongoing.remove(request_id),
                ..old(self)@
            }),
            match stopped {
                Some(message) => {
                    &&& old(self)@.ongoing.contains_key(request_id)
                    &&& old(self)@.ongoing[request_id] == message@
                    &&& final(self)@.ongoing.len() == old(self)@.ongoing.len() - 1
                },
                None => {
                    &&& !old(self)@.ongoing.contains_key(request_id)
                    &&& final(self)@.ongoing.len() == old(self)@.ongoing.len()
                },
            },
    {
        let stopped = self.ongoing_requests.remove(&request_id);
        proof {
            assert(final(self)@.ongoing =~= old(self)@.ongoing.remove(request_id));
        }
        stopped
    }

    /// The envelope to send again for the request `id`, for as long as the
    /// request is ongoing.
    pub fn retransmission(&self, id: MessageId) -> (message: Option<&Message>)
        ensures
            match message {
                Some(message) => self@.retransmission(id) == Some(message@),
                None => self@.retransmission(id) is None,
            },
    {
        self.ongoing_requests.get(&id)
    }
}

} // verus!
