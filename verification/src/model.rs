//! The node as a state machine over mathematical values.
//!
//! A state holds what a node knows; each kind of message has a transition
//! that says, for every state and every message, whether the node accepts
//! it and, if so, the next state and what the node sends. The executable
//! node is proved to follow these transitions, and the laws of the protocol
//! are proved of them.

use crate::error::NodeError;
use crate::membership::{canonical_order, id_order, lemma_canonical_order, position};
use crate::message::{
    other_than, BodyView, BroadcastMessage, Guid, MessageId, MessageView,
    RequestView, ResponseView,
};
use vstd::arithmetic::div_mod::{lemma_mod_add_multiples_vanish, lemma_small_mod};
use vstd::prelude::*;
use vstd::relations::sorted_by;

verus! {

/// What the handshake establishes: the node's identifier and the cluster's
/// membership in canonical order.
#[verifier::ext_equal]
pub ghost struct Handshake {
    pub id: Seq<char>,
    pub all_ids: Seq<Seq<char>>,
}

/// What a node knows.
#[verifier::ext_equal]
pub ghost struct NodeState {
    /// Identity and membership, once the handshake has taken place.
    pub handshake: Option<Handshake>,
    /// The next identifier that the node generates.
    pub next_guid: nat,
    /// The nodes to which this node forwards values, once a topology has
    /// named them.
    pub neighbors: Option<Seq<Seq<char>>>,
    /// The broadcast values seen so far.
    pub received: Set<BroadcastMessage>,
    /// The id of the next envelope that the node sends.
    pub next_message_id: MessageId,
    /// The requests sent and not yet acknowledged, by message id.
    pub ongoing: Map<MessageId, MessageView>,
}

/// What the node does in answer to a request: its next state, the response,
/// and the ids of the requests that it has begun to send.
#[verifier::ext_equal]
pub ghost struct Reaction {
    pub state: NodeState,
    pub response: ResponseView,
    pub started: Seq<MessageId>,
}

/// What the transport is to do after a message has been handled.
#[verifier::ext_equal]
pub ghost struct EffectsView {
    /// The envelope to send once.
    pub reply: Option<MessageView>,
    /// The ongoing requests to send now and again at every interval, until
    /// they are acknowledged.
    pub started: Seq<MessageId>,
    /// The request that has been acknowledged and is to be sent no more.
    pub stopped: Option<MessageId>,
}

/// Whether `outcome` is the acceptance with `value`.
pub open spec fn accepts<T>(outcome: Result<T, NodeError>, value: T) -> bool {
    outcome == Ok::<T, NodeError>(value)
}

/// Whether `outcome` is the refusal for the reason `error`.
pub open spec fn refuses<T>(outcome: Result<T, NodeError>, error: NodeError) -> bool {
    outcome == Err::<T, NodeError>(error)
}

/// The envelope of a request from `source` to `destination`.
pub open spec fn request_envelope(
    source: Seq<char>,
    destination: Seq<char>,
    request: RequestView,
    id: MessageId,
) -> MessageView {
    MessageView { source, destination, body: BodyView::Request { request, id } }
}

/// The envelope of a response from `source` to `destination`, in answer to
/// the request `request_id`.
pub open spec fn response_envelope(
    source: Seq<char>,
    destination: Seq<char>,
    response: ResponseView,
    id: MessageId,
    request_id: MessageId,
) -> MessageView {
    MessageView { source, destination, body: BodyView::Response { response, id, request_id } }
}

/// The envelopes that a node hands to the transport after a message: the
/// reply and the requests started.
pub open spec fn outgoing(next: NodeState, effects: EffectsView) -> Set<MessageView> {
    Set::new(
        |message: MessageView|
            effects.reply == Some(message) || exists|k: int|
                0 <= k < effects.started.len() && #[trigger] next.retransmission(
                    effects.started[k],
                ) == Some(message),
    )
}

/// Whether `message` acknowledges the request `id`.
pub open spec fn acknowledges(message: MessageView, id: MessageId) -> bool {
    message.body matches BodyView::Response { request_id, .. } && request_id == id
}

/// Whether the request `id` of a node with identifier `node` is the value
/// `value` on its way to `destination`.
pub open spec fn forwards(
    state: NodeState,
    node: Seq<char>,
    id: MessageId,
    value: BroadcastMessage,
    destination: Seq<char>,
) -> bool {
    state.ongoing.contains_key(id) && state.ongoing[id] == request_envelope(
        node,
        destination,
        RequestView::Broadcast { message: value },
        id,
    )
}

impl NodeState {
    /// The state of a node that has received nothing yet.
    pub open spec fn initial() -> NodeState {
        NodeState {
            handshake: None,
            next_guid: 0,
            neighbors: None,
            received: Set::empty(),
            next_message_id: 0,
            ongoing: Map::empty(),
        }
    }

    /// What holds of every state that a node reaches.
    pub open spec fn wf(self) -> bool {
        &&& match self.handshake {
            Some(handshake) => {
                &&& sorted_by(handshake.all_ids, id_order())
                &&& position(handshake.all_ids, handshake.id) == Some(
                    self.next_guid as int % handshake.all_ids.len() as int,
                )
            },
            None => self.neighbors is None,
        }
        &&& self.received.finite()
        &&& self.ongoing.dom().finite()
        &&& forall|id: MessageId| #[trigger]
            self.ongoing.contains_key(id) ==> {
                &&& id < self.next_message_id
                &&& self.handshake is Some
                &&& self.ongoing[id].source == self.handshake->0.id
                &&& self.ongoing[id].body is Request
                &&& self.ongoing[id].body->Request_id == id
            }
    }

    /// The number of nodes in the cluster; 0 before the handshake.
    pub open spec fn cluster_size(self) -> int {
        match self.handshake {
            Some(handshake) => handshake.all_ids.len() as int,
            None => 0,
        }
    }

    /// The node's index in the canonical membership.
    pub open spec fn index(self) -> int
        recommends
            self.handshake is Some,
    {
        self.next_guid as int % self.cluster_size()
    }

    /// How many identifiers the node has generated.
    pub open spec fn generated(self) -> int
        recommends
            self.handshake is Some,
    {
        self.next_guid as int / self.cluster_size()
    }

    /// Registers one request to `destination` under the next message id.
    /// Refused before the handshake, and when no message id is left.
    pub open spec fn send_request(self, request: RequestView, destination: Seq<char>) -> Result<
        (NodeState, MessageId),
        NodeError,
    > {
        match self.handshake {
            None => Err(NodeError::NotInitialized),
            Some(handshake) => {
                if self.next_message_id == usize::MAX {
                    Err(NodeError::MessageIdsExhausted)
                } else {
                    let id = self.next_message_id;
                    Ok(
                        (
                            NodeState {
                                next_message_id: (id + 1) as usize,
                                ongoing: self.ongoing.insert(
                                    id,
                                    request_envelope(handshake.id, destination, request, id),
                                ),
                                ..self
                            },
                            id,
                        ),
                    )
                }
            },
        }
    }

    /// Registers one request for each of `destinations`, under consecutive
    /// message ids in the order of `destinations`; all of them or, where the
    /// node refuses, none. With no destination there is nothing to refuse.
    pub open spec fn send_request_multiple_destinations(
        self,
        request: RequestView,
        destinations: Seq<Seq<char>>,
    ) -> Result<(NodeState, Seq<MessageId>), NodeError> {
        let first = self.next_message_id as int;
        let count = destinations.len() as int;
        if count == 0 {
            Ok((self, Seq::empty()))
        } else {
            match self.handshake {
                None => Err(NodeError::NotInitialized),
                Some(handshake) => {
                    if first + count > usize::MAX {
                        Err(NodeError::MessageIdsExhausted)
                    } else {
                        Ok(
                            (
                                NodeState {
                                    next_message_id: (first + count) as usize,
                                    ongoing: Map::new(
                                        |id: MessageId|
                                            self.ongoing.contains_key(id) || first <= id < first
                                                + count,
                                        |id: MessageId|
                                            if first <= id < first + count {
                                                request_envelope(
                                                    handshake.id,
                                                    destinations[id - first],
                                                    request,
                                                    id,
                                                )
                                            } else {
                                                self.ongoing[id]
                                            },
                                    ),
                                    ..self
                                },
                                Seq::new(count as nat, |i: int| (first + i) as usize),
                            ),
                        )
                    }
                },
            }
        }
    }

    /// The handshake. The list must name the node itself. The first
    /// handshake fixes identity, membership and index; a later one is
    /// acknowledged and changes nothing.
    pub open spec fn init(self, node_id: Seq<char>, node_ids: Seq<Seq<char>>) -> Result<
        Reaction,
        NodeError,
    > {
        let all_ids = canonical_order(node_ids);
        match position(all_ids, node_id) {
            None => Err(NodeError::NodeIdNotInMembership),
            Some(index) => Ok(
                Reaction {
                    state: if self.handshake is Some {
                        self
                    } else {
                        NodeState {
                            handshake: Some(Handshake { id: node_id, all_ids }),
                            next_guid: index as nat,
                            ..self
                        }
                    },
                    response: ResponseView::Init,
                    started: Seq::empty(),
                },
            ),
        }
    }

    /// A new identifier: the counter's value, which then advances by the
    /// number of nodes. Refused when the advanced counter would not fit.
    pub open spec fn generate(self) -> Result<Reaction, NodeError> {
        match self.handshake {
            None => Err(NodeError::NotInitialized),
            Some(handshake) => {
                if self.next_guid + handshake.all_ids.len() > usize::MAX {
                    Err(NodeError::GuidsExhausted)
                } else {
                    Ok(
                        Reaction {
                            state: NodeState {
                                next_guid: self.next_guid + handshake.all_ids.len(),
                                ..self
                            },
                            response: ResponseView::Generate { id: self.next_guid as Guid },
                            started: Seq::empty(),
                        },
                    )
                }
            },
        }
    }

    /// The nodes to which a new value from `source` is sent on: every
    /// neighbor but `source`, in the order of the neighbors; none while no
    /// topology has named the neighbors.
    pub open spec fn destinations(self, source: Seq<char>) -> Seq<Seq<char>> {
        match self.neighbors {
            Some(neighbors) => neighbors.filter(other_than(source)),
            None => Seq::empty(),
        }
    }

    /// A value to broadcast. One seen before changes nothing. A new one is
    /// recorded and sent on to every neighbor but `source`. Refused before
    /// the handshake, and when the requests to send need more message ids
    /// than are left.
    pub open spec fn broadcast(self, message: BroadcastMessage, source: Seq<char>) -> Result<
        Reaction,
        NodeError,
    > {
        if self.handshake is None {
            Err(NodeError::NotInitialized)
        } else if self.received.contains(message) {
            Ok(Reaction { state: self, response: ResponseView::Broadcast, started: Seq::empty() })
        } else {
            let recorded = NodeState { received: self.received.insert(message), ..self };
            match recorded.send_request_multiple_destinations(
                RequestView::Broadcast { message },
                self.destinations(source),
            ) {
                Err(error) => Err(error),
                Ok((state, started)) => Ok(
                    Reaction { state, response: ResponseView::Broadcast, started },
                ),
            }
        }
    }

    /// The values seen so far.
    pub open spec fn read(self) -> Result<Reaction, NodeError> {
        if self.handshake is None {
            Err(NodeError::NotInitialized)
        } else {
            Ok(
                Reaction {
                    state: self,
                    response: ResponseView::Read { messages: self.received },
                    started: Seq::empty(),
                },
            )
        }
    }

    /// A topology. It must list the node. The first topology fixes the
    /// neighbors; a later one is acknowledged and changes nothing.
    pub open spec fn topology(self, topology: Map<Seq<char>, Seq<Seq<char>>>) -> Result<
        Reaction,
        NodeError,
    > {
        match self.handshake {
            None => Err(NodeError::NotInitialized),
            Some(handshake) => {
                if !topology.contains_key(handshake.id) {
                    Err(NodeError::NodeIdNotInTopology)
                } else {
                    Ok(
                        Reaction {
                            state: if self.neighbors is Some {
                                self
                            } else {
                                NodeState { neighbors: Some(topology[handshake.id]), ..self }
                            },
                            response: ResponseView::Topology,
                            started: Seq::empty(),
                        },
                    )
                }
            },
        }
    }

    /// The node's reaction to a request from `source`.
    pub open spec fn response(self, request: RequestView, source: Seq<char>) -> Result<
        Reaction,
        NodeError,
    > {
        match request {
            RequestView::Init { node_id, node_ids } => self.init(node_id, node_ids),
            RequestView::Echo { echo } => Ok(
                Reaction {
                    state: self,
                    response: ResponseView::Echo { echo },
                    started: Seq::empty(),
                },
            ),
            RequestView::Generate => self.generate(),
            RequestView::Broadcast { message } => self.broadcast(message, source),
            RequestView::Read => self.read(),
            RequestView::Topology { topology } => self.topology(topology),
        }
    }

    /// A request with its envelope's data: the response goes back to
    /// `source` under the next message id, in reply to `request_id`; the
    /// requests that the reaction starts take the ids after it.
    pub open spec fn handle_request(
        self,
        request: RequestView,
        source: Seq<char>,
        request_id: MessageId,
    ) -> Result<(NodeState, EffectsView), NodeError> {
        if self.next_message_id == usize::MAX {
            Err(NodeError::MessageIdsExhausted)
        } else {
            let id = self.next_message_id;
            match (NodeState { next_message_id: (id + 1) as usize, ..self }).response(
                request,
                source,
            ) {
                Err(error) => Err(error),
                Ok(reaction) => match reaction.state.handshake {
                    None => Err(NodeError::NotInitialized),
                    Some(handshake) => Ok(
                        (
                            reaction.state,
                            EffectsView {
                                reply: Some(
                                    response_envelope(
                                        handshake.id,
                                        source,
                                        reaction.response,
                                        id,
                                        request_id,
                                    ),
                                ),
                                started: reaction.started,
                                stopped: None,
                            },
                        ),
                    ),
                },
            }
        }
    }

    /// An acknowledgment of the request `request_id`: the request is ongoing
    /// no more. One that matches no ongoing request changes nothing.
    pub open spec fn handle_response(self, request_id: MessageId) -> (NodeState, EffectsView) {
        (
            NodeState { ongoing: self.ongoing.remove(request_id), ..self },
            EffectsView {
                reply: None,
                started: Seq::empty(),
                stopped: if self.ongoing.contains_key(request_id) {
                    Some(request_id)
                } else {
                    None
                },
            },
        )
    }

    /// An envelope from the transport, request or response.
    pub open spec fn handle_message(self, message: MessageView) -> Result<
        (NodeState, EffectsView),
        NodeError,
    > {
        match message.body {
            BodyView::Request { request, id } => self.handle_request(request, message.source, id),
            BodyView::Response { request_id, .. } => Ok(self.handle_response(request_id)),
        }
    }

    /// The envelope to send again for the request `id`, while it is ongoing.
    pub open spec fn retransmission(self, id: MessageId) -> Option<MessageView> {
        if self.ongoing.contains_key(id) {
            Some(self.ongoing[id])
        } else {
            None
        }
    }
}

/// The message ids from `first` on, `count` of them.
pub open spec fn id_range(first: int, count: int) -> Set<MessageId> {
    Set::new(|id: MessageId| first <= id < first + count)
}

/// A range of message ids is finite, and has as many ids as it is long.
pub proof fn lemma_id_range(first: int, count: int)
    requires
        0 <= first,
        0 <= count,
        first + count <= usize::MAX + 1,
    ensures
        id_range(first, count).finite(),
        id_range(first, count).len() == count,
    decreases count,
{
    if count == 0 {
        assert(id_range(first, count) =~= Set::empty());
    } else {
        lemma_id_range(first, count - 1);
        let last = (first + count - 1) as usize;
        assert(id_range(first, count) =~= id_range(first, count - 1).insert(last));
    }
}

/// Registering a request for several destinations keeps the state
/// well-formed, and adds as many ongoing requests as there are
/// destinations.
pub proof fn lemma_send_request_multiple_destinations_wf(
    state: NodeState,
    request: RequestView,
    destinations: Seq<Seq<char>>,
)
    requires
        state.wf(),
    ensures
        state.send_request_multiple_destinations(request, destinations) matches Ok((next, _))
            ==> next.wf() && next.ongoing.len() == state.ongoing.len() + destinations.len(),
{
    if let Ok((next, _)) = state.send_request_multiple_destinations(request, destinations) {
        let first = state.next_message_id as int;
        let added = id_range(first, destinations.len() as int);
        lemma_id_range(first, destinations.len() as int);
        assert(next.ongoing.dom() =~= state.ongoing.dom().union(added));
        assert(state.ongoing.dom().disjoint(added));
        vstd::set_lib::lemma_set_disjoint_lens(state.ongoing.dom(), added);
    }
}

/// A reaction to a request leaves the state well-formed.
pub proof fn lemma_response_wf(state: NodeState, request: RequestView, source: Seq<char>)
    requires
        state.wf(),
    ensures
        state.response(request, source) matches Ok(reaction) ==> reaction.state.wf(),
{
    if let Ok(reaction) = state.response(request, source) {
        match request {
            RequestView::Init { node_id, node_ids } => {
                if state.handshake is None {
                    let all_ids = canonical_order(node_ids);
                    lemma_canonical_order(node_ids, all_ids);
                    all_ids.index_of_first_ensures(node_id);
                    let index = position(all_ids, node_id)->0;
                    lemma_small_mod(index as nat, all_ids.len());
                }
            },
            RequestView::Generate => {
                let handshake = state.handshake->0;
                handshake.all_ids.index_of_first_ensures(handshake.id);
                lemma_mod_add_multiples_vanish(
                    state.next_guid as int,
                    handshake.all_ids.len() as int,
                );
            },
            RequestView::Broadcast { message } => {
                if !state.received.contains(message) {
                    let recorded = NodeState {
                        received: state.received.insert(message),
                        ..state
                    };
                    lemma_send_request_multiple_destinations_wf(
                        recorded,
                        request,
                        state.destinations(source),
                    );
                }
            },
            _ => {},
        }
    }
}

/// Handling a message leaves the state well-formed.
pub proof fn lemma_handle_message_wf(state: NodeState, message: MessageView)
    requires
        state.wf(),
    ensures
        state.handle_message(message) matches Ok((next, _)) ==> next.wf(),
{
    match message.body {
        BodyView::Request { request, id } => {
            if state.next_message_id < usize::MAX {
                let taken = NodeState {
                    next_message_id: (state.next_message_id + 1) as usize,
                    ..state
                };
                lemma_response_wf(taken, request, message.source);
            }
        },
        BodyView::Response { .. } => {},
    }
}

/// What one accepted message does to a node. Message ids are taken from
/// the counter, which never goes back. Values seen stay seen. Identity,
/// membership and neighbors, once set, stay, and a value seen for the first
/// time is the value of the request. Every ongoing request that the message does
/// not acknowledge stays, with its envelope, and what is ongoing afterwards
/// was so before or bears an id just taken. A request, and only a request,
/// gets a reply, which goes from this node to the request's source. What is
/// started carries on the value of the request just handled.
pub proof fn lemma_handle_message_frame(state: NodeState, message: MessageView)
    requires
        state.wf(),
        state.handle_message(message) is Ok,
    ensures
        ({
            let (next, effects) = state.handle_message(message)->Ok_0;
            &&& next.wf()
            &&& state.next_message_id <= next.next_message_id
            &&& state.received.subset_of(next.received)
            &&& state.handshake is Some ==> next.handshake == state.handshake
            &&& state.neighbors is Some ==> next.neighbors == state.neighbors
            &&& next.neighbors != state.neighbors ==> next.received == state.received
            &&& forall|value: BroadcastMessage|
                !state.received.contains(value) && #[trigger] next.received.contains(value)
                    ==> (message.body matches BodyView::Request {
                    request: RequestView::Broadcast { message: new },
                    ..
                } && new == value)
            &&& next.handshake != state.handshake ==> (message.body matches BodyView::Request {
                request: RequestView::Init { node_id, .. },
                ..
            } && next.handshake->0.id == node_id)
            &&& forall|id: MessageId|
                state.ongoing.contains_key(id) && !acknowledges(message, id)
                    ==> #[trigger] next.ongoing.contains_key(id) && next.ongoing[id]
                    == state.ongoing[id]
            &&& forall|id: MessageId| #[trigger]
                next.ongoing.contains_key(id) ==> {
                    ||| state.ongoing.contains_key(id) && !acknowledges(message, id)
                    ||| state.next_message_id <= id < next.next_message_id
                }
            &&& message.body is Request <==> effects.reply is Some
            &&& message.body is Response ==> effects.started.len() == 0
            &&& forall|reply: MessageView|
                effects.reply == Some(reply) ==> {
                    &&& message.body matches BodyView::Request { request, id }
                    &&& next.handshake is Some
                    &&& reply.source == next.handshake->0.id
                    &&& reply.destination == message.source
                    &&& reply.body matches BodyView::Response { request_id, .. }
                    &&& request_id == id
                    &&& (request matches RequestView::Broadcast { message: value }
                        ==> next.received.contains(value))
                }
            &&& forall|k: int|
                0 <= k < effects.started.len() ==> {
                    &&& message.body matches BodyView::Request {
                        request: RequestView::Broadcast { message: value },
                        ..
                    }
                    &&& next.received.contains(value)
                    &&& state.next_message_id <= (#[trigger] effects.started[k])
                        < next.next_message_id
                    &&& next.ongoing.contains_key(effects.started[k])
                    &&& next.ongoing[effects.started[k]].body == (BodyView::Request {
                        request: RequestView::Broadcast { message: value },
                        id: effects.started[k],
                    })
                    &&& next.ongoing[effects.started[k]].source == state.handshake->0.id
                }
        }),
{
    lemma_handle_message_wf(state, message);
}

/// A value that a node sees for the first time came in a request to
/// broadcast it, and is on its way to every neighbor but the request's
/// source.
pub proof fn lemma_new_value(
    state: NodeState,
    message: MessageView,
    value: BroadcastMessage,
    destination: Seq<char>,
)
    requires
        state.wf(),
        state.handle_message(message) is Ok,
        !state.received.contains(value),
        state.handle_message(message)->Ok_0.0.received.contains(value),
        state.handle_message(message)->Ok_0.0.neighbors is Some,
        state.handle_message(message)->Ok_0.0.neighbors->0.contains(destination),
        destination != message.source,
    ensures
        ({
            let next = state.handle_message(message)->Ok_0.0;
            &&& message.body matches BodyView::Request {
                request: RequestView::Broadcast { message: sent },
                ..
            } && sent == value
            &&& next.handshake == state.handshake
            &&& exists|id: MessageId| #[trigger]
                forwards(next, state.handshake->0.id, id, value, destination)
        }),
{
    let next = state.handle_message(message)->Ok_0.0;
    let neighbors = state.neighbors->0;
    let keep = other_than(message.source);
    let destinations = neighbors.filter(keep);
    let index = choose|i: int| 0 <= i < neighbors.len() && neighbors[i] == destination;
    neighbors.lemma_filter_contains(keep, index);
    let k = choose|k: int| 0 <= k < destinations.len() && destinations[k] == destination;
    let id = (state.next_message_id + 1 + k) as usize;
    assert(forwards(next, state.handshake->0.id, id, value, destination));
}

} // verus!
