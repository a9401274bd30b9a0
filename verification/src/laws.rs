//! Laws of the protocol, proved of the model's transitions: that handshakes
//! agree, that generated identifiers are unique, that broadcast is
//! idempotent, and that a request is sent again until it is acknowledged and
//! never after. That the values reach every node is proved with the cluster.

use crate::membership::{canonical_order, lemma_membership_agreement, position};
use crate::message::{
    BodyView, BroadcastMessage, Guid, MessageId, MessageView, RequestView, ResponseView,
};
use crate::model::{
    accepts, acknowledges, lemma_handle_message_frame, lemma_handle_message_wf, outgoing,
    NodeState, Reaction,
};
use vstd::arithmetic::div_mod::{
    lemma_basic_div, lemma_div_plus_one, lemma_fundamental_div_mod,
    lemma_mod_add_multiples_vanish, lemma_small_mod,
};
use vstd::prelude::*;

verus! {

/// The state after `messages` have arrived, one after the other. A refused
/// message changes nothing.
pub open spec fn run(state: NodeState, messages: Seq<MessageView>) -> NodeState
    decreases messages.len(),
{
    if messages.len() == 0 {
        state
    } else {
        let before = run(state, messages.drop_last());
        match before.handle_message(messages.last()) {
            Ok((next, _)) => next,
            Err(_) => before,
        }
    }
}

/// Handshakes agree. Two nodes that are given the same identifiers, in
/// whatever order, and each its own among them, both accept, hold the same
/// sorted membership afterwards, and each starts its counter at its index,
/// which lies below the cluster's size. Nodes with different identifiers get
/// different indices.
pub proof fn lemma_handshake_agreement(
    a: NodeState,
    b: NodeState,
    id_a: Seq<char>,
    ids_a: Seq<Seq<char>>,
    id_b: Seq<char>,
    ids_b: Seq<Seq<char>>,
)
    requires
        a.handshake is None,
        b.handshake is None,
        ids_a.to_multiset() == ids_b.to_multiset(),
        ids_a.contains(id_a),
        ids_b.contains(id_b),
    ensures
        a.init(id_a, ids_a) matches Ok(after_a) && b.init(id_b, ids_b) matches Ok(after_b) && {
            &&& after_a.state.handshake matches Some(handshake_a)
            &&& after_b.state.handshake matches Some(handshake_b)
            &&& handshake_a.id == id_a
            &&& handshake_b.id == id_b
            &&& handshake_a.all_ids == handshake_b.all_ids
            &&& handshake_a.all_ids == canonical_order(ids_a)
            &&& after_a.state.cluster_size() == ids_a.len()
            &&& after_b.state.cluster_size() == ids_a.len()
            &&& 0 <= after_a.state.index() < ids_a.len()
            &&& 0 <= after_b.state.index() < ids_a.len()
            &&& after_a.state.next_guid == after_a.state.index()
            &&& after_b.state.next_guid == after_b.state.index()
            &&& handshake_a.all_ids[after_a.state.index()] == id_a
            &&& handshake_b.all_ids[after_b.state.index()] == id_b
            &&& id_a != id_b ==> after_a.state.index() != after_b.state.index()
        },
{
    lemma_membership_agreement(ids_a, ids_b, id_a, id_b);
    let all_ids = canonical_order(ids_a);
    lemma_small_mod(position(all_ids, id_a)->0 as nat, all_ids.len());
    lemma_small_mod(position(all_ids, id_b)->0 as nat, all_ids.len());
}

/// Right after the handshake a node has generated nothing.
pub proof fn lemma_handshake_starts_stripe(
    state: NodeState,
    node_id: Seq<char>,
    node_ids: Seq<Seq<char>>,
)
    requires
        state.handshake is None,
        state.init(node_id, node_ids) is Ok,
    ensures
        state.init(node_id, node_ids)->Ok_0.state.generated() == 0,
{
    let all_ids = canonical_order(node_ids);
    all_ids.index_of_first_ensures(node_id);
    lemma_basic_div(position(all_ids, node_id)->0, all_ids.len() as int);
}

/// The identifier that the node with index `index`, in a cluster of `size`
/// nodes, generates after `count` others.
pub open spec fn guid(index: int, size: int, count: int) -> int {
    index + count * size
}

/// Identifiers of different stripes, or of different places in one stripe,
/// differ.
pub proof fn lemma_guids_distinct(
    size: int,
    index_a: int,
    count_a: int,
    index_b: int,
    count_b: int,
)
    requires
        0 <= index_a < size,
        0 <= index_b < size,
        index_a != index_b || count_a != count_b,
    ensures
        guid(index_a, size, count_a) != guid(index_b, size, count_b),
{
    if count_a != count_b {
        assert(index_a + count_a * size != index_b + count_b * size) by (nonlinear_arith)
            requires
                0 <= index_a < size,
                0 <= index_b < size,
                count_a != count_b,
        ;
    }
}

/// A node generates the identifiers of its stripe one after the other: the
/// identifier handed out is the one that index and count give, the index
/// stays, and the count goes up by one.
pub proof fn lemma_generate_follows_stripe(state: NodeState)
    requires
        state.wf(),
        state.generate() is Ok,
    ensures
        0 <= state.index() < state.cluster_size(),
        0 <= state.generated(),
        state.generate()->Ok_0.response == (ResponseView::Generate {
            id: guid(state.index(), state.cluster_size(), state.generated()) as usize,
        }),
        guid(state.index(), state.cluster_size(), state.generated()) <= usize::MAX,
        state.generate()->Ok_0.state.handshake == state.handshake,
        state.generate()->Ok_0.state.index() == state.index(),
        state.generate()->Ok_0.state.generated() == state.generated() + 1,
{
    let handshake = state.handshake->0;
    let size = handshake.all_ids.len() as int;
    handshake.all_ids.index_of_first_ensures(handshake.id);
    lemma_fundamental_div_mod(state.next_guid as int, size);
    lemma_mod_add_multiples_vanish(state.next_guid as int, size);
    lemma_div_plus_one(state.next_guid as int, size);
    assert(size * (state.next_guid as int / size) == (state.next_guid as int / size) * size)
        by (nonlinear_arith);
    assert(0 <= state.next_guid as int / size) by (nonlinear_arith)
        requires
            0 <= state.next_guid as int,
            0 < size,
    ;
}

/// Generated identifiers are unique in the cluster. Take two states of
/// nodes that share a membership: states of two nodes, or two states of one
/// node between which it has generated an identifier. The identifiers that
/// they generate differ.
pub proof fn lemma_generated_ids_distinct(a: NodeState, b: NodeState)
    requires
        a.wf(),
        b.wf(),
        a.generate() is Ok,
        b.generate() is Ok,
        a.handshake->0.all_ids == b.handshake->0.all_ids,
        a.handshake->0.id != b.handshake->0.id || a.generated() != b.generated(),
    ensures
        a.generate()->Ok_0.response != b.generate()->Ok_0.response,
{
    lemma_generate_follows_stripe(a);
    lemma_generate_follows_stripe(b);
    let all_ids = a.handshake->0.all_ids;
    all_ids.index_of_first_ensures(a.handshake->0.id);
    all_ids.index_of_first_ensures(b.handshake->0.id);
    lemma_guids_distinct(
        a.cluster_size(),
        a.index(),
        a.generated(),
        b.index(),
        b.generated(),
    );
}

/// The identifier that the reply to a message carries, if the reply hands
/// out a generated identifier.
pub open spec fn generated_id(reply: Option<MessageView>) -> Option<Guid> {
    match reply {
        Some(reply) => match reply.body {
            BodyView::Response { response: ResponseView::Generate { id }, .. } => Some(id),
            _ => None,
        },
        None => None,
    }
}

/// The identifiers that a node hands out while `messages` arrive, one
/// after the other, in the order in which it hands them out.
pub open spec fn generated_ids(state: NodeState, messages: Seq<MessageView>) -> Seq<Guid>
    decreases messages.len(),
{
    if messages.len() == 0 {
        Seq::empty()
    } else {
        let earlier = generated_ids(state, messages.drop_last());
        match run(state, messages.drop_last()).handle_message(messages.last()) {
            Ok((_, effects)) => match generated_id(effects.reply) {
                Some(id) => earlier.push(id),
                None => earlier,
            },
            Err(_) => earlier,
        }
    }
}

/// What one message does to the counter of identifiers: a reply hands out
/// the counter's value, and the counter then advances by the cluster's size;
/// without such a reply the counter stays, unless the message is the
/// handshake. Identity and membership, once set, stay.
pub proof fn lemma_counter_frame(state: NodeState, message: MessageView)
    requires
        state.wf(),
        state.handle_message(message) is Ok,
    ensures
        ({
            let (next, effects) = state.handle_message(message)->Ok_0;
            &&& next.wf()
            &&& state.handshake is Some ==> next.handshake == state.handshake
            &&& match generated_id(effects.reply) {
                Some(id) => {
                    &&& state.handshake is Some
                    &&& id == state.next_guid
                    &&& next.next_guid == state.next_guid + state.cluster_size()
                },
                None => state.handshake is Some ==> next.next_guid == state.next_guid,
            }
        }),
{
    lemma_handle_message_wf(state, message);
}

/// A node never hands out an identifier twice, and none outside its stripe.
/// Whatever arrives at a node, the identifiers that it hands out grow from
/// one to the next, lie below the counter, and leave the node's index as
/// remainder when divided by the cluster's size.
pub proof fn lemma_generated_ids_of_a_node(state: NodeState, messages: Seq<MessageView>)
    requires
        state.wf(),
    ensures
        ({
            let ids = generated_ids(state, messages);
            let end = run(state, messages);
            &&& end.wf()
            &&& state.handshake is Some ==> end.handshake == state.handshake
            &&& state.handshake is Some ==> state.next_guid <= end.next_guid
            &&& ids.len() > 0 ==> end.handshake is Some
            &&& forall|i: int|
                0 <= i < ids.len() ==> (#[trigger] ids[i]) < end.next_guid && ids[i] as int
                    % end.cluster_size() == end.index()
            &&& forall|i: int|
                0 <= i < ids.len() && state.handshake is Some ==> state.next_guid
                    <= #[trigger] ids[i]
            &&& forall|i: int, j: int|
                0 <= i < j < ids.len() ==> #[trigger] ids[i] < #[trigger] ids[j]
        }),
    decreases messages.len(),
{
    if messages.len() > 0 {
        let earlier = messages.drop_last();
        lemma_generated_ids_of_a_node(state, earlier);
        let before = run(state, earlier);
        let ids = generated_ids(state, messages);
        let end = run(state, messages);
        if before.handle_message(messages.last()) is Ok {
            lemma_counter_frame(before, messages.last());
            let effects = before.handle_message(messages.last())->Ok_0.1;
            if before.handshake is Some {
                let size = before.cluster_size();
                before.handshake->0.all_ids.index_of_first_ensures(before.handshake->0.id);
                lemma_mod_add_multiples_vanish(before.next_guid as int, size);
            } else {
                assert(generated_ids(state, earlier).len() == 0);
            }
        }
    }
}

/// Generated identifiers are unique across the cluster. Two nodes that hold
/// the same membership under different identifiers never hand out the same
/// identifier, whatever arrives at either.
pub proof fn lemma_generated_ids_of_two_nodes(
    a: NodeState,
    messages_a: Seq<MessageView>,
    b: NodeState,
    messages_b: Seq<MessageView>,
)
    requires
        a.wf(),
        b.wf(),
        run(a, messages_a).handshake is Some,
        run(b, messages_b).handshake is Some,
        run(a, messages_a).handshake->0.all_ids == run(b, messages_b).handshake->0.all_ids,
        run(a, messages_a).handshake->0.id != run(b, messages_b).handshake->0.id,
    ensures
        forall|i: int, j: int|
            0 <= i < generated_ids(a, messages_a).len() && 0 <= j < generated_ids(
                b,
                messages_b,
            ).len() ==> #[trigger] generated_ids(a, messages_a)[i] != #[trigger] generated_ids(
                b,
                messages_b,
            )[j],
{
    lemma_generated_ids_of_a_node(a, messages_a);
    lemma_generated_ids_of_a_node(b, messages_b);
    let end_a = run(a, messages_a);
    let end_b = run(b, messages_b);
    end_a.handshake->0.all_ids.index_of_first_ensures(end_a.handshake->0.id);
    end_b.handshake->0.all_ids.index_of_first_ensures(end_b.handshake->0.id);
}

/// The state after requests to broadcast `message` have arrived from
/// `sources`, one after the other. A refused request changes nothing.
pub open spec fn broadcast_repeatedly(
    state: NodeState,
    message: BroadcastMessage,
    sources: Seq<Seq<char>>,
) -> NodeState
    decreases sources.len(),
{
    if sources.len() == 0 {
        state
    } else {
        let before = broadcast_repeatedly(state, message, sources.drop_last());
        match before.broadcast(message, sources.last()) {
            Ok(reaction) => reaction.state,
            Err(_) => before,
        }
    }
}

/// Broadcast is idempotent. A node that has had its handshake accepts a
/// value, unless the value is new and the message ids that sending it on
/// needs are not left. The value is then among those seen, which are one
/// more if it is new and as many as before if it is not. However often the
/// same value arrives afterwards, and from whomever, the node accepts it,
/// starts nothing and stays as it is. A read then gives the values seen
/// before and the value, whatever the number of arrivals.
pub proof fn lemma_broadcast_idempotent(
    state: NodeState,
    message: BroadcastMessage,
    source: Seq<char>,
    again: Seq<Seq<char>>,
)
    requires
        state.wf(),
        state.handshake is Some,
        state.received.contains(message) || state.next_message_id + state.destinations(
            source,
        ).len() <= usize::MAX,
    ensures
        state.broadcast(message, source) matches Ok(first) && {
            let once = first.state;
            &&& first.response == ResponseView::Broadcast
            &&& once.received == state.received.insert(message)
            &&& once.received.len() == state.received.len() + if state.received.contains(
                message,
            ) {
                0int
            } else {
                1int
            }
            &&& forall|other: Seq<char>|
                accepts(
                    #[trigger] once.broadcast(message, other),
                    Reaction {
                        state: once,
                        response: ResponseView::Broadcast,
                        started: Seq::empty(),
                    },
                )
            &&& broadcast_repeatedly(once, message, again) == once
            &&& accepts(
                broadcast_repeatedly(once, message, again).read(),
                Reaction {
                    state: once,
                    response: ResponseView::Read { messages: state.received.insert(message) },
                    started: Seq::empty(),
                },
            )
        },
    decreases again.len(),
{
    let once = state.broadcast(message, source)->Ok_0.state;
    assert(once.received =~= state.received.insert(message));
    if again.len() > 0 {
        lemma_broadcast_idempotent(state, message, source, again.drop_last());
    }
}

/// Before any topology a value is accepted all the same. A node that has
/// had its handshake and has no neighbors yet answers a request to
/// broadcast a new value, if a message id is left for the reply: it records
/// the value and starts nothing.
pub proof fn lemma_broadcast_before_topology(
    state: NodeState,
    message: BroadcastMessage,
    source: Seq<char>,
    request_id: MessageId,
)
    requires
        state.wf(),
        state.handshake is Some,
        state.neighbors is None,
        state.next_message_id < usize::MAX,
    ensures
        state.handle_request(RequestView::Broadcast { message }, source, request_id) matches Ok(
            (next, effects),
        ) && {
            &&& next.received == state.received.insert(message)
            &&& next.ongoing == state.ongoing
            &&& effects.started == Seq::<MessageId>::empty()
            &&& effects.reply matches Some(reply) && reply.destination == source && reply.body
                == (BodyView::Response {
                response: ResponseView::Broadcast,
                id: state.next_message_id,
                request_id,
            })
        },
{
    let next = state.handle_request(RequestView::Broadcast { message }, source, request_id)->Ok_0.0;
    assert(next.received =~= state.received.insert(message));
}

/// Retried until acknowledged. While none of the messages that arrive
/// acknowledges an ongoing request, the request stays ongoing and the
/// envelope to send again stays the same.
pub proof fn lemma_retransmitted_until_acknowledged(
    state: NodeState,
    id: MessageId,
    messages: Seq<MessageView>,
)
    requires
        state.wf(),
        state.ongoing.contains_key(id),
        forall|i: int| 0 <= i < messages.len() ==> !acknowledges(#[trigger] messages[i], id),
    ensures
        run(state, messages).wf(),
        run(state, messages).retransmission(id) == Some(state.ongoing[id]),
    decreases messages.len(),
{
    if messages.len() > 0 {
        let earlier = messages.drop_last();
        assert forall|i: int| 0 <= i < earlier.len() implies !acknowledges(
            #[trigger] earlier[i],
            id,
        ) by {
            assert(earlier[i] == messages[i]);
        }
        lemma_retransmitted_until_acknowledged(state, id, earlier);
        let before = run(state, earlier);
        if before.handle_message(messages.last()) is Ok {
            lemma_handle_message_wf(before, messages.last());
            lemma_handle_message_frame(before, messages.last());
        }
    }
}

/// Acknowledged for good. Once a response has acknowledged a request of the
/// node, there is nothing to send again for it, whatever arrives later.
pub proof fn lemma_acknowledged_for_good(
    state: NodeState,
    id: MessageId,
    acknowledgment: MessageView,
    later: Seq<MessageView>,
)
    requires
        state.wf(),
        state.ongoing.contains_key(id),
        acknowledges(acknowledgment, id),
    ensures
        state.handle_message(acknowledgment) matches Ok((acknowledged, effects)) && {
            &&& effects.stopped == Some(id)
            &&& run(acknowledged, later).wf()
            &&& id < run(acknowledged, later).next_message_id
            &&& run(acknowledged, later).retransmission(id) is None
        },
    decreases later.len(),
{
    let acknowledged = state.handle_message(acknowledgment)->Ok_0.0;
    lemma_handle_message_wf(state, acknowledgment);
    if later.len() > 0 {
        lemma_acknowledged_for_good(state, id, acknowledgment, later.drop_last());
        let before = run(acknowledged, later.drop_last());
        if before.handle_message(later.last()) is Ok {
            lemma_handle_message_wf(before, later.last());
            lemma_handle_message_frame(before, later.last());
        }
    }
}

/// The message id that an envelope bears.
pub open spec fn message_id(message: MessageView) -> MessageId {
    match message.body {
        BodyView::Request { id, .. } => id,
        BodyView::Response { id, .. } => id,
    }
}

/// Every envelope that a node sends bears a message id of its own. The
/// envelopes that a node hands to the transport after a message bear ids
/// that the counter had not reached before and has passed afterwards, and
/// no two of them the same.
pub proof fn lemma_message_ids_fresh(state: NodeState, message: MessageView)
    requires
        state.wf(),
        state.handle_message(message) is Ok,
    ensures
        ({
            let (next, effects) = state.handle_message(message)->Ok_0;
            &&& forall|sent: MessageView| #[trigger]
                outgoing(next, effects).contains(sent) ==> state.next_message_id <= message_id(sent)
                    < next.next_message_id
            &&& forall|one: MessageView, other: MessageView|
                #![trigger
                    outgoing(next, effects).contains(one),
                    outgoing(next, effects).contains(other)
                ]
                outgoing(next, effects).contains(one) && outgoing(next, effects).contains(other)
                    && message_id(one) == message_id(other) ==> one == other
        }),
{
    let (next, effects) = state.handle_message(message)->Ok_0;
    lemma_handle_message_wf(state, message);
    assert forall|sent: MessageView| #[trigger] outgoing(next, effects).contains(sent) implies {
        &&& state.next_message_id <= message_id(sent) < next.next_message_id
        &&& effects.reply == Some(sent) <==> message_id(sent) == state.next_message_id
        &&& effects.reply != Some(sent) ==> next.retransmission(message_id(sent)) == Some(sent)
    } by {
        if effects.reply != Some(sent) {
            let k = choose|k: int|
                0 <= k < effects.started.len() && #[trigger] next.retransmission(
                    effects.started[k],
                ) == Some(sent);
        }
    }
}

} // verus!
