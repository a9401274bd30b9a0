//! The envelopes that nodes and clients exchange, and their mathematical
//! views.
//!
//! The contracts of the library speak of the views: a node identifier is a
//! sequence of characters, a list of identifiers a sequence of those, the
//! values of a read a set.

use crate::topology::Topology;
use std::collections::HashSet;
use vstd::prelude::*;

verus! {

/// The identifier of a node or of a client.
pub type NodeId = String;

/// The number that a sender gives to an envelope.
pub type MessageId = usize;

/// A value to broadcast.
pub type BroadcastMessage = usize;

/// A generated identifier, unique in the cluster.
pub type Guid = usize;

/// An envelope: who sent it, for whom it is, and what it carries.
#[derive(Debug, PartialEq, Eq)]
pub struct Message {
    pub source: NodeId,
    pub destination: NodeId,
    pub body: Body,
}

/// What an envelope carries: a request with its own id, or a response with
/// its own id and the id of the request that it answers.
#[derive(Debug, PartialEq, Eq)]
pub enum Body {
    Request { request: Request, id: MessageId },
    Response { response: Response, id: MessageId, request_id: MessageId },
}

/// The requests that a node serves.
#[derive(Debug, PartialEq, Eq)]
pub enum Request {
    Init { node_id: NodeId, node_ids: Vec<NodeId> },
    Echo { echo: String },
    Generate,
    Broadcast { message: BroadcastMessage },
    Read,
    Topology { topology: Topology },
}

/// The responses, one for each kind of request.
#[derive(Debug, PartialEq, Eq)]
pub enum Response {
    Init,
    Echo { echo: String },
    Generate { id: Guid },
    Broadcast,
    Read { messages: HashSet<BroadcastMessage> },
    Topology,
}

/// The view of a request.
#[verifier::ext_equal]
pub ghost enum RequestView {
    Init { node_id: Seq<char>, node_ids: Seq<Seq<char>> },
    Echo { echo: Seq<char> },
    Generate,
    Broadcast { message: BroadcastMessage },
    Read,
    Topology { topology: Map<Seq<char>, Seq<Seq<char>>> },
}

/// The view of a response.
#[verifier::ext_equal]
pub ghost enum ResponseView {
    Init,
    Echo { echo: Seq<char> },
    Generate { id: Guid },
    Broadcast,
    Read { messages: Set<BroadcastMessage> },
    Topology,
}

/// The view of what an envelope carries.
#[verifier::ext_equal]
pub ghost enum BodyView {
    Request { request: RequestView, id: MessageId },
    Response { response: ResponseView, id: MessageId, request_id: MessageId },
}

/// The view of an envelope.
#[verifier::ext_equal]
pub ghost struct MessageView {
    pub source: Seq<char>,
    pub destination: Seq<char>,
    pub body: BodyView,
}

/// The view of a list of identifiers.
pub open spec fn ids_view(ids: Seq<NodeId>) -> Seq<Seq<char>> {
    Seq::new(ids.len(), |i: int| ids[i]@)
}

impl View for Request {
    type V = RequestView;

    open spec fn view(&self) -> RequestView {
        match *self {
            Request::Init { node_id, node_ids } => RequestView::Init {
                node_id: node_id@,
                node_ids: ids_view(node_ids@),
            },
            Request::Echo { echo } => RequestView::Echo { echo: echo@ },
            Request::Generate => RequestView::Generate,
            Request::Broadcast { message } => RequestView::Broadcast { message },
            Request::Read => RequestView::Read,
            Request::Topology { topology } => RequestView::Topology { topology: topology@ },
        }
    }
}

impl View for Response {
    type V = ResponseView;

    open spec fn view(&self) -> ResponseView {
        match *self {
            Response::Init => ResponseView::Init,
            Response::Echo { echo } => ResponseView::Echo { echo: echo@ },
            Response::Generate { id } => ResponseView::Generate { id },
            Response::Broadcast => ResponseView::Broadcast,
            Response::Read { messages } => ResponseView::Read { messages: messages@ },
            Response::Topology => ResponseView::Topology,
        }
    }
}

impl View for Body {
    type V = BodyView;

    open spec fn view(&self) -> BodyView {
        match *self {
            Body::Request { request, id } => BodyView::Request { request: request@, id },
            Body::Response { response, id, request_id } => BodyView::Response {
                response: response@,
                id,
                request_id,
            },
        }
    }
}

impl View for Message {
    type V = MessageView;

    open spec fn view(&self) -> MessageView {
        MessageView { source: self.source@, destination: self.destination@, body: self.body@ }
    }
}

/// A copy of a list of identifiers.
pub fn clone_ids(ids: &Vec<NodeId>) -> (copy: Vec<NodeId>)
    ensures
        ids_view(copy@) == ids_view(ids@),
{
    let mut copy: Vec<NodeId> = Vec::new();
    let mut i: usize = 0;
    while i < ids.len()
        invariant
            i <= ids.len(),
            copy.len() == i,
            forall|j: int| 0 <= j < i ==> copy[j]@ == ids[j]@,
        decreases ids.len() - i,
    {
        copy.push(ids[i].clone());
        i += 1;
    }
    copy
}

/// Whether two lists hold the same identifiers in the same order.
pub fn same_ids(one: &Vec<NodeId>, other: &Vec<NodeId>) -> (same: bool)
    ensures
        same == (ids_view(one@) == ids_view(other@)),
{
    if one.len() != other.len() {
        assert(ids_view(one@).len() != ids_view(other@).len());
        return false;
    }
    let mut i: usize = 0;
    while i < one.len()
        invariant
            i <= one.len(),
            one.len() == other.len(),
            forall|j: int| 0 <= j < i ==> one[j]@ == other[j]@,
        decreases one.len() - i,
    {
        if one[i] != other[i] {
            assert(ids_view(one@)[i as int] != ids_view(other@)[i as int]);
            return false;
        }
        i += 1;
    }
    assert(ids_view(one@) =~= ids_view(other@));
    true
}

impl Clone for Request {
    /// A copy with the same view.
    fn clone(&self) -> (copy: Self)
        ensures
            copy@ == self@,
    {
        match self {
            Request::Init { node_id, node_ids } => Request::Init {
                node_id: node_id.clone(),
                node_ids: clone_ids(node_ids),
            },
            Request::Echo { echo } => Request::Echo { echo: echo.clone() },
            Request::Generate => Request::Generate,
            Request::Broadcast { message } => Request::Broadcast { message: *message },
            Request::Read => Request::Read,
            Request::Topology { topology } => Request::Topology { topology: topology.clone() },
        }
    }
}

/// `HashSet::clone` of std. Not proved, but taken from the documentation
/// of std: the copy holds the same values as the set.
#[verifier::external_body]
pub(crate) fn clone_values(values: &HashSet<BroadcastMessage>) -> (copy: HashSet<BroadcastMessage>)
    ensures
        copy@ == values@,
{
    values.clone()
}

impl Clone for Response {
    /// A copy with the same view.
    fn clone(&self) -> (copy: Self)
        ensures
            copy@ == self@,
    {
        match self {
            Response::Init => Response::Init,
            Response::Echo { echo } => Response::Echo { echo: echo.clone() },
            Response::Generate { id } => Response::Generate { id: *id },
            Response::Broadcast => Response::Broadcast,
            Response::Read { messages } => Response::Read { messages: clone_values(messages) },
            Response::Topology => Response::Topology,
        }
    }
}

impl Clone for Body {
    /// A copy with the same view.
    fn clone(&self) -> (copy: Self)
        ensures
            copy@ == self@,
    {
        match self {
            Body::Request { request, id } => Body::Request { request: request.clone(), id: *id },
            Body::Response { response, id, request_id } => Body::Response {
                response: response.clone(),
                id: *id,
                request_id: *request_id,
            },
        }
    }
}

impl Clone for Message {
    /// A copy with the same view.
    fn clone(&self) -> (copy: Self)
        ensures
            copy@ == self@,
    {
        Message {
            source: self.source.clone(),
            destination: self.destination.clone(),
            body: self.body.clone(),
        }
    }
}

/// The predicate that holds of every identifier but `source`.
pub open spec fn other_than(source: Seq<char>) -> spec_fn(Seq<char>) -> bool {
    |id: Seq<char>| id != source
}

/// The identifiers of `ids` other than `source`, in their order.
pub fn others(ids: &Vec<NodeId>, source: &NodeId) -> (rest: Vec<NodeId>)
    ensures
        ids_view(rest@) == ids_view(ids@).filter(other_than(source@)),
{
    let ghost all = ids_view(ids@);
    let ghost keep = other_than(source@);
    let mut rest: Vec<NodeId> = Vec::new();
    let mut i: usize = 0;
    proof {
        reveal(Seq::filter);
    }
    while i < ids.len()
        invariant
            i <= ids.len(),
            all == ids_view(ids@),
            keep == other_than(source@),
            ids_view(rest@) == all.take(i as int).filter(keep),
        decreases ids.len() - i,
    {
        proof {
            reveal(Seq::filter);
            assert(all.take(i + 1).drop_last() =~= all.take(i as int));
        }
        if ids[i] != *source {
            rest.push(ids[i].clone());
        }
        i += 1;
    }
    assert(all.take(ids.len() as int) =~= all);
    rest
}

} // verus!
