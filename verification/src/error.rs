//! The ways in which a node refuses a message.

use vstd::prelude::*;

verus! {

/// Why a node refused a message. A refused message leaves the node as it
/// was.
#[derive(Debug, Clone, Copy, PartialEq, Eq, Structural)]
pub enum NodeError {
    /// The request needs the handshake, which has not taken place.
    NotInitialized,
    /// A handshake whose list of identifiers lacks the node's own.
    NodeIdNotInMembership,
    /// The neighbors are asked for before any topology has named them.
    TopologyNotReceived,
    /// A topology without an entry for this node.
    NodeIdNotInTopology,
    /// The next identifier of the node's stripe does not fit the integer
    /// type.
    GuidsExhausted,
    /// The message ids that the messages to send need do not fit the integer
    /// type.
    MessageIdsExhausted,
}

impl NodeError {
    /// The error in words.
    pub open spec fn text(self) -> Seq<char> {
        match self {
            NodeError::NotInitialized => "initial message with node id should have been received"@,
            NodeError::NodeIdNotInMembership => "node id should be in the list of ids"@,
            NodeError::TopologyNotReceived => {
                "topology message with neighbors should have been received"@
            },
            NodeError::NodeIdNotInTopology => "node id should appear as key in received topology"@,
            NodeError::GuidsExhausted => "next generated id should fit the integer range"@,
            NodeError::MessageIdsExhausted => "next message id should fit the integer range"@,
        }
    }

    /// The error in words, for a log or a report.
    pub fn message(&self) -> (text: &'static str)
        ensures
            text@ == self.text(),
    {
        match self {
            NodeError::NotInitialized => "initial message with node id should have been received",
            NodeError::NodeIdNotInMembership => "node id should be in the list of ids",
            NodeError::TopologyNotReceived => {
                "topology message with neighbors should have been received"
            },
            NodeError::NodeIdNotInTopology => "node id should appear as key in received topology",
            NodeError::GuidsExhausted => "next generated id should fit the integer range",
            NodeError::MessageIdsExhausted => "next message id should fit the integer range",
        }
    }
}

} // verus!
