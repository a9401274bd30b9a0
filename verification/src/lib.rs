//! A node of a simulated cluster, as a verified state machine.
//!
//! A node joins the cluster by a handshake, generates identifiers that are
//! unique in the cluster without asking anyone, and takes part in a
//! broadcast that reaches every node although the network loses messages.
//!
//! The library decides and the program around it performs. A [`node::Node`]
//! takes the envelopes that arrive and says what is to be sent; it never
//! sends or waits itself. The envelopes are in [`message`], the map of
//! neighbors that one of them carries in [`topology`]. What a node does is
//! defined in [`model`], over mathematical values, and the executable node
//! is proved to do just that. The laws of the protocol are proved of the
//! model: in [`membership`] and [`laws`] for one node, in [`cluster`] for
//! all nodes and the network.

use vstd::prelude::*;

pub mod cluster;
pub mod error;
pub mod laws;
pub mod membership;
pub mod message;
pub mod model;
pub mod node;
pub mod topology;

verus! {

/// The interval, in milliseconds, at which the transport sends an ongoing
/// request again.
pub const REPEAT_REQUEST_INTERVAL_MILLIS: u64 = 1000;

} // verus!
