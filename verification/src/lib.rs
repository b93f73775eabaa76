//! A node of a cluster that spreads broadcast values by gossip.
//!
//! The node is a state machine. It is handed events (a message from outside,
//! a tick of the timer, the end of the input stream) and hands back the
//! messages to send; it reads nothing and writes nothing itself.
//!
//! - [`messages`] holds the shapes of messages and events.
//! - [`topology`] and [`known_ids`] hold the two tables a node keeps: who
//!   gossips to whom, and what each peer is known to possess.
//! - [`ids`] writes the identifiers that a node issues on request.
//! - [`protocol`] states, as mathematics, what each event does to a node.
//! - [`node`] is the node itself; each of its functions does what
//!   [`protocol`] states.
//! - [`laws`] proves what holds of every node, and [`cluster`] what holds of
//!   nodes that gossip with each other.

pub mod cluster;
pub mod ids;
pub mod known_ids;
pub mod laws;
pub mod messages;
pub mod node;
pub mod protocol;
pub mod topology;
