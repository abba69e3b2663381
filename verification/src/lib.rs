//! A Kademlia node: routing, the four RPCs on both ends, lookups, and what a
//! node needs to know of its transports.
//!
//! What waits (for a socket, a reply or a clock) is not in here. The library
//! decides: it says what to send, what to make of what arrived, and what the
//! node's state is then.

pub mod address;
pub mod bootstrap;
pub mod cli;
pub mod close_nodes;
pub mod dash_map;
pub mod handle_rpc;
pub mod hashing;
pub mod lookup;
pub mod node;
pub mod pending;
pub mod rpc;
pub mod rpc_transport;
pub mod text;
pub mod values;
pub mod wire;
