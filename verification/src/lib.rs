//! A Kademlia-style DHT peer: 160-bit identifiers under the XOR metric, a
//! bucketed routing table with replacement caches, the wire codec, and the
//! decision logic of the RPC handler, lookup engine and maintenance loops.
//!
//! Everything here is pure: sockets, files, clocks and threads belong to the
//! caller, which hands in plain values and carries out the returned actions.

pub mod kad_id;
pub mod lookup;
pub mod network;
pub mod node;
pub mod observer;
pub mod protocol;
pub mod routing;
pub mod routing_laws;
