//! Core of a real-time message relay.
//!
//! Clients hold a persistent bidirectional connection to a server; a text
//! message sent by one client is rebroadcast to the other connected clients.
//! This crate holds the verified core: the connection registry, the broadcast
//! dispatcher, the per-connection lifecycle decisions, and the wire-envelope
//! codec. The transport itself (websocket handshake, socket reads and writes,
//! task spawning) lives outside, in the surrounding binary.

pub mod dispatch;
pub mod ext;
pub mod json;
pub mod laws;
pub mod lifecycle;
pub mod messages;
pub mod registry;

use vstd::prelude::*;

verus! {

/// Default bind address of the relay server.
pub const ADDRESS: &'static str = "0.0.0.0";

/// Default bind port of the relay server.
pub const PORT: &'static str = "8080";

} // verus!
