//! Coordination core of a relay-based event network client: an event store,
//! the relationship graph derived from it, relay selection, job assignment
//! with cooperative shutdown, and the payment negotiation flow.

pub mod globals;
pub mod graph;
pub mod implied;
pub mod overlord;
pub mod relays;
pub mod store;
pub mod types;
pub mod zap;
