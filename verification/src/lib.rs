//! Host-side message broker for one compute unit: little-endian
//! helpers, the envelope and its wire encoding, length-prefixed framing, the
//! address directory, and the dispatcher that owns the mailboxes and the event
//! queue.

pub mod broker;
pub mod directory;
pub mod dispatcher;
pub mod error;
pub mod events;
pub mod frame;
pub mod host;
pub mod laws;
pub mod le;
pub mod message;
pub mod model;
pub mod wire;
