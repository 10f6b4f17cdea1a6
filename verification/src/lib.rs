//! A small publish/subscribe message bus: connected clients send JSON
//! envelopes, and every accepted envelope is relayed to the other clients or to
//! the clients it names.
//!
//! The crate holds the bus's logic as a deterministic state machine. Sockets,
//! tasks and files live with the caller, which feeds frames in and flushes the
//! outbound queues.
//!
//! - `config`: the settings, from defaults, a settings file and the
//!   environment; `utils`: comment lines in settings files.
//! - `json`, `keys`: the JSON grammar as far as the bus reads it.
//! - `envelope`: what a frame must hold, whom it is for, what is sent on.
//! - `registry`: who is connected, and what waits for each connection.
//! - `fanout`: delivery to a set of connections.
//! - `message_bus`: the bus itself; `lifecycle`: the life of one connection.
//! - `laws`, `payload`, `notices`, `window`: what holds of all of it, with the
//!   proofs.

pub mod config;
pub mod envelope;
pub mod fanout;
pub mod json;
pub mod keys;
pub mod laws;
pub mod lifecycle;
pub mod message_bus;
pub mod notices;
pub mod payload;
pub mod registry;
pub mod utils;
pub mod window;
