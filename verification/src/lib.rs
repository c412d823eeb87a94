//! Seraphim: recording of `tracing` spans and events into an append-only
//! store, and the framing and protocol that serve them to a client.

pub mod frame;
pub mod text;
pub mod types;
pub mod store;
pub mod journal;
pub mod record;
pub mod layer;
pub mod net;
pub mod net_iroh;
pub mod address;
pub mod client;
