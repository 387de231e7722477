//! A reliability layer for an unordered, message-oriented peer-to-peer
//! transport: typed messages can be sent to one peer or broadcast to all
//! connected peers, optionally demanding acknowledgment of receipt, with a
//! notification exactly once when every required acknowledgment has arrived.
//!
//! The engine itself is transport-agnostic: each call to
//! [`network::NetworkManager::tick`] is handed the peer events, inbound
//! frames and connected-peer snapshot drawn from the transport, and returns
//! the frames to send, the acknowledgment handlers to fire and the
//! diagnostics to surface.

pub mod app;
pub mod codec;
pub mod network;
pub mod user;
