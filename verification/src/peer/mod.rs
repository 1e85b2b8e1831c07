//! The peer wire protocol: handshake, message framing and per-peer session state.
pub mod handshake;
pub mod manager;
pub mod message;
pub mod session;
