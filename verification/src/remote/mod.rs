//! The remote side: a framed duplex channel and the two roles that talk over it.

pub mod channel;
pub mod client;
pub mod dialogue;
pub mod handshake;
pub mod server;
