//! Client-side library for the Soulseek peer-to-peer file-sharing network.
//!
//! The library covers the four binary wire protocols (server, peer,
//! peer-init, distributed), the file-transfer handshake, the search
//! rate limiter, the best-file selector, and the pure decision logic
//! of the connection coordinator.

pub mod client;
pub mod constants;
pub mod distributed;
pub mod file;
pub mod peer;
pub mod peer_init;
pub mod playlist;
pub mod protocol;
pub mod ratelimit;
pub mod select;
pub mod server;

pub use protocol::Error;
