//! Verified core of a BitTorrent client.
//!
//! The crate holds the decisions of the client: which peers to connect to,
//! which blocks to request, which requests to serve, whom to unchoke, how a
//! uTP stream is reassembled, how a web seed is scheduled and how seeded data
//! is hashed and checked. Sockets, files and timers live outside: they hand in
//! plain values and perform the actions that come back.

pub mod addr;
pub mod collections;
pub mod dht;
pub mod error;
pub mod hash;
pub mod metainfo;
pub mod net;
pub mod ordered;
pub mod peer;
pub mod random;
pub mod seqs;
pub mod session;
pub mod text;
pub mod time;
