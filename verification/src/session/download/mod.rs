//! The download engine of a single torrent.

pub mod availability;
pub mod bitfield;
pub mod block_laws;
pub mod choke;
pub mod choke_round;
pub mod engine;
pub mod expiry;
pub mod message_laws;
pub mod pieces;
pub mod request_laws;
pub mod round_laws;
pub mod status;
pub mod tables;
pub mod types;
