//! The swarm engine of a single torrent.

pub mod engine;
pub mod extension;
pub mod pex;
pub mod piece_pipeline;
pub mod super_seed;
