//! Session orchestration.

pub mod announce;
pub mod builder;
pub mod config;
pub mod download;
pub mod inbound;
pub mod lsd;
pub mod peer_manager;
pub mod peer_mgr;
pub mod registry;
pub mod seed;
pub mod swarm;
pub mod torrent;
pub mod uni_deque;
pub mod upload_mgr;
pub mod webseed;
