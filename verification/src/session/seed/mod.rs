//! Seeding: create torrents from data and serve them to peers.

pub mod builder;
pub mod hash;
pub mod source;
pub mod storage;
pub mod verify;
