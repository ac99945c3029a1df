//! The peer wire protocol.

pub mod message;
pub mod stream;
pub mod utp;
