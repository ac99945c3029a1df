//! uTP, a transport over UDP with retransmission: the connection state machine,
//! the dispatch of datagrams and the read buffer of a stream.

pub mod connection;
pub mod laws;
pub mod socket;
pub mod stream;
