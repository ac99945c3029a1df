//! Messages of the peer wire protocol.

use vstd::prelude::*;

verus! {

/// A message that peers exchange after the handshake.
pub enum PeerMessage {
    KeepAlive,
    Choke,
    Unchoke,
    Interested,
    NotInterested,
    /// The sender holds this piece.
    Have(u32),
    /// The pieces that the sender holds, first piece in the highest bit.
    Bitfield(Vec<u8>),
    Request { index: u32, begin: u32, length: u32 },
    Piece { index: u32, begin: u32, data: Vec<u8> },
    Cancel { index: u32, begin: u32, length: u32 },
    /// The DHT port of the sender.
    Port(u16),
    /// A message of the extension protocol.
    Extended { ext_id: u8, data: Vec<u8> },
    /// The receiver may request this piece even while choked.
    AllowedFast(u32),
}

} // verus!
