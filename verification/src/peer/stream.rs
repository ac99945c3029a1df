//! A connection to a peer: handshake, message framing and protocol state.

use crate::collections::Key;
use crate::error::{Error, ErrorKind};
use crate::session::download::types::bit_at;
use crate::session::peer_mgr::PeerId;
use crate::time::Nanos;
use vstd::prelude::*;

verus! {

/// Timeout for connecting and exchanging handshakes.
pub const HANDSHAKE_TIMEOUT: Nanos = 30_000_000_000;

/// Maximum size of a peer message.
pub const MAX_MESSAGE_SIZE: u32 = 2_097_152;

/// Timeout for reading a message.
pub const MESSAGE_READ_TIMEOUT: Nanos = 60_000_000_000;

/// Timeout for writing a message.
pub const MESSAGE_WRITE_TIMEOUT: Nanos = 30_000_000_000;

/// Protocol state of a connection.
#[derive(Clone, Copy, Debug, PartialEq, Eq, Structural)]
pub enum PeerState {
    /// Handshakes are being exchanged.
    Handshake,
    /// Handshakes are done.
    Init,
    /// The peer lets us request.
    Unchoked,
    /// The peer does not let us request.
    Choked,
    /// The connection is gone.
    Closed,
}

/// What the two ends of a connection tell each other first.
#[derive(Clone, Copy)]
pub struct Handshake {
    /// Extension bits.
    pub reserved: [u8; 8],
    /// The torrent.
    pub info_hash: [u8; 20],
    /// The sender.
    pub peer_id: PeerId,
}

/// Whether an extension bit is set; bit 0 is the highest bit of the first byte,
/// and there is no bit past the last byte.
pub open spec fn has_bit(reserved: Seq<u8>, bit: int) -> bool {
    0 <= bit < 64 && (reserved[bit / 8] >> ((7 - bit % 8) as u8)) & 1 == 1
}

/// Check an extension bit.
pub fn has_extension(reserved: &[u8; 8], bit: usize) -> (r: bool)
    ensures
        r == has_bit(reserved@, bit as int),
{
    if bit >= 64 {
        return false;
    }
    let byte: usize = bit / 8;
    let shift: u8 = (7 - (bit % 8)) as u8;
    (reserved[byte] >> shift) & 1 == 1
}

/// Whether the peer speaks the extension protocol, in either of the two ways to
/// say so.
pub open spec fn speaks_ltep(reserved: Seq<u8>) -> bool {
    reserved[5] & 0x10 != 0 || has_bit(reserved, 63)
}

/// Check whether the peer speaks the extension protocol.
pub fn remote_speaks_ltep(reserved: &[u8; 8]) -> (r: bool)
    ensures
        r == speaks_ltep(reserved@),
{
    reserved[5] & 0x10 != 0 || has_extension(reserved, 63)
}

/// The extension bits that we set: 43 and 63 for the extension protocol, 44 for
/// the fast extension.
pub open spec fn our_bits() -> Seq<u8> {
    seq![0u8, 0u8, 0u8, 0u8, 0u8, 0x18u8, 0u8, 0x01u8]
}

impl Handshake {
    /// The handshake that we send.
    pub fn ours(info_hash: [u8; 20], peer_id: PeerId) -> (h: Handshake)
        ensures
            h.reserved@ == our_bits(),
            h.info_hash == info_hash,
            h.peer_id == peer_id,
    {
        let reserved: [u8; 8] = [0, 0, 0, 0, 0, 0x18, 0, 0x01];
        assert(reserved@ =~= our_bits());
        Handshake { reserved, info_hash, peer_id }
    }
}

/// We advertise the extension protocol and the fast extension, and nothing else.
pub proof fn law_our_bits(bit: int)
    ensures
        has_bit(our_bits(), bit) <==> bit == 43 || bit == 44 || bit == 63,
        speaks_ltep(our_bits()),
{
    assert forall|s: u8| s < 8 implies ((0u8 >> s) & 1 != 1) by {
        assert((0u8 >> s) & 1 != 1) by (bit_vector);
    }
    assert forall|s: u8| s < 8 implies (((0x18u8 >> s) & 1 == 1) == (s == 3 || s == 4)) by {
        assert(((0x18u8 >> s) & 1 == 1) == (s == 3 || s == 4)) by (bit_vector)
            requires
                s < 8,
        ;
    }
    assert forall|s: u8| s < 8 implies (((0x01u8 >> s) & 1 == 1) == (s == 0)) by {
        assert(((0x01u8 >> s) & 1 == 1) == (s == 0)) by (bit_vector)
            requires
                s < 8,
        ;
    }
    if 0 <= bit < 64 {
        let s = (7 - bit % 8) as u8;
    }
    assert(has_bit(our_bits(), 63)) by {
        assert(((0x01u8 >> 0u8) & 1 == 1)) by (bit_vector);
    }
}

/// The length that a message starts with, most significant byte first.
pub open spec fn be_length(b: Seq<u8>) -> int {
    b[0] * 0x100_0000 + b[1] * 0x1_0000 + b[2] * 0x100 + b[3]
}

/// What follows the length of a message.
#[derive(Clone, Copy, Debug, PartialEq, Eq, Structural)]
pub enum Frame {
    /// Nothing: the message keeps the connection alive.
    KeepAlive,
    /// A message of this many bytes.
    Body(u32),
}

/// How to go on after the length of a message; nothing follows one that is too
/// long.
pub open spec fn frame_of(len: int) -> Option<Frame> {
    if len == 0 {
        Some(Frame::KeepAlive)
    } else if len > MAX_MESSAGE_SIZE {
        None
    } else {
        Some(Frame::Body(len as u32))
    }
}

/// Decide by the length of a message how to go on: a length of zero is a
/// keep-alive, and a message that is too long ends the connection.
pub fn read_frame(len_buf: &[u8; 4]) -> (r: Result<Frame, Error>)
    ensures
        ({
            let len = be_length(len_buf@);
            match r {
                Ok(f) => len <= MAX_MESSAGE_SIZE && f == if len == 0 {
                    Frame::KeepAlive
                } else {
                    Frame::Body(len as u32)
                },
                Err(e) => len > MAX_MESSAGE_SIZE && e.spec_kind() == ErrorKind::PeerConnectionClosed,
            }
        }),
        match r {
            Ok(f) => frame_of(be_length(len_buf@)) == Some(f),
            Err(_) => frame_of(be_length(len_buf@)) is None,
        },
{
    let len: u32 = len_buf[0] as u32 * 0x100_0000 + len_buf[1] as u32 * 0x1_0000 + len_buf[2] as u32
        * 0x100 + len_buf[3] as u32;
    if len == 0 {
        Ok(Frame::KeepAlive)
    } else if len > MAX_MESSAGE_SIZE {
        Err(Error::new(ErrorKind::PeerConnectionClosed))
    } else {
        Ok(Frame::Body(len))
    }
}

/// A whole message: its length followed by its body.
pub fn whole_message(len_buf: &[u8; 4], body: &[u8]) -> (r: Vec<u8>)
    ensures
        r@ == len_buf@ + body@,
{
    let mut r: Vec<u8> = Vec::new();
    r.push(len_buf[0]);
    r.push(len_buf[1]);
    r.push(len_buf[2]);
    r.push(len_buf[3]);
    assert(r@ =~= len_buf@);
    r.extend_from_slice(body);
    assert(r@ =~= len_buf@ + body@);
    r
}

/// A connection whose handshakes are done.
pub struct PeerConnection {
    state: PeerState,
    remote_peer_id: Option<PeerId>,
    remote_reserved: [u8; 8],
}

impl PeerConnection {
    /// The protocol state, as contracts speak of it.
    pub closed spec fn spec_state(&self) -> PeerState {
        self.state
    }

    /// The remote peer, as contracts speak of it.
    pub closed spec fn spec_remote_peer_id(&self) -> Option<PeerId> {
        self.remote_peer_id
    }

    /// The extension bits of the remote peer, as contracts speak of them.
    pub closed spec fn spec_remote_reserved(&self) -> Seq<u8> {
        self.remote_reserved@
    }

    /// Set up a connection from the handshake of the remote peer, which must be
    /// for the same torrent.
    pub fn from_handshake(remote: &Handshake, info_hash: &[u8; 20]) -> (r: Result<
        PeerConnection,
        Error,
    >)
        ensures
            match r {
                Ok(c) => {
                    &&& remote.info_hash == *info_hash
                    &&& c.spec_state() == PeerState::Init
                    &&& c.spec_remote_peer_id() == Some(remote.peer_id)
                    &&& c.spec_remote_reserved() == remote.reserved@
                },
                Err(e) => remote.info_hash != *info_hash && e.spec_kind()
                    == ErrorKind::PeerInvalidHandshake,
            },
    {
        if !remote.info_hash.same(info_hash) {
            return Err(Error::new(ErrorKind::PeerInvalidHandshake));
        }
        Ok(
            PeerConnection {
                state: PeerState::Init,
                remote_peer_id: Some(remote.peer_id),
                remote_reserved: remote.reserved,
            },
        )
    }

    /// Return the current connection state.
    pub fn state(&self) -> (s: PeerState)
        ensures
            s == self.spec_state(),
    {
        self.state
    }

    /// Set the connection state.
    pub fn set_state(&mut self, state: PeerState)
        ensures
            final(self).spec_state() == state,
            final(self).spec_remote_peer_id() == old(self).spec_remote_peer_id(),
            final(self).spec_remote_reserved() == old(self).spec_remote_reserved(),
    {
        self.state = state;
    }

    /// Return the remote peer's ID.
    pub fn remote_peer_id(&self) -> (id: Option<PeerId>)
        ensures
            id == self.spec_remote_peer_id(),
    {
        self.remote_peer_id
    }

    /// Check if the remote peer advertised a specific extension bit.
    ///
    /// Bit 0 is the highest bit of the first byte.
    pub fn remote_has_extension(&self, bit: usize) -> (r: bool)
        ensures
            r == has_bit(self.spec_remote_reserved(), bit as int),
    {
        has_extension(&self.remote_reserved, bit)
    }

    /// Return the remote peer's extension bits.
    pub fn remote_reserved(&self) -> (r: &[u8; 8])
        ensures
            r@ == self.spec_remote_reserved(),
    {
        &self.remote_reserved
    }
}

/// Extension bits are counted like the pieces of a bitfield, from the highest bit
/// of the first byte on; there is none past the last byte.
pub proof fn law_has_bit(reserved: Seq<u8>, bit: int)
    requires
        reserved.len() == 8,
    ensures
        0 <= bit < 64 ==> (has_bit(reserved, bit) <==> bit_at(reserved, bit)),
        0 <= bit < 64 ==> (has_bit(reserved, bit) <==> (reserved[bit / 8] >> ((7 - bit
            % 8) as u8)) % 2 == 1),
        bit < 0 || bit >= 64 ==> !has_bit(reserved, bit),
{
    if 0 <= bit < 64 {
        let b = reserved[bit / 8];
        let s = (7 - bit % 8) as u8;
        assert((b >> s) & 1 == 1 <==> b & (1u8 << s) != 0) by (bit_vector)
            requires
                s < 8,
        ;
        assert((b >> s) & 1 == 1 <==> (b >> s) % 2 == 1) by (bit_vector)
            requires
                s < 8,
        ;
    }
}

/// A peer speaks the extension protocol if it sets bit 43 or bit 63.
pub proof fn law_speaks_ltep(reserved: Seq<u8>)
    requires
        reserved.len() == 8,
    ensures
        speaks_ltep(reserved) <==> has_bit(reserved, 43) || has_bit(reserved, 63),
{
    let b = reserved[5];
    assert(b & 0x10 != 0 <==> (b >> 4u8) & 1 == 1) by (bit_vector);
}

/// A length written in four bytes, most significant first, reads back.
pub proof fn law_be_length(n: u32)
    ensures
        be_length(
            seq![
                (n as int / 0x100_0000) as u8,
                (n as int / 0x1_0000 % 0x100) as u8,
                (n as int / 0x100 % 0x100) as u8,
                (n as int % 0x100) as u8,
            ],
        ) == n,
{
}

/// A message of up to two megabytes follows its length with as many bytes; an empty
/// one keeps the connection alive, and a longer one is not read.
pub proof fn law_frame(len: u32)
    ensures
        frame_of(len as int) == Some(Frame::KeepAlive) <==> len == 0,
        frame_of(len as int) == Some(Frame::Body(len)) <==> 0 < len <= 2 * 1024 * 1024,
        frame_of(len as int) is None <==> len > 2 * 1024 * 1024,
{
}

} // verus!
