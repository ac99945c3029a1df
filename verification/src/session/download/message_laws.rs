//! What the messages of a peer do, field by field.

use super::engine::{downloads_after, peer_after, step_for, with_peer, MessageStep};
use super::tables::{asks_for, slot_asks};
use super::types::{is_request_for, DownloadView, PeerView};
use crate::addr::PeerAddr;
use crate::peer::message::PeerMessage;
use crate::seqs::{first_where, lemma_first_where};
use vstd::prelude::*;

verus! {

/// A message changes the peer that sent it and no other, and an unknown sender
/// changes nothing.
pub proof fn law_only_the_sender(
    peers: Map<PeerAddr, PeerView>,
    addr: PeerAddr,
    p: PeerView,
    other: PeerAddr,
)
    ensures
        with_peer(peers, addr, p).dom() == peers.dom(),
        peers.contains_key(addr) ==> with_peer(peers, addr, p)[addr] == p,
        other != addr ==> with_peer(peers, addr, p)[other] == peers[other],
        !peers.contains_key(addr) ==> with_peer(peers, addr, p) == peers,
{
    assert(with_peer(peers, addr, p).dom() =~= peers.dom());
}

/// After a peer told us that it has a piece, it holds that piece and every piece
/// that it held before, and nothing else changed; a piece outside its bitfield
/// changes nothing.
pub proof fn law_have(p: PeerView, index: u32, num_pieces: nat)
    ensures
        ({
            let q = peer_after(p, PeerMessage::Have(index), num_pieces);
            &&& index < p.bitfield.len() ==> q.bitfield[index as int]
            &&& q.bitfield.len() == p.bitfield.len()
            &&& forall|j: int|
                0 <= j < p.bitfield.len() && #[trigger] p.bitfield[j] ==> q.bitfield[j]
            &&& forall|j: int|
                0 <= j < p.bitfield.len() && j != index ==> #[trigger] q.bitfield[j]
                    == p.bitfield[j]
            &&& index >= p.bitfield.len() ==> q == p
            &&& q == (PeerView { bitfield: q.bitfield, ..p })
        }),
{
}

/// A bitfield says of every piece of the torrent whether the peer holds it: the
/// first piece is the highest bit of the first byte, the ninth piece the highest
/// bit of the second, and a piece past the end is not held.
pub proof fn law_bitfield(p: PeerView, bytes: Vec<u8>, num_pieces: nat, i: int)
    requires
        0 <= i < num_pieces,
    ensures
        ({
            let q = peer_after(p, PeerMessage::Bitfield(bytes), num_pieces);
            let shift = (7 - i % 8) as u8;
            &&& q.bitfield.len() == num_pieces
            &&& i >= 8 * bytes@.len() ==> !q.bitfield[i]
            &&& i < 8 * bytes@.len() ==> (q.bitfield[i] <==> (bytes@[i / 8] >> shift) % 2 == 1)
            &&& q == (PeerView { bitfield: q.bitfield, ..p })
        }),
{
    let shift = (7 - i % 8) as u8;
    if i < 8 * bytes@.len() {
        let b = bytes@[i / 8];
        assert(b & (1u8 << shift) != 0 <==> (b >> shift) % 2 == 1) by (bit_vector)
            requires
                shift < 8,
        ;
    }
}

/// A peer that chokes us owes us nothing: no request to it is outstanding and
/// none can be sent until it lets us in again. The blocks it was asked for are
/// free for other peers; nothing else in the pieces in flight changes.
pub proof fn law_choke_frees_requests(
    p: PeerView,
    dls: Map<u32, DownloadView>,
    num_pieces: nat,
    index: u32,
    block: int,
)
    requires
        dls.contains_key(index),
        0 <= block < dls[index].requested.len(),
    ensures
        ({
            let q = peer_after(p, PeerMessage::Choke, num_pieces);
            let after = downloads_after(dls, p, PeerMessage::Choke);
            let asked = exists|j: int|
                0 <= j < p.pipeline.len() && (#[trigger] p.pipeline[j] matches Some(r) && r.0
                    == index && r.1 as int / dls[index].block_size as int == block);
            &&& q.am_choked
            &&& !q.can_request()
            &&& q.pipeline.len() == 5
            &&& forall|j: int| 0 <= j < q.pipeline.len() ==> #[trigger] q.pipeline[j] is None
            &&& q == (PeerView { am_choked: true, pipeline: q.pipeline, ..p })
            &&& after.dom() == dls.dom()
            &&& after[index].requested.len() == dls[index].requested.len()
            &&& asked ==> after[index].requested[block] is None
            &&& !asked ==> after[index].requested[block] == dls[index].requested[block]
            &&& after[index] == (DownloadView {
                requested: after[index].requested,
                ..dls[index]
            })
        }),
{
    let after = downloads_after(dls, p, PeerMessage::Choke);
    let bs = dls[index].block_size;
    assert(after.dom() =~= dls.dom());
    if exists|j: int|
        0 <= j < p.pipeline.len() && (#[trigger] p.pipeline[j] matches Some(r) && r.0 == index
            && r.1 as int / bs as int == block) {
        let j = choose|j: int|
            0 <= j < p.pipeline.len() && (#[trigger] p.pipeline[j] matches Some(r) && r.0 == index
                && r.1 as int / bs as int == block);
        assert(slot_asks(p.pipeline[j], index, block, bs));
        assert(asks_for(p.pipeline, index, block, bs));
    }
    if asks_for(p.pipeline, index, block, bs) {
        let j = choose|j: int|
            0 <= j < p.pipeline.len() && slot_asks(#[trigger] p.pipeline[j], index, block, bs);
    }
}

/// The other messages without data set one flag or nothing: a peer that lets us
/// in no longer chokes us, and its interest is what it last told.
pub proof fn law_flags(p: PeerView, msg: PeerMessage, num_pieces: nat)
    ensures
        peer_after(p, PeerMessage::Unchoke, num_pieces) == (PeerView { am_choked: false, ..p }),
        peer_after(p, PeerMessage::Interested, num_pieces) == (PeerView {
            peer_interested: true,
            ..p
        }),
        peer_after(p, PeerMessage::NotInterested, num_pieces) == (PeerView {
            peer_interested: false,
            ..p
        }),
        msg is KeepAlive || msg is Request || msg is Piece || msg is Port || msg is Extended
            || msg is AllowedFast ==> peer_after(p, msg, num_pieces) == p,
        !(msg is Choke) ==> (peer_after(p, msg, num_pieces).am_choked <==> p.am_choked && !(
        msg is Unchoke)),
        !(msg is Choke) && !(msg is Cancel) ==> peer_after(p, msg, num_pieces).pipeline
            == p.pipeline,
        !(msg is Have) && !(msg is Bitfield) ==> peer_after(p, msg, num_pieces).bitfield
            == p.bitfield,
{
}

/// Only a choke and a cancel touch the pieces in flight.
pub proof fn law_other_messages_leave_downloads(
    dls: Map<u32, DownloadView>,
    p: PeerView,
    msg: PeerMessage,
)
    requires
        !(msg is Choke),
        !(msg is Cancel),
    ensures
        downloads_after(dls, p, msg) == dls,
{
}

/// A cancel takes one request for the block out of the pipeline, if there is one,
/// and frees the block; the other requests and the other blocks stay.
pub proof fn law_cancel(
    p: PeerView,
    dls: Map<u32, DownloadView>,
    num_pieces: nat,
    index: u32,
    begin: u32,
    length: u32,
    slot: int,
)
    requires
        0 <= slot < p.pipeline.len(),
        forall|i: u32| #[trigger] dls.contains_key(i) ==> dls[i].block_size > 0,
        forall|i: int, j: int|
            0 <= i < j < p.pipeline.len() && #[trigger] p.pipeline[i] is Some
                && #[trigger] p.pipeline[j] is Some ==> (p.pipeline[i]->0).0 != (
            p.pipeline[j]->0).0 || (p.pipeline[i]->0).1 != (p.pipeline[j]->0).1,
    ensures
        ({
            let msg = PeerMessage::Cancel { index, begin, length };
            let q = peer_after(p, msg, num_pieces);
            let after = downloads_after(dls, p, msg);
            let hit = p.pipeline[slot] matches Some(r) && r.0 == index && r.1 == begin;
            &&& q.pipeline.len() == p.pipeline.len()
            &&& hit ==> q.pipeline[slot] is None
            &&& !hit ==> q.pipeline[slot] == p.pipeline[slot]
            &&& q == (PeerView { pipeline: q.pipeline, ..p })
            &&& after.dom() == dls.dom()
            &&& forall|i: u32| #[trigger]
                dls.contains_key(i) ==> after[i] == (DownloadView {
                    requested: after[i].requested,
                    ..dls[i]
                }) && after[i].requested.len() == dls[i].requested.len()
            &&& forall|i: u32, b: int|
                dls.contains_key(i) && 0 <= b < dls[i].requested.len()
                    ==> #[trigger] after[i].requested[b] == if i == index && b == begin as int
                    / dls[i].block_size as int {
                    None
                } else {
                    dls[i].requested[b]
                }
        }),
{
    let msg = PeerMessage::Cancel { index, begin, length };
    let q = peer_after(p, msg, num_pieces);
    let after = downloads_after(dls, p, msg);
    let f = is_request_for(index, begin);
    lemma_first_where(p.pipeline, f);
    let at = first_where(p.pipeline, f);
    if f(p.pipeline[slot]) {
        assert(at <= slot);
        if at < slot {
            assert(p.pipeline[at] is Some && p.pipeline[slot] is Some);
        }
    }
    assert(after.dom() =~= dls.dom());
    assert forall|i: u32| #[trigger] dls.contains_key(i) implies after[i] == (DownloadView {
        requested: after[i].requested,
        ..dls[i]
    }) && after[i].requested.len() == dls[i].requested.len() by {
        assert(begin as int / dls[i].block_size as int >= 0);
        assert(after[i] =~= (DownloadView { requested: after[i].requested, ..dls[i] }));
    }
}

/// A peer without a slot is sent nothing. One with a slot gets the bytes that it
/// asks for: out of the piece that the cache holds, from the offset it named on
/// and as many as it asked for or the piece has left; else they are to be read.
pub proof fn law_requests_answered(
    known: bool,
    unchoked: bool,
    cache: Seq<(u32, Seq<u8>)>,
    index: u32,
    begin: u32,
    length: u32,
    step: MessageStep,
)
    requires
        step_for(known, unchoked, cache, PeerMessage::Request { index, begin, length }, step),
        forall|i: int|
            0 <= i < cache.len() && (#[trigger] cache[i]).0 == index ==> begin <= cache[i].1.len(),
    ensures
        !known || !unchoked ==> step is Done,
        known && unchoked && (forall|i: int| 0 <= i < cache.len() ==> (#[trigger] cache[i]).0
            != index) ==> step == (MessageStep::ReadBlock { index, begin, length }),
        step matches MessageStep::Send(m) ==> (m matches PeerMessage::Piece {
            index: i,
            begin: b,
            data,
        } && i == index && b == begin && exists|c: int|
            {
                &&& 0 <= c < cache.len()
                &&& (#[trigger] cache[c]).0 == index
                &&& data@.len() == length || (data@.len() < length && begin + data@.len()
                    == cache[c].1.len())
                &&& forall|k: int|
                    0 <= k < data@.len() ==> #[trigger] data@[k] == cache[c].1[begin + k]
            }),
        known && unchoked && length > 0 && (forall|i: int|
            0 <= i < cache.len() && (#[trigger] cache[i]).0 == index ==> begin
                < cache[i].1.len()) ==> step is Send || step is ReadBlock,
{
    let f = super::engine::is_piece(index);
    lemma_first_where(cache, f);
    let c = first_where(cache, f);
    if c < cache.len() {
        assert(cache[c].0 == index);
    }
}

/// A block is handed on to be stored, and an extension message to its extension,
/// with everything that the peer sent; messages without data ask nothing.
pub proof fn law_data_is_passed_on(
    unchoked: bool,
    cache: Seq<(u32, Seq<u8>)>,
    msg: PeerMessage,
    step: MessageStep,
)
    requires
        step_for(true, unchoked, cache, msg, step),
    ensures
        msg matches PeerMessage::Piece { index, begin, data } ==> step == (
        MessageStep::WriteBlock { index, begin, data }),
        msg matches PeerMessage::Extended { ext_id, data } ==> step == (MessageStep::Extended {
            ext_id,
            data,
        }),
        !(msg is Piece) && !(msg is Extended) && !(msg is Request) ==> step is Done,
{
}

} // verus!
