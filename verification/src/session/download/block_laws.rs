//! What a block that arrived does, told by what was there before.

use super::engine::{block_done, counters_fit, wasted_by_block, BlockOutcome, DownloadLoop};
use super::pieces::cache_view;
use super::tables::{asks_for, forget, release, slot_asks};
use super::types::{
    agrees_with, block_bytes, law_assembly, lemma_block_bounds, BlockRequest, DownloadView,
    PeerView,
};
use crate::addr::PeerAddr;
use crate::hash::sha1_of;
use crate::seqs::all_true;
use crate::time::Nanos;
use vstd::prelude::*;

verus! {

/// A peer that delivers a block is credited for every byte of it, once, and counts
/// as alive from then on; what the others delivered stays as it was.
pub proof fn law_block_credited(
    before: DownloadLoop,
    after: DownloadLoop,
    addr: PeerAddr,
    index: u32,
    begin: u32,
    data: Seq<u8>,
    now: Nanos,
    r: BlockOutcome,
    a: PeerAddr,
)
    requires
        block_done(before, after, addr, index, begin, data, now, r),
        counters_fit(before.peers@, addr, data.len() as int),
        after.peers@.contains_key(a),
    ensures
        before.peers@.contains_key(a),
        ({
            let p = before.peers@[a];
            let q = after.peers@[a];
            &&& a == addr ==> q.downloaded_bytes == p.downloaded_bytes + data.len()
            &&& a == addr ==> q.downloaded_this_round == p.downloaded_this_round + data.len()
            &&& a == addr ==> q.last_data_received == Some(now)
            &&& a != addr ==> q == (PeerView { corrupt_blocks: q.corrupt_blocks, ..p })
            &&& q == (PeerView {
                downloaded_bytes: q.downloaded_bytes,
                downloaded_this_round: q.downloaded_this_round,
                last_data_received: q.last_data_received,
                pipeline: q.pipeline,
                corrupt_blocks: q.corrupt_blocks,
                ..p
            })
        }),
        !(r is Corrupt) ==> after.peers@[a].corrupt_blocks == before.peers@[a].corrupt_blocks,
{
}

/// Only a corrupt piece costs a peer anything. Then every peer that was asked for
/// a block of it has one strike more, the others none, and exactly those peers
/// are banned, and gone, whose strikes reach the threshold.
pub proof fn law_corrupt_piece(
    before: DownloadLoop,
    after: DownloadLoop,
    addr: PeerAddr,
    index: u32,
    begin: u32,
    data: Seq<u8>,
    now: Nanos,
    r: BlockOutcome,
    a: PeerAddr,
)
    requires
        before.wf(),
        block_done(before, after, addr, index, begin, data, now, r),
        before.peers@.contains_key(a),
    ensures
        !(r is Corrupt) ==> after.peers@.contains_key(a),
        r matches BlockOutcome::Corrupt(banned) ==> {
            let d = before.active_downloads@[index];
            let guilty = exists|b: int|
                0 <= b < d.requested.len() && #[trigger] d.requested[b] == Some(a);
            let count = before.peers@[a].corrupt_blocks + if guilty {
                1int
            } else {
                0int
            };
            &&& before.active_downloads@.contains_key(index)
            &&& banned@.contains(a) <==> count >= before.limits.corrupt_ban_threshold
            &&& after.peers@.contains_key(a) <==> !banned@.contains(a)
            &&& after.peers@.contains_key(a) ==> after.peers@[a].corrupt_blocks == count
        },
{
    before.peers.lemma_wf();
    if let BlockOutcome::Corrupt(banned) = r {
        let d = before.active_downloads@[index];
        let peers = super::engine::with_peer(
            before.peers@,
            addr,
            super::engine::peer_after_block(
                before.peers@[addr],
                index,
                begin,
                data.len() as int,
                now,
            ),
        );
        let e = super::engine::downloads_after_block(
            before.active_downloads@,
            index,
            begin,
            data,
        )[index];
        assert(e.requested == d.requested);
        let out = |x: PeerAddr|
            super::pieces::strikes(peers[x], e, x) >= before.limits.corrupt_ban_threshold;
        let order = before.peers.order();
        if banned@.contains(a) {
            order.lemma_filter_contains_rev(out, a);
            let j = choose|j: int| 0 <= j < banned@.len() && banned@[j] == a;
            order.lemma_filter_pred(out, j);
        }
        if out(a) {
            assert(order.contains(a));
            let j = choose|j: int| 0 <= j < order.len() && order[j] == a;
            order.lemma_filter_contains(out, j);
        }
        assert(before.peers@[a].corrupt_blocks < u32::MAX);
        if d.requested.contains(Some(a)) {
            let b = choose|b: int| 0 <= b < d.requested.len() && d.requested[b] == Some(a);
            assert(d.requested[b] == Some(a));
        }
    }
}

/// While a block of the piece is missing, nothing is decided: no piece comes to be
/// held, and the piece stays in flight. A block of a piece that is not in flight
/// changes no piece at all.
pub proof fn law_incomplete_piece(
    before: DownloadLoop,
    after: DownloadLoop,
    addr: PeerAddr,
    index: u32,
    begin: u32,
    data: Seq<u8>,
    now: Nanos,
    r: BlockOutcome,
    missing: int,
)
    requires
        before.wf(),
        block_done(before, after, addr, index, begin, data, now, r),
        before.active_downloads@.contains_key(index) ==> 0 <= missing
            < before.active_downloads@[index].received.len() && missing != begin as int
            / before.active_downloads@[index].block_size as int
            && !before.active_downloads@[index].received[missing],
    ensures
        r is Partial,
        after.have@ == before.have@,
        after.piece_cache == before.piece_cache,
        after.active_downloads@.dom() == before.active_downloads@.dom(),
        !before.active_downloads@.contains_key(index) ==> after.active_downloads@
            == before.active_downloads@,
        before.active_downloads@.contains_key(index) ==> ({
            let d = before.active_downloads@[index];
            let b = begin as int / d.block_size as int;
            b < d.received.len() ==> after.active_downloads@[index].received[b]
        }),
{
    let dls = super::engine::downloads_after_block(before.active_downloads@, index, begin, data);
    if before.active_downloads@.contains_key(index) {
        before.active_downloads.lemma_wf();
        assert(begin as int / before.active_downloads@[index].block_size as int >= 0);
        assert(dls[index].received[missing] == before.active_downloads@[index].received[missing]);
        assert(!all_true(dls[index].received));
        assert(dls.dom() =~= before.active_downloads@.dom());
    }
}

/// When the last block of a piece arrives, and what arrived before are bytes of
/// that piece, the outcome rests on the hash of the piece alone. If it is the one
/// in the metadata, the piece is held from then on and is the newest in the cache;
/// otherwise the piece is not held by this. Either way it is no longer in flight,
/// and no other piece is touched.
pub proof fn law_last_block(
    before: DownloadLoop,
    after: DownloadLoop,
    addr: PeerAddr,
    index: u32,
    now: Nanos,
    r: BlockOutcome,
    piece: Seq<u8>,
    last: int,
)
    requires
        before.wf(),
        before.active_downloads@.contains_key(index),
        agrees_with(before.active_downloads@[index], piece),
        0 <= last < before.active_downloads@[index].received.len(),
        !before.active_downloads@[index].received[last],
        forall|b: int|
            0 <= b < before.active_downloads@[index].received.len() && b != last
                ==> #[trigger] before.active_downloads@[index].received[b],
        block_done(
            before,
            after,
            addr,
            index,
            (last * before.active_downloads@[index].block_size) as u32,
            block_bytes(piece, before.active_downloads@[index].block_size, last),
            now,
            r,
        ),
    ensures
        ({
            let good = sha1_of(piece) == before.info.pieces@[index as int]@;
            let cache = cache_view(after.piece_cache@);
            &&& good <==> r is Completed
            &&& !good <==> r is Corrupt
            &&& good && index < before.have@.len() ==> after.have@[index as int]
            &&& good ==> cache.len() > 0 && cache[cache.len() - 1] == (index, piece)
            &&& !good ==> after.have@ == before.have@
            &&& after.have@.len() == before.have@.len()
            &&& forall|i: int|
                0 <= i < before.have@.len() && i != index ==> #[trigger] after.have@[i]
                    == before.have@[i]
            &&& after.active_downloads@ == before.active_downloads@.remove(index)
        }),
{
    let d = before.active_downloads@[index];
    let begin = (last * d.block_size) as u32;
    let block = block_bytes(piece, d.block_size, last);
    before.active_downloads.lemma_wf();
    law_assembly(d, piece, last);
    let e = d.with_block(begin, block);
    let dls = super::engine::downloads_after_block(before.active_downloads@, index, begin, block);
    assert(dls[index] == e);
    assert(all_true(e.received)) by {
        assert forall|b: int| 0 <= b < e.received.len() implies #[trigger] e.received[b] by {
            if b != last {
                assert(d.received[b]);
            }
        }
    }
    lemma_complete_is_piece(e, piece);
    assert(before.active_downloads@.insert(index, e).remove(index)
        =~= before.active_downloads@.remove(index));
}

/// A complete download that agrees with a piece is that piece.
proof fn lemma_complete_is_piece(d: DownloadView, piece: Seq<u8>)
    requires
        agrees_with(d, piece),
        all_true(d.received),
        d.block_size > 0,
        d.received.len() == super::types::block_count(
            d.data.len() as int,
            d.block_size as int,
        ),
    ensures
        d.data == piece,
{
    assert forall|i: int| 0 <= i < piece.len() implies #[trigger] d.data[i] == piece[i] by {
        super::types::lemma_block_of_byte(piece.len() as int, d.block_size as int, i);
        assert(d.received[i / d.block_size as int]);
    }
    assert(d.data =~= piece);
}

/// The bytes of a block count as wasted when they came before, or when its piece
/// is held already; bytes that are new and do not complete a piece are not.
pub proof fn law_wasted(
    l: DownloadLoop,
    index: u32,
    begin: u32,
    data: Seq<u8>,
    missing: int,
)
    requires
        l.wf(),
        l.active_downloads@.contains_key(index) ==> 0 <= missing
            < l.active_downloads@[index].received.len() && missing != begin as int
            / l.active_downloads@[index].block_size as int
            && !l.active_downloads@[index].received[missing],
    ensures
        ({
            let d = l.active_downloads@[index];
            let b = begin as int / d.block_size as int;
            let flying = l.active_downloads@.contains_key(index);
            &&& flying && b < d.received.len() && d.received[b] ==> wasted_by_block(
                l,
                index,
                begin,
                data,
            ) == data.len()
            &&& flying && (b >= d.received.len() || !d.received[b]) ==> wasted_by_block(
                l,
                index,
                begin,
                data,
            ) == 0
            &&& !flying && index < l.have@.len() && l.have@[index as int] ==> wasted_by_block(
                l,
                index,
                begin,
                data,
            ) == data.len()
            &&& !flying && (index >= l.have@.len() || !l.have@[index as int]) ==> wasted_by_block(
                l,
                index,
                begin,
                data,
            ) == 0
        }),
{
    let dls = super::engine::downloads_after_block(l.active_downloads@, index, begin, data);
    if l.active_downloads@.contains_key(index) {
        l.active_downloads.lemma_wf();
        assert(begin as int / l.active_downloads@[index].block_size as int >= 0);
        assert(dls[index].received[missing] == l.active_downloads@[index].received[missing]);
    }
}

/// A piece that turns out corrupt wastes all of its bytes; one that turns out
/// right wastes none when its last block is new.
pub proof fn law_wasted_piece(l: DownloadLoop, index: u32, piece: Seq<u8>, last: int)
    requires
        l.wf(),
        l.active_downloads@.contains_key(index),
        agrees_with(l.active_downloads@[index], piece),
        0 <= last < l.active_downloads@[index].received.len(),
        !l.active_downloads@[index].received[last],
        forall|b: int|
            0 <= b < l.active_downloads@[index].received.len() && b != last
                ==> #[trigger] l.active_downloads@[index].received[b],
    ensures
        wasted_by_block(
            l,
            index,
            (last * l.active_downloads@[index].block_size) as u32,
            block_bytes(piece, l.active_downloads@[index].block_size, last),
        ) == if sha1_of(piece) == l.info.pieces@[index as int]@ {
            0
        } else {
            piece.len() as int
        },
{
    let d = l.active_downloads@[index];
    let begin = (last * d.block_size) as u32;
    let block = block_bytes(piece, d.block_size, last);
    l.active_downloads.lemma_wf();
    law_assembly(d, piece, last);
    lemma_block_bounds(d.data.len() as int, d.block_size as int, last);
    vstd::arithmetic::div_mod::lemma_div_multiples_vanish(last, d.block_size as int);
    let e = d.with_block(begin, block);
    let dls = super::engine::downloads_after_block(l.active_downloads@, index, begin, block);
    assert(dls[index] == e);
    assert(all_true(e.received)) by {
        assert forall|b: int| 0 <= b < e.received.len() implies #[trigger] e.received[b] by {
            if b != last {
                assert(d.received[b]);
            }
        }
    }
    lemma_complete_is_piece(e, piece);
}

/// Releasing the requests of a peer frees exactly the blocks they ask for, and
/// touches nothing else.
pub proof fn law_release(
    dls: Map<u32, DownloadView>,
    slots: Seq<Option<BlockRequest>>,
    index: u32,
    block: int,
)
    requires
        dls.contains_key(index),
        0 <= block < dls[index].requested.len(),
    ensures
        ({
            let after = release(dls, slots);
            let asked = exists|j: int|
                0 <= j < slots.len() && (#[trigger] slots[j] matches Some(r) && r.0 == index
                    && r.1 as int / dls[index].block_size as int == block);
            &&& after.dom() == dls.dom()
            &&& after[index].requested.len() == dls[index].requested.len()
            &&& asked ==> after[index].requested[block] is None
            &&& !asked ==> after[index].requested[block] == dls[index].requested[block]
            &&& after[index] == (DownloadView {
                requested: after[index].requested,
                ..dls[index]
            })
        }),
{
    let bs = dls[index].block_size;
    assert(release(dls, slots).dom() =~= dls.dom());
    if exists|j: int|
        0 <= j < slots.len() && (#[trigger] slots[j] matches Some(r) && r.0 == index && r.1 as int
            / bs as int == block) {
        let j = choose|j: int|
            0 <= j < slots.len() && (#[trigger] slots[j] matches Some(r) && r.0 == index
                && r.1 as int / bs as int == block);
        assert(slot_asks(slots[j], index, block, bs));
    }
    if asks_for(slots, index, block, bs) {
        let j = choose|j: int|
            0 <= j < slots.len() && slot_asks(#[trigger] slots[j], index, block, bs);
    }
}

/// Forgetting a peer leaves no block assigned to it, and every other assignment
/// as it was.
pub proof fn law_forget(
    dls: Map<u32, DownloadView>,
    addr: PeerAddr,
    index: u32,
    block: int,
)
    requires
        dls.contains_key(index),
        0 <= block < dls[index].requested.len(),
    ensures
        ({
            let after = forget(dls, addr);
            &&& after.dom() == dls.dom()
            &&& after[index].requested[block] != Some(addr)
            &&& dls[index].requested[block] != Some(addr) ==> after[index].requested[block]
                == dls[index].requested[block]
            &&& after[index] == (DownloadView {
                requested: after[index].requested,
                ..dls[index]
            })
        }),
{
    assert(forget(dls, addr).dom() =~= dls.dom());
}

/// A block touches its own piece and no other, and brings none into flight.
pub proof fn law_other_pieces(
    dls: Map<u32, DownloadView>,
    index: u32,
    begin: u32,
    data: Seq<u8>,
    i: u32,
)
    ensures
        ({
            let after = super::engine::downloads_after_block(dls, index, begin, data);
            &&& after.dom() == dls.dom()
            &&& i != index ==> after[i] == dls[i]
            &&& dls.contains_key(index) ==> after[index] == dls[index].with_block(begin, data)
        }),
{
    assert(super::engine::downloads_after_block(dls, index, begin, data).dom() =~= dls.dom());
}

/// Bytes are there already exactly when their block was received, or, where the
/// piece is not in flight, when the piece is held.
pub proof fn law_duplicate(
    dls: Map<u32, DownloadView>,
    have: Seq<bool>,
    index: u32,
    begin: u32,
    b: int,
)
    requires
        dls.contains_key(index) ==> dls[index].wf() && b * dls[index].block_size <= begin < (b + 1)
            * dls[index].block_size,
    ensures
        dls.contains_key(index) ==> (super::engine::is_duplicate(dls, have, index, begin) <==> b
            < dls[index].received.len() && dls[index].received[b]),
        !dls.contains_key(index) ==> (super::engine::is_duplicate(dls, have, index, begin)
            <==> index < have.len() && have[index as int]),
{
    if dls.contains_key(index) {
        super::request_laws::lemma_block_contains(begin as int, dls[index].block_size as int, b);
    }
}

/// A block that was sent counts for the peer with all its bytes, in total and for
/// the round, as something that we uploaded and not as something that it sent.
pub proof fn law_block_sent(p: PeerView, len: u64)
    requires
        p.uploaded_bytes + len <= u64::MAX,
        p.uploaded_this_round + len <= u64::MAX,
    ensures
        ({
            let q = super::engine::peer_after_sent(p, len as int);
            &&& q.uploaded_bytes == p.uploaded_bytes + len
            &&& q.uploaded_this_round == p.uploaded_this_round + len
            &&& q == (PeerView {
                uploaded_bytes: q.uploaded_bytes,
                uploaded_this_round: q.uploaded_this_round,
                ..p
            })
        }),
{
}

} // verus!
