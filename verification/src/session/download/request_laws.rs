//! Which block is requested from a peer, and what a request leaves behind.

use super::engine::{block_for_peer, next_request, offers_download};
use super::types::{
    block_len_at, is_free, is_request_for, is_unassigned, lemma_block_bounds, with_request,
    without_request, BlockRequest, DownloadView, PeerView, BLOCK_SIZE,
};
use crate::addr::PeerAddr;
use crate::metainfo::Info;
use crate::seqs::{first_where, lemma_first_where};
use crate::time::Nanos;
use vstd::prelude::*;

verus! {

/// The block that starts at `begin` of a piece in flight, if there is one.
proof fn lemma_block_start(d: DownloadView, b: int)
    requires
        d.wf(),
        0 <= b < d.requested.len(),
    ensures
        0 <= b * d.block_size < d.data.len(),
        (b * d.block_size) / d.block_size as int == b,
{
    lemma_block_bounds(d.data.len() as int, d.block_size as int, b);
    vstd::arithmetic::div_mod::lemma_div_multiples_vanish(b, d.block_size as int);
}

/// A block found for a peer lies in a piece in flight that the peer holds, at the
/// start of a block of it. No other peer was asked for it, or in the end game
/// another peer was; the peer itself never was. A block that nobody was asked for
/// goes first.
pub proof fn law_found_block(
    p: PeerView,
    dls: Map<u32, DownloadView>,
    order: Seq<u32>,
    addr: PeerAddr,
    in_endgame: bool,
)
    requires
        forall|i: u32| #[trigger] dls.contains_key(i) <==> order.contains(i),
        forall|i: u32| #[trigger] dls.contains_key(i) ==> dls[i].wf(),
    ensures
        block_for_peer(p, dls, order, addr, in_endgame) matches Some((index, begin)) ==> {
            let d = dls[index];
            let b = begin as int / d.block_size as int;
            &&& dls.contains_key(index)
            &&& index < p.bitfield.len()
            &&& p.bitfield[index as int]
            &&& begin < d.data.len()
            &&& begin as int % d.block_size as int == 0
            &&& 0 <= b < d.requested.len()
            &&& d.requested[b] != Some(addr)
            &&& !in_endgame ==> d.requested[b] is None
            &&& d.requested[b] is Some ==> forall|c: int|
                0 <= c < d.requested.len() ==> #[trigger] d.requested[c] is Some
            &&& d.requested[b] is None ==> forall|c: int|
                0 <= c < b ==> #[trigger] d.requested[c] is Some
        },
{
    let good = |i: u32| offers_download(p, dls[i], addr, i, in_endgame);
    lemma_first_where(order, good);
    let k = first_where(order, good);
    if k < order.len() {
        let index = order[k];
        assert(order.contains(index));
        assert(dls.contains_key(index));
        let d = dls[index];
        let other = |a: Option<PeerAddr>| a is Some && a != Some(addr);
        lemma_first_where(d.requested, is_unassigned());
        lemma_first_where(d.requested, other);
        let free = first_where(d.requested, is_unassigned());
        let b = if free < d.requested.len() {
            free
        } else {
            first_where(d.requested, other)
        };
        lemma_block_start(d, b);
        vstd::arithmetic::div_mod::lemma_mod_multiples_basic(b, d.block_size as int);
    }
}

/// A peer that holds a piece in flight gets a block while one of the piece is
/// unasked for, and in the end game also while one is asked of another peer.
pub proof fn law_block_is_found(
    p: PeerView,
    dls: Map<u32, DownloadView>,
    order: Seq<u32>,
    addr: PeerAddr,
    in_endgame: bool,
    index: u32,
    b: int,
)
    requires
        forall|i: u32| #[trigger] dls.contains_key(i) <==> order.contains(i),
        dls.contains_key(index),
        index < p.bitfield.len(),
        p.bitfield[index as int],
        0 <= b < dls[index].requested.len(),
        dls[index].requested[b] is None || (in_endgame && dls[index].requested[b] != Some(addr)),
    ensures
        block_for_peer(p, dls, order, addr, in_endgame) is Some,
{
    let good = |i: u32| offers_download(p, dls[i], addr, i, in_endgame);
    lemma_first_where(order, good);
    let k = choose|k: int| 0 <= k < order.len() && order[k] == index;
    let d = dls[index];
    let other = |a: Option<PeerAddr>| a is Some && a != Some(addr);
    lemma_first_where(d.requested, is_unassigned());
    lemma_first_where(d.requested, other);
    if d.requested[b] is None {
        assert(is_unassigned()(d.requested[b]));
    } else {
        assert(other(d.requested[b]));
    }
    assert(good(order[k]));
}

/// In the end game a peer with a free request slot that does not choke us, and
/// that holds a piece in flight of which some block is asked of another peer, gets
/// a block to request, and the pieces in flight stay as they are.
pub proof fn law_endgame_shares_blocks(
    p: PeerView,
    dls: Map<u32, DownloadView>,
    order: Seq<u32>,
    addr: PeerAddr,
    selected: Option<u32>,
    max_concurrent_pieces: usize,
    info: Info,
    slot: int,
    index: u32,
    b: int,
    other: PeerAddr,
)
    requires
        forall|i: u32| #[trigger] dls.contains_key(i) <==> order.contains(i),
        !p.am_choked,
        0 <= slot < p.pipeline.len(),
        p.pipeline[slot] is None,
        dls.contains_key(index),
        index < p.bitfield.len(),
        p.bitfield[index as int],
        0 <= b < dls[index].requested.len(),
        dls[index].requested[b] == Some(other),
        other != addr,
    ensures
        ({
            let (block, after) = next_request(
                p,
                dls,
                order,
                addr,
                true,
                selected,
                max_concurrent_pieces,
                info,
            );
            block is Some && after == dls
        }),
{
    law_block_is_found(p, dls, order, addr, true, index, b);
}

/// What a peer is asked for: nothing while it chokes us or every request slot is
/// taken. A block of a piece in flight that is asked for was not asked of that
/// very peer, and outside the end game of no peer. Where none is found, a new
/// piece starts at its first block, as long as fewer pieces than allowed are in
/// flight and the selected piece is not empty.
pub proof fn law_next_request(
    p: PeerView,
    dls: Map<u32, DownloadView>,
    order: Seq<u32>,
    addr: PeerAddr,
    in_endgame: bool,
    selected: Option<u32>,
    max_concurrent_pieces: usize,
    info: Info,
)
    requires
        forall|i: u32| #[trigger] dls.contains_key(i) <==> order.contains(i),
        forall|i: u32| #[trigger] dls.contains_key(i) ==> dls[i].wf(),
        info.wf(),
    ensures
        ({
            let (block, after) = next_request(
                p,
                dls,
                order,
                addr,
                in_endgame,
                selected,
                max_concurrent_pieces,
                info,
            );
            let full = forall|j: int|
                0 <= j < p.pipeline.len() ==> #[trigger] p.pipeline[j] is Some;
            &&& p.am_choked || full ==> block is None
            &&& block is None ==> after == dls
            &&& block matches Some((index, begin)) ==> {
                let d = after[index];
                let b = begin as int / d.block_size as int;
                &&& after.contains_key(index)
                &&& 0 <= b < d.requested.len()
                &&& begin < d.data.len()
                &&& d.requested[b] != Some(addr)
                &&& !in_endgame ==> d.requested[b] is None
                &&& (after == dls && p.bitfield[index as int]) || {
                    &&& selected == Some(index)
                    &&& begin == 0
                    &&& dls.dom().len() < max_concurrent_pieces
                    &&& after == dls.insert(index, d)
                    &&& d.data.len() == info.spec_piece_len(index as int)
                    &&& forall|c: int|
                        0 <= c < d.requested.len() ==> #[trigger] d.requested[c] is None
                    &&& forall|c: int|
                        0 <= c < d.received.len() ==> !#[trigger] d.received[c]
                }
            }
            &&& block is None && !p.am_choked && !full && dls.dom().len() < max_concurrent_pieces
                ==> (selected matches Some(s) ==> info.spec_piece_len(s as int) == 0)
        }),
{
    law_found_block(p, dls, order, addr, in_endgame);
    if let Some(s) = selected {
        let n = info.spec_piece_len(s as int);
        assert(0 <= n <= 0x1_0000_0000 && n <= usize::MAX);
        lemma_block_bounds(n, BLOCK_SIZE as int, 0);
    }
    if exists|i: int| 0 <= i < p.pipeline.len() && #[trigger] p.pipeline[i] is None {
        assert(p.can_request() <==> !p.am_choked);
    }
}

/// Recording a request takes one free slot of the pipeline and leaves the others
/// alone; a full pipeline stays as it is.
pub proof fn law_request_recorded(
    pipeline: Seq<Option<BlockRequest>>,
    index: u32,
    begin: u32,
    now: Nanos,
    free: int,
) -> (slot: int)
    requires
        0 <= free < pipeline.len(),
        pipeline[free] is None,
    ensures
        ({
            let after = with_request(pipeline, index, begin, now);
            &&& 0 <= slot < pipeline.len()
            &&& pipeline[slot] is None
            &&& after.len() == pipeline.len()
            &&& after[slot] == Some((index, begin, now))
            &&& forall|j: int|
                0 <= j < pipeline.len() && j != slot ==> #[trigger] after[j] == pipeline[j]
        }),
{
    lemma_first_where(pipeline, is_free());
    assert(is_free()(pipeline[free]));
    first_where(pipeline, is_free())
}

/// A full pipeline takes no further request.
pub proof fn law_full_pipeline(
    pipeline: Seq<Option<BlockRequest>>,
    index: u32,
    begin: u32,
    now: Nanos,
)
    requires
        forall|j: int| 0 <= j < pipeline.len() ==> #[trigger] pipeline[j] is Some,
    ensures
        with_request(pipeline, index, begin, now) == pipeline,
{
    lemma_first_where(pipeline, is_free());
}

/// Taking a request out frees one slot that asks for the block, the first of
/// them, and leaves the others alone; without such a request nothing changes.
pub proof fn law_request_removed(
    pipeline: Seq<Option<BlockRequest>>,
    index: u32,
    begin: u32,
    slot: int,
)
    requires
        0 <= slot < pipeline.len(),
        forall|j: int|
            0 <= j < slot ==> !(#[trigger] pipeline[j] matches Some(r) && r.0 == index && r.1
                == begin),
    ensures
        ({
            let after = without_request(pipeline, index, begin);
            let hit = pipeline[slot] matches Some(r) && r.0 == index && r.1 == begin;
            &&& after.len() == pipeline.len()
            &&& hit ==> after[slot] is None
            &&& hit ==> forall|j: int|
                0 <= j < pipeline.len() && j != slot ==> #[trigger] after[j] == pipeline[j]
            &&& !hit && slot == pipeline.len() - 1 ==> after == pipeline
        }),
{
    let f = is_request_for(index, begin);
    lemma_first_where(pipeline, f);
    let at = first_where(pipeline, f);
    if at < pipeline.len() {
        assert(f(pipeline[at]));
    }
    if f(pipeline[slot]) {
        assert(at == slot);
    }
}

/// A block starts within its piece and ends there: it is as long as the block
/// size, except that the last one ends with the piece, and nothing lies past the
/// end.
pub proof fn law_block_len(piece_len: int, block_size: int, begin: int)
    requires
        block_size > 0,
        begin >= 0,
    ensures
        ({
            let n = block_len_at(piece_len, block_size, begin);
            &&& 0 <= n <= block_size
            &&& n > 0 <==> begin < piece_len
            &&& n > 0 ==> begin + n <= piece_len
            &&& n < block_size && begin < piece_len ==> begin + n == piece_len
        }),
{
}

/// Assigning a block assigns that block alone; an offset past the piece assigns
/// none.
pub proof fn law_assignment(d: DownloadView, begin: u32, to: Option<PeerAddr>, b: int)
    requires
        d.wf(),
        0 <= b < d.requested.len(),
    ensures
        ({
            let e = d.with_assignment(begin, to);
            &&& e.requested.len() == d.requested.len()
            &&& b * d.block_size <= begin < (b + 1) * d.block_size ==> e.requested[b] == to
            &&& !(b * d.block_size <= begin < (b + 1) * d.block_size) ==> e.requested[b]
                == d.requested[b]
            &&& e == (DownloadView { requested: e.requested, ..d })
        }),
{
    lemma_block_contains(begin as int, d.block_size as int, b);
    assert(begin as int / d.block_size as int >= 0);
}

/// An offset lies in the block that its quotient names.
pub proof fn lemma_block_contains(begin: int, block_size: int, b: int)
    requires
        block_size > 0,
        begin >= 0,
    ensures
        begin / block_size == b <==> b * block_size <= begin < (b + 1) * block_size,
{
    let q = begin / block_size;
    vstd::arithmetic::div_mod::lemma_fundamental_div_mod(begin, block_size);
    vstd::arithmetic::div_mod::lemma_mod_bound(begin, block_size);
    assert(q * block_size <= begin < (q + 1) * block_size) by (nonlinear_arith)
        requires
            begin == block_size * q + begin % block_size,
            0 <= begin % block_size < block_size,
    ;
    if b < q {
        assert((b + 1) * block_size <= q * block_size) by (nonlinear_arith)
            requires
                b + 1 <= q,
                block_size > 0,
        ;
    }
    if b > q {
        assert(b * block_size >= (q + 1) * block_size) by (nonlinear_arith)
            requires
                b >= q + 1,
                block_size > 0,
        ;
    }
}

/// A block that arrives fills its bytes of the piece and no others, and counts as
/// received; one that is there already changes nothing, and one that would overrun
/// the piece is not stored.
pub proof fn law_block_stored(d: DownloadView, begin: u32, block: Seq<u8>, b: int, i: int)
    requires
        d.wf(),
        0 <= b < d.received.len(),
        b * d.block_size <= begin < (b + 1) * d.block_size,
        0 <= i < d.data.len(),
    ensures
        ({
            let e = d.with_block(begin, block);
            &&& d.received[b] ==> e == d
            &&& e.received[b]
            &&& e.received.len() == d.received.len()
            &&& forall|c: int|
                0 <= c < d.received.len() && c != b ==> #[trigger] e.received[c] == d.received[c]
            &&& e.data.len() == d.data.len()
            &&& !d.received[b] && begin + block.len() <= d.data.len() && begin <= i < begin
                + block.len() ==> e.data[i] == block[i - begin]
            &&& d.received[b] || begin + block.len() > d.data.len() || i < begin || i >= begin
                + block.len() ==> e.data[i] == d.data[i]
            &&& e == (DownloadView { data: e.data, received: e.received, ..d })
        }),
{
    lemma_block_contains(begin as int, d.block_size as int, b);
}

} // verus!
