//! Which block to request from which peer.

use crate::addr::PeerAddr;
use crate::metainfo::Info;
use crate::seqs::{count_set, count_true, first_where};
use crate::session::download::availability::{availability, holders};
use crate::session::download::expiry::{expire_stale, expired_downloads, expired_peers, is_dead};
use crate::session::download::pieces::endgame_begins;
use crate::session::download::tables::{Downloads, Peers};
use crate::session::download::types::{
    block_len_at, with_request, ActiveDownload, DownloadView, PeerInfo, PeerView, BLOCK_SIZE,
};
use crate::time::Nanos;
use vstd::prelude::*;

verus! {

/// A block to ask a peer for.
#[derive(Clone, Copy, Debug, PartialEq, Eq, Structural)]
pub struct BlockChoice {
    pub index: u32,
    pub begin: u32,
    pub length: u32,
}

/// Manages piece download pipelines across peers.
///
/// The caller drives it: [`PiecePipeline::begin_fill`] once, then for each peer
/// [`PiecePipeline::choose_block`], and [`PiecePipeline::record_request`] once
/// the request was sent.
pub struct PiecePipeline {
    active_downloads: Downloads,
    endgame: bool,
    max_concurrent_pieces: usize,
    endgame_threshold: usize,
    request_timeout: Nanos,
}

/// Whether piece `i` of the peer is in flight with a block left to request;
/// where `only_fast` is set, the peer must allow it while it chokes us.
pub open spec fn offers_block(
    p: PeerView,
    dls: Map<u32, DownloadView>,
    i: int,
    only_fast: bool,
) -> bool {
    &&& p.bitfield[i]
    &&& only_fast ==> p.peer_allowed_fast.contains(i as u32)
    &&& dls.contains_key(i as u32)
    &&& dls[i as u32].next_unrequested() is Some
}

/// The flags of [`offers_block`] for every piece that a request can name.
pub open spec fn block_offers(
    p: PeerView,
    dls: Map<u32, DownloadView>,
    only_fast: bool,
) -> Seq<bool> {
    Seq::new(
        vstd::math::min(p.bitfield.len() as int, 0x1_0000_0000) as nat,
        |i: int| offers_block(p, dls, i, only_fast),
    )
}

/// The next block to request from the peer among the pieces in flight: the
/// first unrequested block of the lowest piece that qualifies.
pub open spec fn next_block(
    p: PeerView,
    dls: Map<u32, DownloadView>,
    only_fast: bool,
) -> Option<(u32, u32)> {
    let offers = block_offers(p, dls, only_fast);
    let i = first_where(offers, |b: bool| b);
    if i < offers.len() {
        Some((i as u32, dls[i as u32].next_unrequested()->0))
    } else {
        None
    }
}

/// A block that is found belongs to a piece in flight that the peer holds, and
/// is the first unrequested one of it.
pub proof fn lemma_next_block(p: PeerView, dls: Map<u32, DownloadView>, only_fast: bool)
    ensures
        next_block(p, dls, only_fast) matches Some((index, begin)) ==> {
            &&& offers_block(p, dls, index as int, only_fast)
            &&& index < p.bitfield.len()
            &&& dls[index].next_unrequested() == Some(begin)
        },
{
    let offers = block_offers(p, dls, only_fast);
    crate::seqs::lemma_first_where(offers, |b: bool| b);
    let i = first_where(offers, |b: bool| b);
    if i < offers.len() {
        assert(offers[i]);
    }
}

/// Whether the peer takes requests although it chokes us.
pub open spec fn can_request_fast(p: PeerView) -> bool {
    p.am_choked && p.peer_allowed_fast.len() > 0
}

/// Whether the download of the selected piece may start for this peer.
pub open spec fn may_start(
    p: PeerView,
    dls: Map<u32, DownloadView>,
    max_concurrent_pieces: usize,
    selected: Option<u32>,
    info: Info,
) -> bool {
    &&& dls.dom().len() < max_concurrent_pieces
    &&& p.bitfield.len() > 0
    &&& selected matches Some(idx) && !dls.contains_key(idx) && info.spec_piece_len(idx as int) != 0
}

/// What a peer is asked for, and the pieces in flight after that choice: a
/// block of a piece in flight if there is one, else the first block of the
/// selected piece if it may start.
pub open spec fn chosen(
    p: PeerView,
    dls: Map<u32, DownloadView>,
    max_concurrent_pieces: usize,
    selected: Option<u32>,
    info: Info,
) -> (Option<(u32, u32)>, Map<u32, DownloadView>) {
    if !p.can_request() && !can_request_fast(p) {
        (None, dls)
    } else {
        match next_block(p, dls, !p.can_request()) {
            Some(block) => (Some(block), dls),
            None => if may_start(p, dls, max_concurrent_pieces, selected, info) {
                let idx = selected->0;
                let fresh = DownloadView::fresh(
                    idx,
                    info.spec_piece_len(idx as int) as u64,
                    BLOCK_SIZE,
                );
                (Some((idx, 0u32)), dls.insert(idx, fresh))
            } else {
                (None, dls)
            },
        }
    }
}

impl PiecePipeline {
    /// Every piece in flight is well formed.
    pub closed spec fn wf(&self) -> bool {
        self.active_downloads.wf()
    }

    /// The pieces in flight.
    pub closed spec fn downloads(&self) -> Map<u32, DownloadView> {
        self.active_downloads@
    }

    /// Whether the end game has begun.
    pub closed spec fn in_endgame(&self) -> bool {
        self.endgame
    }

    /// The limit on pieces in flight.
    pub closed spec fn spec_max_concurrent_pieces(&self) -> usize {
        self.max_concurrent_pieces
    }

    /// The number of missing pieces below which the end game begins.
    pub closed spec fn spec_endgame_threshold(&self) -> usize {
        self.endgame_threshold
    }

    /// The time a request may take.
    pub closed spec fn spec_request_timeout(&self) -> Nanos {
        self.request_timeout
    }

    /// The limits are those of `other`.
    pub open spec fn same_limits(&self, other: &PiecePipeline) -> bool {
        &&& self.spec_max_concurrent_pieces() == other.spec_max_concurrent_pieces()
        &&& self.spec_endgame_threshold() == other.spec_endgame_threshold()
        &&& self.spec_request_timeout() == other.spec_request_timeout()
    }

    /// A pipeline without pieces in flight, before the end game.
    pub fn new(
        max_concurrent_pieces: usize,
        endgame_threshold: usize,
        request_timeout: Nanos,
    ) -> (p: PiecePipeline)
        ensures
            p.wf(),
            p.downloads() == Map::<u32, DownloadView>::empty(),
            !p.in_endgame(),
            p.spec_max_concurrent_pieces() == max_concurrent_pieces,
            p.spec_endgame_threshold() == endgame_threshold,
            p.spec_request_timeout() == request_timeout,
    {
        PiecePipeline {
            active_downloads: Downloads::new(),
            endgame: false,
            max_concurrent_pieces,
            endgame_threshold,
            request_timeout,
        }
    }

    /// Start filling request pipelines: count how many peers that do not choke
    /// us hold each piece, and enter the end game, for good, when few pieces
    /// are missing.
    pub fn begin_fill(&mut self, peers: &Peers, have: &Vec<bool>, num_pieces: usize) -> (counts:
        Vec<usize>)
        requires
            old(self).wf(),
            peers.wf(),
        ensures
            final(self).wf(),
            final(self).downloads() == old(self).downloads(),
            final(self).same_limits(old(self)),
            ({
                let missing = have@.len() - count_true(have@);
                final(self).in_endgame() == (old(self).in_endgame() || 0 < missing < old(
                    self,
                ).spec_endgame_threshold())
            }),
            final(self).in_endgame() == (old(self).in_endgame() || endgame_begins(
                have@,
                old(self).spec_endgame_threshold(),
            )),
            counts@.len() == num_pieces,
            forall|i: int|
                0 <= i < num_pieces ==> #[trigger] counts@[i] == holders(
                    peers@,
                    peers.order(),
                    i,
                    true,
                ),
    {
        proof {
            crate::seqs::lemma_count_where(have@, |b: bool| b);
        }
        let missing: usize = have.len() - count_set(have);
        if missing > 0 && missing < self.endgame_threshold {
            self.endgame = true;
        }
        availability(peers, num_pieces, true)
    }

    /// Whether the end game has begun: the caller then selects pieces for it.
    pub fn is_endgame(&self) -> (r: bool)
        ensures
            r == self.in_endgame(),
    {
        self.endgame
    }

    /// Find the next block to request from a peer among the pieces in flight.
    pub fn find_block_for_peer(
        peer: &PeerInfo,
        downloads: &Downloads,
        only_allowed_fast: bool,
    ) -> (r: Option<(u32, u32)>)
        requires
            downloads.wf(),
        ensures
            r == next_block(peer@, downloads@, only_allowed_fast),
    {
        let ghost offers = block_offers(peer@, downloads@, only_allowed_fast);
        let ghost yes = |b: bool| b;
        let mut i: usize = 0;
        while i < peer.bitfield.len() && i as u64 <= 0xffff_ffffu64
            invariant
                i <= peer.bitfield@.len(),
                i <= 0x1_0000_0000,
                downloads.wf(),
                yes == (|b: bool| b),
                offers == block_offers(peer@, downloads@, only_allowed_fast),
                forall|j: int| 0 <= j < i ==> !yes(#[trigger] offers[j]),
            decreases peer.bitfield@.len() - i,
        {
            let index: u32 = i as u32;
            if peer.bitfield[i] && (!only_allowed_fast || contains_u32(
                &peer.peer_allowed_fast,
                index,
            )) {
                if let Some(dl) = downloads.get(index) {
                    if let Some(begin) = dl.next_unrequested() {
                        proof {
                            crate::seqs::lemma_first_where_is(offers, yes, i as int);
                        }
                        return Some((index, begin));
                    }
                }
            }
            assert(!offers[i as int]);
            i += 1;
        }
        proof {
            crate::seqs::lemma_first_where_is(offers, yes, offers.len() as int);
        }
        None
    }

    /// Choose the block to request from one peer.
    ///
    /// `selected` is the piece that the selection strategy picks; it is used
    /// when the peer has nothing to offer of the pieces in flight.
    pub fn choose_block(
        &mut self,
        peers: &Peers,
        addr: &PeerAddr,
        selected: Option<u32>,
        info: &Info,
    ) -> (r: Option<BlockChoice>)
        requires
            old(self).wf(),
            peers.wf(),
            info.wf(),
        ensures
            final(self).wf(),
            final(self).same_limits(old(self)),
            final(self).in_endgame() == old(self).in_endgame(),
            !peers@.contains_key(*addr) ==> r is None && final(self).downloads() == old(
                self,
            ).downloads(),
            peers@.contains_key(*addr) ==> ({
                let (block, dls) = chosen(
                    peers@[*addr],
                    old(self).downloads(),
                    old(self).spec_max_concurrent_pieces(),
                    selected,
                    *info,
                );
                &&& final(self).downloads() == dls
                &&& r == match block {
                    Some((index, begin)) => {
                        let len = block_len_at(
                            dls[index].data.len() as int,
                            dls[index].block_size as int,
                            begin as int,
                        );
                        if len == 0 {
                            None
                        } else {
                            Some(BlockChoice { index, begin, length: len as u32 })
                        }
                    },
                    None => None,
                }
            }),
    {
        let peer = match peers.get(addr) {
            Some(p) => p,
            None => {
                return None;
            },
        };
        let normal = peer.can_request();
        let fast = peer.am_choked && peer.peer_allowed_fast.len() > 0;
        if !normal && !fast {
            return None;
        }
        proof {
            self.active_downloads.lemma_wf();
            lemma_next_block(peer@, self.active_downloads@, !normal);
        }
        let found = Self::find_block_for_peer(peer, &self.active_downloads, !normal);
        let (index, begin) = match found {
            Some(block) => block,
            None => {
                if self.active_downloads.len() >= self.max_concurrent_pieces
                    || peer.bitfield.len() == 0 {
                    return None;
                }
                match selected {
                    Some(idx) => {
                        if self.active_downloads.contains(idx) {
                            return None;
                        }
                        let piece_len: u64 = info.piece_len_for_index(idx);
                        if piece_len == 0 {
                            return None;
                        }
                        assert(info.spec_piece_len(idx as int) <= 0x1_0000_0000);
                        let dl = ActiveDownload::new(idx, piece_len, BLOCK_SIZE);
                        self.active_downloads.insert(idx, dl);
                        (idx, 0u32)
                    },
                    None => {
                        return None;
                    },
                }
            },
        };
        match self.active_downloads.get(index) {
            Some(dl) => {
                let length: u32 = dl.block_len(begin);
                if length == 0 {
                    None
                } else {
                    Some(BlockChoice { index, begin, length })
                }
            },
            None => None,
        }
    }

    /// Record that a block was requested from a peer.
    pub fn record_request(
        &mut self,
        peers: &mut Peers,
        addr: PeerAddr,
        index: u32,
        begin: u32,
        now: Nanos,
    )
        requires
            old(self).wf(),
            old(peers).wf(),
        ensures
            final(self).wf(),
            final(peers).wf(),
            final(peers).order() == old(peers).order(),
            final(self).same_limits(old(self)),
            final(self).in_endgame() == old(self).in_endgame(),
            final(peers)@ == if old(peers)@.contains_key(addr) {
                old(peers)@.insert(
                    addr,
                    PeerView {
                        pipeline: with_request(old(peers)@[addr].pipeline, index, begin, now),
                        ..old(peers)@[addr]
                    },
                )
            } else {
                old(peers)@
            },
            final(self).downloads() == if old(self).downloads().contains_key(index) {
                old(self).downloads().insert(
                    index,
                    old(self).downloads()[index].with_assignment(begin, Some(addr)),
                )
            } else {
                old(self).downloads()
            },
    {
        if let Some(peer) = peers.get_mut(&addr) {
            peer.push_request(index, begin, now);
        }
        self.active_downloads.mark_requested(index, begin, addr);
    }

    /// Expire timed-out block requests and drop dead peers, which are returned.
    pub fn expire_stale(&mut self, peers: &mut Peers, now: Nanos) -> (dead: Vec<PeerAddr>)
        requires
            old(self).wf(),
            old(peers).wf(),
        ensures
            final(self).wf(),
            final(peers).wf(),
            final(self).same_limits(old(self)),
            final(self).in_endgame() == old(self).in_endgame(),
            final(peers)@ == expired_peers(old(peers)@, now, old(self).spec_request_timeout()),
            final(self).downloads() == expired_downloads(
                old(self).downloads(),
                old(peers)@,
                now,
                old(self).spec_request_timeout(),
            ),
            dead@ == old(peers).order().filter(
                |a: PeerAddr| is_dead(old(peers)@[a], now, old(self).spec_request_timeout()),
            ),
    {
        let timeout: Nanos = self.request_timeout;
        let dead = expire_stale(peers, &mut self.active_downloads, timeout, now);
        proof {
            assert((|a: PeerAddr| is_dead(old(peers)@[a], now, timeout)) =~= (|a: PeerAddr|
                is_dead(old(peers)@[a], now, old(self).spec_request_timeout())));
        }
        dead
    }

    /// The pieces in flight.
    pub fn active_downloads(&self) -> (d: &Downloads)
        requires
            self.wf(),
        ensures
            d.wf(),
            d@ == self.downloads(),
    {
        &self.active_downloads
    }

    /// The pieces in flight, to be changed in place.
    pub fn active_downloads_mut(&mut self) -> (d: &mut Downloads)
        requires
            old(self).wf(),
        ensures
            d.wf(),
            d@ == old(self).downloads(),
            final(d).wf() ==> final(self).wf(),
            final(self).downloads() == final(d)@,
            final(self).same_limits(old(self)),
            final(self).in_endgame() == old(self).in_endgame(),
    {
        &mut self.active_downloads
    }
}

/// A block is never requested twice: what is chosen is assigned to no peer, and
/// belongs to a piece that is in flight after the choice.
pub proof fn law_chosen_block_is_free(
    p: PeerView,
    dls: Map<u32, DownloadView>,
    max_concurrent_pieces: usize,
    selected: Option<u32>,
    info: Info,
)
    requires
        info.wf(),
        forall|i: u32| #[trigger] dls.contains_key(i) ==> dls[i].wf(),
    ensures
        ({
            let (block, after) = chosen(p, dls, max_concurrent_pieces, selected, info);
            block matches Some((index, begin)) ==> {
                &&& after.contains_key(index)
                &&& after[index].block_of(begin) < after[index].requested.len()
                &&& after[index].requested[after[index].block_of(begin)] is None
            }
        }),
{
    let (block, after) = chosen(p, dls, max_concurrent_pieces, selected, info);
    lemma_next_block(p, dls, !p.can_request());
    if let Some((index, begin)) = block {
        if let Some(b) = next_block(p, dls, !p.can_request()) {
            let d = dls[index];
            let i = first_where(
                d.requested,
                crate::session::download::types::is_unassigned(),
            );
            crate::seqs::lemma_first_where(
                d.requested,
                crate::session::download::types::is_unassigned(),
            );
            crate::session::download::types::lemma_block_bounds(
                d.data.len() as int,
                d.block_size as int,
                i,
            );
            vstd::arithmetic::div_mod::lemma_div_multiples_vanish(i, d.block_size as int);
        } else {
            let len = info.spec_piece_len(index as int);
            assert(len <= 0x1_0000_0000);
            if len < 0 {
                assert(false) by (nonlinear_arith)
                    requires
                        len == info.length - index * info.piece_length || len == info.piece_length,
                        len < 0,
                        index < info.pieces@.len(),
                        info.layout_ok(),
                        info.pieces@.len() > 0,
                        info.piece_length >= 0,
                        (info.pieces@.len() - 1) * info.piece_length <= info.length,
                ;
            }
            crate::session::download::types::lemma_block_bounds(len, BLOCK_SIZE as int, 0);
        }
    }
}

/// The number of pieces in flight stays within the limit.
pub proof fn law_concurrency_limit(
    p: PeerView,
    dls: Map<u32, DownloadView>,
    max_concurrent_pieces: usize,
    selected: Option<u32>,
    info: Info,
)
    requires
        dls.dom().finite(),
        dls.dom().len() <= max_concurrent_pieces,
    ensures
        chosen(p, dls, max_concurrent_pieces, selected, info).1.dom().len() <= max_concurrent_pieces,
{
}

/// Whether `x` occurs in `v`.
pub fn contains_u32(v: &Vec<u32>, x: u32) -> (r: bool)
    ensures
        r == v@.contains(x),
{
    crate::collections::find_key(v, &x).is_some()
}

/// A block comes from the lowest piece in flight that the peer holds and that has
/// a block nobody was asked for, and it is the first such block. While the peer
/// chokes us, only pieces count that it allows in spite of that. If there is such
/// a piece, a block is found.
pub proof fn law_next_block(
    p: PeerView,
    dls: Map<u32, DownloadView>,
    only_fast: bool,
    i: u32,
    b: int,
)
    requires
        i < p.bitfield.len(),
        p.bitfield[i as int],
        !only_fast || p.peer_allowed_fast.contains(i),
        dls.contains_key(i),
        dls[i].wf(),
        0 <= b < dls[i].requested.len(),
        dls[i].requested[b] is None,
    ensures
        next_block(p, dls, only_fast) matches Some((index, begin)) && {
            &&& index <= i
            &&& index < p.bitfield.len()
            &&& p.bitfield[index as int]
            &&& only_fast ==> p.peer_allowed_fast.contains(index)
            &&& dls.contains_key(index)
            &&& index == i ==> begin <= b * dls[i].block_size
        },
{
    let offers = block_offers(p, dls, only_fast);
    let yes = |x: bool| x;
    let free = crate::session::download::types::is_unassigned();
    crate::seqs::lemma_first_where(offers, yes);
    crate::seqs::lemma_first_where(dls[i].requested, free);
    assert(free(dls[i].requested[b]));
    assert(offers_block(p, dls, i as int, only_fast));
    assert(yes(offers[i as int]));
    lemma_next_block(p, dls, only_fast);
    let first = first_where(dls[i].requested, free);
    crate::session::download::types::lemma_block_bounds(
        dls[i].data.len() as int,
        dls[i].block_size as int,
        first,
    );
    assert(first * dls[i].block_size <= b * dls[i].block_size) by (nonlinear_arith)
        requires
            first <= b,
            dls[i].block_size >= 0,
    ;
}

/// A peer that chokes us is asked only for pieces in flight that it allows all the
/// same, or, when none of those has a block left, for the selected piece; a peer
/// that chokes us and allows nothing, or that lets us in but has no free request
/// slot, is asked for nothing. A piece starts only where the limit leaves room, is
/// not in flight yet, and starts empty with its first block.
pub proof fn law_choice(
    p: PeerView,
    dls: Map<u32, DownloadView>,
    max_concurrent_pieces: usize,
    selected: Option<u32>,
    info: Info,
)
    requires
        info.wf(),
    ensures
        ({
            let (block, after) = chosen(p, dls, max_concurrent_pieces, selected, info);
            let full = forall|j: int|
                0 <= j < p.pipeline.len() ==> #[trigger] p.pipeline[j] is Some;
            &&& p.am_choked && p.peer_allowed_fast.len() == 0 ==> block is None
            &&& !p.am_choked && full ==> block is None
            &&& block is None ==> after == dls
            &&& block matches Some((index, begin)) ==> {
                ||| {
                    &&& after == dls
                    &&& dls.contains_key(index)
                    &&& index < p.bitfield.len()
                    &&& p.bitfield[index as int]
                    &&& p.am_choked ==> p.peer_allowed_fast.contains(index)
                }
                ||| {
                    &&& selected == Some(index)
                    &&& begin == 0
                    &&& !dls.contains_key(index)
                    &&& dls.dom().len() < max_concurrent_pieces
                    &&& after == dls.insert(index, after[index])
                    &&& after[index].data.len() == info.spec_piece_len(index as int)
                    &&& forall|c: int|
                        0 <= c < after[index].requested.len()
                            ==> #[trigger] after[index].requested[c] is None
                }
            }
            &&& block is None && !p.am_choked && !full && p.bitfield.len() > 0 && dls.dom().len()
                < max_concurrent_pieces ==> (selected matches Some(s) ==> dls.contains_key(s)
                || info.spec_piece_len(s as int) == 0)
        }),
{
    lemma_next_block(p, dls, !p.can_request());
    if let Some(s) = selected {
        let n = info.spec_piece_len(s as int);
        assert(n <= 0x1_0000_0000 && n <= usize::MAX);
    }
    if exists|i: int| 0 <= i < p.pipeline.len() && #[trigger] p.pipeline[i] is None {
        assert(p.can_request() <==> !p.am_choked);
    }
}

/// The limits of a pipeline: how many pieces at a time, when the end game begins,
/// and how long a request may take.
pub proof fn law_same_limits(p: PiecePipeline, o: PiecePipeline)
    ensures
        p.same_limits(&o) <==> {
            &&& p.spec_max_concurrent_pieces() == o.spec_max_concurrent_pieces()
            &&& p.spec_endgame_threshold() == o.spec_endgame_threshold()
            &&& p.spec_request_timeout() == o.spec_request_timeout()
        },
{
}

} // verus!
