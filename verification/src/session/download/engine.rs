//! The download loop: what each event does to the state of a torrent.

use super::availability::{availability, holders};
use super::expiry::{expire_stale, expired_downloads, expired_peers, is_dead};
use super::pieces::{
    cache_piece, cache_view, check_piece, endgame_begins, hash_matches, set_piece, sized_for,
    strike_contributors, strikes, strikes_fit, struck_peers, with_cached, with_piece, PieceCache,
    PieceCheck,
};
use super::tables::{release, unrequest, Downloads, Peers};
use super::types::{
    bits_of, block_len_at, empty_pipeline, parse_bitfield, with_request, without_request,
    ActiveDownload, DownloadView, PeerView, BLOCK_SIZE, ENDGAME_THRESHOLD, MAX_CONCURRENT_DOWNLOADS,
    PIECE_CACHE_SIZE, REQUEST_TIMEOUT,
};
use crate::addr::PeerAddr;
use crate::hash::sha1_of;
use crate::metainfo::Info;
use crate::peer::message::PeerMessage;
use crate::seqs::{all_set, all_true, count_set, count_true, first_where, lemma_first_where};
use crate::session::config::SessionConfig;
use crate::session::swarm::piece_pipeline::BlockChoice;
use crate::session::upload_mgr::UploadManager;
use crate::time::Nanos;
use vstd::prelude::*;

verus! {

/// Strikes after which a peer is banned.
pub const CORRUPT_BAN_THRESHOLD: u32 = 10;

/// Byte counters of a torrent.
#[derive(Clone, Copy, Debug, PartialEq, Eq, Structural)]
pub struct Traffic {
    /// Total bytes downloaded.
    pub total_downloaded: u64,
    /// Total bytes uploaded.
    pub total_uploaded: u64,
    /// Total bytes that turned out corrupt or were there already.
    pub total_wasted: u64,
}

/// The state of the download of a single torrent.
pub struct DownloadLoop {
    /// Piece layout and hashes.
    pub info: Info,
    /// Which pieces we hold.
    pub have: Vec<bool>,
    /// Per-peer protocol state.
    pub peers: Peers,
    /// Currently active piece downloads.
    pub active_downloads: Downloads,
    /// Upload slots.
    pub uploads: UploadManager,
    /// Completed pieces kept for serving uploads, oldest first.
    pub piece_cache: PieceCache,
    /// Byte counters.
    pub traffic: Traffic,
    /// Pieces are selected for the end game.
    pub endgame: bool,
    /// A peer that sends nothing for this long is snubbed.
    pub snub_timeout: Nanos,
    /// Limits of the download.
    pub limits: Limits,
}

/// Limits of a download.
#[derive(Clone, Copy, Debug, PartialEq, Eq, Structural)]
pub struct Limits {
    /// How many pieces are downloaded at the same time.
    pub max_concurrent_pieces: usize,
    /// When fewer than this many pieces remain, the end game begins.
    pub endgame_threshold: usize,
    /// How many pieces are cached for upload serving.
    pub piece_cache_size: usize,
    /// How long a block request may take.
    pub request_timeout: Nanos,
    /// How many corrupt pieces a peer may contribute to before it is banned.
    pub corrupt_ban_threshold: u32,
}

impl Default for Limits {
    fn default() -> (l: Limits)
        ensures
            l == default_limits(),
    {
        Limits {
            max_concurrent_pieces: MAX_CONCURRENT_DOWNLOADS,
            endgame_threshold: ENDGAME_THRESHOLD,
            piece_cache_size: PIECE_CACHE_SIZE,
            request_timeout: REQUEST_TIMEOUT,
            corrupt_ban_threshold: CORRUPT_BAN_THRESHOLD,
        }
    }
}

/// The limits that hold unless others are set.
pub open spec fn default_limits() -> Limits {
    Limits {
        max_concurrent_pieces: MAX_CONCURRENT_DOWNLOADS,
        endgame_threshold: ENDGAME_THRESHOLD,
        piece_cache_size: PIECE_CACHE_SIZE,
        request_timeout: REQUEST_TIMEOUT,
        corrupt_ban_threshold: CORRUPT_BAN_THRESHOLD,
    }
}

impl Limits {
    /// The limits of a session.
    pub fn of_session(config: &SessionConfig) -> (l: Limits)
        ensures
            l == (Limits {
                max_concurrent_pieces: config.max_concurrent_pieces,
                endgame_threshold: config.endgame_threshold,
                piece_cache_size: config.piece_cache_size,
                request_timeout: config.request_timeout,
                corrupt_ban_threshold: config.corrupt_ban_threshold,
            }),
    {
        Limits {
            max_concurrent_pieces: config.max_concurrent_pieces,
            endgame_threshold: config.endgame_threshold,
            piece_cache_size: config.piece_cache_size,
            request_timeout: config.request_timeout,
            corrupt_ban_threshold: config.corrupt_ban_threshold,
        }
    }
}

/// What the caller has to do with a message before its effect is complete.
pub enum MessageStep {
    /// Nothing: the message has had its effect.
    Done,
    /// Write the block to storage, then report it by [`DownloadLoop::block_received`].
    WriteBlock { index: u32, begin: u32, data: Vec<u8> },
    /// Read the block from storage, then hand it to [`piece_message`].
    ReadBlock { index: u32, begin: u32, length: u32 },
    /// Send this message to the peer, then report it by [`DownloadLoop::block_sent`].
    Send(PeerMessage),
    /// Hand the payload to the extension that the number was offered for.
    Extended { ext_id: u8, data: Vec<u8> },
}

/// What a received block led to.
pub enum BlockOutcome {
    /// The piece is not complete, or was not being downloaded.
    Partial,
    /// The piece is complete and its hash matches: tell every peer.
    Completed,
    /// The piece is complete but corrupt; these peers are banned.
    Corrupt(Vec<PeerAddr>),
}

/// The peers after one of them was changed, if it is there.
pub open spec fn with_peer(
    peers: Map<PeerAddr, PeerView>,
    addr: PeerAddr,
    p: PeerView,
) -> Map<PeerAddr, PeerView> {
    if peers.contains_key(addr) {
        peers.insert(addr, p)
    } else {
        peers
    }
}

/// The state of a peer after a message that carries no data.
pub open spec fn peer_after(p: PeerView, msg: PeerMessage, num_pieces: nat) -> PeerView {
    match msg {
        PeerMessage::Choke => PeerView { am_choked: true, pipeline: empty_pipeline(), ..p },
        PeerMessage::Unchoke => PeerView { am_choked: false, ..p },
        PeerMessage::Interested => PeerView { peer_interested: true, ..p },
        PeerMessage::NotInterested => PeerView { peer_interested: false, ..p },
        PeerMessage::Have(index) => if index < p.bitfield.len() {
            PeerView { bitfield: p.bitfield.update(index as int, true), ..p }
        } else {
            p
        },
        PeerMessage::Bitfield(bytes) => PeerView { bitfield: bits_of(bytes@, num_pieces), ..p },
        PeerMessage::Cancel { index, begin, .. } => PeerView {
            pipeline: without_request(p.pipeline, index, begin),
            ..p
        },
        _ => p,
    }
}

/// The pieces in flight after a message that carries no data: a choke frees
/// every block the peer was asked for, a cancel frees one.
pub open spec fn downloads_after(
    dls: Map<u32, DownloadView>,
    p: PeerView,
    msg: PeerMessage,
) -> Map<u32, DownloadView> {
    match msg {
        PeerMessage::Choke => release(dls, p.pipeline),
        PeerMessage::Cancel { index, begin, .. } => unrequest(dls, index, begin),
        _ => dls,
    }
}

/// Whether a cache entry is this piece.
pub open spec fn is_piece(index: u32) -> spec_fn((u32, Seq<u8>)) -> bool {
    |e: (u32, Seq<u8>)| e.0 == index
}

/// The position of a piece in the cache.
pub open spec fn cache_position(cache: Seq<(u32, Seq<u8>)>, index: u32) -> int {
    first_where(cache, is_piece(index))
}

/// Whether every cached piece belongs to the torrent and hashes to the value in
/// the metadata.
pub open spec fn cache_verified(cache: Seq<(u32, Seq<u8>)>, info: Info) -> bool {
    forall|i: int|
        0 <= i < cache.len() ==> (#[trigger] cache[i]).0 < info.pieces@.len() && sha1_of(cache[i].1)
            == info.pieces@[cache[i].0 as int]@
}

/// The requested part of a cached piece, cut off at its end.
pub open spec fn cached_block(piece: Seq<u8>, begin: u32, length: u32) -> Seq<u8> {
    piece.subrange(begin as int, vstd::math::min(begin + length, piece.len() as int))
}

/// A request does not start past the end of the piece that the cache holds.
pub open spec fn request_in_cache(cache: Seq<(u32, Seq<u8>)>, msg: PeerMessage) -> bool {
    msg matches PeerMessage::Request { index, begin, .. } ==> {
        let c = cache_position(cache, index);
        c < cache.len() ==> begin <= cache[c].1.len()
    }
}

/// What a message asks of the caller.
pub open spec fn step_for(
    known: bool,
    unchoked: bool,
    cache: Seq<(u32, Seq<u8>)>,
    msg: PeerMessage,
    step: MessageStep,
) -> bool {
    if !known {
        step is Done
    } else {
        match msg {
            PeerMessage::Piece { index, begin, data } => step == (MessageStep::WriteBlock {
                index,
                begin,
                data,
            }),
            PeerMessage::Extended { ext_id, data } => step == (MessageStep::Extended {
                ext_id,
                data,
            }),
            PeerMessage::Request { index, begin, length } => {
                let c = cache_position(cache, index);
                if !unchoked {
                    step is Done
                } else if c >= cache.len() {
                    step == (MessageStep::ReadBlock { index, begin, length })
                } else {
                    let block = cached_block(cache[c].1, begin, length);
                    if block.len() == 0 {
                        step is Done
                    } else {
                        step matches MessageStep::Send(PeerMessage::Piece {
                            index: i,
                            begin: b,
                            data,
                        }) && i == index && b == begin && data@ == block
                    }
                }
            },
            _ => step is Done,
        }
    }
}

/// The state of a peer after it delivered a block.
pub open spec fn peer_after_block(
    p: PeerView,
    index: u32,
    begin: u32,
    len: int,
    now: Nanos,
) -> PeerView {
    PeerView {
        downloaded_bytes: (p.downloaded_bytes + len) as u64,
        downloaded_this_round: (p.downloaded_this_round + len) as u64,
        last_data_received: Some(now),
        pipeline: without_request(p.pipeline, index, begin),
        ..p
    }
}

/// The state of a peer after a block was sent to it.
pub open spec fn peer_after_sent(p: PeerView, len: int) -> PeerView {
    PeerView {
        uploaded_bytes: (p.uploaded_bytes + len) as u64,
        uploaded_this_round: (p.uploaded_this_round + len) as u64,
        ..p
    }
}

/// The pieces in flight after a block arrived.
pub open spec fn downloads_after_block(
    dls: Map<u32, DownloadView>,
    index: u32,
    begin: u32,
    data: Seq<u8>,
) -> Map<u32, DownloadView> {
    if dls.contains_key(index) {
        dls.insert(index, dls[index].with_block(begin, data))
    } else {
        dls
    }
}

/// The byte counters of a peer leave room for `len` more bytes.
pub open spec fn counters_fit(peers: Map<PeerAddr, PeerView>, addr: PeerAddr, len: int) -> bool {
    peers.contains_key(addr) ==> {
        &&& peers[addr].downloaded_bytes + len <= u64::MAX
        &&& peers[addr].downloaded_this_round + len <= u64::MAX
        &&& peers[addr].uploaded_bytes + len <= u64::MAX
        &&& peers[addr].uploaded_this_round + len <= u64::MAX
    }
}

/// The block message for the peer, unless there is nothing to send.
pub fn piece_message(index: u32, begin: u32, data: Vec<u8>) -> (r: Option<PeerMessage>)
    ensures
        r == if data@.len() == 0 {
            None
        } else {
            Some(PeerMessage::Piece { index, begin, data })
        },
{
    if data.len() == 0 {
        None
    } else {
        Some(PeerMessage::Piece { index, begin, data })
    }
}

/// Whether the peer holds the piece and it has a block to request: an
/// unrequested one, or in the end game one that was requested from another peer.
pub open spec fn offers_download(
    p: PeerView,
    d: DownloadView,
    addr: PeerAddr,
    index: u32,
    in_endgame: bool,
) -> bool {
    &&& index < p.bitfield.len()
    &&& p.bitfield[index as int]
    &&& d.next_unrequested() is Some || (in_endgame && shared_block(d, addr) < d.requested.len())
}

/// The first block that is assigned to another peer.
pub open spec fn shared_block(d: DownloadView, addr: PeerAddr) -> int {
    first_where(d.requested, |a: Option<PeerAddr>| a is Some && a != Some(addr))
}

/// The next block to request from a peer among the pieces in flight, taken in
/// the order in which their downloads started.
pub open spec fn block_for_peer(
    p: PeerView,
    dls: Map<u32, DownloadView>,
    order: Seq<u32>,
    addr: PeerAddr,
    in_endgame: bool,
) -> Option<(u32, u32)> {
    let k = first_where(order, |i: u32| offers_download(p, dls[i], addr, i, in_endgame));
    if k < order.len() {
        let d = dls[order[k]];
        match d.next_unrequested() {
            Some(begin) => Some((order[k], begin)),
            None => Some((order[k], (shared_block(d, addr) * d.block_size) as u32)),
        }
    } else {
        None
    }
}

/// Whether the download of the selected piece may start; one that is in flight
/// starts over.
pub open spec fn may_begin(
    dls: Map<u32, DownloadView>,
    selected: Option<u32>,
    max_concurrent_pieces: usize,
    info: Info,
) -> bool {
    &&& dls.dom().len() < max_concurrent_pieces
    &&& selected matches Some(idx) && info.spec_piece_len(idx as int) != 0
}

/// What a peer is asked for, and the pieces in flight after that choice.
pub open spec fn next_request(
    p: PeerView,
    dls: Map<u32, DownloadView>,
    order: Seq<u32>,
    addr: PeerAddr,
    in_endgame: bool,
    selected: Option<u32>,
    max_concurrent_pieces: usize,
    info: Info,
) -> (Option<(u32, u32)>, Map<u32, DownloadView>) {
    if !p.can_request() {
        (None, dls)
    } else {
        match block_for_peer(p, dls, order, addr, in_endgame) {
            Some(block) => (Some(block), dls),
            None => if may_begin(dls, selected, max_concurrent_pieces, info) {
                let idx = selected->0;
                let fresh = DownloadView::fresh(
                    idx,
                    info.spec_piece_len(idx as int) as u64,
                    BLOCK_SIZE,
                );
                (Some((idx, 0u32)), dls.insert(idx, fresh))
            } else {
                (None, dls)
            },
        }
    }
}

/// Whether a loop is that of a download just started.
pub open spec fn is_new_loop(
    l: DownloadLoop,
    info: Info,
    have: Vec<bool>,
    max_uploads: u32,
    snub_timeout: Nanos,
    limits: Limits,
) -> bool {
    &&& l.wf()
    &&& l.info == info
    &&& l.have == have
    &&& l.peers@ == Map::<PeerAddr, PeerView>::empty()
    &&& l.active_downloads@ == Map::<u32, DownloadView>::empty()
    &&& l.uploads@ == Set::<PeerAddr>::empty()
    &&& l.uploads.spec_max_uploads() == max_uploads
    &&& l.piece_cache@.len() == 0
    &&& l.traffic == (Traffic { total_downloaded: 0, total_uploaded: 0, total_wasted: 0 })
    &&& !l.endgame
    &&& l.snub_timeout == snub_timeout
    &&& l.limits == limits
}

/// Whether the bytes of a block are there already: the block was received, or
/// its piece is held.
pub open spec fn is_duplicate(
    dls: Map<u32, DownloadView>,
    have: Seq<bool>,
    index: u32,
    begin: u32,
) -> bool {
    if dls.contains_key(index) {
        let b = dls[index].block_of(begin);
        b < dls[index].received.len() && dls[index].received[b]
    } else {
        index < have.len() && have[index as int]
    }
}

/// The bytes that an arrived block turns out to have wasted: those of its piece,
/// if the piece is complete and corrupt, and its own, if they are there already.
pub open spec fn wasted_by_block(
    l: DownloadLoop,
    index: u32,
    begin: u32,
    data: Seq<u8>,
) -> int {
    let dls = downloads_after_block(l.active_downloads@, index, begin, data);
    let complete = dls.contains_key(index) && all_true(dls[index].received);
    if complete && !hash_matches(dls, l.info, index) {
        l.info.spec_piece_len(index as int)
    } else if is_duplicate(l.active_downloads@, l.have@, index, begin) {
        data.len() as int
    } else {
        0
    }
}

/// What a block that arrived does: the peer is credited, the block goes into its
/// piece, and a piece that is complete is checked. A valid piece is held and
/// cached; a corrupt one is dropped and its contributors are struck.
pub open spec fn block_done(
    before: DownloadLoop,
    after: DownloadLoop,
    addr: PeerAddr,
    index: u32,
    begin: u32,
    data: Seq<u8>,
    now: Nanos,
    r: BlockOutcome,
) -> bool {
    let peers = with_peer(
        before.peers@,
        addr,
        peer_after_block(before.peers@[addr], index, begin, data.len() as int, now),
    );
    let dls = downloads_after_block(before.active_downloads@, index, begin, data);
    let complete = dls.contains_key(index) && all_true(dls[index].received);
    if !complete {
        &&& r is Partial
        &&& after.peers@ == peers
        &&& after.active_downloads@ == dls
        &&& after.have == before.have
        &&& after.piece_cache == before.piece_cache
    } else if hash_matches(dls, before.info, index) {
        &&& r is Completed
        &&& after.peers@ == peers
        &&& after.active_downloads@ == dls.remove(index)
        &&& after.have@ == with_piece(before.have@, index)
        &&& cache_view(after.piece_cache@) == with_cached(
            cache_view(before.piece_cache@),
            index,
            dls[index].data,
            before.limits.piece_cache_size,
        )
    } else {
        &&& r matches BlockOutcome::Corrupt(banned) && banned@ == before.peers.order().filter(
            |a: PeerAddr| strikes(peers[a], dls[index], a)
                >= before.limits.corrupt_ban_threshold,
        )
        &&& after.peers@ == struck_peers(
            peers,
            dls[index],
            before.limits.corrupt_ban_threshold,
        )
        &&& after.active_downloads@ == dls.remove(index)
        &&& after.have == before.have
        &&& after.piece_cache == before.piece_cache
    }
}

impl DownloadLoop {
    /// The tables are well formed, the pieces in flight belong to the torrent,
    /// and the bytes of the cached pieces are those that their hashes vouch for.
    pub open spec fn wf(&self) -> bool {
        &&& self.info.wf()
        &&& self.peers.wf()
        &&& self.active_downloads.wf()
        &&& sized_for(self.active_downloads@, self.info)
        &&& self.uploads.wf()
        &&& strikes_fit(self.peers@)
        &&& 0 < self.limits.piece_cache_size
        &&& self.piece_cache@.len() <= self.limits.piece_cache_size
        &&& cache_verified(cache_view(self.piece_cache@), self.info)
    }

    /// The torrent and the settings are those of `other`.
    pub open spec fn same_torrent(&self, other: &DownloadLoop) -> bool {
        &&& self.info == other.info
        &&& self.snub_timeout == other.snub_timeout
        &&& self.limits == other.limits
    }

    /// Start downloading a torrent of which we hold the given pieces, with the
    /// usual limits.
    pub fn new(info: Info, have: Vec<bool>, max_uploads: u32, snub_timeout: Nanos) -> (l:
        DownloadLoop)
        requires
            info.wf(),
        ensures
            is_new_loop(l, info, have, max_uploads, snub_timeout, default_limits()),
    {
        let limits = Limits::default();
        DownloadLoop::with_limits(info, have, max_uploads, snub_timeout, limits)
    }

    /// Start downloading a torrent of which we hold the given pieces.
    pub fn with_limits(
        info: Info,
        have: Vec<bool>,
        max_uploads: u32,
        snub_timeout: Nanos,
        limits: Limits,
    ) -> (l: DownloadLoop)
        requires
            info.wf(),
            limits.piece_cache_size > 0,
        ensures
            is_new_loop(l, info, have, max_uploads, snub_timeout, limits),
    {
        DownloadLoop {
            info,
            have,
            peers: Peers::new(),
            active_downloads: Downloads::new(),
            uploads: UploadManager::new(max_uploads),
            piece_cache: Vec::new(),
            traffic: Traffic { total_downloaded: 0, total_uploaded: 0, total_wasted: 0 },
            endgame: false,
            snub_timeout,
            limits,
        }
    }

    /// Drop a peer that disconnected or broke the protocol: its blocks are free
    /// for others. The caller closes the connection.
    pub fn drop_peer(&mut self, addr: &PeerAddr)
        requires
            old(self).wf(),
        ensures
            final(self).wf(),
            final(self).same_torrent(old(self)),
            final(self).have == old(self).have,
            final(self).uploads == old(self).uploads,
            final(self).piece_cache == old(self).piece_cache,
            final(self).traffic == old(self).traffic,
            final(self).endgame == old(self).endgame,
            final(self).peers@ == old(self).peers@.remove(*addr),
            final(self).active_downloads@ == if old(self).peers@.contains_key(*addr) {
                release(old(self).active_downloads@, old(self).peers@[*addr].pipeline)
            } else {
                old(self).active_downloads@
            },
    {
        if let Some(p) = self.peers.get(addr) {
            self.active_downloads.release(&p.pipeline);
        }
        self.peers.remove(addr);
    }

    /// Process a single peer wire protocol message.
    pub fn handle_peer_message(&mut self, addr: PeerAddr, msg: PeerMessage) -> (step: MessageStep)
        requires
            old(self).wf(),
            request_in_cache(cache_view(old(self).piece_cache@), msg),
        ensures
            final(self).wf(),
            final(self).same_torrent(old(self)),
            final(self).have == old(self).have,
            final(self).uploads == old(self).uploads,
            final(self).piece_cache == old(self).piece_cache,
            final(self).traffic == old(self).traffic,
            final(self).endgame == old(self).endgame,
            final(self).peers.order() == old(self).peers.order(),
            ({
                let known = old(self).peers@.contains_key(addr);
                let p = old(self).peers@[addr];
                &&& final(self).peers@ == with_peer(
                    old(self).peers@,
                    addr,
                    peer_after(p, msg, old(self).info.spec_num_pieces()),
                )
                &&& final(self).active_downloads@ == if known {
                    downloads_after(old(self).active_downloads@, p, msg)
                } else {
                    old(self).active_downloads@
                }
                &&& step_for(
                    known,
                    old(self).uploads@.contains(addr),
                    cache_view(old(self).piece_cache@),
                    msg,
                    step,
                )
            }),
            msg matches PeerMessage::Have(index) ==> (old(self).peers@.contains_key(addr) ==> ({
                let held = old(self).peers@[addr].bitfield;
                let now = final(self).peers@[addr].bitfield;
                &&& index < held.len() ==> now[index as int]
                &&& now.len() == held.len()
                &&& forall|i: int| 0 <= i < held.len() && #[trigger] held[i] ==> now[i]
            })),
            msg is Choke && old(self).peers@.contains_key(addr) ==> ({
                let p = final(self).peers@[addr];
                p.am_choked && !p.has_requests()
            }),
    {
        let num_pieces: usize = self.info.num_pieces();
        let ghost before = self.peers@;
        let ghost target = with_peer(
            before,
            addr,
            peer_after(before[addr], msg, num_pieces as nat),
        );
        let peer = match self.peers.get_mut(&addr) {
            Some(p) => p,
            None => {
                return MessageStep::Done;
            },
        };
        let mut step = MessageStep::Done;
        match msg {
            PeerMessage::Choke => {
                peer.am_choked = true;
                self.active_downloads.release(&peer.pipeline);
                peer.pipeline = [None; 5];
                assert(peer.pipeline@ =~= empty_pipeline());
                assert(self.peers@[addr] =~= target[addr]);
            },
            PeerMessage::Unchoke => {
                peer.am_choked = false;
            },
            PeerMessage::Interested => {
                peer.peer_interested = true;
            },
            PeerMessage::NotInterested => {
                peer.peer_interested = false;
            },
            PeerMessage::Have(index) => {
                if (index as usize) < peer.bitfield.len() {
                    peer.bitfield[index as usize] = true;
                }
            },
            PeerMessage::Bitfield(bytes) => {
                peer.bitfield = parse_bitfield(bytes.as_slice(), num_pieces);
            },
            PeerMessage::Piece { index, begin, data } => {
                step = MessageStep::WriteBlock { index, begin, data };
            },
            PeerMessage::Request { index, begin, length } => {
                step = self.serve(addr, index, begin, length);
            },
            PeerMessage::Cancel { index, begin, length: _ } => {
                peer.remove_request(index, begin);
                self.active_downloads.unrequest(index, begin);
            },
            PeerMessage::Extended { ext_id, data } => {
                step = MessageStep::Extended { ext_id, data };
            },
            _ => {},
        }
        proof {
            assert(self.peers@[addr] =~= target[addr]);
            assert(self.peers@ =~= target);
        }
        step
    }

    /// Decide how to answer a block request.
    fn serve(&self, addr: PeerAddr, index: u32, begin: u32, length: u32) -> (step: MessageStep)
        requires
            self.uploads.wf(),
            request_in_cache(
                cache_view(self.piece_cache@),
                PeerMessage::Request { index, begin, length },
            ),
        ensures
            step_for(
                true,
                self.uploads@.contains(addr),
                cache_view(self.piece_cache@),
                PeerMessage::Request { index, begin, length },
                step,
            ),
    {
        if !self.uploads.is_unchoked(&addr) {
            return MessageStep::Done;
        }
        let ghost cache = cache_view(self.piece_cache@);
        let ghost hit = is_piece(index);
        let mut c: usize = 0;
        while c < self.piece_cache.len()
            invariant
                c <= self.piece_cache@.len(),
                cache == cache_view(self.piece_cache@),
                hit == is_piece(index),
                self.uploads@.contains(addr),
                request_in_cache(cache, PeerMessage::Request { index, begin, length }),
                forall|j: int| 0 <= j < c ==> !hit(#[trigger] cache[j]),
            decreases self.piece_cache@.len() - c,
        {
            if self.piece_cache[c].0 == index {
                proof {
                    crate::seqs::lemma_first_where_is(cache, hit, c as int);
                }
                let piece = &self.piece_cache[c].1;
                let start: usize = begin as usize;
                let left: usize = piece.len() - start;
                let n: usize = if (length as u64) < left as u64 {
                    length as usize
                } else {
                    left
                };
                if n == 0 {
                    return MessageStep::Done;
                }
                let mut data: Vec<u8> = Vec::new();
                let mut i: usize = 0;
                while i < n
                    invariant
                        i <= n,
                        start + n <= piece@.len() <= usize::MAX,
                        data@ == piece@.subrange(start as int, start + i),
                    decreases n - i,
                {
                    data.push(piece[start + i]);
                    i += 1;
                    assert(data@ =~= piece@.subrange(start as int, start + i));
                }
                return MessageStep::Send(PeerMessage::Piece { index, begin, data });
            }
            c += 1;
        }
        proof {
            crate::seqs::lemma_first_where_is(cache, hit, c as int);
        }
        MessageStep::ReadBlock { index, begin, length }
    }

    /// Account for a block that was sent to a peer.
    pub fn block_sent(&mut self, addr: &PeerAddr, len: u64)
        requires
            old(self).wf(),
            old(self).traffic.total_uploaded + len <= u64::MAX,
            counters_fit(old(self).peers@, *addr, len as int),
        ensures
            final(self).wf(),
            final(self).same_torrent(old(self)),
            final(self).have == old(self).have,
            final(self).uploads == old(self).uploads,
            final(self).piece_cache == old(self).piece_cache,
            final(self).active_downloads == old(self).active_downloads,
            final(self).endgame == old(self).endgame,
            final(self).traffic == (Traffic {
                total_uploaded: (old(self).traffic.total_uploaded + len) as u64,
                ..old(self).traffic
            }),
            final(self).peers@ == with_peer(
                old(self).peers@,
                *addr,
                PeerView {
                    uploaded_bytes: (old(self).peers@[*addr].uploaded_bytes + len) as u64,
                    uploaded_this_round: (old(self).peers@[*addr].uploaded_this_round + len) as u64,
                    ..old(self).peers@[*addr]
                },
            ),
            final(self).peers@ == with_peer(
                old(self).peers@,
                *addr,
                peer_after_sent(old(self).peers@[*addr], len as int),
            ),
    {
        self.traffic.total_uploaded = self.traffic.total_uploaded + len;
        if let Some(p) = self.peers.get_mut(addr) {
            p.uploaded_bytes = p.uploaded_bytes + len;
            p.uploaded_this_round = p.uploaded_this_round + len;
        }
    }

    /// Account for a block that arrived and was written to storage; a piece
    /// that it completes is checked against its hash.
    pub fn block_received(
        &mut self,
        addr: &PeerAddr,
        index: u32,
        begin: u32,
        data: &[u8],
        now: Nanos,
    ) -> (r: BlockOutcome)
        requires
            old(self).wf(),
            old(self).traffic.total_downloaded + data@.len() <= u64::MAX,
            old(self).traffic.total_wasted + data@.len() <= u64::MAX,
            old(self).traffic.total_wasted + old(self).info.spec_piece_len(index as int)
                <= u64::MAX,
            counters_fit(old(self).peers@, *addr, data@.len() as int),
        ensures
            final(self).wf(),
            final(self).same_torrent(old(self)),
            final(self).uploads == old(self).uploads,
            final(self).endgame == old(self).endgame,
            final(self).traffic == (Traffic {
                total_downloaded: (old(self).traffic.total_downloaded + data@.len()) as u64,
                total_wasted: (old(self).traffic.total_wasted + wasted_by_block(
                    *old(self),
                    index,
                    begin,
                    data@,
                )) as u64,
                ..old(self).traffic
            }),
            block_done(*old(self), *final(self), *addr, index, begin, data@, now, r),
    {
        let len: u64 = data.len() as u64;
        let ghost peers = with_peer(
            old(self).peers@,
            *addr,
            peer_after_block(old(self).peers@[*addr], index, begin, data@.len() as int, now),
        );
        let ghost dls = downloads_after_block(old(self).active_downloads@, index, begin, data@);
        let wasted_before: u64 = self.traffic.total_wasted;
        self.traffic.total_downloaded = self.traffic.total_downloaded + len;
        if let Some(p) = self.peers.get_mut(addr) {
            p.downloaded_bytes = p.downloaded_bytes + len;
            p.downloaded_this_round = p.downloaded_this_round + len;
            p.last_data_received = Some(now);
            p.remove_request(index, begin);
        }
        assert(self.peers@ =~= peers);
        let duplicate = already_there(&self.active_downloads, &self.have, index, begin);
        if duplicate {
            self.traffic.total_wasted = self.traffic.total_wasted + len;
        }
        let complete = self.active_downloads.mark_received(index, begin, data);
        assert(self.active_downloads@ =~= dls);
        assert(sized_for(dls, self.info));
        if !complete {
            return BlockOutcome::Partial;
        }
        match check_piece(&self.active_downloads, &self.info, index) {
            PieceCheck::Unknown => BlockOutcome::Partial,
            PieceCheck::Valid(piece) => {
                set_piece(&mut self.have, index);
                cache_piece(
                    &mut self.piece_cache,
                    index,
                    piece,
                    self.limits.piece_cache_size,
                );
                self.active_downloads.remove(index);
                BlockOutcome::Completed
            },
            PieceCheck::Corrupt => {
                self.traffic.total_wasted = wasted_before + self.info.piece_len_for_index(index);
                let threshold: u32 = self.limits.corrupt_ban_threshold;
                let banned = strike_contributors(
                    &mut self.peers,
                    &self.active_downloads,
                    index,
                    threshold,
                );
                self.active_downloads.remove(index);
                proof {
                    assert((|a: PeerAddr| strikes(peers[a], dls[index], a) >= threshold) =~= (
                    |a: PeerAddr|
                        strikes(peers[a], dls[index], a)
                            >= old(self).limits.corrupt_ban_threshold));
                }
                BlockOutcome::Corrupt(banned)
            },
        }
    }

    /// Expire stale block requests. Returns the peers that were dropped.
    pub fn expire_stale_requests(&mut self, now: Nanos) -> (dead: Vec<PeerAddr>)
        requires
            old(self).wf(),
        ensures
            final(self).wf(),
            final(self).same_torrent(old(self)),
            final(self).have == old(self).have,
            final(self).uploads == old(self).uploads,
            final(self).piece_cache == old(self).piece_cache,
            final(self).traffic == old(self).traffic,
            final(self).endgame == old(self).endgame,
            final(self).peers@ == expired_peers(
                old(self).peers@,
                now,
                old(self).limits.request_timeout,
            ),
            final(self).active_downloads@ == expired_downloads(
                old(self).active_downloads@,
                old(self).peers@,
                now,
                old(self).limits.request_timeout,
            ),
            dead@ == old(self).peers.order().filter(
                |a: PeerAddr| is_dead(
                    old(self).peers@[a],
                    now,
                    old(self).limits.request_timeout,
                ),
            ),
    {
        let dead = expire_stale(
            &mut self.peers,
            &mut self.active_downloads,
            self.limits.request_timeout,
            now,
        );
        assert(sized_for(self.active_downloads@, self.info));
        dead
    }

    /// Start filling request pipelines: count the holders of each piece among
    /// peers that do not choke us, and tell whether the end game is on.
    pub fn begin_fill(&mut self) -> (r: (Vec<usize>, bool))
        requires
            old(self).wf(),
        ensures
            final(self).wf(),
            final(self).same_torrent(old(self)),
            final(self).have == old(self).have,
            final(self).peers == old(self).peers,
            final(self).active_downloads == old(self).active_downloads,
            final(self).uploads == old(self).uploads,
            final(self).piece_cache == old(self).piece_cache,
            final(self).traffic == old(self).traffic,
            r.1 == (0 < old(self).have@.len() - count_true(old(self).have@) < old(
                self,
            ).limits.endgame_threshold),
            r.1 == endgame_begins(old(self).have@, old(self).limits.endgame_threshold),
            final(self).endgame == (old(self).endgame || r.1),
            r.0@.len() == old(self).info.spec_num_pieces(),
            forall|i: int|
                0 <= i < r.0@.len() ==> #[trigger] r.0@[i] == holders(
                    old(self).peers@,
                    old(self).peers.order(),
                    i,
                    true,
                ),
    {
        proof {
            crate::seqs::lemma_count_where(self.have@, |b: bool| b);
        }
        let missing: usize = self.have.len() - count_set(&self.have);
        let in_endgame = missing > 0 && missing < self.limits.endgame_threshold;
        if in_endgame {
            self.endgame = true;
        }
        let counts = availability(&self.peers, self.info.num_pieces(), true);
        (counts, in_endgame)
    }

    /// Find the next block to request from a specific peer.
    pub fn find_block_for_peer(&self, addr: &PeerAddr, in_endgame: bool) -> (r: Option<(u32, u32)>)
        requires
            self.peers.wf(),
            self.active_downloads.wf(),
        ensures
            r == if self.peers@.contains_key(*addr) {
                block_for_peer(
                    self.peers@[*addr],
                    self.active_downloads@,
                    self.active_downloads.order(),
                    *addr,
                    in_endgame,
                )
            } else {
                None
            },
    {
        let peer = match self.peers.get(addr) {
            Some(p) => p,
            None => {
                return None;
            },
        };
        let ghost p = peer@;
        let ghost dls = self.active_downloads@;
        let ghost order = self.active_downloads.order();
        let ghost good = |i: u32| offers_download(p, dls[i], *addr, i, in_endgame);
        proof {
            self.active_downloads.lemma_wf();
        }
        let indices = self.active_downloads.indices();
        let mut k: usize = 0;
        while k < indices.len()
            invariant
                k <= indices@.len(),
                indices@ == order,
                self.active_downloads.wf(),
                peer@ == p,
                dls == self.active_downloads@,
                forall|i: u32| #[trigger] dls.contains_key(i) <==> order.contains(i),
                good == (|i: u32| offers_download(p, dls[i], *addr, i, in_endgame)),
                self.peers@.contains_key(*addr),
                p == self.peers@[*addr],
                order == self.active_downloads.order(),
                forall|j: int| 0 <= j < k ==> !good(#[trigger] order[j]),
            decreases indices@.len() - k,
        {
            let idx: u32 = indices[k];
            if (idx as usize) < peer.bitfield.len() && peer.bitfield[idx as usize] {
                if let Some(dl) = self.active_downloads.get(idx) {
                    if let Some(begin) = dl.next_unrequested() {
                        proof {
                            crate::seqs::lemma_first_where_is(order, good, k as int);
                        }
                        return Some((idx, begin));
                    }
                    if in_endgame {
                        if let Some(b) = find_shared(dl, addr) {
                            proof {
                                crate::seqs::lemma_first_where_is(order, good, k as int);
                                super::types::lemma_block_bounds(
                                    dl.data@.len() as int,
                                    dl.block_size as int,
                                    b as int,
                                );
                            }
                            return Some((idx, b as u32 * dl.block_size));
                        }
                    }
                }
            }
            assert(!good(order[k as int]));
            k += 1;
        }
        proof {
            crate::seqs::lemma_first_where_is(order, good, k as int);
        }
        None
    }

    /// Choose the block to request from one peer. `selected` is the piece that
    /// the selection strategy picks.
    pub fn choose_block(
        &mut self,
        addr: &PeerAddr,
        in_endgame: bool,
        selected: Option<u32>,
    ) -> (r: Option<BlockChoice>)
        requires
            old(self).wf(),
        ensures
            final(self).wf(),
            final(self).same_torrent(old(self)),
            final(self).have == old(self).have,
            final(self).peers == old(self).peers,
            final(self).uploads == old(self).uploads,
            final(self).piece_cache == old(self).piece_cache,
            final(self).traffic == old(self).traffic,
            final(self).endgame == old(self).endgame,
            !old(self).peers@.contains_key(*addr) ==> r is None && final(self).active_downloads@
                == old(self).active_downloads@,
            old(self).peers@.contains_key(*addr) ==> ({
                let (block, dls) = next_request(
                    old(self).peers@[*addr],
                    old(self).active_downloads@,
                    old(self).active_downloads.order(),
                    *addr,
                    in_endgame,
                    selected,
                    old(self).limits.max_concurrent_pieces,
                    old(self).info,
                );
                &&& final(self).active_downloads@ == dls
                &&& r == match block {
                    Some((index, begin)) => {
                        let len = block_len_at(
                            dls[index].data.len() as int,
                            dls[index].block_size as int,
                            begin as int,
                        );
                        if len == 0 {
                            None
                        } else {
                            Some(BlockChoice { index, begin, length: len as u32 })
                        }
                    },
                    None => None,
                }
            }),
    {
        let peer = match self.peers.get(addr) {
            Some(p) => p,
            None => {
                return None;
            },
        };
        if !peer.can_request() {
            return None;
        }
        proof {
            self.active_downloads.lemma_wf();
            lemma_block_for_peer(
                peer@,
                self.active_downloads@,
                self.active_downloads.order(),
                *addr,
                in_endgame,
            );
        }
        let found = self.find_block_for_peer(addr, in_endgame);
        let (index, begin) = match found {
            Some(block) => block,
            None => {
                if self.active_downloads.len() >= self.limits.max_concurrent_pieces {
                    return None;
                }
                match selected {
                    Some(idx) => {
                        let piece_len: u64 = self.info.piece_len_for_index(idx);
                        if piece_len == 0 {
                            return None;
                        }
                        assert(self.info.spec_piece_len(idx as int) <= 0x1_0000_0000);
                        let dl = ActiveDownload::new(idx, piece_len, BLOCK_SIZE);
                        self.active_downloads.insert(idx, dl);
                        (idx, 0u32)
                    },
                    None => {
                        return None;
                    },
                }
            },
        };
        match self.active_downloads.get(index) {
            Some(dl) => {
                let length: u32 = dl.block_len(begin);
                if length == 0 {
                    None
                } else {
                    Some(BlockChoice { index, begin, length })
                }
            },
            None => None,
        }
    }

    /// Record that a block was requested from a peer.
    pub fn record_request(&mut self, addr: PeerAddr, index: u32, begin: u32, now: Nanos)
        requires
            old(self).wf(),
        ensures
            final(self).wf(),
            final(self).same_torrent(old(self)),
            final(self).have == old(self).have,
            final(self).uploads == old(self).uploads,
            final(self).piece_cache == old(self).piece_cache,
            final(self).traffic == old(self).traffic,
            final(self).endgame == old(self).endgame,
            final(self).peers@ == with_peer(
                old(self).peers@,
                addr,
                PeerView {
                    pipeline: with_request(old(self).peers@[addr].pipeline, index, begin, now),
                    ..old(self).peers@[addr]
                },
            ),
            final(self).active_downloads@ == if old(self).active_downloads@.contains_key(index) {
                old(self).active_downloads@.insert(
                    index,
                    old(self).active_downloads@[index].with_assignment(begin, Some(addr)),
                )
            } else {
                old(self).active_downloads@
            },
    {
        if let Some(peer) = self.peers.get_mut(&addr) {
            peer.push_request(index, begin, now);
        }
        self.active_downloads.mark_requested(index, begin, addr);
    }

    /// Whether we hold every piece.
    pub fn is_seeding(&self) -> (r: bool)
        ensures
            r == all_true(self.have@),
    {
        all_set(&self.have)
    }

    /// Send a Have message to each of these peers.
    pub fn broadcast_have(index: u32, connected: &Vec<PeerAddr>) -> (r: Vec<(PeerAddr, PeerMessage)>)
        ensures
            r@ == connected@.map_values(|a: PeerAddr| (a, PeerMessage::Have(index))),
    {
        let mut r: Vec<(PeerAddr, PeerMessage)> = Vec::new();
        let mut i: usize = 0;
        while i < connected.len()
            invariant
                i <= connected@.len(),
                r@ == connected@.take(i as int).map_values(
                    |a: PeerAddr| (a, PeerMessage::Have(index)),
                ),
            decreases connected@.len() - i,
        {
            r.push((connected[i], PeerMessage::Have(index)));
            i += 1;
            assert(r@ =~= connected@.take(i as int).map_values(
                |a: PeerAddr| (a, PeerMessage::Have(index)),
            ));
        }
        assert(connected@.take(i as int) =~= connected@);
        r
    }
}

/// Whether the bytes of a block are there already.
pub fn already_there(downloads: &Downloads, have: &Vec<bool>, index: u32, begin: u32) -> (r: bool)
    requires
        downloads.wf(),
    ensures
        r == is_duplicate(downloads@, have@, index, begin),
{
    match downloads.get(index) {
        Some(dl) => {
            let b: usize = (begin / dl.block_size) as usize;
            b < dl.received.len() && dl.received[b]
        },
        None => (index as usize) < have.len() && have[index as usize],
    }
}

/// The first block that is assigned to another peer.
fn find_shared(dl: &ActiveDownload, addr: &PeerAddr) -> (r: Option<usize>)
    ensures
        match r {
            Some(b) => b == shared_block(dl@, *addr) && b < dl@.requested.len(),
            None => shared_block(dl@, *addr) >= dl@.requested.len(),
        },
        match r {
            Some(b) => dl@.requested[b as int] is Some && dl@.requested[b as int] != Some(*addr),
            None => forall|b: int|
                0 <= b < dl@.requested.len() && #[trigger] dl@.requested[b] is Some
                    ==> dl@.requested[b] == Some(*addr),
        },
{
    let ghost other = |a: Option<PeerAddr>| a is Some && a != Some(*addr);
    let mut b: usize = 0;
    while b < dl.requested.len()
        invariant
            b <= dl.requested@.len(),
            other == (|a: Option<PeerAddr>| a is Some && a != Some(*addr)),
            forall|j: int| 0 <= j < b ==> !other(#[trigger] dl.requested@[j]),
        decreases dl.requested@.len() - b,
    {
        let hit = match dl.requested[b] {
            Some(a) => a != *addr,
            None => false,
        };
        if hit {
            proof {
                crate::seqs::lemma_first_where_is(dl.requested@, other, b as int);
            }
            return Some(b);
        }
        b += 1;
    }
    proof {
        crate::seqs::lemma_first_where_is(dl.requested@, other, b as int);
    }
    None
}

/// A block that is found belongs to a piece in flight.
proof fn lemma_block_for_peer(
    p: PeerView,
    dls: Map<u32, DownloadView>,
    order: Seq<u32>,
    addr: PeerAddr,
    in_endgame: bool,
)
    requires
        forall|i: u32| #[trigger] dls.contains_key(i) <==> order.contains(i),
    ensures
        block_for_peer(p, dls, order, addr, in_endgame) matches Some((index, begin))
            ==> dls.contains_key(index),
{
    let good = |i: u32| offers_download(p, dls[i], addr, i, in_endgame);
    lemma_first_where(order, good);
    let k = first_where(order, good);
    if k < order.len() {
        assert(order.contains(order[k]));
    }
}

/// A piece comes to be held by a block only if its bytes, as they were assembled,
/// hash to the value in the metadata.
pub proof fn law_held_pieces_are_verified(
    before: DownloadLoop,
    after: DownloadLoop,
    addr: PeerAddr,
    index: u32,
    begin: u32,
    data: Seq<u8>,
    now: Nanos,
    r: BlockOutcome,
    i: int,
)
    requires
        block_done(before, after, addr, index, begin, data, now, r),
        0 <= i < before.have@.len(),
        !before.have@[i],
    ensures
        after.have@.len() == before.have@.len(),
        after.have@[i] ==> {
            &&& i == index
            &&& r is Completed
            &&& hash_matches(
                downloads_after_block(before.active_downloads@, index, begin, data),
                before.info,
                index,
            )
        },
{
}

/// A held piece stays held, whatever block arrives.
pub proof fn law_held_pieces_stay(
    before: DownloadLoop,
    after: DownloadLoop,
    addr: PeerAddr,
    index: u32,
    begin: u32,
    data: Seq<u8>,
    now: Nanos,
    r: BlockOutcome,
    i: int,
)
    requires
        block_done(before, after, addr, index, begin, data, now, r),
        0 <= i < before.have@.len(),
        before.have@[i],
    ensures
        after.have@[i],
{
}

/// What is served out of the cache is part of a piece that hashes to the value in
/// the metadata.
pub proof fn law_served_blocks_are_verified(
    l: DownloadLoop,
    unchoked: bool,
    index: u32,
    begin: u32,
    length: u32,
    step: MessageStep,
)
    requires
        l.wf(),
        step_for(
            true,
            unchoked,
            cache_view(l.piece_cache@),
            PeerMessage::Request { index, begin, length },
            step,
        ),
        step is Send,
    ensures
        unchoked,
        index < l.info.pieces@.len(),
        exists|piece: Seq<u8>|
            {
                &&& sha1_of(piece) == l.info.pieces@[index as int]@
                &&& step matches MessageStep::Send(PeerMessage::Piece { data, .. }) && data@
                    == #[trigger] cached_block(piece, begin, length)
            },
{
    let cache = cache_view(l.piece_cache@);
    let c = cache_position(cache, index);
    lemma_first_where(cache, is_piece(index));
    let piece = cache[c].1;
    assert(sha1_of(piece) == l.info.pieces@[index as int]@);
}

/// A cache of verified pieces stays one when a verified piece is added, whatever
/// its size.
pub proof fn law_cache_stays_verified(
    cache: Seq<(u32, Seq<u8>)>,
    info: Info,
    index: u32,
    data: Seq<u8>,
    size: usize,
)
    requires
        size > 0,
        cache_verified(cache, info),
        index < info.pieces@.len(),
        sha1_of(data) == info.pieces@[index as int]@,
    ensures
        cache_verified(with_cached(cache, index, data, size), info),
{
}

/// The limits that hold unless others are set: five pieces at a time, the end game
/// below ten missing pieces, 256 pieces in the cache, a minute for a request, and
/// ten corrupt pieces before a peer is banned.
pub proof fn law_default_limits()
    ensures
        default_limits() == (Limits {
            max_concurrent_pieces: 5,
            endgame_threshold: 10,
            piece_cache_size: 256,
            request_timeout: 60_000_000_000,
            corrupt_ban_threshold: 10,
        }),
{
}

/// A download that was just started holds the given pieces and goes by the given
/// settings. Nobody is known, nothing is in flight or in the cache, nobody is let
/// in, and nothing was transferred.
pub proof fn law_new_loop(
    l: DownloadLoop,
    info: Info,
    have: Vec<bool>,
    max_uploads: u32,
    snub_timeout: Nanos,
    limits: Limits,
    a: PeerAddr,
    i: u32,
)
    requires
        is_new_loop(l, info, have, max_uploads, snub_timeout, limits),
    ensures
        l.wf(),
        l.info == info,
        l.have@ == have@,
        !l.peers@.contains_key(a),
        !l.active_downloads@.contains_key(i),
        !l.uploads@.contains(a),
        l.uploads.spec_max_uploads() == max_uploads,
        l.piece_cache@.len() == 0,
        l.traffic.total_downloaded == 0,
        l.traffic.total_uploaded == 0,
        l.traffic.total_wasted == 0,
        !l.endgame,
        l.snub_timeout == snub_timeout,
        l.limits == limits,
{
}

/// A loop of the same torrent has the same layout and hashes, the same snub timeout
/// and the same limits.
pub proof fn law_same_torrent(l: DownloadLoop, other: DownloadLoop)
    ensures
        l.same_torrent(&other) <==> l.info == other.info && l.snub_timeout == other.snub_timeout
            && l.limits == other.limits,
{
}

/// A request fits the cache if it does not begin past the end of the first piece
/// in the cache that has its index.
pub proof fn law_request_in_cache(
    cache: Seq<(u32, Seq<u8>)>,
    index: u32,
    begin: u32,
    length: u32,
    c: int,
)
    requires
        0 <= c <= cache.len(),
        forall|i: int| 0 <= i < c ==> (#[trigger] cache[i]).0 != index,
        c < cache.len() ==> cache[c].0 == index,
    ensures
        request_in_cache(cache, PeerMessage::Request { index, begin, length }) <==> c == cache.len()
            || begin <= cache[c].1.len(),
        cache_position(cache, index) == c,
{
    crate::seqs::lemma_first_where_is(cache, is_piece(index), c);
}

} // verus!
