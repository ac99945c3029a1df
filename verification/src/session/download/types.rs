//! Per-peer and per-piece state of a download.

use crate::addr::PeerAddr;
use crate::peer::message::PeerMessage;
use crate::seqs::{all_set, all_true, first_where};
use crate::time::Nanos;
use vstd::prelude::*;

verus! {

/// Maximum number of pieces to download concurrently.
pub const MAX_CONCURRENT_DOWNLOADS: usize = 5;

/// How many blocks to keep in flight per peer.
pub const PIPELINE_SIZE: usize = 5;

/// How many pieces to cache for upload serving.
pub const PIECE_CACHE_SIZE: usize = 256;

/// When fewer than this many pieces remain, the end game begins.
pub const ENDGAME_THRESHOLD: usize = 10;

/// Timeout for an individual block request, in nanoseconds.
pub const REQUEST_TIMEOUT: Nanos = 60_000_000_000;

/// Default block size.
pub const BLOCK_SIZE: u32 = 16384;

/// Event from a peer reader.
pub enum PeerEvent {
    /// A valid protocol message.
    Message(PeerMessage),
    /// The peer disconnected.
    Disconnected,
}

/// An outstanding request: piece, offset of the block, and the time it was sent.
pub type BlockRequest = (u32, u32, Nanos);

/// Extension names with the message numbers that were agreed for them.
pub type ExtensionIds = Vec<(String, u8)>;

/// Per-peer protocol state tracked by the download loop.
pub struct PeerInfo {
    /// Which pieces this peer has.
    pub bitfield: Vec<bool>,
    /// Outstanding block requests sent to this peer; `None` is a free slot.
    pub pipeline: [Option<BlockRequest>; 5],
    /// We are choked by this peer.
    pub am_choked: bool,
    /// We have sent Interested to this peer.
    pub am_interested: bool,
    /// This peer has sent Interested to us.
    pub peer_interested: bool,
    /// Bytes uploaded to this peer.
    pub uploaded_bytes: u64,
    /// Bytes downloaded from this peer.
    pub downloaded_bytes: u64,
    /// Bytes uploaded to this peer since the last choke round.
    pub uploaded_this_round: u64,
    /// Bytes downloaded from this peer since the last choke round.
    pub downloaded_this_round: u64,
    /// Bytes uploaded to this peer, as of the last status update.
    pub reported_up: u64,
    /// Bytes downloaded from this peer, as of the last status update.
    pub reported_down: u64,
    /// When this peer last sent us data.
    pub last_data_received: Option<Nanos>,
    /// Corrupt pieces this peer contributed to.
    pub corrupt_blocks: u32,
    /// Message numbers we offered for our extensions.
    pub our_extension_ids: ExtensionIds,
    /// Message numbers the peer offered for its extensions.
    pub remote_extension_ids: ExtensionIds,
    /// What the peer calls itself.
    pub client_version: Option<String>,
    /// Size of the info dictionary, as the peer states it.
    pub metadata_size: Option<u64>,
    /// How many requests the peer queues.
    pub max_requests: usize,
    /// When we last sent a peer exchange message.
    pub last_pex_sent: Option<Nanos>,
    /// When we last received a peer exchange message.
    pub last_pex_received: Option<Nanos>,
    /// Pieces the peer lets us request while choked.
    pub peer_allowed_fast: Vec<u32>,
    /// Pieces we let the peer request while choked.
    pub our_allowed_fast: Vec<u32>,
}

/// The mathematical content of a [`PeerInfo`].
#[verifier::ext_equal]
pub struct PeerView {
    pub bitfield: Seq<bool>,
    pub pipeline: Seq<Option<BlockRequest>>,
    pub am_choked: bool,
    pub am_interested: bool,
    pub peer_interested: bool,
    pub uploaded_bytes: u64,
    pub downloaded_bytes: u64,
    pub uploaded_this_round: u64,
    pub downloaded_this_round: u64,
    pub reported_up: u64,
    pub reported_down: u64,
    pub last_data_received: Option<Nanos>,
    pub corrupt_blocks: u32,
    pub our_extension_ids: Seq<(String, u8)>,
    pub remote_extension_ids: Seq<(String, u8)>,
    pub client_version: Option<String>,
    pub metadata_size: Option<u64>,
    pub max_requests: usize,
    pub last_pex_sent: Option<Nanos>,
    pub last_pex_received: Option<Nanos>,
    pub peer_allowed_fast: Seq<u32>,
    pub our_allowed_fast: Seq<u32>,
}

impl View for PeerInfo {
    type V = PeerView;

    open spec fn view(&self) -> PeerView {
        PeerView {
            bitfield: self.bitfield@,
            pipeline: self.pipeline@,
            am_choked: self.am_choked,
            am_interested: self.am_interested,
            peer_interested: self.peer_interested,
            uploaded_bytes: self.uploaded_bytes,
            downloaded_bytes: self.downloaded_bytes,
            uploaded_this_round: self.uploaded_this_round,
            downloaded_this_round: self.downloaded_this_round,
            reported_up: self.reported_up,
            reported_down: self.reported_down,
            last_data_received: self.last_data_received,
            corrupt_blocks: self.corrupt_blocks,
            our_extension_ids: self.our_extension_ids@,
            remote_extension_ids: self.remote_extension_ids@,
            client_version: self.client_version,
            metadata_size: self.metadata_size,
            max_requests: self.max_requests,
            last_pex_sent: self.last_pex_sent,
            last_pex_received: self.last_pex_received,
            peer_allowed_fast: self.peer_allowed_fast@,
            our_allowed_fast: self.our_allowed_fast@,
        }
    }
}

/// Whether a slot is free.
pub open spec fn is_free() -> spec_fn(Option<BlockRequest>) -> bool {
    |s: Option<BlockRequest>| s is None
}

/// Whether a slot holds a request for this block.
pub open spec fn is_request_for(index: u32, begin: u32) -> spec_fn(Option<BlockRequest>) -> bool {
    |s: Option<BlockRequest>| s matches Some(r) && r.0 == index && r.1 == begin
}

/// The pipeline without any request.
pub open spec fn empty_pipeline() -> Seq<Option<BlockRequest>> {
    Seq::new(PIPELINE_SIZE as nat, |i: int| None)
}

/// The pipeline after a request was recorded in its first free slot, if any.
pub open spec fn with_request(
    pipeline: Seq<Option<BlockRequest>>,
    index: u32,
    begin: u32,
    now: Nanos,
) -> Seq<Option<BlockRequest>> {
    let slot = first_where(pipeline, is_free());
    if slot < pipeline.len() {
        pipeline.update(slot, Some((index, begin, now)))
    } else {
        pipeline
    }
}

/// The pipeline after the first request for the block was taken out, if any.
pub open spec fn without_request(
    pipeline: Seq<Option<BlockRequest>>,
    index: u32,
    begin: u32,
) -> Seq<Option<BlockRequest>> {
    let slot = first_where(pipeline, is_request_for(index, begin));
    if slot < pipeline.len() {
        pipeline.update(slot, None)
    } else {
        pipeline
    }
}

impl PeerView {
    /// A peer that has just connected.
    pub open spec fn fresh() -> PeerView {
        PeerView {
            bitfield: Seq::empty(),
            pipeline: empty_pipeline(),
            am_choked: true,
            am_interested: false,
            peer_interested: false,
            uploaded_bytes: 0,
            downloaded_bytes: 0,
            uploaded_this_round: 0,
            downloaded_this_round: 0,
            reported_up: 0,
            reported_down: 0,
            last_data_received: None,
            corrupt_blocks: 0,
            our_extension_ids: Seq::empty(),
            remote_extension_ids: Seq::empty(),
            client_version: None,
            metadata_size: None,
            max_requests: PIPELINE_SIZE,
            last_pex_sent: None,
            last_pex_received: None,
            peer_allowed_fast: Seq::empty(),
            our_allowed_fast: Seq::empty(),
        }
    }

    /// Whether a new request may be sent to this peer.
    pub open spec fn can_request(self) -> bool {
        !self.am_choked && exists|i: int| 0 <= i < self.pipeline.len() && #[trigger] self.pipeline[i] is None
    }

    /// Whether any request to this peer is outstanding.
    pub open spec fn has_requests(self) -> bool {
        exists|i: int| 0 <= i < self.pipeline.len() && #[trigger] self.pipeline[i] is Some
    }
}

impl PeerInfo {
    /// A peer that has just connected: choked, not interested, with nothing requested.
    pub fn new() -> (p: PeerInfo)
        ensures
            p@ == PeerView::fresh(),
    {
        let p = PeerInfo {
            bitfield: Vec::new(),
            pipeline: [None; 5],
            am_choked: true,
            am_interested: false,
            peer_interested: false,
            uploaded_bytes: 0,
            downloaded_bytes: 0,
            uploaded_this_round: 0,
            downloaded_this_round: 0,
            reported_up: 0,
            reported_down: 0,
            last_data_received: None,
            corrupt_blocks: 0,
            our_extension_ids: Vec::new(),
            remote_extension_ids: Vec::new(),
            client_version: None,
            metadata_size: None,
            max_requests: PIPELINE_SIZE,
            last_pex_sent: None,
            last_pex_received: None,
            peer_allowed_fast: Vec::new(),
            our_allowed_fast: Vec::new(),
        };
        assert(p.pipeline@ =~= empty_pipeline());
        assert(p@ =~= PeerView::fresh());
        p
    }

    /// Whether this peer can accept a new request.
    pub fn can_request(&self) -> (r: bool)
        ensures
            r == self@.can_request(),
    {
        if self.am_choked {
            return false;
        }
        let mut i: usize = 0;
        while i < 5
            invariant
                i <= 5,
                !self.am_choked,
                forall|j: int| 0 <= j < i ==> !(#[trigger] self.pipeline@[j] is None),
            decreases 5 - i,
        {
            if self.pipeline[i].is_none() {
                assert(self@.pipeline[i as int] is None);
                return true;
            }
            i += 1;
        }
        false
    }

    /// Record a new outstanding request, if a slot is free.
    pub fn push_request(&mut self, index: u32, begin: u32, now: Nanos)
        ensures
            final(self)@ == (PeerView {
                pipeline: with_request(old(self)@.pipeline, index, begin, now),
                ..old(self)@
            }),
    {
        let mut i: usize = 0;
        while i < 5
            invariant
                i <= 5,
                *self == *old(self),
                forall|j: int| 0 <= j < i ==> !(#[trigger] self.pipeline@[j] is None),
            decreases 5 - i,
        {
            if self.pipeline[i].is_none() {
                proof {
                    crate::seqs::lemma_first_where_is(self.pipeline@, is_free(), i as int);
                }
                self.pipeline[i] = Some((index, begin, now));
                assert(self@ =~= (PeerView {
                    pipeline: with_request(old(self)@.pipeline, index, begin, now),
                    ..old(self)@
                }));
                return;
            }
            i += 1;
        }
        proof {
            crate::seqs::lemma_first_where_is(self.pipeline@, is_free(), 5);
        }
    }

    /// Remove a specific request (block arrived or cancelled).
    pub fn remove_request(&mut self, index: u32, begin: u32)
        ensures
            final(self)@ == (PeerView {
                pipeline: without_request(old(self)@.pipeline, index, begin),
                ..old(self)@
            }),
    {
        let mut i: usize = 0;
        while i < 5
            invariant
                i <= 5,
                *self == *old(self),
                forall|j: int|
                    0 <= j < i ==> !is_request_for(index, begin)(#[trigger] self.pipeline@[j]),
            decreases 5 - i,
        {
            let hit = match self.pipeline[i] {
                Some(r) => r.0 == index && r.1 == begin,
                None => false,
            };
            if hit {
                proof {
                    crate::seqs::lemma_first_where_is(
                        self.pipeline@,
                        is_request_for(index, begin),
                        i as int,
                    );
                }
                self.pipeline[i] = None;
                assert(self@ =~= (PeerView {
                    pipeline: without_request(old(self)@.pipeline, index, begin),
                    ..old(self)@
                }));
                return;
            }
            i += 1;
        }
        proof {
            crate::seqs::lemma_first_where_is(self.pipeline@, is_request_for(index, begin), 5);
        }
    }
}

/// Taking a request out undoes recording it: with a free slot and no request
/// for the block before, the pipeline is what it was.
pub proof fn law_remove_undoes_push(
    pipeline: Seq<Option<BlockRequest>>,
    index: u32,
    begin: u32,
    now: Nanos,
)
    requires
        forall|i: int|
            0 <= i < pipeline.len() ==> !is_request_for(index, begin)(#[trigger] pipeline[i]),
    ensures
        without_request(with_request(pipeline, index, begin, now), index, begin) == pipeline,
{
    let slot = first_where(pipeline, is_free());
    crate::seqs::lemma_first_where(pipeline, is_free());
    let after = with_request(pipeline, index, begin, now);
    if slot < pipeline.len() {
        assert forall|j: int| 0 <= j < slot implies !is_request_for(index, begin)(
            #[trigger] after[j],
        ) by {}
        crate::seqs::lemma_first_where_is(after, is_request_for(index, begin), slot);
        assert(after.update(slot, None) =~= pipeline);
    } else {
        crate::seqs::lemma_first_where_is(
            pipeline,
            is_request_for(index, begin),
            pipeline.len() as int,
        );
    }
}

/// An in-progress piece download, assembling blocks from peers.
pub struct ActiveDownload {
    /// Piece index being downloaded.
    pub index: u32,
    /// The piece, as far as it has arrived.
    pub data: Vec<u8>,
    /// Which peer is currently assigned to each block. `None` is unrequested.
    pub requested: Vec<Option<PeerAddr>>,
    /// Which blocks have been received.
    pub received: Vec<bool>,
    /// Block size in bytes.
    pub block_size: u32,
    /// Number of blocks of the piece.
    pub num_blocks: usize,
}

/// The mathematical content of an [`ActiveDownload`].
#[verifier::ext_equal]
pub struct DownloadView {
    pub index: u32,
    pub data: Seq<u8>,
    pub requested: Seq<Option<PeerAddr>>,
    pub received: Seq<bool>,
    pub block_size: u32,
    pub num_blocks: usize,
}

impl View for ActiveDownload {
    type V = DownloadView;

    open spec fn view(&self) -> DownloadView {
        DownloadView {
            index: self.index,
            data: self.data@,
            requested: self.requested@,
            received: self.received@,
            block_size: self.block_size,
            num_blocks: self.num_blocks,
        }
    }
}

/// The number of blocks of a piece: its length divided by the block size, rounded up.
pub open spec fn block_count(piece_len: int, block_size: int) -> int {
    (piece_len + block_size - 1) / block_size
}

/// The length of the block at `begin` in a piece of `piece_len` bytes.
pub open spec fn block_len_at(piece_len: int, block_size: int, begin: int) -> int {
    if begin >= piece_len {
        0
    } else if piece_len - begin < block_size {
        piece_len - begin
    } else {
        block_size
    }
}

/// Whether a block is not assigned to any peer.
pub open spec fn is_unassigned() -> spec_fn(Option<PeerAddr>) -> bool {
    |a: Option<PeerAddr>| a is None
}

impl DownloadView {
    /// One flag and one assignment per block, offsets that fit a request.
    pub open spec fn wf(self) -> bool {
        &&& self.block_size > 0
        &&& self.data.len() <= 0x1_0000_0000
        &&& self.requested.len() == block_count(self.data.len() as int, self.block_size as int)
        &&& self.received.len() == self.requested.len()
        &&& self.num_blocks == self.requested.len()
    }

    /// A piece of which nothing was requested yet.
    pub open spec fn fresh(index: u32, piece_len: u64, block_size: u32) -> DownloadView {
        let n = block_count(piece_len as int, block_size as int) as nat;
        DownloadView {
            index,
            data: Seq::new(piece_len as nat, |i: int| 0u8),
            requested: Seq::new(n, |i: int| None),
            received: Seq::new(n, |i: int| false),
            block_size,
            num_blocks: n as usize,
        }
    }

    /// The block that an offset falls into.
    pub open spec fn block_of(self, begin: u32) -> int {
        begin as int / self.block_size as int
    }

    /// The offset of the first unrequested block.
    pub open spec fn next_unrequested(self) -> Option<u32> {
        let i = first_where(self.requested, is_unassigned());
        if i < self.requested.len() {
            Some((i * self.block_size) as u32)
        } else {
            None
        }
    }

    /// The download after the block at `begin` was assigned to `to`.
    pub open spec fn with_assignment(self, begin: u32, to: Option<PeerAddr>) -> DownloadView {
        let b = self.block_of(begin);
        if b < self.requested.len() {
            DownloadView { requested: self.requested.update(b, to), ..self }
        } else {
            self
        }
    }

    /// The download after bytes for `begin` arrived: a block that was already
    /// there is kept, bytes that would overrun the piece are not stored, and
    /// the block counts as received either way.
    pub open spec fn with_block(self, begin: u32, block: Seq<u8>) -> DownloadView {
        let b = self.block_of(begin);
        if b < self.received.len() && !self.received[b] {
            DownloadView {
                data: if begin + block.len() <= self.data.len() {
                    splice(self.data, begin as int, block)
                } else {
                    self.data
                },
                received: self.received.update(b, true),
                ..self
            }
        } else {
            self
        }
    }
}

/// `data` with the bytes from `start` on replaced by `block`.
pub open spec fn splice(data: Seq<u8>, start: int, block: Seq<u8>) -> Seq<u8> {
    Seq::new(
        data.len(),
        |i: int|
            if start <= i < start + block.len() {
                block[i - start]
            } else {
                data[i]
            },
    )
}

/// Every block of a piece starts inside it, and the blocks cover it.
pub proof fn lemma_block_bounds(piece_len: int, block_size: int, i: int)
    requires
        block_size > 0,
        piece_len >= 0,
    ensures
        0 <= block_count(piece_len, block_size),
        0 <= i < block_count(piece_len, block_size) ==> 0 <= i * block_size < piece_len,
        block_count(piece_len, block_size) * block_size >= piece_len,
        piece_len > 0 ==> block_count(piece_len, block_size) > 0,
        block_count(piece_len, block_size) <= piece_len,
{
    let n = block_count(piece_len, block_size);
    let m = piece_len + block_size - 1;
    vstd::arithmetic::div_mod::lemma_fundamental_div_mod(m, block_size);
    vstd::arithmetic::div_mod::lemma_mod_bound(m, block_size);
    assert(n * block_size <= m && m < n * block_size + block_size) by (nonlinear_arith)
        requires
            m == block_size * n + m % block_size,
            0 <= m % block_size < block_size,
    ;
    assert(n >= 0) by (nonlinear_arith)
        requires
            m < n * block_size + block_size,
            m >= block_size - 1,
            block_size > 0,
    ;
    if 0 <= i < n {
        assert(i * block_size <= n * block_size - block_size && 0 <= i * block_size) by (nonlinear_arith)
            requires
                0 <= i <= n - 1,
                block_size > 0,
        ;
    }
    if piece_len > 0 {
        assert(n > 0) by (nonlinear_arith)
            requires
                n * block_size >= piece_len,
                piece_len > 0,
                block_size > 0,
        ;
    }
    assert(n <= piece_len) by (nonlinear_arith)
        requires
            n * block_size <= piece_len + block_size - 1,
            block_size > 0,
            piece_len >= 0,
    ;
}

impl ActiveDownload {
    /// Start downloading a piece.
    pub fn new(index: u32, piece_len: u64, block_size: u32) -> (d: ActiveDownload)
        requires
            block_size > 0,
            piece_len <= 0x1_0000_0000,
            piece_len <= usize::MAX,
        ensures
            d@ == DownloadView::fresh(index, piece_len, block_size),
            d@.wf(),
    {
        proof {
            lemma_block_bounds(piece_len as int, block_size as int, 0);
        }
        let num_blocks: usize = ((piece_len + (block_size as u64 - 1)) / block_size as u64) as usize;
        let mut data: Vec<u8> = Vec::new();
        data.resize(piece_len as usize, 0u8);
        let mut received: Vec<bool> = Vec::new();
        received.resize(num_blocks, false);
        let mut requested: Vec<Option<PeerAddr>> = Vec::new();
        let mut i: usize = 0;
        while i < num_blocks
            invariant
                i <= num_blocks,
                requested@.len() == i,
                forall|j: int| 0 <= j < i ==> #[trigger] requested@[j] is None,
            decreases num_blocks - i,
        {
            requested.push(None);
            i += 1;
        }
        let d = ActiveDownload { index, data, requested, received, block_size, num_blocks };
        assert(d@ =~= DownloadView::fresh(index, piece_len, block_size));
        d
    }

    /// Find the first unrequested block.
    pub fn next_unrequested(&self) -> (r: Option<u32>)
        requires
            self@.wf(),
        ensures
            r == self@.next_unrequested(),
    {
        let mut i: usize = 0;
        while i < self.requested.len()
            invariant
                i <= self.requested@.len(),
                self@.wf(),
                forall|j: int| 0 <= j < i ==> !(#[trigger] self.requested@[j] is None),
            decreases self.requested@.len() - i,
        {
            if self.requested[i].is_none() {
                proof {
                    crate::seqs::lemma_first_where_is(self.requested@, is_unassigned(), i as int);
                    lemma_block_bounds(self.data@.len() as int, self.block_size as int, i as int);
                }
                return Some(i as u32 * self.block_size);
            }
            i += 1;
        }
        proof {
            crate::seqs::lemma_first_where_is(self.requested@, is_unassigned(), i as int);
        }
        None
    }

    /// Length of the block at `begin`.
    pub fn block_len(&self, begin: u32) -> (n: u32)
        ensures
            n == block_len_at(self@.data.len() as int, self@.block_size as int, begin as int),
    {
        let piece_len: u64 = self.data.len() as u64;
        let remaining: u64 = piece_len.saturating_sub(begin as u64);
        if remaining < self.block_size as u64 {
            remaining as u32
        } else {
            self.block_size
        }
    }

    /// Mark a block as requested by a peer.
    ///
    /// In the end game this may overwrite an earlier assignment.
    pub fn mark_requested(&mut self, begin: u32, addr: PeerAddr)
        requires
            old(self)@.wf(),
        ensures
            final(self)@ == old(self)@.with_assignment(begin, Some(addr)),
            final(self)@.wf(),
    {
        self.assign(begin, Some(addr));
    }

    /// Mark a block as not requested.
    pub fn unrequest(&mut self, begin: u32)
        requires
            old(self)@.wf(),
        ensures
            final(self)@ == old(self)@.with_assignment(begin, None),
            final(self)@.wf(),
    {
        self.assign(begin, None);
    }

    fn assign(&mut self, begin: u32, to: Option<PeerAddr>)
        requires
            old(self)@.wf(),
        ensures
            final(self)@ == old(self)@.with_assignment(begin, to),
            final(self)@.wf(),
    {
        let block_idx: usize = (begin / self.block_size) as usize;
        if block_idx < self.requested.len() {
            self.requested[block_idx] = to;
        }
        assert(self@ =~= old(self)@.with_assignment(begin, to));
    }

    /// Mark a block as received. Returns whether this completes the piece.
    pub fn mark_received(&mut self, begin: u32, data: &[u8]) -> (complete: bool)
        requires
            old(self)@.wf(),
        ensures
            final(self)@ == old(self)@.with_block(begin, data@),
            final(self)@.wf(),
            complete == all_true(final(self)@.received),
    {
        let block_idx: usize = (begin / self.block_size) as usize;
        if block_idx < self.received.len() && !self.received[block_idx] {
            let start: usize = begin as usize;
            if start <= self.data.len() && data.len() <= self.data.len() - start {
                let mut i: usize = 0;
                let ghost before = self.data@;
                assert(before =~= splice(before, start as int, data@.take(0)));
                while i < data.len()
                    invariant
                        i <= data@.len(),
                        start + data@.len() <= before.len() <= usize::MAX,
                        self.requested == old(self).requested,
                        self.received == old(self).received,
                        self.index == old(self).index,
                        self.block_size == old(self).block_size,
                        self.num_blocks == old(self).num_blocks,
                        self.data@ == splice(before, start as int, data@.take(i as int)),
                    decreases data@.len() - i,
                {
                    self.data[start + i] = data[i];
                    i += 1;
                    assert(self.data@ =~= splice(before, start as int, data@.take(i as int)));
                }
                assert(data@.take(i as int) =~= data@);
            }
            self.received[block_idx] = true;
        }
        assert(self@ =~= old(self)@.with_block(begin, data@));
        all_set(&self.received)
    }
}

/// The bytes of block `b` of a piece.
pub open spec fn block_bytes(piece: Seq<u8>, block_size: u32, b: int) -> Seq<u8> {
    piece.subrange(
        b * block_size,
        b * block_size + block_len_at(piece.len() as int, block_size as int, b * block_size),
    )
}

/// Whether every block received so far agrees with `piece`.
pub open spec fn agrees_with(d: DownloadView, piece: Seq<u8>) -> bool {
    &&& d.data.len() == piece.len()
    &&& forall|i: int|
        0 <= i < piece.len() && d.received[i / d.block_size as int] ==> #[trigger] d.data[i] == piece[i]
}

/// Blocks of a piece may arrive in any order: each one that arrives whole keeps
/// the download in agreement with the piece, and once every block has arrived
/// the assembled data is the piece.
pub proof fn law_assembly(d: DownloadView, piece: Seq<u8>, b: int)
    requires
        d.wf(),
        agrees_with(d, piece),
        0 <= b < d.received.len(),
    ensures
        agrees_with(
            d.with_block((b * d.block_size) as u32, block_bytes(piece, d.block_size, b)),
            piece,
        ),
        d.with_block((b * d.block_size) as u32, block_bytes(piece, d.block_size, b)).received[b],
        all_true(d.received) ==> d.data == piece,
{
    let bs = d.block_size as int;
    let n = piece.len() as int;
    lemma_block_bounds(n, bs, b);
    let begin = (b * d.block_size) as u32;
    let block = block_bytes(piece, d.block_size, b);
    let e = d.with_block(begin, block);
    assert(begin as int / bs == b) by {
        vstd::arithmetic::div_mod::lemma_div_multiples_vanish(b, bs);
    }
    assert forall|i: int| 0 <= i < n && e.received[i / bs] implies #[trigger] e.data[i]
        == piece[i] by {
        vstd::arithmetic::div_mod::lemma_fundamental_div_mod(i, bs);
        vstd::arithmetic::div_mod::lemma_mod_bound(i, bs);
        let q = i / bs;
        lemma_block_of_byte(n, bs, i);
        assert(q * bs <= i && i < q * bs + bs) by (nonlinear_arith)
            requires
                i == bs * q + i % bs,
                0 <= i % bs < bs,
        ;
        if q != b {
            assert(i < b * bs || i >= b * bs + bs) by (nonlinear_arith)
                requires
                    q != b,
                    q * bs <= i,
                    i < q * bs + bs,
                    bs > 0,
            ;
        }
    }
    if all_true(d.received) {
        assert forall|i: int| 0 <= i < n implies #[trigger] d.data[i] == piece[i] by {
            vstd::arithmetic::div_mod::lemma_div_pos_is_pos(i, bs);
            lemma_block_of_byte(n, bs, i);
        }
        assert(d.data =~= piece);
    }
}

/// Every byte of a piece lies in one of its blocks.
pub proof fn lemma_block_of_byte(piece_len: int, block_size: int, i: int)
    requires
        block_size > 0,
        0 <= i < piece_len,
    ensures
        0 <= i / block_size < block_count(piece_len, block_size),
{
    lemma_block_bounds(piece_len, block_size, 0);
    vstd::arithmetic::div_mod::lemma_fundamental_div_mod(i, block_size);
    vstd::arithmetic::div_mod::lemma_mod_bound(i, block_size);
    let q = i / block_size;
    let n = block_count(piece_len, block_size);
    assert(0 <= q < n) by (nonlinear_arith)
        requires
            i == block_size * q + i % block_size,
            0 <= i % block_size < block_size,
            0 <= i < piece_len,
            n * block_size >= piece_len,
            block_size > 0,
    ;
}

/// A download that has received nothing agrees with every piece of its length.
pub proof fn law_fresh_agrees(index: u32, piece: Seq<u8>, block_size: u32)
    requires
        block_size > 0,
        piece.len() <= 0x1_0000_0000,
        piece.len() <= usize::MAX,
    ensures
        DownloadView::fresh(index, piece.len() as u64, block_size).wf(),
        agrees_with(DownloadView::fresh(index, piece.len() as u64, block_size), piece),
{
    let d = DownloadView::fresh(index, piece.len() as u64, block_size);
    lemma_block_bounds(piece.len() as int, block_size as int, 0);
    assert forall|i: int| 0 <= i < piece.len() && d.received[i / block_size as int] implies #[trigger] d.data[i]
        == piece[i] by {
        lemma_block_of_byte(piece.len() as int, block_size as int, i);
    }
}

/// The lengths of the first `n` blocks of a piece, added up.
pub open spec fn blocks_total(piece_len: int, block_size: int, n: int) -> int
    decreases n,
{
    if n <= 0 {
        0
    } else {
        blocks_total(piece_len, block_size, n - 1) + block_len_at(
            piece_len,
            block_size,
            (n - 1) * block_size,
        )
    }
}

/// The blocks of a piece tile it: their lengths add up to the length of the piece.
pub proof fn law_blocks_tile(piece_len: int, block_size: int)
    requires
        block_size > 0,
        piece_len >= 0,
    ensures
        blocks_total(piece_len, block_size, block_count(piece_len, block_size)) == piece_len,
{
    let n = block_count(piece_len, block_size);
    lemma_block_bounds(piece_len, block_size, n - 1);
    lemma_blocks_prefix(piece_len, block_size, n);
}

proof fn lemma_blocks_prefix(piece_len: int, block_size: int, n: int)
    requires
        block_size > 0,
        piece_len >= 0,
        0 <= n <= block_count(piece_len, block_size),
    ensures
        blocks_total(piece_len, block_size, n) == if n * block_size < piece_len {
            n * block_size
        } else {
            piece_len
        },
    decreases n,
{
    if n > 0 {
        lemma_blocks_prefix(piece_len, block_size, n - 1);
        lemma_block_bounds(piece_len, block_size, n - 1);
        assert((n - 1) * block_size + block_size == n * block_size) by (nonlinear_arith);
    } else {
        assert(0 * block_size == 0);
    }
}

/// The flag of piece `i` in a bitfield message, whose first piece is the
/// highest bit of the first byte; pieces past the end are not held.
pub open spec fn bit_at(bytes: Seq<u8>, i: int) -> bool {
    i / 8 < bytes.len() && bytes[i / 8] & (1u8 << ((7 - i % 8) as u8)) != 0
}

/// The pieces that a bitfield message claims.
pub open spec fn bits_of(bytes: Seq<u8>, num_pieces: nat) -> Seq<bool> {
    Seq::new(num_pieces, |i: int| bit_at(bytes, i))
}

/// Parse bitfield bytes, first piece in the highest bit.
pub fn parse_bitfield(bytes: &[u8], num_pieces: usize) -> (bf: Vec<bool>)
    ensures
        bf@ == bits_of(bytes@, num_pieces as nat),
{
    let mut bf: Vec<bool> = Vec::new();
    let mut i: usize = 0;
    while i < num_pieces
        invariant
            i <= num_pieces,
            bf@ == bits_of(bytes@, i as nat),
        decreases num_pieces - i,
    {
        let byte: usize = i / 8;
        let bit: u8 = (7 - (i % 8)) as u8;
        if byte < bytes.len() {
            bf.push(bytes[byte] & (1u8 << bit) != 0);
        } else {
            bf.push(false);
        }
        i += 1;
        assert(bf@ =~= bits_of(bytes@, i as nat));
    }
    bf
}

/// A download that was just begun is that of its piece: with its length, nothing
/// received, and nothing asked for.
pub proof fn law_fresh_download(index: u32, piece_len: u64, block_size: u32, i: int)
    requires
        block_size > 0,
        piece_len <= 0x1_0000_0000,
        piece_len <= usize::MAX,
    ensures
        ({
            let d = DownloadView::fresh(index, piece_len, block_size);
            &&& d.wf()
            &&& d.index == index
            &&& d.block_size == block_size
            &&& d.data.len() == piece_len
            &&& (d.requested.len() - 1) * block_size < piece_len <= d.requested.len() * block_size
            &&& d.received.len() == d.requested.len()
            &&& d.num_blocks == d.requested.len()
            &&& 0 <= i < d.requested.len() ==> d.requested[i] is None && !d.received[i]
            &&& 0 <= i < d.data.len() ==> d.data[i] == 0
        }),
{
    let n = block_count(piece_len as int, block_size as int);
    lemma_block_bounds(piece_len as int, block_size as int, n - 1);
    if n == 0 {
        assert((n - 1) * block_size < 0) by (nonlinear_arith)
            requires
                n == 0,
                block_size > 0,
        ;
    }
}

/// A peer that just connected chokes us, is not interested, is not known to hold
/// anything, and was asked for nothing; nothing was transferred, and five requests
/// may be outstanding.
pub proof fn law_fresh_peer(i: int)
    ensures
        ({
            let p = PeerView::fresh();
            &&& p.am_choked
            &&& !p.am_interested
            &&& !p.peer_interested
            &&& p.bitfield.len() == 0
            &&& p.pipeline.len() == 5
            &&& 0 <= i < 5 ==> p.pipeline[i] is None
            &&& !p.can_request()
            &&& !p.has_requests()
            &&& p.uploaded_bytes == 0 && p.downloaded_bytes == 0
            &&& p.uploaded_this_round == 0 && p.downloaded_this_round == 0
            &&& p.reported_up == 0 && p.reported_down == 0
            &&& p.last_data_received is None
            &&& p.corrupt_blocks == 0
            &&& p.our_extension_ids.len() == 0 && p.remote_extension_ids.len() == 0
            &&& p.max_requests == 5
            &&& p.last_pex_sent is None && p.last_pex_received is None
            &&& p.peer_allowed_fast.len() == 0 && p.our_allowed_fast.len() == 0
            &&& p.client_version is None && p.metadata_size is None
        }),
{
}

/// A request may be sent to a peer that does not choke us while one of its slots is
/// free; one is outstanding while a slot is taken.
pub proof fn law_request_slots(p: PeerView, slot: int)
    requires
        0 <= slot < p.pipeline.len(),
    ensures
        p.pipeline[slot] is None ==> (p.can_request() <==> !p.am_choked),
        p.pipeline[slot] is Some ==> p.has_requests(),
        (forall|i: int| 0 <= i < p.pipeline.len() ==> #[trigger] p.pipeline[i] is Some)
            ==> !p.can_request(),
        (forall|i: int| 0 <= i < p.pipeline.len() ==> #[trigger] p.pipeline[i] is None)
            ==> !p.has_requests(),
{
}

} // verus!
