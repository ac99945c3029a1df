//! Downloads from web seeds: ordinary HTTP servers that host the file.
//!
//! A task finds a gap of missing pieces, asks for its bytes, splits the answer
//! into pieces, verifies each and hands it on to be stored.

use crate::error::{Error, ErrorKind};
use crate::hash::{sha1_of, verify_piece_hash};
use crate::metainfo::{
    exact_layout, hashes_match, law_lengths_agree, len_at, piece_bytes, Info,
};
use crate::net::into_url::{url_join, url_path, Url};
use crate::seqs::{
    all_set, all_true, first_where, is_set, lemma_first_where, lemma_first_where_is,
};
use crate::session::config::SessionConfig;
use crate::text::{chars_of, decimal, decimal_of, decimal_text, law_decimal_round_trip};
use crate::time::{elapsed, elapsed_at, Nanos, SECOND};
use vstd::prelude::*;
use vstd::string::StringExecFns;

verus! {

/// Number of pieces by which the scan cursor advances with each claim.
pub const SCAN_STEP: u64 = 16;

/// The longest delay before a retry.
pub const MAX_RETRY_DELAY: Nanos = 60_000_000_000;

/// How long a connectivity probe may take.
pub const PROBE_TIMEOUT: Nanos = 5_000_000_000;

/// Room that a response may take beyond the range that was asked for.
pub const RESPONSE_SLACK: u64 = 1_048_576;

/// Configuration for web seed downloads.
#[derive(Clone, Copy, Debug, PartialEq, Eq, Structural)]
pub struct WebSeedConfig {
    /// Minimum contiguous gap, in pieces, that is worth a request.
    pub min_gap_pieces: u32,
    /// Maximum bytes per range request.
    pub max_range_bytes: u64,
    /// Timeout of a connection and its download.
    pub timeout: Nanos,
    /// Delay before a retry; it doubles with each failure in a row.
    pub retry_delay: Nanos,
    /// Maximum number of range requests in flight over all web seeds.
    pub max_concurrent: usize,
    /// Failures in a row after which a URL is parked.
    pub park_threshold: u32,
    /// How long to wait before a parked URL is probed again.
    pub park_retry_interval: Nanos,
}

impl Default for WebSeedConfig {
    fn default() -> (c: WebSeedConfig)
        ensures
            c == (WebSeedConfig {
                min_gap_pieces: 4,
                max_range_bytes: 5_242_880,
                timeout: 30_000_000_000,
                retry_delay: 2_000_000_000,
                max_concurrent: 16,
                park_threshold: 5,
                park_retry_interval: 60_000_000_000,
            }),
    {
        WebSeedConfig {
            min_gap_pieces: 4,
            max_range_bytes: 5_242_880,
            timeout: 30_000_000_000,
            retry_delay: 2_000_000_000,
            max_concurrent: 16,
            park_threshold: 5,
            park_retry_interval: 60_000_000_000,
        }
    }
}

impl WebSeedConfig {
    /// The configuration of the web seeds of a session.
    pub fn of_session(config: &SessionConfig) -> (c: WebSeedConfig)
        ensures
            c == (WebSeedConfig {
                min_gap_pieces: config.webseed_min_gap_pieces,
                max_range_bytes: config.webseed_max_range_bytes,
                timeout: 30_000_000_000,
                retry_delay: 2_000_000_000,
                max_concurrent: config.webseed_concurrency,
                park_threshold: 5,
                park_retry_interval: 60_000_000_000,
            }),
    {
        WebSeedConfig {
            min_gap_pieces: config.webseed_min_gap_pieces,
            max_range_bytes: config.webseed_max_range_bytes,
            timeout: 30_000_000_000,
            retry_delay: 2_000_000_000,
            max_concurrent: config.webseed_concurrency,
            park_threshold: 5,
            park_retry_interval: 60_000_000_000,
        }
    }
}

/// The bitfield as seen from `start` on, going round once.
pub open spec fn rotated(bitfield: Seq<bool>, start: int) -> Seq<bool> {
    Seq::new(bitfield.len(), |j: int| bitfield[(start + j) % (bitfield.len() as int)])
}

/// The number of missing pieces in a row from `start` on, going round at most
/// once.
pub open spec fn run_from(bitfield: Seq<bool>, start: int) -> int {
    first_where(rotated(bitfield, start), is_set())
}

/// Whether a gap of at least `min` pieces starts at `i`.
pub open spec fn gap_at(bitfield: Seq<bool>, min: int, i: int) -> bool {
    !bitfield[i] && run_from(bitfield, i) >= min
}

/// At which distances from `start` a gap of at least `min` pieces starts.
pub open spec fn gaps_from(bitfield: Seq<bool>, min: int, start: int) -> Seq<bool> {
    Seq::new(bitfield.len(), |o: int| gap_at(bitfield, min, (start + o) % (bitfield.len() as int)))
}

/// The first gap of at least `min` pieces, as start and size, going round from
/// `start`.
pub open spec fn gap_from(bitfield: Seq<bool>, min: int, start: int) -> Option<(int, int)> {
    let n = bitfield.len() as int;
    let o = first_where(gaps_from(bitfield, min, start), is_set());
    if o < n {
        let i = (start + o) % n;
        Some((i, run_from(bitfield, i)))
    } else {
        None
    }
}

fn measure_gap(bitfield: &[bool], start: usize) -> (n: u32)
    requires
        start < bitfield@.len() <= u32::MAX,
    ensures
        n == run_from(bitfield@, start as int),
{
    let count: u64 = bitfield.len() as u64;
    let ghost view = rotated(bitfield@, start as int);
    let mut n: u32 = 0;
    while (n as u64) < count
        invariant
            n <= count,
            count == bitfield@.len() <= u32::MAX,
            start < count,
            view == rotated(bitfield@, start as int),
            forall|j: int| 0 <= j < n ==> !is_set()(#[trigger] view[j]),
        decreases count - n,
    {
        let i: usize = ((start as u64 + n as u64) % count) as usize;
        assert(view[n as int] == bitfield@[i as int]);
        if bitfield[i] {
            proof {
                lemma_first_where_is(view, is_set(), n as int);
            }
            return n;
        }
        n += 1;
    }
    proof {
        lemma_first_where_is(view, is_set(), n as int);
    }
    n
}

/// Claim a gap of missing pieces by round-robin scanning.
///
/// Each call advances the shared cursor by [`SCAN_STEP`] pieces, then scans
/// forward from where it stood, wrapping around, for the first gap of at least
/// `min_gap_pieces`. An empty bitfield leaves the cursor alone.
///
/// Returns start and size of the gap, or `None` if no gap qualifies.
pub fn claim_gap(cursor: &mut u64, bitfield: &[bool], min_gap_pieces: u32) -> (r: Option<
    (u32, u32),
>)
    requires
        bitfield@.len() <= u32::MAX,
    ensures
        bitfield@.len() == 0 ==> r is None && *final(cursor) == *old(cursor),
        bitfield@.len() > 0 ==> *final(cursor) == (*old(cursor) + SCAN_STEP) % 0x1_0000_0000_0000_0000,
        bitfield@.len() > 0 ==> match r {
            Some((i, n)) => gap_from(
                bitfield@,
                min_gap_pieces as int,
                *old(cursor) as int % bitfield@.len() as int,
            ) == Some((i as int, n as int)),
            None => gap_from(
                bitfield@,
                min_gap_pieces as int,
                *old(cursor) as int % bitfield@.len() as int,
            ) is None,
        },
{
    let count: u64 = bitfield.len() as u64;
    if count == 0 {
        return None;
    }
    let start: u64 = *cursor % count;
    *cursor = cursor.wrapping_add(SCAN_STEP);
    let ghost flags = gaps_from(bitfield@, min_gap_pieces as int, start as int);
    let mut o: u64 = 0;
    while o < count
        invariant
            o <= count,
            start < count,
            count == bitfield@.len() <= u32::MAX,
            flags == gaps_from(bitfield@, min_gap_pieces as int, start as int),
            forall|j: int| 0 <= j < o ==> !is_set()(#[trigger] flags[j]),
            *cursor == (*old(cursor) + SCAN_STEP) % 0x1_0000_0000_0000_0000,
            start == *old(cursor) as int % bitfield@.len() as int,
        decreases count - o,
    {
        let i: usize = ((start + o) % count) as usize;
        assert(flags[o as int] == gap_at(bitfield@, min_gap_pieces as int, i as int));
        if !bitfield[i] {
            let size: u32 = measure_gap(bitfield, i);
            if size >= min_gap_pieces {
                proof {
                    lemma_first_where_is(flags, is_set(), o as int);
                }
                return Some((i as u32, size));
            }
        }
        o += 1;
    }
    proof {
        lemma_first_where_is(flags, is_set(), o as int);
    }
    None
}

/// A claimed gap is a gap: as many pieces in a row as it has are missing, from
/// its start on, going round.
pub proof fn law_claimed_pieces_missing(bitfield: Seq<bool>, min: int, start: int, j: int)
    requires
        bitfield.len() > 0,
        gap_from(bitfield, min, start) matches Some((i, n)) && 0 <= j < n,
    ensures
        ({
            let (i, n) = gap_from(bitfield, min, start)->Some_0;
            min <= n <= bitfield.len() && !bitfield[(i + j) % bitfield.len() as int]
        }),
{
    let (i, n) = gap_from(bitfield, min, start)->Some_0;
    let flags = gaps_from(bitfield, min, start);
    lemma_first_where(flags, is_set());
    let view = rotated(bitfield, i);
    lemma_first_where(view, is_set());
    assert(!is_set()(view[j]));
}

/// Whether the `m` pieces from `a` on are all missing.
pub open spec fn is_gap(bitfield: Seq<bool>, a: int, m: int) -> bool {
    &&& 0 <= a
    &&& 0 < m
    &&& a + m <= bitfield.len()
    &&& forall|i: int| a <= i < a + m ==> !#[trigger] bitfield[i]
}

/// Whether a gap is larger than another, or as large and starts no later.
pub open spec fn gap_beats(s: int, k: int, a: int, m: int) -> bool {
    m < k || (m == k && s <= a)
}

/// Find the largest contiguous gap of missing pieces; the first of several.
///
/// Returns start and size of the gap, or `None` if no piece is missing.
pub fn find_largest_gap(bitfield: &[bool]) -> (r: Option<(u32, u32)>)
    requires
        bitfield@.len() <= u32::MAX,
    ensures
        match r {
            Some((s, k)) => {
                &&& is_gap(bitfield@, s as int, k as int)
                &&& forall|a: int, m: int| #[trigger]
                    is_gap(bitfield@, a, m) ==> gap_beats(s as int, k as int, a, m)
            },
            None => all_true(bitfield@),
        },
{
    let ghost b = bitfield@;
    let mut best_start: u32 = 0;
    let mut best_size: u32 = 0;
    let mut gap_size: u32 = 0;
    let mut i: usize = 0;
    while i < bitfield.len()
        invariant
            i <= b.len() <= u32::MAX,
            b == bitfield@,
            gap_size <= i,
            forall|j: int| i - gap_size <= j < i ==> !#[trigger] b[j],
            i - gap_size > 0 ==> b[i - gap_size - 1],
            best_size > 0 ==> is_gap(b, best_start as int, best_size as int),
            best_size > 0 ==> best_start + best_size <= i - gap_size,
            forall|a: int, m: int| #[trigger]
                is_gap(b, a, m) && a + m <= i - gap_size ==> gap_beats(
                    best_start as int,
                    best_size as int,
                    a,
                    m,
                ),
        decreases b.len() - i,
    {
        if !bitfield[i] {
            gap_size += 1;
        } else {
            proof {
                lemma_gap_closes(b, best_start as int, best_size as int, i - gap_size, i as int);
            }
            if gap_size > best_size {
                best_start = i as u32 - gap_size;
                best_size = gap_size;
            }
            gap_size = 0;
        }
        i += 1;
    }
    proof {
        lemma_gap_closes(b, best_start as int, best_size as int, i - gap_size, i as int);
    }
    if gap_size > best_size {
        best_start = i as u32 - gap_size;
        best_size = gap_size;
    }
    if best_size > 0 {
        Some((best_start, best_size))
    } else {
        proof {
            assert forall|j: int| 0 <= j < b.len() implies #[trigger] b[j] by {
                if !b[j] {
                    assert(is_gap(b, j, 1));
                }
            }
        }
        None
    }
}

/// Once a gap from `open` to `i` has ended, the better of it and the best gap
/// before it beats every gap up to there.
proof fn lemma_gap_closes(b: Seq<bool>, s: int, k: int, open: int, i: int)
    requires
        0 <= open <= i <= b.len(),
        0 <= k,
        forall|j: int| open <= j < i ==> !#[trigger] b[j],
        open > 0 ==> b[open - 1],
        i < b.len() ==> b[i],
        k > 0 ==> is_gap(b, s, k) && s + k <= open,
        forall|a: int, m: int| #[trigger]
            is_gap(b, a, m) && a + m <= open ==> gap_beats(s, k, a, m),
    ensures
        i - open > k ==> is_gap(b, open, i - open),
        forall|a: int, m: int| #[trigger]
            is_gap(b, a, m) && a + m <= i + 1 ==> if i - open > k {
                gap_beats(open, i - open, a, m)
            } else {
                gap_beats(s, k, a, m)
            },
{
    assert forall|a: int, m: int| #[trigger] is_gap(b, a, m) && a + m <= i + 1 implies if i - open
        > k {
        gap_beats(open, i - open, a, m)
    } else {
        gap_beats(s, k, a, m)
    } by {
        if a + m > open {
            if a < open {
                assert(!b[open - 1]);
            }
        }
    }
}

/// What is known of how well a URL serves.
#[derive(Clone, Copy, Debug, PartialEq, Eq, Structural)]
pub struct UrlHealth {
    /// Failures in a row since the last successful download.
    pub consecutive_failures: u32,
    /// Number of successful downloads.
    pub success_count: u64,
    /// When the last successful download was completed.
    pub last_success: Option<Nanos>,
}

/// The health of a URL that was not tried yet.
pub open spec fn fresh_health() -> UrlHealth {
    UrlHealth { consecutive_failures: 0, success_count: 0, last_success: None }
}

impl Default for UrlHealth {
    fn default() -> (h: UrlHealth)
        ensures
            h == fresh_health(),
    {
        UrlHealth { consecutive_failures: 0, success_count: 0, last_success: None }
    }
}

/// Whether a URL that was parked may be tried again.
pub open spec fn is_ready(h: UrlHealth, interval: Nanos, now: Nanos) -> bool {
    match h.last_success {
        Some(t) => elapsed_at(t, now) >= interval,
        None => true,
    }
}

/// Whether a URL failed too often in a row.
pub open spec fn is_parked(h: UrlHealth, threshold: u32) -> bool {
    h.consecutive_failures >= threshold
}

impl UrlHealth {
    /// Record a download that succeeded at `now`.
    pub fn record_success(&mut self, now: Nanos)
        requires
            old(self).success_count < u64::MAX,
        ensures
            *final(self) == (UrlHealth {
                consecutive_failures: 0,
                success_count: (old(self).success_count + 1) as u64,
                last_success: Some(now),
            }),
    {
        self.consecutive_failures = 0;
        self.success_count += 1;
        self.last_success = Some(now);
    }

    /// Record a failed download.
    pub fn record_failure(&mut self)
        requires
            old(self).consecutive_failures < u32::MAX,
        ensures
            *final(self) == (UrlHealth {
                consecutive_failures: (old(self).consecutive_failures + 1) as u32,
                ..*old(self)
            }),
    {
        self.consecutive_failures += 1;
    }

    /// Whether this URL should be parked: too many failures in a row.
    pub fn should_park(&self, threshold: u32) -> (r: bool)
        ensures
            r == (self.consecutive_failures >= threshold),
            r == is_parked(*self, threshold),
    {
        self.consecutive_failures >= threshold
    }

    /// Whether enough time has passed to retry a parked URL; one that never
    /// succeeded is always ready.
    pub fn ready_for_retry(&self, interval: Nanos, now: Nanos) -> (r: bool)
        ensures
            r == match self.last_success {
                Some(t) => elapsed_at(t, now) >= interval,
                None => true,
            },
            r == is_ready(*self, interval, now),
    {
        match self.last_success {
            Some(t) => elapsed(t, now) >= interval,
            None => true,
        }
    }
}

/// A request by which a URL is probed.
#[derive(Clone, Copy, Debug, PartialEq, Eq, Structural)]
pub enum Probe {
    /// Ask for the header fields only.
    Head,
    /// Ask for the bytes from `start` to `end`, both of them among these.
    Range { start: u64, end: u64 },
}

/// What a web seed task does next.
#[derive(Clone, Copy, Debug, PartialEq, Eq, Structural)]
pub enum WebSeedAction {
    /// Probe the URL.
    Probe,
    /// Wait, then probe the URL.
    Park { delay: Nanos },
    /// Look for a gap again.
    Continue,
    /// Wait until a piece was completed elsewhere, then look again.
    AwaitPiece,
    /// Ask for the bytes from `start` to `end`, both of them among these.
    Download { start: u64, end: u64 },
    /// Wait, then look for a gap again.
    Retry { delay: Nanos },
    /// Leave the loop.
    Finish,
}

/// What the part of a response at one position holds.
#[derive(Clone, Copy, Debug, PartialEq, Eq, Structural)]
pub enum RangeStep {
    /// Nothing more can be used.
    Done,
    /// A piece that is present already; go on at `next`.
    Skip { next: u64 },
    /// A piece to be stored, up to `next`, where to go on.
    Store { index: u32, next: u64 },
    /// The bytes are not those of the piece: discard the URL.
    Corrupt,
}

/// What the part of a response at `offset` holds. The response starts at
/// `start` in the torrent.
pub open spec fn range_step(
    info: Info,
    start: int,
    body: Seq<u8>,
    offset: int,
    have: Seq<bool>,
) -> RangeStep {
    let pl = info.piece_length as int;
    let index = start / pl + offset / pl;
    let skew = (start + offset) % pl;
    let len = len_at(pl, info.length as int, index);
    let end = if offset + len - skew <= body.len() {
        offset + len - skew
    } else {
        body.len() as int
    };
    if offset >= body.len() || end - offset != len {
        RangeStep::Done
    } else if index < have.len() && have[index] {
        RangeStep::Skip { next: end as u64 }
    } else if index >= info.pieces@.len() {
        RangeStep::Done
    } else if sha1_of(body.subrange(offset, end)) != info.pieces@[index]@ {
        RangeStep::Corrupt
    } else {
        RangeStep::Store { index: index as u32, next: end as u64 }
    }
}

/// Whether a response can be split at `offset`: the response starts with a
/// piece, or inside of one, and `offset` is its start, or the end of a piece.
pub open spec fn can_split(info: Info, start: int, offset: int) -> bool {
    let pl = info.piece_length as int;
    let total = info.length as int;
    if start % pl == 0 {
        0 <= offset && (offset % pl == 0 || start + offset == total)
    } else {
        offset == 0 && start < total
    }
}

/// Each step makes progress, and ends at a place at which the response can be
/// split.
pub proof fn law_steps_make_progress(
    info: Info,
    start: int,
    body: Seq<u8>,
    offset: int,
    have: Seq<bool>,
)
    requires
        exact_layout(info),
        0 <= start,
        can_split(info, start, offset),
        body.len() <= u64::MAX,
        have.len() == info.pieces@.len(),
    ensures
        range_step(info, start, body, offset, have) matches RangeStep::Skip { next }
            ==> can_split(info, start, next as int) && offset < next <= body.len(),
        range_step(info, start, body, offset, have) matches RangeStep::Store { index: _, next }
            ==> can_split(info, start, next as int) && offset < next <= body.len(),
{
    let pl = info.piece_length as int;
    let total = info.length as int;
    lemma_split_point(info, start, offset);
    let index = start / pl + offset / pl;
    let len = len_at(pl, total, index);
    vstd::arithmetic::div_mod::lemma_fundamental_div_mod(total, pl);
    vstd::arithmetic::div_mod::lemma_fundamental_div_mod(start, pl);
    vstd::arithmetic::div_mod::lemma_fundamental_div_mod(offset, pl);
    if info.pieces@.len() > 0 {
        law_lengths_agree(info.pieces@.len() as int, pl, total, index);
        if index < info.pieces@.len() {
            assert(index * pl <= (info.pieces@.len() - 1) * pl) by (nonlinear_arith)
                requires
                    index <= info.pieces@.len() - 1,
                    pl > 0,
            ;
        }
    }
    if start % pl == 0 && offset % pl == 0 {
        vstd::arithmetic::div_mod::lemma_mod_add_multiples_vanish(offset, pl);
        assert((offset + pl) % pl == 0);
        assert(pl * (start / pl) + pl * (offset / pl) == pl * index) by (nonlinear_arith)
            requires
                index == start / pl + offset / pl,
        ;
    }
}

/// At a place where a response can be split, what stands before it in its piece
/// is no longer than the piece, and is nothing at the start of a piece.
proof fn lemma_split_point(info: Info, start: int, offset: int)
    requires
        info.piece_length > 0,
        0 <= start,
        can_split(info, start, offset),
    ensures
        ({
            let pl = info.piece_length as int;
            let skew = (start + offset) % pl;
            let len = len_at(pl, info.length as int, start / pl + offset / pl);
            &&& 0 <= skew <= offset + len
            &&& 0 <= len <= pl
            &&& start % pl == 0 && offset % pl == 0 ==> skew == 0
            &&& start % pl == 0 && offset % pl != 0 ==> skew > 0
            &&& start % pl != 0 ==> skew > 0
        }),
{
    let pl = info.piece_length as int;
    let total = info.length as int;
    let q = start / pl;
    vstd::arithmetic::div_mod::lemma_fundamental_div_mod(start, pl);
    vstd::arithmetic::div_mod::lemma_fundamental_div_mod(offset, pl);
    vstd::arithmetic::div_mod::lemma_fundamental_div_mod(total, pl);
    if start % pl == 0 {
        vstd::arithmetic::div_mod::lemma_mod_multiples_vanish(q, offset, pl);
        assert((start + offset) % pl == offset % pl);
        vstd::arithmetic::div_mod::lemma_mod_decreases(offset as nat, pl as nat);
    } else {
        assert(offset / pl == 0) by (nonlinear_arith)
            requires
                offset == 0,
                pl > 0,
        ;
        let tq = total / pl;
        let tr = total % pl;
        assert(q <= tq) by (nonlinear_arith)
            requires
                pl > 0,
                pl * q + start % pl == start,
                pl * tq + tr == total,
                start < total,
                0 <= start % pl,
                tr < pl,
        ;
        assert(q == tq ==> start % pl < tr) by (nonlinear_arith)
            requires
                pl * q + start % pl == start,
                pl * tq + tr == total,
                start < total,
        ;
    }
}

/// A piece inside a response: the bytes from `from` up to `to`.
#[derive(Clone, Copy, Debug, PartialEq, Eq, Structural)]
pub struct Chunk {
    /// Index of the piece.
    pub index: u32,
    /// Where the piece starts in the response.
    pub from: usize,
    /// Where the piece ends in the response.
    pub to: usize,
}

/// What a whole response holds.
#[verifier::ext_equal]
pub struct RangeRun {
    /// The pieces to be stored, in order.
    pub chunks: Seq<Chunk>,
    /// Whether the response ends in bytes that are not those of their piece.
    pub corrupt: bool,
    /// The bytes of pieces that were there already, and of the corrupt one.
    pub wasted: int,
}

/// What a response holds from `offset` on. A piece that was found counts as
/// present from there on.
pub open spec fn range_run(
    info: Info,
    start: int,
    body: Seq<u8>,
    offset: int,
    have: Seq<bool>,
) -> RangeRun
    decreases body.len() - offset,
{
    match range_step(info, start, body, offset, have) {
        RangeStep::Skip { next } => if offset < next <= body.len() {
            let rest = range_run(info, start, body, next as int, have);
            RangeRun { wasted: rest.wasted + (next - offset), ..rest }
        } else {
            RangeRun { chunks: Seq::empty(), corrupt: false, wasted: 0 }
        },
        RangeStep::Store { index, next } => if offset < next <= body.len() {
            let rest = range_run(info, start, body, next as int, have.update(index as int, true));
            RangeRun {
                chunks: seq![Chunk { index, from: offset as usize, to: next as usize }]
                    + rest.chunks,
                ..rest
            }
        } else {
            RangeRun { chunks: Seq::empty(), corrupt: false, wasted: 0 }
        },
        RangeStep::Corrupt => RangeRun {
            chunks: Seq::empty(),
            corrupt: true,
            wasted: len_at(
                info.piece_length as int,
                info.length as int,
                start / info.piece_length as int + offset / info.piece_length as int,
            ),
        },
        RangeStep::Done => RangeRun { chunks: Seq::empty(), corrupt: false, wasted: 0 },
    }
}

/// The pieces that end at or before the position `end` of the torrent.
pub open spec fn pieces_before(info: Info, end: int) -> int {
    if end >= info.length {
        info.pieces@.len() as int
    } else {
        end / (info.piece_length as int)
    }
}

/// A server that has the content completes every missing piece that lies in the
/// range it was asked for, in order, and nothing counts as corrupt.
pub proof fn law_served_range_completes(
    info: Info,
    content: Seq<u8>,
    start: int,
    end: int,
    have: Seq<bool>,
)
    requires
        exact_layout(info),
        info.pieces@.len() <= u32::MAX,
        hashes_match(info, content),
        0 <= start <= end <= content.len(),
        end - start <= usize::MAX,
        start % (info.piece_length as int) == 0,
        have.len() == info.pieces@.len(),
        forall|i: int| 0 <= i < have.len() ==> !#[trigger] have[i],
    ensures
        ({
            let run = range_run(info, start, content.subrange(start, end), 0, have);
            let first = start / (info.piece_length as int);
            &&& !run.corrupt
            &&& run.chunks.len() == pieces_before(info, end) - first
            &&& forall|k: int|
                0 <= k < run.chunks.len() ==> {
                    let c = #[trigger] run.chunks[k];
                    &&& c.index == first + k
                    &&& c.from <= c.to <= end - start
                    &&& content.subrange(start, end).subrange(c.from as int, c.to as int)
                        == piece_bytes(info, content, first + k)
                }
        }),
{
    let pl = info.piece_length as int;
    vstd::arithmetic::div_mod::lemma_fundamental_div_mod(start, pl);
    assert(0int % pl == 0) by {
        vstd::arithmetic::div_mod::lemma_small_mod(0, pl as nat);
    }
    lemma_served_from(info, content, start, end, 0, have);
    let n = info.pieces@.len() as int;
    let q = start / pl;
    assert(info.length == 0 && start == 0 ==> q == 0) by (nonlinear_arith)
        requires
            pl > 0,
            start == pl * q,
    ;
    assert(start == info.length && n > 0 ==> q == n) by (nonlinear_arith)
        requires
            pl > 0,
            start == pl * q,
            info.length <= n * pl,
            n > 0 ==> (n - 1) * pl < info.length,
    ;
    assert(n == 0 ==> info.length == 0) by (nonlinear_arith)
        requires
            info.length <= n * pl,
            info.length >= 0,
    ;
    let first = if start >= info.length {
        n
    } else {
        start / pl
    };
    let body = content.subrange(start, end);
    let run = range_run(info, start, body, 0, have);
    assert forall|k: int| 0 <= k < run.chunks.len() implies {
        let c = #[trigger] run.chunks[k];
        &&& c.index == q + k
        &&& c.from <= c.to <= end - start
        &&& body.subrange(c.from as int, c.to as int) == piece_bytes(info, content, q + k)
    } by {
        let c = run.chunks[k];
        assert(c.index == first + k);
    }
}

#[verifier::spinoff_prover]
proof fn lemma_served_from(
    info: Info,
    content: Seq<u8>,
    start: int,
    end: int,
    offset: int,
    have: Seq<bool>,
)
    requires
        exact_layout(info),
        info.pieces@.len() <= u32::MAX,
        hashes_match(info, content),
        0 <= start <= end <= content.len(),
        end - start <= usize::MAX,
        start % (info.piece_length as int) == 0,
        0 <= offset <= end - start,
        can_split(info, start, offset),
        have.len() == info.pieces@.len(),
        forall|i: int|
            start + offset < info.length && (start + offset) / (info.piece_length as int) <= i
                < have.len() ==> !#[trigger] have[i],
    ensures
        ({
            let pl = info.piece_length as int;
            let body = content.subrange(start, end);
            let run = range_run(info, start, body, offset, have);
            let first = if start + offset >= info.length {
                info.pieces@.len() as int
            } else {
                (start + offset) / pl
            };
            &&& !run.corrupt
            &&& run.chunks.len() == pieces_before(info, end) - first
            &&& forall|k: int|
                0 <= k < run.chunks.len() ==> {
                    let c = #[trigger] run.chunks[k];
                    &&& c.index == first + k
                    &&& c.from <= c.to <= body.len()
                    &&& body.subrange(c.from as int, c.to as int) == piece_bytes(
                        info,
                        content,
                        first + k,
                    )
                }
        }),
    decreases end - start - offset,
{
    let pl = info.piece_length as int;
    let total = info.length as int;
    let n = info.pieces@.len() as int;
    let body = content.subrange(start, end);
    let run = range_run(info, start, body, offset, have);
    let index = start / pl + offset / pl;
    let len = len_at(pl, total, index);
    let pos = start + offset;
    vstd::arithmetic::div_mod::lemma_fundamental_div_mod(start, pl);
    vstd::arithmetic::div_mod::lemma_fundamental_div_mod(offset, pl);
    vstd::arithmetic::div_mod::lemma_fundamental_div_mod(total, pl);
    vstd::arithmetic::div_mod::lemma_fundamental_div_mod(pos, pl);
    vstd::arithmetic::div_mod::lemma_fundamental_div_mod(end, pl);
    lemma_split_point(info, start, offset);
    law_steps_make_progress(info, start, body, offset, have);
    lemma_quotient_sum(start, offset, pl);
    if offset < body.len() && offset % pl == 0 {
        assert(pl * (start / pl) + pl * (offset / pl) == pl * index) by (nonlinear_arith)
            requires
                index == start / pl + offset / pl,
        ;
        assert(index < n) by (nonlinear_arith)
            requires
                pl * index == pos,
                pos < total,
                total <= n * pl,
                pl > 0,
        ;
        law_lengths_agree(n, pl, total, index);
        assert(index < n - 1 ==> index * pl + pl <= (n - 1) * pl) by (nonlinear_arith)
            requires
                pl > 0,
        ;
        if offset + len > body.len() {
            assert(end / pl == index) by {
                vstd::arithmetic::div_mod::lemma_fundamental_div_mod_converse(
                    end,
                    pl,
                    index,
                    end - pos,
                );
            }
        } else {
            let next = offset + len;
            assert(body.subrange(offset, next) =~= content.subrange(pos, pos + len));
            let after = have.update(index, true);
            if index < n - 1 {
                assert((index + 1) * pl == pl * index + pl) by (nonlinear_arith);
                vstd::arithmetic::div_mod::lemma_fundamental_div_mod_converse(
                    start + next,
                    pl,
                    index + 1,
                    0,
                );
            }
            assert(index == n - 1 <==> start + next == total);
            assert forall|i: int|
                start + next < total && (start + next) / pl <= i < after.len() implies
                !#[trigger] after[i] by {}
            lemma_served_from(info, content, start, end, next, after);
        }
    }
}

proof fn lemma_quotient_sum(a: int, b: int, d: int)
    requires
        d > 0,
        a % d == 0,
        0 <= a,
        0 <= b,
    ensures
        (a + b) / d == a / d + b / d,
        (a + b) % d == b % d,
{
    vstd::arithmetic::div_mod::lemma_fundamental_div_mod(a, d);
    vstd::arithmetic::div_mod::lemma_fundamental_div_mod(b, d);
    assert(d * (a / d) + d * (b / d) == (a / d + b / d) * d) by (nonlinear_arith);
    vstd::arithmetic::div_mod::lemma_fundamental_div_mod_converse(
        a + b,
        d,
        a / d + b / d,
        b % d,
    );
}

/// Whether a path names a directory: it ends with a slash.
pub open spec fn is_directory(path: Seq<char>) -> bool {
    path.len() > 0 && path.last() == '/'
}

/// Whether a path names a directory: it ends with a slash.
pub fn names_directory(path: &str) -> (r: bool)
    ensures
        r == is_directory(path@),
{
    let chars = chars_of(path);
    chars.len() > 0 && chars[chars.len() - 1] == '/'
}

/// The value of a header field that asks for the bytes from `start` to `end`.
pub open spec fn range_text(start: u64, end: u64) -> Seq<char> {
    "bytes="@ + decimal_of(start as nat) + "-"@ + decimal_of(end as nat)
}

/// The value of a header field that asks for the bytes from `start` to `end`.
pub fn range_header(start: u64, end: u64) -> (r: String)
    ensures
        r@ == range_text(start, end),
{
    let mut r = "bytes=".to_string();
    r.append(decimal_text(start).as_str());
    r.append("-");
    r.append(decimal_text(end).as_str());
    r
}

/// The probes of a URL, in the order in which they are tried.
pub open spec fn probes_for(total_size: u64) -> Seq<Probe> {
    let last = if total_size > 4096 {
        4095
    } else if total_size > 0 {
        (total_size - 1) as u64
    } else {
        0
    };
    seq![
        Probe::Head,
        Probe::Range { start: 0, end: 0 },
        Probe::Range { start: 0, end: last },
    ]
}

/// The probes of a URL: for the header fields only, for one byte, and for the
/// first few kilobytes. The first that succeeds settles it.
pub fn probes(total_size: u64) -> (r: Vec<Probe>)
    ensures
        r@ == probes_for(total_size),
{
    let last: u64 = if total_size > 4096 {
        4095
    } else if total_size > 0 {
        total_size - 1
    } else {
        0
    };
    let mut r: Vec<Probe> = Vec::new();
    r.push(Probe::Head);
    r.push(Probe::Range { start: 0, end: 0 });
    r.push(Probe::Range { start: 0, end: last });
    assert(r@ =~= probes_for(total_size));
    r
}

/// A download from one web seed URL.
pub struct WebSeedTask {
    /// Base URL from the metadata or the magnet link.
    pub url: Url,
    /// The piece layout and the piece hashes.
    pub info: Info,
    /// Whether the torrent is a single file.
    pub single_file: bool,
    /// Configuration.
    pub config: WebSeedConfig,
    /// How well the URL served so far.
    pub health: UrlHealth,
    /// The delay before the next retry.
    pub retry_delay: Nanos,
}

/// The range that is asked for when a gap starts at the piece `index`.
pub open spec fn range_of(info: Info, max_range_bytes: u64, index: int) -> (int, int) {
    let start = index * info.piece_length;
    let end = if start + max_range_bytes <= info.length {
        start + max_range_bytes
    } else {
        info.length as int
    };
    (
        start,
        if end > 0 {
            end - 1
        } else {
            0
        },
    )
}

/// The next delay: twice as long, up to a minute.
pub open spec fn next_delay(delay: Nanos) -> Nanos {
    if 2 * delay <= MAX_RETRY_DELAY {
        (2 * delay) as u64
    } else {
        MAX_RETRY_DELAY
    }
}

/// What a failure to download a range leads to: the health of the URL, the next
/// delay, and what to do. `mismatch` is set where the bytes were wrong.
pub open spec fn after_range_failed(t: WebSeedTask, mismatch: bool) -> (
    UrlHealth,
    Nanos,
    WebSeedAction,
) {
    let failures = t.health.consecutive_failures + 1;
    if mismatch {
        (t.health, t.retry_delay, WebSeedAction::Finish)
    } else if failures >= t.config.park_threshold {
        (
            fresh_health(),
            t.config.retry_delay,
            WebSeedAction::Park { delay: t.config.park_retry_interval },
        )
    } else {
        (
            UrlHealth { consecutive_failures: failures as u32, ..t.health },
            next_delay(t.retry_delay),
            WebSeedAction::Retry { delay: t.retry_delay },
        )
    }
}

/// The health of a URL after a download succeeded at `now`.
pub open spec fn after_served(h: UrlHealth, now: Nanos) -> UrlHealth {
    UrlHealth {
        consecutive_failures: 0,
        success_count: (h.success_count + 1) as u64,
        last_success: Some(now),
    }
}

impl WebSeedTask {
    /// The pieces are not empty, every offset fits into 64 bits, and no more
    /// failures in a row are on record than it takes to park the URL.
    pub open spec fn wf(self) -> bool {
        &&& self.info.piece_length > 0
        &&& self.info.pieces@.len() <= u32::MAX
        &&& self.info.pieces@.len() * self.info.piece_length + self.config.max_range_bytes
            <= u64::MAX
        &&& self.health.consecutive_failures == 0 || self.health.consecutive_failures
            < self.config.park_threshold
        &&& 2 * self.retry_delay <= u64::MAX
        &&& 2 * self.config.retry_delay <= u64::MAX
    }

    /// Everything but what the task learned of the URL is as in `o`.
    pub open spec fn same_task(self, o: WebSeedTask) -> bool {
        &&& self.url == o.url
        &&& self.info == o.info
        &&& self.single_file == o.single_file
        &&& self.config == o.config
    }

    /// Create a new web seed download task.
    pub fn new(url: Url, info: Info, single_file: bool, config: WebSeedConfig) -> (t: WebSeedTask)
        requires
            info.piece_length > 0,
            info.pieces@.len() <= u32::MAX,
            info.pieces@.len() * info.piece_length + config.max_range_bytes <= u64::MAX,
            2 * config.retry_delay <= u64::MAX,
        ensures
            t.wf(),
            t.url == url,
            t.info == info,
            t.single_file == single_file,
            t.config == config,
            t.health == fresh_health(),
            t.retry_delay == config.retry_delay,
    {
        WebSeedTask {
            url,
            info,
            single_file,
            config,
            health: UrlHealth::default(),
            retry_delay: config.retry_delay,
        }
    }

    /// The most bytes that a response may have: a range and some room for the
    /// header fields.
    pub fn response_cap(&self) -> (n: u64)
        requires
            self.config.max_range_bytes + RESPONSE_SLACK <= u64::MAX,
        ensures
            n == self.config.max_range_bytes + RESPONSE_SLACK,
    {
        self.config.max_range_bytes + RESPONSE_SLACK
    }

    /// The URL of the file, as contracts speak of it.
    pub open spec fn request_url(self) -> Option<Seq<char>> {
        if self.single_file && url_path(self.url@) is Some && is_directory(
            url_path(self.url@)->Some_0,
        ) {
            url_join(self.url@, self.info.name@)
        } else {
            Some(self.url@)
        }
    }

    /// The URL of the file. If the torrent is a single file and the base URL
    /// ends with a slash, the name of the file is appended.
    pub fn build_request_url(&self) -> (r: Result<Url, Error>)
        ensures
            match r {
                Ok(u) => self.request_url() == Some(u@),
                Err(e) => self.request_url() is None && e.spec_kind() == ErrorKind::InvalidInput,
            },
    {
        if self.single_file {
            if let Some(path) = self.url.path() {
                if names_directory(path.as_str()) {
                    return match self.url.join(self.info.name.as_str()) {
                        Some(u) => Ok(u),
                        None => Err(Error::new(ErrorKind::InvalidInput)),
                    };
                }
            }
        }
        Ok(self.url.duplicate())
    }

    /// Length of the piece at `index` (the last piece may be shorter); none past
    /// the last.
    pub fn piece_len(&self, index: u32) -> (n: u64)
        requires
            self.info.piece_length > 0,
        ensures
            n == len_at(self.info.piece_length as int, self.info.length as int, index as int),
    {
        self.len_of(index as u64)
    }

    fn len_of(&self, index: u64) -> (n: u64)
        requires
            self.info.piece_length > 0,
        ensures
            n == len_at(self.info.piece_length as int, self.info.length as int, index as int),
    {
        let full: u64 = self.info.length / self.info.piece_length;
        let last: u64 = self.info.length % self.info.piece_length;
        if index < full {
            self.info.piece_length
        } else if index == full && last > 0 {
            last
        } else {
            0
        }
    }

    /// What to do after a probe.
    pub fn probed(&self, ok: bool) -> (a: WebSeedAction)
        ensures
            a == if ok {
                WebSeedAction::Continue
            } else {
                WebSeedAction::Park { delay: self.config.park_retry_interval }
            },
    {
        if ok {
            WebSeedAction::Continue
        } else {
            WebSeedAction::Park { delay: self.config.park_retry_interval }
        }
    }

    /// Look for something to download: finish if every piece is there, wait if
    /// no gap qualifies, and ask for the range of a gap otherwise.
    pub fn next_download(&self, cursor: &mut u64, bitfield: &Vec<bool>) -> (a: WebSeedAction)
        requires
            self.wf(),
            bitfield@.len() == self.info.pieces@.len(),
        ensures
            ({
                let start = *old(cursor) as int % bitfield@.len() as int;
                if all_true(bitfield@) {
                    a == WebSeedAction::Finish && *final(cursor) == *old(cursor)
                } else {
                    &&& *final(cursor) == (*old(cursor) + SCAN_STEP) % 0x1_0000_0000_0000_0000
                    &&& match gap_from(bitfield@, self.config.min_gap_pieces as int, start) {
                        Some((i, n)) => {
                            let (from, to) = range_of(self.info, self.config.max_range_bytes, i);
                            a == WebSeedAction::Download { start: from as u64, end: to as u64 }
                        },
                        None => a == WebSeedAction::AwaitPiece,
                    }
                }
            }),
    {
        if all_set(bitfield) {
            return WebSeedAction::Finish;
        }
        proof {
            let flags = gaps_from(
                bitfield@,
                self.config.min_gap_pieces as int,
                *cursor as int % bitfield@.len() as int,
            );
            lemma_first_where(flags, is_set());
        }
        match claim_gap(cursor, bitfield.as_slice(), self.config.min_gap_pieces) {
            None => WebSeedAction::AwaitPiece,
            Some((index, _size)) => {
                proof {
                    let n = self.info.pieces@.len();
                    let pl = self.info.piece_length;
                    assert(index < n);
                    assert(0 <= index * pl <= n * pl) by (nonlinear_arith)
                        requires
                            0 <= index <= n,
                            pl >= 0,
                    ;
                }
                let start: u64 = index as u64 * self.info.piece_length;
                let reach: u64 = start + self.config.max_range_bytes;
                let end: u64 = if reach <= self.info.length {
                    reach
                } else {
                    self.info.length
                };
                WebSeedAction::Download {
                    start,
                    end: if end > 0 {
                        end - 1
                    } else {
                        0
                    },
                }
            },
        }
    }

    /// A range was downloaded and its pieces were stored.
    pub fn range_succeeded(&mut self, now: Nanos) -> (a: WebSeedAction)
        requires
            old(self).wf(),
            old(self).health.success_count < u64::MAX,
        ensures
            final(self).wf(),
            final(self).same_task(*old(self)),
            final(self).health == (UrlHealth {
                consecutive_failures: 0,
                success_count: (old(self).health.success_count + 1) as u64,
                last_success: Some(now),
            }),
            final(self).retry_delay == old(self).config.retry_delay,
            final(self).health == after_served(old(self).health, now),
            a == WebSeedAction::Continue,
    {
        self.health.record_success(now);
        self.retry_delay = self.config.retry_delay;
        WebSeedAction::Continue
    }

    /// A range could not be downloaded or stored. A URL that serves wrong bytes
    /// is given up. After too many failures in a row the URL is parked, and
    /// starts afresh once a probe succeeds. Otherwise the range is tried again
    /// after a delay, which doubles up to a minute.
    pub fn range_failed(&mut self, error: Error) -> (a: WebSeedAction)
        requires
            old(self).wf(),
        ensures
            final(self).wf(),
            final(self).same_task(*old(self)),
            ({
                let failures = old(self).health.consecutive_failures + 1;
                if error.spec_kind() == ErrorKind::WebSeedHashMismatch {
                    &&& a == WebSeedAction::Finish
                    &&& *final(self) == *old(self)
                } else if failures >= old(self).config.park_threshold {
                    &&& a == WebSeedAction::Park { delay: old(self).config.park_retry_interval }
                    &&& final(self).health == fresh_health()
                    &&& final(self).retry_delay == old(self).config.retry_delay
                } else {
                    &&& a == WebSeedAction::Retry { delay: old(self).retry_delay }
                    &&& final(self).health == (UrlHealth {
                        consecutive_failures: failures as u32,
                        ..old(self).health
                    })
                    &&& final(self).retry_delay == next_delay(old(self).retry_delay)
                }
            }),
            (final(self).health, final(self).retry_delay, a) == after_range_failed(
                *old(self),
                error.spec_kind() == ErrorKind::WebSeedHashMismatch,
            ),
    {
        if error.kind() == ErrorKind::WebSeedHashMismatch {
            return WebSeedAction::Finish;
        }
        self.health.record_failure();
        if self.health.should_park(self.config.park_threshold) {
            self.health = UrlHealth::default();
            self.retry_delay = self.config.retry_delay;
            return WebSeedAction::Park { delay: self.config.park_retry_interval };
        }
        let delay: Nanos = self.retry_delay;
        self.retry_delay = if 2 * delay <= MAX_RETRY_DELAY {
            2 * delay
        } else {
            MAX_RETRY_DELAY
        };
        WebSeedAction::Retry { delay }
    }

    fn step(&self, start: u64, body: &Vec<u8>, offset: usize, have: &Vec<bool>) -> (r: RangeStep)
        requires
            exact_layout(self.info),
            self.info.pieces@.len() <= u32::MAX,
            have@.len() == self.info.pieces@.len(),
            offset <= body@.len(),
            start + body@.len() + self.info.piece_length <= u64::MAX,
            can_split(self.info, start as int, offset as int),
        ensures
            r == range_step(self.info, start as int, body@, offset as int, have@),
    {
        if offset >= body.len() {
            return RangeStep::Done;
        }
        let pl: u64 = self.info.piece_length;
        let at: u64 = offset as u64;
        proof {
            lemma_split_point(self.info, start as int, offset as int);
            vstd::arithmetic::div_mod::lemma_div_is_ordered_by_denominator(start as int, 1, pl as int);
            vstd::arithmetic::div_mod::lemma_div_is_ordered_by_denominator(at as int, 1, pl as int);
        }
        let index: u64 = start / pl + at / pl;
        let skew: u64 = (start + at) % pl;
        let len: u64 = self.len_of(index);
        let reach: u64 = at + len - skew;
        let end: u64 = if reach <= body.len() as u64 {
            reach
        } else {
            body.len() as u64
        };
        if end < at || end - at != len {
            return RangeStep::Done;
        }
        if index < have.len() as u64 && have[index as usize] {
            return RangeStep::Skip { next: end };
        }
        if index >= self.info.pieces.len() as u64 {
            return RangeStep::Done;
        }
        let chunk = vstd::slice::slice_subrange(body.as_slice(), offset, end as usize);
        if !verify_piece_hash(chunk, self.info.pieces[index as usize]) {
            return RangeStep::Corrupt;
        }
        RangeStep::Store { index: index as u32, next: end }
    }

    /// Split a response into pieces and verify each.
    ///
    /// `have` says which pieces are present. Pieces that are present are
    /// skipped, what does not fill a piece is left over, and bytes that are not
    /// those of their piece end the search. Returns the pieces to be stored, the
    /// number of bytes that were wasted on pieces that are present or corrupt, and
    /// an error if the search ended that way.
    pub fn download_range(&self, start: u64, body: &Vec<u8>, have: &Vec<bool>) -> (r: (
        Vec<Chunk>,
        u64,
        Result<(), Error>,
    ))
        requires
            exact_layout(self.info),
            self.info.pieces@.len() <= u32::MAX,
            have@.len() == self.info.pieces@.len(),
            start + body@.len() + self.info.piece_length <= u64::MAX,
            start % self.info.piece_length == 0 || start < self.info.length,
        ensures
            r.0@ == range_run(self.info, start as int, body@, 0, have@).chunks,
            r.1 == range_run(self.info, start as int, body@, 0, have@).wasted,
            match r.2 {
                Ok(()) => !range_run(self.info, start as int, body@, 0, have@).corrupt,
                Err(e) => range_run(self.info, start as int, body@, 0, have@).corrupt
                    && e.spec_kind() == ErrorKind::WebSeedHashMismatch,
            },
    {
        let mut chunks: Vec<Chunk> = Vec::new();
        let mut present: Vec<bool> = Vec::new();
        let mut i: usize = 0;
        while i < have.len()
            invariant
                i <= have@.len(),
                present@ == have@.take(i as int),
            decreases have@.len() - i,
        {
            present.push(have[i]);
            i += 1;
            assert(present@ =~= have@.take(i as int));
        }
        assert(present@ =~= have@);
        let total: usize = body.len();
        let mut offset: usize = 0;
        let mut wasted: u64 = 0;
        let ghost whole = range_run(self.info, start as int, body@, 0, have@);
        proof {
            vstd::arithmetic::div_mod::lemma_small_mod(0, self.info.piece_length as nat);
        }
        loop
            invariant
                exact_layout(self.info),
                self.info.pieces@.len() <= u32::MAX,
                present@.len() == self.info.pieces@.len(),
                start + body@.len() + self.info.piece_length <= u64::MAX,
                offset <= total == body@.len(),
                can_split(self.info, start as int, offset as int),
                whole == range_run(self.info, start as int, body@, 0, have@),
                ({
                    let rest = range_run(
                        self.info,
                        start as int,
                        body@,
                        offset as int,
                        present@,
                    );
                    &&& chunks@ + rest.chunks == whole.chunks
                    &&& rest.corrupt == whole.corrupt
                    &&& wasted + rest.wasted == whole.wasted
                    &&& wasted <= offset
                }),
            decreases body@.len() - offset,
        {
            proof {
                law_steps_make_progress(
                    self.info,
                    start as int,
                    body@,
                    offset as int,
                    present@,
                );
            }
            let ghost rest = range_run(self.info, start as int, body@, offset as int, present@);
            match self.step(start, body, offset, &present) {
                RangeStep::Done => {
                    assert(chunks@ + rest.chunks =~= chunks@);
                    return (chunks, wasted, Ok(()));
                },
                RangeStep::Corrupt => {
                    assert(chunks@ + rest.chunks =~= chunks@);
                    let pl: u64 = self.info.piece_length;
                    let at: u64 = offset as u64;
                    proof {
                        lemma_split_point(self.info, start as int, offset as int);
                        vstd::arithmetic::div_mod::lemma_div_is_ordered_by_denominator(
                            start as int,
                            1,
                            pl as int,
                        );
                        vstd::arithmetic::div_mod::lemma_div_is_ordered_by_denominator(
                            at as int,
                            1,
                            pl as int,
                        );
                    }
                    let corrupt: u64 = self.len_of(start / pl + at / pl);
                    return (
                        chunks,
                        wasted + corrupt,
                        Err(Error::new(ErrorKind::WebSeedHashMismatch)),
                    );
                },
                RangeStep::Skip { next } => {
                    wasted = wasted + (next - offset as u64);
                    offset = next as usize;
                },
                RangeStep::Store { index, next } => {
                    let ghost before = chunks@;
                    let ghost later = range_run(
                        self.info,
                        start as int,
                        body@,
                        next as int,
                        present@.update(index as int, true),
                    );
                    let chunk = Chunk { index, from: offset, to: next as usize };
                    chunks.push(chunk);
                    present.set(index as usize, true);
                    offset = next as usize;
                    assert(before + (seq![chunk] + later.chunks) =~= chunks@ + later.chunks);
                },
            }
        }
    }
}

/// The delay before a retry never exceeds a minute, once it has doubled.
pub proof fn law_delay_bounded(delay: Nanos)
    ensures
        next_delay(delay) <= 60 * SECOND,
        delay <= 30 * SECOND ==> next_delay(delay) == 2 * delay,
{
}

/// A delay of up to a minute never gets shorter, and from half a minute on the next
/// one is a minute.
pub proof fn law_delay_settles(delay: Nanos)
    ensures
        delay >= 30 * SECOND ==> next_delay(delay) == 60 * SECOND,
        delay <= 60 * SECOND ==> next_delay(delay) >= delay,
{
}

/// The pieces of a claimed gap cannot be more: it ends before a piece that is
/// there, or goes all the way round.
pub proof fn law_claimed_gap_ends(bitfield: Seq<bool>, min: int, start: int)
    requires
        bitfield.len() > 0,
        start >= 0,
    ensures
        gap_from(bitfield, min, start) matches Some((i, n)) ==> {
            &&& 0 <= i < bitfield.len()
            &&& 0 < n <= bitfield.len()
            &&& n == bitfield.len() || bitfield[(i + n) % bitfield.len() as int]
        },
{
    let flags = gaps_from(bitfield, min, start);
    lemma_first_where(flags, is_set());
    if let Some((i, n)) = gap_from(bitfield, min, start) {
        let view = rotated(bitfield, i);
        lemma_first_where(view, is_set());
        let o = first_where(flags, is_set());
        assert(is_set()(flags[o]));
        assert(0 <= i < bitfield.len());
        if n < bitfield.len() {
            assert(is_set()(view[n]));
        }
        if n == 0 {
            vstd::arithmetic::div_mod::lemma_small_mod(i as nat, bitfield.len() as nat);
        }
    }
}

/// A gap that is long enough is never passed over: if as many pieces in a row are
/// missing from somewhere on, going round, a gap is claimed, and none that starts
/// later than it as seen from the start of the search.
pub proof fn law_gap_is_claimed(bitfield: Seq<bool>, min: int, start: int, o: int)
    requires
        0 < min <= bitfield.len(),
        start >= 0,
        0 <= o < bitfield.len(),
        forall|j: int|
            0 <= j < min ==> !#[trigger] bitfield[(start + o + j) % bitfield.len() as int],
    ensures
        gap_from(bitfield, min, start) matches Some((i, n)) && n >= min && exists|p: int|
            0 <= p <= o && i == #[trigger] ((start + p) % bitfield.len() as int),
{
    let len = bitfield.len() as int;
    let flags = gaps_from(bitfield, min, start);
    let at = (start + o) % len;
    let view = rotated(bitfield, at);
    lemma_first_where(flags, is_set());
    lemma_first_where(view, is_set());
    assert forall|j: int| 0 <= j < min implies !#[trigger] view[j] by {
        vstd::arithmetic::div_mod::lemma_add_mod_noop(start + o, j, len);
        vstd::arithmetic::div_mod::lemma_mod_twice(start + o, len);
        vstd::arithmetic::div_mod::lemma_add_mod_noop(at, j, len);
        assert(!bitfield[(start + o + j) % len]);
    }
    if first_where(view, is_set()) < min {
        assert(is_set()(view[first_where(view, is_set())]));
    }
    assert(!bitfield[at]) by {
        assert(!bitfield[(start + o + 0) % len]);
    }
    assert(is_set()(flags[o]));
    let p = first_where(flags, is_set());
    assert(is_set()(flags[p]));
    assert(gap_at(bitfield, min, (start + p) % len));
}

/// The range of a gap begins with the first byte of its first piece. It holds no
/// more bytes than one request may ask for, and fewer only where the torrent ends.
pub proof fn law_range_of(info: Info, max_range_bytes: u64, index: int)
    requires
        0 <= index,
        index * info.piece_length < info.length,
        max_range_bytes > 0,
    ensures
        ({
            let (from, to) = range_of(info, max_range_bytes, index);
            &&& from == index * info.piece_length
            &&& from <= to < info.length
            &&& to - from + 1 <= max_range_bytes
            &&& to - from + 1 == max_range_bytes || to + 1 == info.length
        }),
{
    let pl = info.piece_length as int;
    assert(index * pl >= 0) by (nonlinear_arith)
        requires
            index >= 0,
            pl >= 0,
    ;
}

/// The probes ask for the header fields first, then for one byte, then for the
/// bytes from the first on: at most four kilobytes, and not past the end.
pub proof fn law_probes(total_size: u64)
    ensures
        ({
            let p = probes_for(total_size);
            &&& p.len() == 3
            &&& p[0] is Head
            &&& p[1] == (Probe::Range { start: 0, end: 0 })
            &&& p[2] matches Probe::Range { start, end } && {
                &&& start == 0
                &&& end < 4096
                &&& total_size > 0 ==> end < total_size
                &&& end == 4095 || end + 1 == total_size || total_size == 0
            }
        }),
{
}

/// The text of a range reads back: after the unit come both ends, in decimal, with
/// a dash between them.
pub proof fn law_range_text(start: u64, end: u64)
    ensures
        ({
            let t = range_text(start, end);
            let n = decimal_of(start as nat).len() as int;
            &&& t.len() > 7 + n
            &&& t.take(6) == "bytes="@
            &&& decimal(t.subrange(6, 6 + n), u64::MAX as int) == Some(start as nat)
            &&& t[6 + n] == '-'
            &&& decimal(t.skip(7 + n), u64::MAX as int) == Some(end as nat)
        }),
{
    let t = range_text(start, end);
    let a = decimal_of(start as nat);
    let b = decimal_of(end as nat);
    let n = a.len() as int;
    reveal_strlit("bytes=");
    reveal_strlit("-");
    law_decimal_round_trip(start as nat, u64::MAX as int);
    law_decimal_round_trip(end as nat, u64::MAX as int);
    assert(t.take(6) =~= "bytes="@);
    assert(t.subrange(6, 6 + n) =~= a);
    assert(t.skip(7 + n) =~= b);
}

/// A path names a directory exactly when it ends with a slash.
pub proof fn law_directory(path: Seq<char>, c: char)
    ensures
        is_directory(path.push(c)) <==> c == '/',
        !is_directory(Seq::empty()),
{
}

/// What a response holds at the start of a piece: nothing usable unless all bytes
/// of the piece are there; a piece that is present is passed over, whatever its
/// bytes; one that is missing is stored if its bytes have the right hash, and
/// found corrupt if not.
pub proof fn law_range_step(
    info: Info,
    start: int,
    body: Seq<u8>,
    index: int,
    have: Seq<bool>,
)
    requires
        exact_layout(info),
        info.pieces@.len() <= u32::MAX,
        body.len() <= u64::MAX,
        have.len() == info.pieces@.len(),
        0 <= start,
        start % (info.piece_length as int) == 0,
        start <= index * info.piece_length,
        0 <= index < info.pieces@.len(),
    ensures
        ({
            let pl = info.piece_length as int;
            let offset = index * pl - start;
            let len = info.spec_piece_len(index);
            let step = range_step(info, start, body, offset, have);
            if offset + len > body.len() {
                step is Done
            } else if have[index] {
                step == (RangeStep::Skip { next: (offset + len) as u64 })
            } else if sha1_of(body.subrange(offset, offset + len)) == info.pieces@[index]@ {
                step == (RangeStep::Store { index: index as u32, next: (offset + len) as u64 })
            } else {
                step is Corrupt
            }
        }),
{
    let pl = info.piece_length as int;
    let n = info.pieces@.len() as int;
    let q = start / pl;
    let offset = index * pl - start;
    let len = info.spec_piece_len(index);
    vstd::arithmetic::div_mod::lemma_fundamental_div_mod(start, pl);
    assert(offset == (index - q) * pl) by (nonlinear_arith)
        requires
            offset == index * pl - start,
            start == pl * q,
    ;
    vstd::arithmetic::div_mod::lemma_div_multiples_vanish(index - q, pl);
    vstd::arithmetic::div_mod::lemma_div_multiples_vanish(index, pl);
    vstd::arithmetic::div_mod::lemma_mod_multiples_basic(index, pl);
    law_lengths_agree(n, pl, info.length as int, index);
    assert((start + offset) % pl == 0);
    assert(start / pl + offset / pl == index);
    assert(index * pl <= (n - 1) * pl) by (nonlinear_arith)
        requires
            index <= n - 1,
            pl > 0,
    ;
    assert(len > 0);
}

/// The bytes of the pieces that a response is split into, added up.
pub open spec fn stored_bytes(chunks: Seq<Chunk>) -> int
    decreases chunks.len(),
{
    if chunks.len() == 0 {
        0
    } else {
        (chunks[0].to - chunks[0].from) + stored_bytes(chunks.drop_first())
    }
}

/// Every piece that is taken out of a response is missing, lies where the piece
/// lies in the torrent, is whole, and has the right hash. Up to some position each
/// byte is either stored with its piece or counts as wasted; what follows is less
/// than the next piece. Only the last of these bytes can be corrupt: then they fill
/// a missing piece whose hash is another.
pub proof fn law_range_accounted(
    info: Info,
    start: int,
    body: Seq<u8>,
    index: int,
    have: Seq<bool>,
) -> (last: int)
    requires
        exact_layout(info),
        info.pieces@.len() <= u32::MAX,
        body.len() <= usize::MAX,
        have.len() == info.pieces@.len(),
        0 <= start,
        start % (info.piece_length as int) == 0,
        start <= index * info.piece_length,
        0 <= index < info.pieces@.len(),
        index * info.piece_length - start <= body.len(),
    ensures
        ({
            let pl = info.piece_length as int;
            let offset = index * pl - start;
            let n = info.pieces@.len() as int;
            let run = range_run(info, start, body, offset, have);
            let end = if last < n {
                last * pl - start
            } else {
                info.length - start
            };
            &&& index <= last <= n
            &&& end <= body.len()
            &&& forall|k: int|
                0 <= k < run.chunks.len() ==> {
                    let c = #[trigger] run.chunks[k];
                    &&& index <= c.index < last
                    &&& !have[c.index as int]
                    &&& start + c.from == c.index * pl
                    &&& c.to - c.from == info.spec_piece_len(c.index as int)
                    &&& c.to <= body.len()
                    &&& sha1_of(body.subrange(c.from as int, c.to as int))
                        == info.pieces@[c.index as int]@
                }
            &&& stored_bytes(run.chunks) + run.wasted == end - offset + if run.corrupt {
                info.spec_piece_len(last)
            } else {
                0
            }
            &&& !run.corrupt && last < n ==> body.len() - end < info.spec_piece_len(last)
            &&& run.corrupt ==> {
                &&& last < n
                &&& !have[last]
                &&& end + info.spec_piece_len(last) <= body.len()
                &&& sha1_of(body.subrange(end, end + info.spec_piece_len(last)))
                    != info.pieces@[last]@
            }
        }),
    decreases info.pieces@.len() - index,
{
    let pl = info.piece_length as int;
    let n = info.pieces@.len() as int;
    let offset = index * pl - start;
    let len = info.spec_piece_len(index);
    let run = range_run(info, start, body, offset, have);
    law_range_step(info, start, body, index, have);
    assert(index * pl <= (n - 1) * pl) by (nonlinear_arith)
        requires
            index <= n - 1,
            pl > 0,
    ;
    assert((index + 1) * pl == index * pl + pl) by (nonlinear_arith);
    assert(len > 0);
    lemma_corrupt_len(info, start, index);
    let next = offset + len;
    assert(index + 1 < n ==> next == (index + 1) * pl - start);
    assert(index + 1 == n ==> next == info.length - start);
    match range_step(info, start, body, offset, have) {
        RangeStep::Done => { index },
        RangeStep::Corrupt => { index },
        RangeStep::Skip { next } => {
            if index + 1 < n {
                law_range_accounted(info, start, body, index + 1, have)
            } else {
                lemma_nothing_left(info, start, body, have);
                n
            }
        },
        RangeStep::Store { index: i, next } => {
            let now = have.update(index, true);
            let rest = range_run(info, start, body, next as int, now);
            let c = Chunk { index: i, from: offset as usize, to: next as usize };
            assert(run.chunks.drop_first() =~= rest.chunks);
            assert(run.chunks[0] == c);
            let last = if index + 1 < n {
                law_range_accounted(info, start, body, index + 1, now)
            } else {
                lemma_nothing_left(info, start, body, now);
                assert(stored_bytes(rest.chunks) == 0);
                n
            };
            assert(stored_bytes(run.chunks) == len + stored_bytes(rest.chunks));
            assert forall|k: int| 0 <= k < run.chunks.len() implies {
                let c = #[trigger] run.chunks[k];
                &&& index <= c.index < last
                &&& !have[c.index as int]
                &&& start + c.from == c.index * pl
                &&& c.to - c.from == info.spec_piece_len(c.index as int)
                &&& c.to <= body.len()
                &&& sha1_of(body.subrange(c.from as int, c.to as int))
                    == info.pieces@[c.index as int]@
            } by {
                if k > 0 {
                    assert(run.chunks[k] == rest.chunks[k - 1]);
                }
            }
            last
        },
    }
}

/// The length that a corrupt piece at the start of a piece wastes is its own.
proof fn lemma_corrupt_len(info: Info, start: int, index: int)
    requires
        exact_layout(info),
        0 <= start,
        start % (info.piece_length as int) == 0,
        start <= index * info.piece_length,
        0 <= index < info.pieces@.len(),
    ensures
        ({
            let pl = info.piece_length as int;
            let offset = index * pl - start;
            len_at(pl, info.length as int, start / pl + offset / pl) == info.spec_piece_len(index)
        }),
{
    let pl = info.piece_length as int;
    let q = start / pl;
    let offset = index * pl - start;
    vstd::arithmetic::div_mod::lemma_fundamental_div_mod(start, pl);
    assert(offset == (index - q) * pl) by (nonlinear_arith)
        requires
            offset == index * pl - start,
            start == pl * q,
    ;
    vstd::arithmetic::div_mod::lemma_div_multiples_vanish(index - q, pl);
    law_lengths_agree(info.pieces@.len() as int, pl, info.length as int, index);
}

/// Past the last piece of the torrent a response holds nothing.
proof fn lemma_nothing_left(info: Info, start: int, body: Seq<u8>, have: Seq<bool>)
    requires
        exact_layout(info),
        0 <= start <= info.length,
        start % (info.piece_length as int) == 0,
        have.len() == info.pieces@.len(),
        body.len() <= usize::MAX,
    ensures
        range_run(info, start, body, info.length - start, have) == (RangeRun {
            chunks: Seq::empty(),
            corrupt: false,
            wasted: 0,
        }),
{
    let pl = info.piece_length as int;
    let total = info.length as int;
    let n = info.pieces@.len() as int;
    let offset = total - start;
    vstd::arithmetic::div_mod::lemma_fundamental_div_mod(start, pl);
    vstd::arithmetic::div_mod::lemma_fundamental_div_mod(total, pl);
    vstd::arithmetic::div_mod::lemma_fundamental_div_mod(offset, pl);
    lemma_quotient_sum(start, offset, pl);
    let index = start / pl + offset / pl;
    assert(index == total / pl);
    lemma_split_point(info, start, offset);
    assert(total % pl == 0 ==> total / pl == n) by (nonlinear_arith)
        requires
            total == pl * (total / pl) + total % pl,
            total <= n * pl,
            n > 0 ==> (n - 1) * pl < total,
            n >= 0,
            total >= 0,
            pl > 0,
    ;
    assert(range_step(info, start, body, offset, have) is Done);
}

/// The largest gap: all of its pieces are missing, no run of missing pieces is
/// longer, and none that is as long starts earlier.
pub proof fn law_largest_gap(bitfield: Seq<bool>, s: int, k: int, a: int, m: int)
    requires
        is_gap(bitfield, s, k),
        forall|x: int, y: int| #[trigger] is_gap(bitfield, x, y) ==> gap_beats(s, k, x, y),
        0 <= a,
        0 < m,
        a + m <= bitfield.len(),
        forall|i: int| a <= i < a + m ==> !#[trigger] bitfield[i],
    ensures
        0 <= s,
        0 < k,
        s + k <= bitfield.len(),
        forall|i: int| s <= i < s + k ==> !#[trigger] bitfield[i],
        m <= k,
        m == k ==> s <= a,
{
    assert(is_gap(bitfield, a, m));
}

/// A URL that was not tried yet has neither failed nor succeeded.
pub proof fn law_fresh_health()
    ensures
        fresh_health().consecutive_failures == 0,
        fresh_health().success_count == 0,
        fresh_health().last_success is None,
{
}

/// The name of the file goes behind the base URL only where the torrent is a single
/// file and the path of the URL ends with a slash; otherwise the base URL is that
/// of the file.
pub proof fn law_request_url(t: WebSeedTask, path: Seq<char>)
    requires
        url_path(t.url@) == Some(path),
    ensures
        t.single_file && path.len() > 0 && path[path.len() - 1] == '/' ==> t.request_url()
            == url_join(t.url@, t.info.name@),
        !t.single_file || path.len() == 0 || path[path.len() - 1] != '/' ==> t.request_url() == Some(
            t.url@,
        ),
{
}

/// What a task never changes: its URL, the torrent, and the configuration.
pub proof fn law_same_task(t: WebSeedTask, o: WebSeedTask)
    ensures
        t.same_task(o) <==> t == (WebSeedTask { health: t.health, retry_delay: t.retry_delay, ..o }),
{
}

/// A URL that serves wrong bytes is given up at once. One that fails otherwise is
/// tried again after the current delay, which then doubles up to a minute, until as
/// many failures in a row are on record as it takes to park it: then it rests for
/// the park interval and starts afresh. A success clears the failures.
pub proof fn law_failures(t: WebSeedTask, now: Nanos)
    requires
        t.health.consecutive_failures < u32::MAX,
        t.health.success_count < u64::MAX,
    ensures
        after_range_failed(t, true).2 == WebSeedAction::Finish,
        after_range_failed(t, true).0 == t.health,
        ({
            let (health, delay, action) = after_range_failed(t, false);
            let n = t.health.consecutive_failures;
            &&& n + 1 >= t.config.park_threshold ==> {
                &&& action == WebSeedAction::Park { delay: t.config.park_retry_interval }
                &&& health.consecutive_failures == 0
                &&& delay == t.config.retry_delay
            }
            &&& n + 1 < t.config.park_threshold ==> {
                &&& action == WebSeedAction::Retry { delay: t.retry_delay }
                &&& health.consecutive_failures == n + 1
                &&& health.success_count == t.health.success_count
                &&& health.last_success == t.health.last_success
                &&& t.retry_delay <= 30_000_000_000 ==> delay == 2 * t.retry_delay
                &&& t.retry_delay >= 30_000_000_000 ==> delay == 60_000_000_000
            }
        }),
        after_served(t.health, now).consecutive_failures == 0,
        after_served(t.health, now).success_count == t.health.success_count + 1,
        after_served(t.health, now).last_success == Some(now),
{
}

/// Of an empty torrent, or with no bytes to ask for at its start, the range is the
/// first byte.
pub proof fn law_empty_range(info: Info, max_range_bytes: u64)
    requires
        info.length == 0 || max_range_bytes == 0,
    ensures
        range_of(info, max_range_bytes, 0) == (0int, 0int),
{
}

/// A URL that never succeeded may always be tried; one that did, once the interval
/// has passed since. It is parked with the failure that brings those in a row up to
/// the threshold, and not before.
pub proof fn law_parked(h: UrlHealth, threshold: u32, interval: Nanos, now: Nanos)
    ensures
        h.last_success is None ==> is_ready(h, interval, now),
        h.last_success matches Some(t) ==> (t <= now ==> (is_ready(h, interval, now) <==> t
            + interval <= now)),
        h.consecutive_failures == threshold ==> is_parked(h, threshold),
        h.consecutive_failures + 1 == threshold ==> !is_parked(h, threshold),
        is_parked(h, threshold) <==> h.consecutive_failures as int - threshold >= 0,
{
}

} // verus!
