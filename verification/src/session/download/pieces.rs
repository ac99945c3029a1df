//! Completed pieces: hash check, cache, and strikes for corrupt data.

use super::tables::{Downloads, Peers};
use super::types::{DownloadView, PeerView};
use crate::addr::PeerAddr;

use crate::hash::{sha1_of, verify_piece_hash};
use crate::metainfo::Info;
use crate::seqs::{all_true, count_true, law_count_true, lemma_push_contains};
use vstd::prelude::*;

verus! {

/// Whether every piece in flight belongs to the torrent and has its length.
pub open spec fn sized_for(dls: Map<u32, DownloadView>, info: Info) -> bool {
    forall|i: u32| #[trigger]
        dls.contains_key(i) ==> i < info.pieces@.len() && dls[i].data.len() == info.spec_piece_len(
            i as int,
        )
}

/// The outcome of checking an assembled piece.
pub enum PieceCheck {
    /// The piece is not in flight or not part of the torrent.
    Unknown,
    /// The hash matches; the bytes of the piece.
    Valid(Vec<u8>),
    /// The hash does not match.
    Corrupt,
}

/// Whether the assembled bytes of a piece hash to the value in the metadata.
pub open spec fn hash_matches(dls: Map<u32, DownloadView>, info: Info, index: u32) -> bool {
    sha1_of(dls[index].data) == info.pieces@[index as int]@
}

/// Check an assembled piece against its hash.
pub fn check_piece(downloads: &Downloads, info: &Info, index: u32) -> (r: PieceCheck)
    requires
        downloads.wf(),
        info.layout_ok(),
        sized_for(downloads@, *info),
    ensures
        match r {
            PieceCheck::Unknown => !downloads@.contains_key(index),
            PieceCheck::Valid(data) => downloads@.contains_key(index) && hash_matches(
                downloads@,
                *info,
                index,
            ) && data@ == downloads@[index].data,
            PieceCheck::Corrupt => downloads@.contains_key(index) && !hash_matches(
                downloads@,
                *info,
                index,
            ),
        },
{
    match downloads.get(index) {
        Some(dl) => {
            let expected = info.pieces[index as usize];
            if verify_piece_hash(dl.data.as_slice(), expected) {
                PieceCheck::Valid(crate::seqs::copy_bytes(dl.data.as_slice()))
            } else {
                PieceCheck::Corrupt
            }
        },
        None => PieceCheck::Unknown,
    }
}

/// Mark a piece as held, if it is part of the torrent.
pub open spec fn with_piece(have: Seq<bool>, index: u32) -> Seq<bool> {
    if index < have.len() {
        have.update(index as int, true)
    } else {
        have
    }
}

/// Mark a piece as held, if it is part of the torrent.
pub fn set_piece(have: &mut Vec<bool>, index: u32)
    ensures
        final(have)@ == with_piece(old(have)@, index),
{
    if (index as usize) < have.len() {
        have[index as usize] = true;
    }
}

/// Completed pieces kept for serving uploads, oldest first.
pub type PieceCache = Vec<(u32, Vec<u8>)>;

/// The indices and bytes of the cached pieces.
pub open spec fn cache_view(cache: Seq<(u32, Vec<u8>)>) -> Seq<(u32, Seq<u8>)> {
    cache.map_values(|e: (u32, Vec<u8>)| (e.0, e.1@))
}

/// The cache after a piece was added: the oldest leaves when the cache is full.
pub open spec fn with_cached(
    cache: Seq<(u32, Seq<u8>)>,
    index: u32,
    data: Seq<u8>,
    size: usize,
) -> Seq<(u32, Seq<u8>)> {
    if cache.len() >= size {
        cache.drop_first().push((index, data))
    } else {
        cache.push((index, data))
    }
}

/// Add a completed piece to the cache.
pub fn cache_piece(cache: &mut PieceCache, index: u32, data: Vec<u8>, size: usize)
    requires
        size > 0,
    ensures
        cache_view(final(cache)@) == with_cached(cache_view(old(cache)@), index, data@, size),
        old(cache)@.len() <= size ==> final(cache)@.len() <= size,
{
    if cache.len() >= size {
        cache.remove(0);
    }
    cache.push((index, data));
    assert(cache_view(cache@) =~= with_cached(cache_view(old(cache)@), index, data@, size));
}

/// Whether the peer was asked for a block of the piece.
pub open spec fn contributed(d: DownloadView, a: PeerAddr) -> bool {
    d.requested.contains(Some(a))
}

/// The strikes of a peer after a piece turned out corrupt: every contributor
/// gets one, however many blocks it was asked for.
pub open spec fn strikes(p: PeerView, d: DownloadView, a: PeerAddr) -> int {
    p.corrupt_blocks + if contributed(d, a) {
        1int
    } else {
        0int
    }
}

/// The peers after a piece turned out corrupt: contributors are struck, and
/// peers with too many strikes are banned.
pub open spec fn struck_peers(
    peers: Map<PeerAddr, PeerView>,
    d: DownloadView,
    threshold: u32,
) -> Map<PeerAddr, PeerView> {
    Map::new(
        |a: PeerAddr| peers.contains_key(a) && strikes(peers[a], d, a) < threshold,
        |a: PeerAddr| PeerView { corrupt_blocks: strikes(peers[a], d, a) as u32, ..peers[a] },
    )
}

/// No peer has run out of strikes to count.
pub open spec fn strikes_fit(peers: Map<PeerAddr, PeerView>) -> bool {
    forall|a: PeerAddr| #[trigger] peers.contains_key(a) ==> peers[a].corrupt_blocks < u32::MAX
}

/// Strike the contributors of a corrupt piece and ban peers with repeated
/// corrupt data. Returns the banned peers.
pub fn strike_contributors(
    peers: &mut Peers,
    downloads: &Downloads,
    index: u32,
    threshold: u32,
) -> (banned: Vec<PeerAddr>)
    requires
        old(peers).wf(),
        downloads.wf(),
        downloads@.contains_key(index),
        strikes_fit(old(peers)@),
    ensures
        final(peers).wf(),
        final(peers)@ == struck_peers(old(peers)@, downloads@[index], threshold),
        strikes_fit(final(peers)@),
        banned@ == old(peers).order().filter(
            |a: PeerAddr| strikes(old(peers)@[a], downloads@[index], a) >= threshold,
        ),
{
    let ghost ps = peers@;
    let ghost d = downloads@[index];
    let ghost order = peers.order();
    let ghost out = |a: PeerAddr| strikes(ps[a], d, a) >= threshold;
    let addrs = peers.addrs();
    let mut banned: Vec<PeerAddr> = Vec::new();
    proof {
        peers.lemma_wf();
        reveal(Seq::filter);
        assert(order.take(0).filter(out) =~= Seq::<PeerAddr>::empty());
    }
    let mut k: usize = 0;
    while k < addrs.len()
        invariant
            k <= addrs@.len(),
            addrs@ == order,
            order.no_duplicates(),
            peers.wf(),
            downloads.wf(),
            downloads@.contains_key(index),
            d == downloads@[index],
            strikes_fit(ps),
            out == (|a: PeerAddr| strikes(ps[a], d, a) >= threshold),
            forall|a: PeerAddr| #[trigger] ps.contains_key(a) <==> order.contains(a),
            forall|a: PeerAddr| #[trigger]
                peers@.contains_key(a) <==> ps.contains_key(a) && !banned@.contains(a),
            forall|m: int|
                0 <= m < k && !out(#[trigger] order[m]) ==> peers@[order[m]] == (PeerView {
                    corrupt_blocks: strikes(ps[order[m]], d, order[m]) as u32,
                    ..ps[order[m]]
                }),
            forall|m: int| k <= m < order.len() ==> peers@[#[trigger] order[m]] == ps[order[m]],
            banned@ == order.take(k as int).filter(out),
        decreases addrs@.len() - k,
    {
        let addr = addrs[k];
        let ghost banned_before = banned@;
        proof {
            reveal(Seq::filter);
            assert(order.take(k + 1).drop_last() =~= order.take(k as int));
            if banned@.contains(addr) {
                order.take(k as int).lemma_filter_contains_rev(out, addr);
                let m = choose|m: int| 0 <= m < k && order.take(k as int)[m] == addr;
            }
        }
        let guilty = match downloads.get(index) {
            Some(dl) => has_assigned(&dl.requested, addr),
            None => false,
        };
        let mut count: u32 = 0;
        if let Some(p) = peers.get_mut(&addr) {
            if guilty {
                p.corrupt_blocks = p.corrupt_blocks + 1;
            }
            count = p.corrupt_blocks;
        }
        proof {
            assert(peers@[addr] =~= (PeerView {
                corrupt_blocks: strikes(ps[addr], d, addr) as u32,
                ..ps[addr]
            }));
        }
        if count >= threshold {
            peers.remove(&addr);
            banned.push(addr);
        }
        proof {
            assert forall|m: int| 0 <= m < order.len() && m != k implies order[m] != addr by {}
            assert forall|a: PeerAddr| #[trigger] banned@.contains(a) <==> banned_before.contains(a)
                || (a == addr && out(addr)) by {
                if out(addr) {
                    lemma_push_contains(banned_before, addr, a);
                }
            }
        }
        k += 1;
    }
    proof {
        assert(order.take(k as int) =~= order);
        let target = struck_peers(ps, d, threshold);
        assert forall|a: PeerAddr| peers@.contains_key(a) <==> target.contains_key(a) by {
            if ps.contains_key(a) {
                let m = choose|m: int| 0 <= m < order.len() && order[m] == a;
                if out(a) {
                    order.lemma_filter_contains(out, m);
                } else if banned@.contains(a) {
                    let j = choose|j: int| 0 <= j < banned@.len() && banned@[j] == a;
                    order.lemma_filter_pred(out, j);
                }
            }
        }
        assert forall|a: PeerAddr| target.contains_key(a) implies peers@[a] == target[a] by {
            let m = choose|m: int| 0 <= m < order.len() && order[m] == a;
        }
        assert(peers@ =~= target);
        assert(out =~= (|a: PeerAddr| strikes(old(peers)@[a], downloads@[index], a) >= threshold));
    }
    banned
}

fn has_assigned(requested: &Vec<Option<PeerAddr>>, addr: PeerAddr) -> (r: bool)
    ensures
        r == requested@.contains(Some(addr)),
{
    let mut i: usize = 0;
    while i < requested.len()
        invariant
            i <= requested@.len(),
            forall|j: int| 0 <= j < i ==> requested@[j] != Some(addr),
        decreases requested@.len() - i,
    {
        if let Some(a) = requested[i] {
            if a == addr {
                assert(requested@[i as int] == Some(addr));
                return true;
            }
        }
        i += 1;
    }
    false
}

/// After strikes are dealt every remaining peer is below the threshold, and a
/// peer that did not contribute keeps its count.
pub proof fn law_strikes(
    peers: Map<PeerAddr, PeerView>,
    d: DownloadView,
    threshold: u32,
    a: PeerAddr,
)
    requires
        struck_peers(peers, d, threshold).contains_key(a),
        strikes_fit(peers),
    ensures
        struck_peers(peers, d, threshold)[a].corrupt_blocks < threshold,
        !contributed(d, a) ==> struck_peers(peers, d, threshold)[a] == peers[a],
{
    assert(peers.contains_key(a));
}

/// What the cache holds is bounded, and the piece just added is its newest.
pub proof fn law_cache_bounded(
    cache: Seq<(u32, Seq<u8>)>,
    index: u32,
    data: Seq<u8>,
    size: usize,
)
    requires
        size > 0,
        cache.len() <= size,
    ensures
        with_cached(cache, index, data, size).len() <= size,
        with_cached(cache, index, data, size).last() == (index, data),
{
}

/// The cache forgets no piece but the oldest, and that one only when it is full;
/// the others keep their order.
pub proof fn law_cache_order(
    cache: Seq<(u32, Seq<u8>)>,
    index: u32,
    data: Seq<u8>,
    size: usize,
    i: int,
)
    requires
        size > 0,
        cache.len() <= size,
        0 <= i < cache.len(),
    ensures
        ({
            let after = with_cached(cache, index, data, size);
            &&& cache.len() < size ==> after.len() == cache.len() + 1 && after[i] == cache[i]
            &&& cache.len() == size ==> after.len() == cache.len() && (i > 0 ==> after[i - 1]
                == cache[i])
            &&& after[after.len() - 1] == (index, data)
        }),
{
}

/// A piece that is marked is held; every other piece is held or not as before.
pub proof fn law_piece_marked(have: Seq<bool>, index: u32, i: int)
    requires
        0 <= i < have.len(),
    ensures
        with_piece(have, index).len() == have.len(),
        i == index ==> with_piece(have, index)[i],
        i != index ==> with_piece(have, index)[i] == have[i],
{
}

/// Whether so few pieces are missing that the end game begins.
pub open spec fn endgame_begins(have: Seq<bool>, threshold: usize) -> bool {
    0 < have.len() - count_true(have) < threshold
}

/// The end game begins when at least one piece is missing, but fewer than the
/// threshold. With every piece there it does not, and as many missing pieces as the
/// threshold are too many.
pub proof fn law_endgame(have: Seq<bool>, threshold: usize, n: nat)
    ensures
        all_true(have) ==> !endgame_begins(have, threshold),
        threshold <= 1 ==> !endgame_begins(have, threshold),
        threshold > have.len() && !all_true(have) ==> endgame_begins(have, threshold),
        endgame_begins(Seq::new(n, |i: int| false), threshold) <==> 1 <= n && n + 1 <= threshold,
        endgame_begins(have.push(true), threshold) <==> endgame_begins(have, threshold),
{
    law_count_true(have, true);
    let none = Seq::new(n, |i: int| false);
    let f = |b: bool| b;
    crate::seqs::lemma_count_where(none, f);
    assert forall|i: int| 0 <= i < none.len() implies !f(#[trigger] none[i]) by {}
}

} // verus!
