//! Requests that were never answered.

use super::tables::{asks_for, clear_blocks, Downloads, Peers};
use super::types::{BlockRequest, DownloadView, PeerView};
use crate::addr::PeerAddr;
use crate::time::{elapsed, elapsed_at, Nanos};
use crate::seqs::lemma_take_contains;
use vstd::prelude::*;

verus! {

/// Whether a request has waited longer than `timeout`.
pub open spec fn is_stale(r: BlockRequest, now: Nanos, timeout: Nanos) -> bool {
    elapsed_at(r.2, now) > timeout
}

/// Whether a slot holds a request that has waited too long.
pub open spec fn stale_slot(s: Option<BlockRequest>, now: Nanos, timeout: Nanos) -> bool {
    s matches Some(r) && is_stale(r, now, timeout)
}

/// The requests of a pipeline that have waited too long.
pub open spec fn stale_slots(
    p: Seq<Option<BlockRequest>>,
    now: Nanos,
    timeout: Nanos,
) -> Seq<Option<BlockRequest>> {
    Seq::new(
        p.len(),
        |i: int|
            if stale_slot(p[i], now, timeout) {
                p[i]
            } else {
                None
            },
    )
}

/// The requests of a pipeline that may still be answered.
pub open spec fn kept_slots(
    p: Seq<Option<BlockRequest>>,
    now: Nanos,
    timeout: Nanos,
) -> Seq<Option<BlockRequest>> {
    Seq::new(
        p.len(),
        |i: int|
            if stale_slot(p[i], now, timeout) {
                None
            } else {
                p[i]
            },
    )
}

/// A peer is dead when it has requests to answer and all of them are stale.
pub open spec fn is_dead(p: PeerView, now: Nanos, timeout: Nanos) -> bool {
    &&& p.has_requests()
    &&& forall|i: int|
        0 <= i < p.pipeline.len() && p.pipeline[i] is Some ==> stale_slot(
            #[trigger] p.pipeline[i],
            now,
            timeout,
        )
}

/// Whether some peer owes this block for too long.
pub open spec fn overdue(
    peers: Map<PeerAddr, PeerView>,
    now: Nanos,
    timeout: Nanos,
    index: u32,
    block: int,
    block_size: u32,
) -> bool {
    exists|a: PeerAddr| #[trigger]
        peers.contains_key(a) && asks_for(
            stale_slots(peers[a].pipeline, now, timeout),
            index,
            block,
            block_size,
        )
}

/// Whether the block is assigned to a dead peer.
pub open spec fn held_by_dead(
    peers: Map<PeerAddr, PeerView>,
    now: Nanos,
    timeout: Nanos,
    assigned: Option<PeerAddr>,
) -> bool {
    assigned matches Some(a) && peers.contains_key(a) && is_dead(peers[a], now, timeout)
}

/// The pieces in flight once stale requests are given up: blocks that are
/// overdue or assigned to a dead peer are free again.
pub open spec fn expired_downloads(
    dls: Map<u32, DownloadView>,
    peers: Map<PeerAddr, PeerView>,
    now: Nanos,
    timeout: Nanos,
) -> Map<u32, DownloadView> {
    clear_blocks(
        dls,
        |i: u32, b: int|
            overdue(peers, now, timeout, i, b, dls[i].block_size) || held_by_dead(
                peers,
                now,
                timeout,
                dls[i].requested[b],
            ),
    )
}

/// The peers once stale requests are given up: dead peers are gone, and the
/// others are left with the requests that may still be answered.
pub open spec fn expired_peers(
    peers: Map<PeerAddr, PeerView>,
    now: Nanos,
    timeout: Nanos,
) -> Map<PeerAddr, PeerView> {
    Map::new(
        |a: PeerAddr| peers.contains_key(a) && !is_dead(peers[a], now, timeout),
        |a: PeerAddr| PeerView { pipeline: kept_slots(peers[a].pipeline, now, timeout), ..peers[a] },
    )
}

/// Whether one of the first `k` peers owes this block for too long.
spec fn overdue_by(
    peers: Map<PeerAddr, PeerView>,
    order: Seq<PeerAddr>,
    k: int,
    now: Nanos,
    timeout: Nanos,
    index: u32,
    block: int,
    block_size: u32,
) -> bool {
    exists|m: int|
        0 <= m < k && asks_for(
            stale_slots(peers[#[trigger] order[m]].pipeline, now, timeout),
            index,
            block,
            block_size,
        )
}

/// Splits a pipeline into stale and live requests.
fn split_slots(p: &[Option<BlockRequest>; 5], now: Nanos, timeout: Nanos) -> (r: (
    [Option<BlockRequest>; 5],
    [Option<BlockRequest>; 5],
    bool,
    bool,
))
    ensures
        r.0@ == stale_slots(p@, now, timeout),
        r.1@ == kept_slots(p@, now, timeout),
        r.2 == (exists|i: int| 0 <= i < p@.len() && #[trigger] p@[i] is Some),
        r.3 == forall|i: int|
            0 <= i < p@.len() && p@[i] is Some ==> stale_slot(#[trigger] p@[i], now, timeout),
{
    let mut stale: [Option<BlockRequest>; 5] = [None; 5];
    let mut kept: [Option<BlockRequest>; 5] = [None; 5];
    let mut any = false;
    let mut all_stale = true;
    let mut i: usize = 0;
    while i < 5
        invariant
            i <= 5,
            p@.len() == 5,
            stale@.len() == 5,
            kept@.len() == 5,
            forall|m: int| 0 <= m < i ==> #[trigger] stale@[m] == stale_slots(p@, now, timeout)[m],
            forall|m: int| 0 <= m < i ==> #[trigger] kept@[m] == kept_slots(p@, now, timeout)[m],
            any == (exists|m: int| 0 <= m < i && #[trigger] p@[m] is Some),
            all_stale == forall|m: int|
                0 <= m < i && p@[m] is Some ==> stale_slot(#[trigger] p@[m], now, timeout),
        decreases 5 - i,
    {
        match p[i] {
            Some(r) => {
                any = true;
                if elapsed(r.2, now) > timeout {
                    stale[i] = p[i];
                    kept[i] = None;
                } else {
                    all_stale = false;
                    stale[i] = None;
                    kept[i] = p[i];
                }
            },
            None => {
                stale[i] = None;
                kept[i] = None;
            },
        }
        i += 1;
    }
    assert(stale@ =~= stale_slots(p@, now, timeout));
    assert(kept@ =~= kept_slots(p@, now, timeout));
    (stale, kept, any, all_stale)
}

/// Give up requests that have waited longer than `timeout`, and drop the peers
/// that answer none of theirs. Returns the dropped peers.
pub fn expire_stale(
    peers: &mut Peers,
    downloads: &mut Downloads,
    timeout: Nanos,
    now: Nanos,
) -> (dead: Vec<PeerAddr>)
    requires
        old(peers).wf(),
        old(downloads).wf(),
    ensures
        final(peers).wf(),
        final(downloads).wf(),
        final(peers)@ == expired_peers(old(peers)@, now, timeout),
        final(downloads)@ == expired_downloads(old(downloads)@, old(peers)@, now, timeout),
        final(downloads).order() == old(downloads).order(),
        dead@ == old(peers).order().filter(|a: PeerAddr| is_dead(old(peers)@[a], now, timeout)),
{
    let ghost ps = peers@;
    let ghost dls = downloads@;
    let ghost order = peers.order();
    let ghost dies = |a: PeerAddr| is_dead(ps[a], now, timeout);
    let addrs = peers.addrs();
    let mut dead: Vec<PeerAddr> = Vec::new();
    proof {
        peers.lemma_wf();
        downloads.lemma_wf();
        reveal(Seq::filter);
        assert(order.take(0).filter(dies) =~= Seq::<PeerAddr>::empty());
        assert forall|i: u32, b: int| #![trigger dls[i].requested[b]] !overdue_by(
            ps,
            order,
            0,
            now,
            timeout,
            i,
            b,
            dls[i].block_size,
        ) by {}
    }
    let mut k: usize = 0;
    while k < addrs.len()
        invariant
            k <= addrs@.len(),
            addrs@ == order,
            order.no_duplicates(),
            peers.wf(),
            downloads.wf(),
            downloads.order() == old(downloads).order(),
            forall|i: u32| #[trigger] dls.contains_key(i) ==> dls[i].wf(),
            forall|a: PeerAddr| #[trigger] ps.contains_key(a) <==> order.contains(a),
            forall|a: PeerAddr| #[trigger] peers@.contains_key(a) <==> ps.contains_key(a),
            forall|m: int|
                0 <= m < k ==> peers@[#[trigger] order[m]] == (PeerView {
                    pipeline: kept_slots(ps[order[m]].pipeline, now, timeout),
                    ..ps[order[m]]
                }),
            forall|m: int| k <= m < order.len() ==> peers@[#[trigger] order[m]] == ps[order[m]],
            forall|i: u32| #[trigger] downloads@.contains_key(i) <==> dls.contains_key(i),
            forall|i: u32| #[trigger]
                dls.contains_key(i) ==> downloads@[i] == (DownloadView {
                    requested: downloads@[i].requested,
                    ..dls[i]
                }) && downloads@[i].requested.len() == dls[i].requested.len(),
            forall|i: u32, b: int|
                dls.contains_key(i) && 0 <= b < dls[i].requested.len()
                    ==> #[trigger] downloads@[i].requested[b] == if overdue_by(
                    ps,
                    order,
                    k as int,
                    now,
                    timeout,
                    i,
                    b,
                    dls[i].block_size,
                ) {
                    None
                } else {
                    dls[i].requested[b]
                },
            dies == (|a: PeerAddr| is_dead(ps[a], now, timeout)),
            dead@ == order.take(k as int).filter(dies),
        decreases addrs@.len() - k,
    {
        let addr = addrs[k];
        let ghost before = downloads@;
        let ghost peers_before = peers@;
        proof {
            reveal(Seq::filter);
            assert(order.take(k + 1).drop_last() =~= order.take(k as int));
        }
        if let Some(p) = peers.get_mut(&addr) {
            let (stale, kept, any, all_stale) = split_slots(&p.pipeline, now, timeout);
            p.pipeline = kept;
            downloads.release(&stale);
            if any && all_stale {
                dead.push(addr);
            }
            proof {
                assert forall|i: u32, b: int|
                    dls.contains_key(i) && 0 <= b < dls[i].requested.len() implies #[trigger] downloads@[i].requested[b]
                    == if overdue_by(
                    ps,
                    order,
                    k + 1,
                    now,
                    timeout,
                    i,
                    b,
                    dls[i].block_size,
                ) {
                    None
                } else {
                    dls[i].requested[b]
                } by {
                    lemma_overdue_step(ps, order, k as int, now, timeout, i, b, dls[i].block_size);
                    assert(before[i].requested[b] == if overdue_by(
                        ps,
                        order,
                        k as int,
                        now,
                        timeout,
                        i,
                        b,
                        dls[i].block_size,
                    ) {
                        None
                    } else {
                        dls[i].requested[b]
                    });
                    assert(downloads@[i].requested[b] == if asks_for(
                        stale@,
                        i,
                        b,
                        before[i].block_size,
                    ) {
                        None
                    } else {
                        before[i].requested[b]
                    });
                }
            }
        }
        proof {
            assert forall|m: int| 0 <= m < order.len() && m != k implies peers@[#[trigger] order[m]]
                == peers_before[order[m]] by {}
            assert(peers@[addr] =~= (PeerView {
                pipeline: kept_slots(ps[addr].pipeline, now, timeout),
                ..ps[addr]
            }));
        }
        k += 1;
    }
    assert(order.take(k as int) =~= order);
    let ghost mid = downloads@;
    let ghost peers_mid = peers@;
    proof {
        assert forall|a: PeerAddr| #[trigger] dead@.contains(a) <==> ps.contains_key(a) && is_dead(
            ps[a],
            now,
            timeout,
        ) by {
            if dead@.contains(a) {
                order.lemma_filter_contains_rev(dies, a);
                let m = choose|m: int| 0 <= m < dead@.len() && dead@[m] == a;
                order.lemma_filter_pred(dies, m);
            }
            if ps.contains_key(a) && is_dead(ps[a], now, timeout) {
                let m = choose|m: int| 0 <= m < order.len() && order[m] == a;
                order.lemma_filter_contains(dies, m);
            }
        }
    }
    let mut d: usize = 0;
    while d < dead.len()
        invariant
            d <= dead@.len(),
            peers.wf(),
            downloads.wf(),
            downloads.order() == old(downloads).order(),
            forall|i: u32| #[trigger] downloads@.contains_key(i) <==> mid.contains_key(i),
            forall|i: u32| #[trigger]
                mid.contains_key(i) ==> downloads@[i] == (DownloadView {
                    requested: downloads@[i].requested,
                    ..mid[i]
                }) && downloads@[i].requested.len() == mid[i].requested.len(),
            forall|i: u32, b: int|
                mid.contains_key(i) && 0 <= b < mid[i].requested.len()
                    ==> #[trigger] downloads@[i].requested[b] == if owner_in(
                    dead@.take(d as int),
                    mid[i].requested[b],
                ) {
                    None
                } else {
                    mid[i].requested[b]
                },
            forall|a: PeerAddr| #[trigger]
                peers@.contains_key(a) <==> peers_mid.contains_key(a) && !dead@.take(
                    d as int,
                ).contains(a),
            forall|a: PeerAddr| #[trigger] peers@.contains_key(a) ==> peers@[a] == peers_mid[a],
        decreases dead@.len() - d,
    {
        let addr = dead[d];
        let ghost before = downloads@;
        downloads.forget(addr);
        peers.remove(&addr);
        proof {
            assert forall|a: PeerAddr| #[trigger] dead@.take(d + 1).contains(a) <==> dead@.take(
                d as int,
            ).contains(a) || a == addr by {
                lemma_take_contains(dead@, d as int, a);
            }
            assert forall|i: u32, b: int|
                mid.contains_key(i) && 0 <= b < mid[i].requested.len() implies #[trigger] downloads@[i].requested[b]
                == if owner_in(dead@.take(d + 1), mid[i].requested[b]) {
                None
            } else {
                mid[i].requested[b]
            } by {
                assert(before[i].requested[b] == if owner_in(
                    dead@.take(d as int),
                    mid[i].requested[b],
                ) {
                    None
                } else {
                    mid[i].requested[b]
                });
            }
        }
        d += 1;
    }
    proof {
        assert(dead@.take(d as int) =~= dead@);
        let target = expired_downloads(dls, ps, now, timeout);
        assert forall|i: u32| dls.contains_key(i) implies downloads@[i] == target[i] by {
            assert(mid.contains_key(i));
            assert forall|b: int| 0 <= b < dls[i].requested.len() implies downloads@[i].requested[b]
                == target[i].requested[b] by {
                let bs = dls[i].block_size;
                assert(mid[i].requested[b] == if overdue_by(
                    ps,
                    order,
                    order.len() as int,
                    now,
                    timeout,
                    i,
                    b,
                    bs,
                ) {
                    None
                } else {
                    dls[i].requested[b]
                });
                lemma_overdue_all(ps, order, now, timeout, i, b, bs);
                assert(downloads@[i].requested[b] == if owner_in(dead@, mid[i].requested[b]) {
                    None
                } else {
                    mid[i].requested[b]
                });
            }
            assert(downloads@[i].requested =~= target[i].requested);
            assert(downloads@[i] =~= target[i]);
        }
        assert(downloads@ =~= target);
        let pt = expired_peers(ps, now, timeout);
        assert forall|a: PeerAddr| peers@.contains_key(a) <==> pt.contains_key(a) by {}
        assert forall|a: PeerAddr| pt.contains_key(a) implies peers@[a] == pt[a] by {
            let m = choose|m: int| 0 <= m < order.len() && order[m] == a;
        }
        assert(peers@ =~= pt);
        assert(dies =~= (|a: PeerAddr| is_dead(old(peers)@[a], now, timeout)));
    }
    dead
}

spec fn owner_in(s: Seq<PeerAddr>, assigned: Option<PeerAddr>) -> bool {
    assigned matches Some(a) && s.contains(a)
}

proof fn lemma_overdue_step(
    ps: Map<PeerAddr, PeerView>,
    order: Seq<PeerAddr>,
    k: int,
    now: Nanos,
    timeout: Nanos,
    i: u32,
    b: int,
    bs: u32,
)
    requires
        0 <= k < order.len(),
    ensures
        overdue_by(ps, order, k + 1, now, timeout, i, b, bs) <==> overdue_by(
            ps,
            order,
            k,
            now,
            timeout,
            i,
            b,
            bs,
        ) || asks_for(stale_slots(ps[order[k]].pipeline, now, timeout), i, b, bs),
{
    if overdue_by(ps, order, k + 1, now, timeout, i, b, bs) {
        let m = choose|m: int|
            0 <= m < k + 1 && asks_for(
                stale_slots(ps[#[trigger] order[m]].pipeline, now, timeout),
                i,
                b,
                bs,
            );
        if m < k {
            assert(overdue_by(ps, order, k, now, timeout, i, b, bs));
        }
    }
}

proof fn lemma_overdue_all(
    ps: Map<PeerAddr, PeerView>,
    order: Seq<PeerAddr>,
    now: Nanos,
    timeout: Nanos,
    i: u32,
    b: int,
    bs: u32,
)
    requires
        forall|a: PeerAddr| #[trigger] ps.contains_key(a) <==> order.contains(a),
    ensures
        overdue_by(ps, order, order.len() as int, now, timeout, i, b, bs) <==> overdue(
            ps,
            now,
            timeout,
            i,
            b,
            bs,
        ),
{
    if overdue_by(ps, order, order.len() as int, now, timeout, i, b, bs) {
        let m = choose|m: int|
            0 <= m < order.len() && asks_for(
                stale_slots(ps[#[trigger] order[m]].pipeline, now, timeout),
                i,
                b,
                bs,
            );
        assert(ps.contains_key(order[m]));
    }
    if overdue(ps, now, timeout, i, b, bs) {
        let a = choose|a: PeerAddr| #[trigger]
            ps.contains_key(a) && asks_for(
                stale_slots(ps[a].pipeline, now, timeout),
                i,
                b,
                bs,
            );
        let m = choose|m: int| 0 <= m < order.len() && order[m] == a;
        assert(order[m] == a);
    }
}

/// After expiry no request of a remaining peer is stale, and a peer without
/// requests is left alone.
pub proof fn law_nothing_stale_remains(
    peers: Map<PeerAddr, PeerView>,
    now: Nanos,
    timeout: Nanos,
    a: PeerAddr,
)
    requires
        peers.contains_key(a),
    ensures
        ({
            let after = expired_peers(peers, now, timeout);
            &&& after.contains_key(a) ==> forall|i: int|
                0 <= i < after[a].pipeline.len() ==> !stale_slot(
                    #[trigger] after[a].pipeline[i],
                    now,
                    timeout,
                )
            &&& !peers[a].has_requests() ==> after.contains_key(a) && after[a] == peers[a]
        }),
{
    let after = expired_peers(peers, now, timeout);
    if !peers[a].has_requests() {
        assert forall|i: int| 0 <= i < peers[a].pipeline.len() implies peers[a].pipeline[i] is None by {}
        assert(after[a].pipeline =~= peers[a].pipeline);
        assert(after[a] =~= peers[a]);
    }
}

/// A peer is dropped exactly when something was asked of it and every request to
/// it has waited longer than the timeout. A peer that stays keeps the requests
/// that have not, in their slots, and loses the others.
pub proof fn law_who_expires(
    peers: Map<PeerAddr, PeerView>,
    now: Nanos,
    timeout: Nanos,
    a: PeerAddr,
)
    requires
        peers.contains_key(a),
    ensures
        ({
            let p = peers[a].pipeline;
            let after = expired_peers(peers, now, timeout);
            let asked = exists|i: int| 0 <= i < p.len() && #[trigger] p[i] is Some;
            let hopeful = exists|i: int|
                0 <= i < p.len() && (#[trigger] p[i] matches Some(r) && now <= r.2 + timeout);
            &&& is_dead(peers[a], now, timeout) <==> asked && !hopeful
            &&& after.contains_key(a) <==> !asked || hopeful
            &&& after.contains_key(a) ==> after[a].pipeline.len() == p.len() && after[a] == (
            PeerView { pipeline: after[a].pipeline, ..peers[a] })
            &&& after.contains_key(a) ==> forall|i: int|
                0 <= i < p.len() ==> #[trigger] after[a].pipeline[i] == if p[i] matches Some(r)
                    && now > r.2 + timeout {
                    None
                } else {
                    p[i]
                }
        }),
{
    let p = peers[a].pipeline;
    let after = expired_peers(peers, now, timeout);
    if exists|i: int|
        0 <= i < p.len() && (#[trigger] p[i] matches Some(r) && now <= r.2 + timeout) {
        let i = choose|i: int|
            0 <= i < p.len() && (#[trigger] p[i] matches Some(r) && now <= r.2 + timeout);
        assert(!stale_slot(p[i], now, timeout));
    } else {
        assert forall|i: int| 0 <= i < p.len() && p[i] is Some implies stale_slot(
            #[trigger] p[i],
            now,
            timeout,
        ) by {}
    }
}

/// A block is free again exactly when a peer owes it for longer than the timeout,
/// or when it is assigned to a peer that is dropped; nothing else changes in the
/// pieces in flight.
pub proof fn law_what_expires(
    dls: Map<u32, DownloadView>,
    peers: Map<PeerAddr, PeerView>,
    now: Nanos,
    timeout: Nanos,
    index: u32,
    b: int,
)
    requires
        dls.contains_key(index),
        0 <= b < dls[index].requested.len(),
    ensures
        ({
            let d = dls[index];
            let after = expired_downloads(dls, peers, now, timeout);
            let owed = exists|a: PeerAddr, j: int|
                {
                    &&& peers.contains_key(a)
                    &&& 0 <= j < peers[a].pipeline.len()
                    &&& #[trigger] peers[a].pipeline[j] matches Some(r) && r.0 == index && r.1 as int
                        / d.block_size as int == b && now > r.2 + timeout
                };
            let lost = d.requested[b] matches Some(a) && peers.contains_key(a) && !expired_peers(
                peers,
                now,
                timeout,
            ).contains_key(a);
            &&& after.dom() == dls.dom()
            &&& owed || lost ==> after[index].requested[b] is None
            &&& !owed && !lost ==> after[index].requested[b] == d.requested[b]
            &&& after[index] == (DownloadView { requested: after[index].requested, ..d })
        }),
{
    let d = dls[index];
    let bs = d.block_size;
    assert(expired_downloads(dls, peers, now, timeout).dom() =~= dls.dom());
    if exists|a: PeerAddr, j: int|
        {
            &&& peers.contains_key(a)
            &&& 0 <= j < peers[a].pipeline.len()
            &&& #[trigger] peers[a].pipeline[j] matches Some(r) && r.0 == index && r.1 as int
                / bs as int == b && now > r.2 + timeout
        } {
        let (a, j) = choose|a: PeerAddr, j: int|
            {
                &&& peers.contains_key(a)
                &&& 0 <= j < peers[a].pipeline.len()
                &&& #[trigger] peers[a].pipeline[j] matches Some(r) && r.0 == index && r.1 as int
                    / bs as int == b && now > r.2 + timeout
            };
        let slots = stale_slots(peers[a].pipeline, now, timeout);
        assert(stale_slot(peers[a].pipeline[j], now, timeout));
        assert(super::tables::slot_asks(slots[j], index, b, bs));
        assert(asks_for(slots, index, b, bs));
    }
    if overdue(peers, now, timeout, index, b, bs) {
        let a = choose|a: PeerAddr| #[trigger]
            peers.contains_key(a) && asks_for(
                stale_slots(peers[a].pipeline, now, timeout),
                index,
                b,
                bs,
            );
        let slots = stale_slots(peers[a].pipeline, now, timeout);
        let j = choose|j: int|
            0 <= j < slots.len() && super::tables::slot_asks(#[trigger] slots[j], index, b, bs);
        assert(peers[a].pipeline[j] is Some);
    }
}

} // verus!
