//! One choke round of a download loop.

use super::choke::{
    is_active, is_active_at, rank, ranking, select_unchoked, selection, top_count, top_of,
};
use super::engine::DownloadLoop;
use super::tables::{asks_for, clear_blocks, Downloads, Peers};
use super::types::{
    block_len_at, empty_pipeline, BlockRequest, DownloadView, PeerView, BLOCK_SIZE,
};
use crate::addr::PeerAddr;
use crate::collections::find_key;
use crate::peer::message::PeerMessage;
use crate::random::random_index;
use crate::seqs::{all_true, lemma_take_contains};
use crate::session::upload_mgr::UploadManager;
use crate::time::Nanos;
use vstd::prelude::*;

verus! {

/// A message and the peer it goes to.
pub type Outgoing = (PeerAddr, PeerMessage);

/// What the ranking of a round looks at: what a peer sent us, or what we sent
/// it once we hold every piece.
pub open spec fn round_entries(
    peers: Map<PeerAddr, PeerView>,
    order: Seq<PeerAddr>,
    seeding: bool,
) -> Seq<(PeerAddr, bool, u64)> {
    order.map_values(
        |a: PeerAddr|
            (
                a,
                peers[a].peer_interested,
                if seeding {
                    peers[a].uploaded_this_round
                } else {
                    peers[a].downloaded_this_round
                },
            ),
    )
}

/// Whether a peer may hold a slot: while seeding it must be interested, else it
/// must have sent data lately.
pub open spec fn is_eligible(
    p: PeerView,
    seeding: bool,
    now: Nanos,
    snub_timeout: Nanos,
) -> bool {
    if seeding {
        p.peer_interested
    } else {
        is_active_at(p.last_data_received, now, snub_timeout)
    }
}

/// The peers that may hold a slot.
pub open spec fn eligible_peers(
    peers: Map<PeerAddr, PeerView>,
    order: Seq<PeerAddr>,
    seeding: bool,
    now: Nanos,
    snub_timeout: Nanos,
) -> Seq<PeerAddr> {
    order.filter(|a: PeerAddr| is_eligible(peers[a], seeding, now, snub_timeout))
}

/// The peers to unchoke in a round.
pub open spec fn round_selection(
    peers: Map<PeerAddr, PeerView>,
    order: Seq<PeerAddr>,
    seeding: bool,
    now: Nanos,
    snub_timeout: Nanos,
    max_uploads: u32,
    pick: int,
) -> Seq<PeerAddr> {
    selection(
        ranking(round_entries(peers, order, seeding), seeding),
        eligible_peers(peers, order, seeding, now, snub_timeout),
        max_uploads,
        pick,
    )
}

/// The number of peers that chance decides between.
pub open spec fn round_candidates(
    peers: Map<PeerAddr, PeerView>,
    order: Seq<PeerAddr>,
    seeding: bool,
    max_uploads: u32,
) -> int {
    let n = ranking(round_entries(peers, order, seeding), seeding).len() as int;
    n - top_count(n, max_uploads)
}

/// The peers that are not unchoked yet.
pub open spec fn newly_selected(
    selected: Seq<PeerAddr>,
    unchoked: Seq<PeerAddr>,
) -> Seq<PeerAddr> {
    selected.filter(|a: PeerAddr| !unchoked.contains(a))
}

/// The unchoked peers that lose their slot.
pub open spec fn losing(unchoked: Seq<PeerAddr>, selected: Seq<PeerAddr>) -> Seq<PeerAddr> {
    unchoked.filter(|a: PeerAddr| !selected.contains(a))
}

/// The cancel message for a request.
pub open spec fn cancel_for(
    dls: Map<u32, DownloadView>,
    addr: PeerAddr,
    r: BlockRequest,
) -> Outgoing {
    let length = if dls.contains_key(r.0) {
        block_len_at(
            dls[r.0].data.len() as int,
            dls[r.0].block_size as int,
            r.1 as int,
        ) as u32
    } else {
        BLOCK_SIZE
    };
    (addr, PeerMessage::Cancel { index: r.0, begin: r.1, length })
}

/// The cancel messages for all requests of a pipeline.
pub open spec fn cancels_for(
    dls: Map<u32, DownloadView>,
    addr: PeerAddr,
    pipeline: Seq<Option<BlockRequest>>,
) -> Seq<Outgoing>
    decreases pipeline.len(),
{
    if pipeline.len() == 0 {
        Seq::empty()
    } else {
        let before = cancels_for(dls, addr, pipeline.drop_last());
        match pipeline.last() {
            Some(r) => before.push(cancel_for(dls, addr, r)),
            None => before,
        }
    }
}

/// The messages for peers that lose their slot: their requests are cancelled,
/// then they are choked.
pub open spec fn choke_messages_for(
    peers: Map<PeerAddr, PeerView>,
    dls: Map<u32, DownloadView>,
    losers: Seq<PeerAddr>,
) -> Seq<Outgoing>
    decreases losers.len(),
{
    if losers.len() == 0 {
        Seq::empty()
    } else {
        let a = losers.last();
        let before = choke_messages_for(peers, dls, losers.drop_last());
        let cancels = if peers.contains_key(a) {
            cancels_for(dls, a, peers[a].pipeline)
        } else {
            Seq::empty()
        };
        (before + cancels).push((a, PeerMessage::Choke))
    }
}

/// Whether one of these peers was asked for the block.
pub open spec fn asked_of(
    peers: Map<PeerAddr, PeerView>,
    who: Seq<PeerAddr>,
    index: u32,
    block: int,
    block_size: u32,
) -> bool {
    exists|m: int|
        0 <= m < who.len() && peers.contains_key(#[trigger] who[m]) && asks_for(
            peers[who[m]].pipeline,
            index,
            block,
            block_size,
        )
}

/// The pieces in flight after the requests to these peers were given up.
pub open spec fn withdrawn(
    dls: Map<u32, DownloadView>,
    peers: Map<PeerAddr, PeerView>,
    who: Seq<PeerAddr>,
) -> Map<u32, DownloadView> {
    clear_blocks(dls, |i: u32, b: int| asked_of(peers, who, i, b, dls[i].block_size))
}

/// The peers after a round: the losers have no requests, and every peer starts
/// counting anew.
pub open spec fn peers_after_round(
    peers: Map<PeerAddr, PeerView>,
    losers: Seq<PeerAddr>,
) -> Map<PeerAddr, PeerView> {
    Map::new(
        |a: PeerAddr| peers.contains_key(a),
        |a: PeerAddr| PeerView {
            pipeline: if losers.contains(a) {
                empty_pipeline()
            } else {
                peers[a].pipeline
            },
            uploaded_this_round: 0,
            downloaded_this_round: 0,
            ..peers[a]
        },
    )
}

fn round_inputs(peers: &Peers, seeding: bool, now: Nanos, snub_timeout: Nanos) -> (r: (
    Vec<(PeerAddr, bool, u64)>,
    Vec<PeerAddr>,
))
    requires
        peers.wf(),
    ensures
        r.0@ == round_entries(peers@, peers.order(), seeding),
        r.1@ == eligible_peers(peers@, peers.order(), seeding, now, snub_timeout),
{
    let ghost order = peers.order();
    let ghost good = |a: PeerAddr| is_eligible(peers@[a], seeding, now, snub_timeout);
    let addrs = peers.addrs();
    let mut entries: Vec<(PeerAddr, bool, u64)> = Vec::new();
    let mut eligible: Vec<PeerAddr> = Vec::new();
    proof {
        peers.lemma_wf();
        reveal(Seq::filter);
        assert(order.take(0).filter(good) =~= Seq::<PeerAddr>::empty());
    }
    let mut k: usize = 0;
    while k < addrs.len()
        invariant
            k <= addrs@.len(),
            peers.wf(),
            addrs@ == order,
            order == peers.order(),
            forall|a: PeerAddr| #[trigger] peers@.contains_key(a) <==> order.contains(a),
            good == (|a: PeerAddr| is_eligible(peers@[a], seeding, now, snub_timeout)),
            entries@ == round_entries(peers@, order.take(k as int), seeding),
            eligible@ == order.take(k as int).filter(good),
        decreases addrs@.len() - k,
    {
        let addr = addrs[k];
        proof {
            reveal(Seq::filter);
            assert(order.take(k + 1).drop_last() =~= order.take(k as int));
        }
        if let Some(p) = peers.get(&addr) {
            let amount: u64 = if seeding {
                p.uploaded_this_round
            } else {
                p.downloaded_this_round
            };
            entries.push((addr, p.peer_interested, amount));
            let ok = if seeding {
                p.peer_interested
            } else {
                is_active(p.last_data_received, now, snub_timeout)
            };
            if ok {
                eligible.push(addr);
            }
        }
        k += 1;
        assert(entries@ =~= round_entries(peers@, order.take(k as int), seeding));
    }
    assert(order.take(k as int) =~= order);
    (entries, eligible)
}

/// Let the selected peers in, telling each that is new. `before` lists the peers
/// that were unchoked at the start of the round; those of them that were not
/// selected have left their slots.
fn open_slots(
    uploads: &mut UploadManager,
    selected: &Vec<PeerAddr>,
    before: &Vec<PeerAddr>,
    msgs: &mut Vec<Outgoing>,
)
    requires
        old(uploads).wf(),
        selected@.no_duplicates(),
        selected@.len() <= old(uploads).spec_max_uploads(),
        old(uploads)@ == before@.to_set().intersect(selected@.to_set()),
    ensures
        final(uploads).wf(),
        final(uploads).spec_max_uploads() == old(uploads).spec_max_uploads(),
        final(uploads)@ == selected@.to_set(),
        final(msgs)@ == old(msgs)@ + newly_selected(selected@, before@).map_values(
            |a: PeerAddr| (a, PeerMessage::Unchoke),
        ),
{
    let ghost max = uploads.spec_max_uploads();
    let ghost fresh = |a: PeerAddr| !before@.contains(a);
    let ghost hello = |a: PeerAddr| (a, PeerMessage::Unchoke);
    proof {
        reveal(Seq::filter);
        assert(selected@.take(0).filter(fresh) =~= Seq::<PeerAddr>::empty());
        assert(old(msgs)@ + selected@.take(0).filter(fresh).map_values(hello) =~= old(msgs)@);
        selected@.unique_seq_to_set();
    }
    let mut k: usize = 0;
    while k < selected.len()
        invariant
            k <= selected@.len() <= max,
            selected@.no_duplicates(),
            selected@.to_set().finite(),
            selected@.to_set().len() == selected@.len(),
            uploads.wf(),
            uploads.spec_max_uploads() == max,
            fresh == (|a: PeerAddr| !before@.contains(a)),
            hello == (|a: PeerAddr| (a, PeerMessage::Unchoke)),
            uploads@.subset_of(selected@.to_set()),
            forall|m: int| 0 <= m < k ==> uploads@.contains(#[trigger] selected@[m]),
            forall|m: int|
                k <= m < selected@.len() ==> (uploads@.contains(#[trigger] selected@[m])
                    <==> before@.contains(selected@[m])),
            msgs@ == old(msgs)@ + selected@.take(k as int).filter(fresh).map_values(hello),
        decreases selected@.len() - k,
    {
        let addr = selected[k];
        let ghost sofar = selected@.take(k as int).filter(fresh);
        proof {
            reveal(Seq::filter);
            uploads.lemma_wf();
            assert(selected@.take(k + 1).drop_last() =~= selected@.take(k as int));
            assert(selected@.take(k + 1).last() == addr);
            assert(selected@.to_set().contains(addr));
        }
        if !uploads.is_unchoked(&addr) {
            proof {
                assert(uploads@.insert(addr).subset_of(selected@.to_set()));
                vstd::set_lib::lemma_len_subset(uploads@.insert(addr), selected@.to_set());
            }
            uploads.unchoke(addr);
            msgs.push((addr, PeerMessage::Unchoke));
            assert(sofar.push(addr).map_values(hello) =~= sofar.map_values(hello).push(
                hello(addr),
            ));
            assert(msgs@ =~= old(msgs)@ + sofar.push(addr).map_values(hello));
        }
        k += 1;
    }
    assert(selected@.take(k as int) =~= selected@);
    assert(uploads@ =~= selected@.to_set());
}

/// The cancel messages for the requests of one peer.
fn cancel_messages(
    downloads: &Downloads,
    addr: PeerAddr,
    pipeline: &[Option<BlockRequest>; 5],
    msgs: &mut Vec<Outgoing>,
)
    requires
        downloads.wf(),
    ensures
        final(msgs)@ == old(msgs)@ + cancels_for(downloads@, addr, pipeline@),
{
    let mut j: usize = 0;
    assert(pipeline@.take(0) =~= Seq::<Option<BlockRequest>>::empty());
    assert(old(msgs)@ + cancels_for(downloads@, addr, pipeline@.take(0)) =~= old(msgs)@);
    while j < 5
        invariant
            j <= 5,
            pipeline@.len() == 5,
            downloads.wf(),
            msgs@ == old(msgs)@ + cancels_for(downloads@, addr, pipeline@.take(j as int)),
        decreases 5 - j,
    {
        proof {
            assert(pipeline@.take(j + 1).drop_last() =~= pipeline@.take(j as int));
        }
        if let Some(r) = pipeline[j] {
            let length: u32 = match downloads.get(r.0) {
                Some(dl) => dl.block_len(r.1),
                None => BLOCK_SIZE,
            };
            msgs.push((addr, PeerMessage::Cancel { index: r.0, begin: r.1, length }));
            assert(msgs@ =~= old(msgs)@ + cancels_for(downloads@, addr, pipeline@.take(j + 1)));
        }
        j += 1;
    }
    assert(pipeline@.take(5) =~= pipeline@);
}

/// Take the slots of the losers: cancel what we asked of them, then choke them.
fn close_slots(
    peers: &mut Peers,
    downloads: &mut Downloads,
    uploads: &mut UploadManager,
    losers: &Vec<PeerAddr>,
    msgs: &mut Vec<Outgoing>,
)
    requires
        old(peers).wf(),
        old(downloads).wf(),
        old(uploads).wf(),
        losers@.no_duplicates(),
    ensures
        final(peers).wf(),
        final(downloads).wf(),
        final(uploads).wf(),
        final(peers).order() == old(peers).order(),
        final(downloads).order() == old(downloads).order(),
        final(uploads).spec_max_uploads() == old(uploads).spec_max_uploads(),
        final(uploads)@ == old(uploads)@.difference(losers@.to_set()),
        final(msgs)@ == old(msgs)@ + choke_messages_for(old(peers)@, old(downloads)@, losers@),
        final(downloads)@ == withdrawn(old(downloads)@, old(peers)@, losers@),
        forall|a: PeerAddr| #[trigger] final(peers)@.contains_key(a) <==> old(peers)@.contains_key(a),
        forall|a: PeerAddr| #[trigger]
            old(peers)@.contains_key(a) ==> final(peers)@[a] == (PeerView {
                pipeline: if losers@.contains(a) {
                    empty_pipeline()
                } else {
                    old(peers)@[a].pipeline
                },
                ..old(peers)@[a]
            }),
{
    let ghost ps = peers@;
    let ghost dls = downloads@;
    let mut k: usize = 0;
    proof {
        assert(losers@.take(0) =~= Seq::<PeerAddr>::empty());
        assert(old(msgs)@ + choke_messages_for(ps, dls, losers@.take(0)) =~= old(msgs)@);
        assert(old(uploads)@.difference(losers@.take(0).to_set()) =~= old(uploads)@);
    }
    while k < losers.len()
        invariant
            k <= losers@.len(),
            losers@.no_duplicates(),
            peers.wf(),
            downloads.wf(),
            uploads.wf(),
            peers.order() == old(peers).order(),
            downloads.order() == old(downloads).order(),
            uploads.spec_max_uploads() == old(uploads).spec_max_uploads(),
            uploads@ == old(uploads)@.difference(losers@.take(k as int).to_set()),
            msgs@ == old(msgs)@ + choke_messages_for(ps, dls, losers@.take(k as int)),
            forall|a: PeerAddr| #[trigger] peers@.contains_key(a) <==> ps.contains_key(a),
            forall|a: PeerAddr| #[trigger]
                ps.contains_key(a) ==> peers@[a] == (PeerView {
                    pipeline: if losers@.take(k as int).contains(a) {
                        empty_pipeline()
                    } else {
                        ps[a].pipeline
                    },
                    ..ps[a]
                }),
            forall|i: u32| #[trigger] downloads@.contains_key(i) <==> dls.contains_key(i),
            forall|i: u32| #[trigger]
                dls.contains_key(i) ==> downloads@[i] == (DownloadView {
                    requested: downloads@[i].requested,
                    ..dls[i]
                }) && downloads@[i].requested.len() == dls[i].requested.len(),
            forall|i: u32, b: int|
                dls.contains_key(i) && 0 <= b < dls[i].requested.len()
                    ==> #[trigger] downloads@[i].requested[b] == if asked_of(
                    ps,
                    losers@.take(k as int),
                    i,
                    b,
                    dls[i].block_size,
                ) {
                    None
                } else {
                    dls[i].requested[b]
                },
        decreases losers@.len() - k,
    {
        let addr = losers[k];
        let ghost before = downloads@;
        proof {
            assert(losers@.take(k + 1).drop_last() =~= losers@.take(k as int));
            if losers@.take(k as int).contains(addr) {
                let m = choose|m: int| 0 <= m < k && losers@.take(k as int)[m] == addr;
            }
            assert forall|a: PeerAddr| #[trigger] losers@.take(k + 1).contains(a) <==> losers@.take(
                k as int,
            ).contains(a) || a == addr by {
                lemma_take_contains(losers@, k as int, a);
            }
        }
        if let Some(p) = peers.get_mut(&addr) {
            cancel_messages(downloads, addr, &p.pipeline, msgs);
            proof {
                lemma_cancels_same(before, dls, addr, ps[addr].pipeline);
            }
            downloads.release(&p.pipeline);
            p.pipeline = [None; 5];
            assert(p.pipeline@ =~= empty_pipeline());
        } else {
            assert(msgs@ + Seq::<Outgoing>::empty() =~= msgs@);
        }
        uploads.choke(&addr);
        msgs.push((addr, PeerMessage::Choke));
        proof {
            assert(msgs@ =~= old(msgs)@ + choke_messages_for(ps, dls, losers@.take(k + 1)));
            assert(uploads@ =~= old(uploads)@.difference(losers@.take(k + 1).to_set()));
            if ps.contains_key(addr) {
                assert(peers@[addr] =~= (PeerView { pipeline: empty_pipeline(), ..ps[addr] }));
            }
            assert forall|i: u32, b: int|
                dls.contains_key(i) && 0 <= b < dls[i].requested.len() implies #[trigger] downloads@[i].requested[b]
                == if asked_of(ps, losers@.take(k + 1), i, b, dls[i].block_size) {
                None
            } else {
                dls[i].requested[b]
            } by {
                lemma_asked_step(ps, losers@, k as int, i, b, dls[i].block_size);
                assert(before[i].requested[b] == if asked_of(
                    ps,
                    losers@.take(k as int),
                    i,
                    b,
                    dls[i].block_size,
                ) {
                    None
                } else {
                    dls[i].requested[b]
                });
            }
        }
        k += 1;
    }
    proof {
        assert(losers@.take(k as int) =~= losers@);
        let target = withdrawn(dls, ps, losers@);
        assert forall|i: u32| dls.contains_key(i) implies downloads@[i] == target[i] by {
            assert(downloads@[i].requested =~= target[i].requested);
            assert(downloads@[i] =~= target[i]);
        }
        assert(downloads@ =~= target);
    }
}

/// Cancel messages depend only on which pieces are in flight and how long they are.
proof fn lemma_cancels_same(
    a: Map<u32, DownloadView>,
    b: Map<u32, DownloadView>,
    addr: PeerAddr,
    pipeline: Seq<Option<BlockRequest>>,
)
    requires
        forall|i: u32| #[trigger] a.contains_key(i) <==> b.contains_key(i),
        forall|i: u32| #[trigger]
            b.contains_key(i) ==> a[i].data == b[i].data && a[i].block_size == b[i].block_size,
    ensures
        cancels_for(a, addr, pipeline) == cancels_for(b, addr, pipeline),
    decreases pipeline.len(),
{
    if pipeline.len() > 0 {
        lemma_cancels_same(a, b, addr, pipeline.drop_last());
        if let Some(r) = pipeline.last() {
            assert(a.contains_key(r.0) <==> b.contains_key(r.0));
        }
    }
}

proof fn lemma_asked_step(
    ps: Map<PeerAddr, PeerView>,
    who: Seq<PeerAddr>,
    k: int,
    i: u32,
    b: int,
    bs: u32,
)
    requires
        0 <= k < who.len(),
    ensures
        asked_of(ps, who.take(k + 1), i, b, bs) <==> asked_of(ps, who.take(k), i, b, bs) || (
        ps.contains_key(who[k]) && asks_for(ps[who[k]].pipeline, i, b, bs)),
{
    let t = who.take(k + 1);
    let u = who.take(k);
    if asked_of(ps, t, i, b, bs) {
        let m = choose|m: int|
            0 <= m < t.len() && ps.contains_key(#[trigger] t[m]) && asks_for(
                ps[t[m]].pipeline,
                i,
                b,
                bs,
            );
    }
    if asked_of(ps, u, i, b, bs) {
        let m = choose|m: int|
            0 <= m < u.len() && ps.contains_key(#[trigger] u[m]) && asks_for(
                ps[u[m]].pipeline,
                i,
                b,
                bs,
            );
    }
    assert(t[k] == who[k]);
}

/// Start counting transfers anew.
fn reset_counters(peers: &mut Peers)
    requires
        old(peers).wf(),
    ensures
        final(peers).wf(),
        final(peers).order() == old(peers).order(),
        forall|a: PeerAddr| #[trigger] final(peers)@.contains_key(a) <==> old(peers)@.contains_key(a),
        forall|a: PeerAddr| #[trigger]
            old(peers)@.contains_key(a) ==> final(peers)@[a] == (PeerView {
                uploaded_this_round: 0,
                downloaded_this_round: 0,
                ..old(peers)@[a]
            }),
{
    let addrs = peers.addrs();
    let ghost ps = peers@;
    let ghost order = peers.order();
    proof {
        peers.lemma_wf();
    }
    let mut k: usize = 0;
    while k < addrs.len()
        invariant
            k <= addrs@.len(),
            addrs@ == order,
            order == old(peers).order(),
            order.no_duplicates(),
            peers.wf(),
            peers.order() == order,
            forall|a: PeerAddr| #[trigger] ps.contains_key(a) <==> order.contains(a),
            forall|a: PeerAddr| #[trigger] peers@.contains_key(a) <==> ps.contains_key(a),
            forall|m: int|
                0 <= m < k ==> peers@[#[trigger] order[m]] == (PeerView {
                    uploaded_this_round: 0,
                    downloaded_this_round: 0,
                    ..ps[order[m]]
                }),
            forall|m: int| k <= m < order.len() ==> peers@[#[trigger] order[m]] == ps[order[m]],
        decreases addrs@.len() - k,
    {
        let addr = addrs[k];
        let ghost before = peers@;
        if let Some(p) = peers.get_mut(&addr) {
            p.uploaded_this_round = 0;
            p.downloaded_this_round = 0;
        }
        proof {
            assert(peers@[addr] =~= (PeerView {
                uploaded_this_round: 0,
                downloaded_this_round: 0,
                ..ps[addr]
            }));
            assert forall|m: int| 0 <= m < order.len() && m != k implies peers@[#[trigger] order[m]]
                == before[order[m]] by {}
        }
        k += 1;
    }
    proof {
        assert forall|a: PeerAddr| #[trigger] ps.contains_key(a) implies peers@[a] == (PeerView {
            uploaded_this_round: 0,
            downloaded_this_round: 0,
            ..ps[a]
        }) by {
            let m = choose|m: int| 0 <= m < order.len() && order[m] == a;
            assert(peers@[order[m]] == peers@[a]);
        }
    }
}

/// The members of `v` that are not in `keep`.
fn not_in(v: &Vec<PeerAddr>, keep: &Vec<PeerAddr>) -> (r: Vec<PeerAddr>)
    ensures
        r@ == losing(v@, keep@),
{
    let ghost out = |a: PeerAddr| !keep@.contains(a);
    let mut r: Vec<PeerAddr> = Vec::new();
    proof {
        reveal(Seq::filter);
        assert(v@.take(0).filter(out) =~= Seq::<PeerAddr>::empty());
    }
    let mut k: usize = 0;
    while k < v.len()
        invariant
            k <= v@.len(),
            out == (|a: PeerAddr| !keep@.contains(a)),
            r@ == v@.take(k as int).filter(out),
        decreases v@.len() - k,
    {
        let a = v[k];
        proof {
            reveal(Seq::filter);
            assert(v@.take(k + 1).drop_last() =~= v@.take(k as int));
        }
        if find_key(keep, &a).is_none() {
            r.push(a);
        }
        k += 1;
    }
    assert(v@.take(k as int) =~= v@);
    r
}

/// What a choke round does, given the choice that chance made: the peers that
/// were not selected lose their slots, and the selected ones hold them.
pub open spec fn round_done(
    before: DownloadLoop,
    after: DownloadLoop,
    msgs: Seq<Outgoing>,
    pick: int,
    now: Nanos,
) -> bool {
    let seeding = all_true(before.have@);
    let max = before.uploads.spec_max_uploads();
    let selected = round_selection(
        before.peers@,
        before.peers.order(),
        seeding,
        now,
        before.snub_timeout,
        max,
        pick,
    );
    let fresh = newly_selected(selected, before.uploads.order());
    let losers = losing(before.uploads.order(), selected);
    &&& msgs == choke_messages_for(before.peers@, before.active_downloads@, losers)
        + fresh.map_values(|a: PeerAddr| (a, PeerMessage::Unchoke))
    &&& after.uploads@ == selected.to_set()
    &&& after.active_downloads@ == withdrawn(before.active_downloads@, before.peers@, losers)
    &&& after.peers@ == peers_after_round(before.peers@, losers)
}

impl DownloadLoop {
    /// The parts that a choke round leaves alone.
    pub open spec fn same_pieces(&self, other: &DownloadLoop) -> bool {
        &&& self.same_torrent(other)
        &&& self.have == other.have
        &&& self.piece_cache == other.piece_cache
        &&& self.traffic == other.traffic
        &&& self.endgame == other.endgame
        &&& self.uploads.spec_max_uploads() == other.uploads.spec_max_uploads()
    }

    /// Run a choke round in which chance picked position `pick` among the peers
    /// that did not make it by rank. Returns the messages to send, in order.
    pub fn choke_round(&mut self, pick: usize, now: Nanos) -> (msgs: Vec<Outgoing>)
        requires
            old(self).wf(),
            old(self).uploads.spec_max_uploads() > 0,
            ({
                let n = round_candidates(
                    old(self).peers@,
                    old(self).peers.order(),
                    all_true(old(self).have@),
                    old(self).uploads.spec_max_uploads(),
                );
                n > 0 ==> pick < n
            }),
        ensures
            final(self).wf(),
            final(self).same_pieces(old(self)),
            round_done(*old(self), *final(self), msgs@, pick as int, now),
    {
        let seeding = self.is_seeding();
        let max: u32 = self.uploads.max_uploads();
        let (entries, eligible) = round_inputs(&self.peers, seeding, now, self.snub_timeout);
        let ranked = rank(&entries, seeding);
        let selected = select_unchoked(&ranked, &eligible, max, pick);
        proof {
            self.peers.lemma_wf();
            super::choke::law_ranking(entries@, seeding);
            assert(super::choke::distinct_keys(entries@)) by {
                assert forall|i: int, j: int| 0 <= i < j < entries@.len() implies #[trigger] entries@[i].0
                    != #[trigger] entries@[j].0 by {}
            }
            super::choke::law_selection(ranked@, eligible@, max, pick as int);
        }
        let unchoked = self.uploads.unchoked_peers();
        let losers = not_in(&unchoked, &selected);
        proof {
            crate::seqs::lemma_filter_no_duplicates(
                unchoked@,
                |a: PeerAddr| !selected@.contains(a),
            );
        }
        let mut msgs: Vec<Outgoing> = Vec::new();
        close_slots(
            &mut self.peers,
            &mut self.active_downloads,
            &mut self.uploads,
            &losers,
            &mut msgs,
        );
        proof {
            lemma_left(unchoked@, selected@);
            let told = choke_messages_for(
                old(self).peers@,
                old(self).active_downloads@,
                losers@,
            );
            assert(Seq::<Outgoing>::empty() + told =~= told);
        }
        open_slots(&mut self.uploads, &selected, &unchoked, &mut msgs);
        let ghost closed = self.peers@;
        reset_counters(&mut self.peers);
        proof {
            let target = peers_after_round(old(self).peers@, losers@);
            assert forall|a: PeerAddr| target.contains_key(a) implies self.peers@[a] == target[a] by {
                assert(closed.contains_key(a));
                assert(self.peers@[a] =~= target[a]);
            }
            assert(self.peers@ =~= target);
            assert(super::pieces::sized_for(self.active_downloads@, self.info));
        }
        msgs
    }

    /// Run a choke/unchoke round: select the best peers and one by chance.
    ///
    /// While downloading, peers are ranked by what they sent us this round and
    /// snubbed when they sent nothing for the snub timeout. While seeding, they
    /// are ranked by what we sent them, and only interested peers take part.
    /// Without upload slots nothing happens.
    pub fn run_choke_unchoke(&mut self, now: Nanos) -> (msgs: Vec<Outgoing>)
        requires
            old(self).wf(),
        ensures
            final(self).wf(),
            final(self).same_pieces(old(self)),
            old(self).uploads.spec_max_uploads() == 0 ==> *final(self) == *old(self) && msgs@.len()
                == 0,
            old(self).uploads.spec_max_uploads() > 0 ==> exists|pick: int|
                0 <= pick && (round_candidates(
                    old(self).peers@,
                    old(self).peers.order(),
                    all_true(old(self).have@),
                    old(self).uploads.spec_max_uploads(),
                ) > 0 ==> pick < round_candidates(
                    old(self).peers@,
                    old(self).peers.order(),
                    all_true(old(self).have@),
                    old(self).uploads.spec_max_uploads(),
                )) && #[trigger] round_done(*old(self), *final(self), msgs@, pick, now),
    {
        let max: u32 = self.uploads.max_uploads();
        if max == 0 {
            return Vec::new();
        }
        let seeding = self.is_seeding();
        let (entries, eligible) = round_inputs(&self.peers, seeding, now, self.snub_timeout);
        let ranked = rank(&entries, seeding);
        let n: usize = ranked.len();
        let top: usize = top_of(n, max);
        let pick: usize = if n > top {
            random_index(n - top)
        } else {
            0
        };
        let msgs = self.choke_round(pick, now);
        assert(round_done(*old(self), *self, msgs@, pick as int, now));
        msgs
    }
}

/// Who stays unchoked when the peers that were not selected leave.
proof fn lemma_left(unchoked: Seq<PeerAddr>, selected: Seq<PeerAddr>)
    ensures
        unchoked.to_set().difference(losing(unchoked, selected).to_set())
            == unchoked.to_set().intersect(selected.to_set()),
{
    let out = |a: PeerAddr| !selected.contains(a);
    let losers = losing(unchoked, selected);
    assert forall|a: PeerAddr| losers.contains(a) <==> unchoked.contains(a) && !selected.contains(
        a,
    ) by {
        if unchoked.contains(a) && out(a) {
            let m = choose|m: int| 0 <= m < unchoked.len() && unchoked[m] == a;
            unchoked.lemma_filter_contains(out, m);
        }
        if losers.contains(a) {
            unchoked.lemma_filter_contains_rev(out, a);
            let m = choose|m: int| 0 <= m < losers.len() && losers[m] == a;
            unchoked.lemma_filter_pred(out, m);
        }
    }
    assert(unchoked.to_set().difference(losers.to_set()) =~= unchoked.to_set().intersect(
        selected.to_set(),
    ));
}

/// A round keeps its promises: afterwards only eligible peers of the ranking are
/// unchoked, no more than there are slots; every eligible peer among the best
/// is; and slots stay free only when every eligible peer has one.
pub proof fn law_round(
    before: DownloadLoop,
    after: DownloadLoop,
    msgs: Seq<Outgoing>,
    pick: int,
    now: Nanos,
    a: PeerAddr,
)
    requires
        before.wf(),
        before.uploads.spec_max_uploads() > 0,
        ({
            let n = round_candidates(
                before.peers@,
                before.peers.order(),
                all_true(before.have@),
                before.uploads.spec_max_uploads(),
            );
            n > 0 ==> 0 <= pick < n
        }),
        round_done(before, after, msgs, pick, now),
    ensures
        ({
            let seeding = all_true(before.have@);
            let max = before.uploads.spec_max_uploads();
            let ranked = ranking(
                round_entries(before.peers@, before.peers.order(), seeding),
                seeding,
            );
            let eligible = |x: PeerAddr|
                before.peers@.contains_key(x) && is_eligible(
                    before.peers@[x],
                    seeding,
                    now,
                    before.snub_timeout,
                );
            &&& after.uploads@.len() <= max
            &&& after.uploads@.contains(a) ==> eligible(a)
            &&& forall|i: int|
                0 <= i < top_count(ranked.len() as int, max) && eligible(ranked[i].0)
                    ==> after.uploads@.contains((#[trigger] ranked[i]).0)
            &&& after.uploads@.len() < max ==> forall|i: int|
                0 <= i < ranked.len() && eligible(ranked[i].0) ==> after.uploads@.contains(
                    (#[trigger] ranked[i]).0,
                )
        }),
{
    let seeding = all_true(before.have@);
    let order = before.peers.order();
    let entries = round_entries(before.peers@, order, seeding);
    let ranked = ranking(entries, seeding);
    let eligible = eligible_peers(before.peers@, order, seeding, now, before.snub_timeout);
    let max = before.uploads.spec_max_uploads();
    let selected = selection(ranked, eligible, max, pick);
    let good = |x: PeerAddr| is_eligible(before.peers@[x], seeding, now, before.snub_timeout);
    before.peers.lemma_wf();
    super::choke::law_ranking(entries, seeding);
    assert(super::choke::distinct_keys(entries)) by {
        assert forall|i: int, j: int| 0 <= i < j < entries.len() implies #[trigger] entries[i].0
            != #[trigger] entries[j].0 by {}
    }
    super::choke::law_selection(ranked, eligible, max, pick);
    selected.unique_seq_to_set();
    assert forall|x: PeerAddr| #[trigger] eligible.contains(x) <==> before.peers@.contains_key(x)
        && good(x) by {
        if eligible.contains(x) {
            order.lemma_filter_contains_rev(good, x);
            let j = choose|j: int| 0 <= j < eligible.len() && eligible[j] == x;
            order.lemma_filter_pred(good, j);
        }
        if before.peers@.contains_key(x) && good(x) {
            let j = choose|j: int| 0 <= j < order.len() && order[j] == x;
            order.lemma_filter_contains(good, j);
        }
    }
}

/// What a choke round leaves alone: the torrent and its settings, the pieces and
/// the cache, the traffic, and the number of slots.
pub proof fn law_same_pieces(l: DownloadLoop, other: DownloadLoop)
    ensures
        l.same_pieces(&other) <==> {
            &&& l.info == other.info
            &&& l.snub_timeout == other.snub_timeout
            &&& l.limits == other.limits
            &&& l.have == other.have
            &&& l.piece_cache == other.piece_cache
            &&& l.traffic == other.traffic
            &&& l.endgame == other.endgame
            &&& l.uploads.spec_max_uploads() == other.uploads.spec_max_uploads()
        },
{
}

} // verus!
