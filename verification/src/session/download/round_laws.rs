//! What a choke round does to the peers, told by what they transferred.

use super::choke::{
    distinct_keys, law_every_rank_has_a_chance, law_ranking, law_selection, law_slots_by_rank,
    picked_by_chance, qualifies, ranked_keys, ranking, selection,
};
use super::choke_round::{
    asked_of, cancel_for, cancels_for, choke_messages_for, eligible_peers, is_eligible, losing,
    newly_selected, round_candidates, round_done, round_entries, round_selection, Outgoing,
};
use super::engine::DownloadLoop;
use super::tables::{asks_for, slot_asks};
use super::types::{BlockRequest, DownloadView, PeerView};
use crate::addr::PeerAddr;
use crate::peer::message::PeerMessage;
use crate::seqs::{all_true, lemma_filtered};
use crate::time::Nanos;
use vstd::prelude::*;

verus! {

/// A round ran from `before` to `after`, sending `msgs`: there was a slot, and
/// chance picked one of the peers it had to pick from.
pub open spec fn round_ran(
    before: DownloadLoop,
    after: DownloadLoop,
    msgs: Seq<Outgoing>,
    pick: int,
    now: Nanos,
) -> bool {
    let n = round_candidates(
        before.peers@,
        before.peers.order(),
        all_true(before.have@),
        before.uploads.spec_max_uploads(),
    );
    &&& before.wf()
    &&& before.uploads.spec_max_uploads() > 0
    &&& n > 0 ==> 0 <= pick < n
    &&& round_done(before, after, msgs, pick, now)
}

/// The ranking and the eligible peers of a round, by peer.
proof fn lemma_round_inputs(l: DownloadLoop, seeding: bool, now: Nanos)
    requires
        l.wf(),
    ensures
        ({
            let entries = round_entries(l.peers@, l.peers.order(), seeding);
            let ranked = ranking(entries, seeding);
            let eligible = eligible_peers(
                l.peers@,
                l.peers.order(),
                seeding,
                now,
                l.snub_timeout,
            );
            &&& ranked_keys(ranked).no_duplicates()
            &&& forall|i: int, j: int|
                0 <= i <= j < ranked.len() ==> #[trigger] ranked[i].1 >= #[trigger] ranked[j].1
            &&& forall|i: int|
                0 <= i < ranked.len() ==> l.peers@.contains_key((#[trigger] ranked[i]).0)
                    && ranked[i].1 == if seeding {
                    l.peers@[ranked[i].0].uploaded_this_round
                } else {
                    l.peers@[ranked[i].0].downloaded_this_round
                }
            &&& forall|a: PeerAddr| #[trigger]
                l.peers@.contains_key(a) && (!seeding || l.peers@[a].peer_interested)
                    ==> ranked_keys(ranked).contains(a)
            &&& forall|a: PeerAddr| #[trigger]
                eligible.contains(a) <==> l.peers@.contains_key(a) && is_eligible(
                    l.peers@[a],
                    seeding,
                    now,
                    l.snub_timeout,
                )
        }),
{
    let order = l.peers.order();
    let entries = round_entries(l.peers@, order, seeding);
    let ranked = ranking(entries, seeding);
    let eligible = eligible_peers(l.peers@, order, seeding, now, l.snub_timeout);
    let good = |x: PeerAddr| is_eligible(l.peers@[x], seeding, now, l.snub_timeout);
    l.peers.lemma_wf();
    law_ranking(entries, seeding);
    assert(distinct_keys(entries)) by {
        assert forall|i: int, j: int| 0 <= i < j < entries.len() implies #[trigger] entries[i].0
            != #[trigger] entries[j].0 by {}
    }
    assert forall|i: int| 0 <= i < ranked.len() implies l.peers@.contains_key(
        (#[trigger] ranked[i]).0,
    ) && ranked[i].1 == if seeding {
        l.peers@[ranked[i].0].uploaded_this_round
    } else {
        l.peers@[ranked[i].0].downloaded_this_round
    } by {
        let (k, n) = ranked[i];
        assert(ranked.contains((k, n)));
        let j = choose|j: int|
            0 <= j < entries.len() && qualifies(#[trigger] entries[j], seeding, k, n);
        assert(entries[j].0 == order[j]);
        assert(order.contains(k));
    }
    assert forall|a: PeerAddr| #[trigger]
        l.peers@.contains_key(a) && (!seeding || l.peers@[a].peer_interested) implies ranked_keys(
        ranked,
    ).contains(a) by {
        assert(order.contains(a));
        let j = choose|j: int| 0 <= j < order.len() && order[j] == a;
        let n = entries[j].2;
        assert(qualifies(entries[j], seeding, a, n));
        assert(ranked.contains((a, n)));
        let i = choose|i: int| 0 <= i < ranked.len() && ranked[i] == (a, n);
        assert(ranked_keys(ranked)[i] == a);
    }
    assert forall|x: PeerAddr| #[trigger] eligible.contains(x) <==> l.peers@.contains_key(x)
        && good(x) by {
        if eligible.contains(x) {
            order.lemma_filter_contains_rev(good, x);
            let j = choose|j: int| 0 <= j < eligible.len() && eligible[j] == x;
            order.lemma_filter_pred(good, j);
        }
        if l.peers@.contains_key(x) && good(x) {
            let j = choose|j: int| 0 <= j < order.len() && order[j] == x;
            order.lemma_filter_contains(good, j);
        }
    }
}

/// The peer that chance picks in a round, if it has any to pick from.
pub open spec fn lucky_peer(l: DownloadLoop, pick: int) -> Option<PeerAddr> {
    let seeding = all_true(l.have@);
    picked_by_chance(
        ranking(round_entries(l.peers@, l.peers.order(), seeding), seeding),
        l.uploads.spec_max_uploads(),
        pick,
    )
}

/// Where an eligible peer stays choked, the unchoked peers transferred at least
/// as much as it, but for the one that chance picked.
proof fn lemma_best_first(
    before: DownloadLoop,
    after: DownloadLoop,
    msgs: Seq<Outgoing>,
    pick: int,
    now: Nanos,
    a: PeerAddr,
    b: PeerAddr,
)
    requires
        round_ran(before, after, msgs, pick, now),
        before.peers@.contains_key(a),
        is_eligible(before.peers@[a], all_true(before.have@), now, before.snub_timeout),
        !after.uploads@.contains(a),
        after.uploads@.contains(b),
        lucky_peer(before, pick) != Some(b),
    ensures
        all_true(before.have@) ==> before.peers@[b].uploaded_this_round
            >= before.peers@[a].uploaded_this_round,
        !all_true(before.have@) ==> before.peers@[b].downloaded_this_round
            >= before.peers@[a].downloaded_this_round,
{
    let seeding = all_true(before.have@);
    let order = before.peers.order();
    let ranked = ranking(round_entries(before.peers@, order, seeding), seeding);
    let eligible = eligible_peers(before.peers@, order, seeding, now, before.snub_timeout);
    let max = before.uploads.spec_max_uploads();
    let keys = ranked_keys(ranked);
    lemma_round_inputs(before, seeding, now);
    assert(keys.contains(a));
    let i = choose|i: int| 0 <= i < keys.len() && keys[i] == a;
    assert(ranked[i].0 == a);
    law_slots_by_rank(ranked, eligible, max, pick, i, b);
    let j = choose|j: int| 0 <= j < i && keys.take(i)[j] == b;
    assert(ranked[j].0 == b);
    assert(ranked[j].1 >= ranked[i].1);
}

/// Tit for tat: while a piece is missing, a peer that sent us data within the
/// snub timeout and sent more this round than a peer that holds a slot by rank
/// gets a slot too. At most one unchoked peer, the one that chance picked, sent us
/// less than such a peer that ends up choked.
pub proof fn law_tit_for_tat(
    before: DownloadLoop,
    after: DownloadLoop,
    msgs: Seq<Outgoing>,
    pick: int,
    now: Nanos,
    missing: int,
    a: PeerAddr,
    b: PeerAddr,
)
    requires
        round_ran(before, after, msgs, pick, now),
        0 <= missing < before.have@.len(),
        !before.have@[missing],
        before.peers@.contains_key(a),
        before.peers@[a].last_data_received matches Some(t) && t <= now && now - t
            < before.snub_timeout,
        after.uploads@.contains(b),
        before.peers@[b].downloaded_this_round < before.peers@[a].downloaded_this_round,
    ensures
        lucky_peer(before, pick) != Some(b) ==> after.uploads@.contains(a),
        forall|c: PeerAddr| #[trigger]
            after.uploads@.contains(c) && c != b && before.peers@[c].downloaded_this_round
                < before.peers@[a].downloaded_this_round ==> after.uploads@.contains(a),
{
    assert forall|c: PeerAddr| #[trigger]
        after.uploads@.contains(c) && lucky_peer(before, pick) != Some(c)
            && before.peers@[c].downloaded_this_round
            < before.peers@[a].downloaded_this_round implies after.uploads@.contains(a) by {
        if !after.uploads@.contains(a) {
            lemma_best_first(before, after, msgs, pick, now, a, c);
        }
    }
}

/// Once every piece is held, the slots go to the interested peers that we sent
/// most: an interested peer that took more from us this round than a peer that
/// holds a slot by rank gets a slot too, and at most one unchoked peer, the one
/// that chance picked, took less than an interested peer that ends up choked.
pub proof fn law_seeding_by_upload(
    before: DownloadLoop,
    after: DownloadLoop,
    msgs: Seq<Outgoing>,
    pick: int,
    now: Nanos,
    a: PeerAddr,
    b: PeerAddr,
)
    requires
        round_ran(before, after, msgs, pick, now),
        forall|i: int| 0 <= i < before.have@.len() ==> #[trigger] before.have@[i],
        before.peers@.contains_key(a),
        before.peers@[a].peer_interested,
        after.uploads@.contains(b),
        before.peers@[b].uploaded_this_round < before.peers@[a].uploaded_this_round,
    ensures
        lucky_peer(before, pick) != Some(b) ==> after.uploads@.contains(a),
        forall|c: PeerAddr| #[trigger]
            after.uploads@.contains(c) && c != b && before.peers@[c].uploaded_this_round
                < before.peers@[a].uploaded_this_round ==> after.uploads@.contains(a),
{
    assert forall|c: PeerAddr| #[trigger]
        after.uploads@.contains(c) && lucky_peer(before, pick) != Some(c)
            && before.peers@[c].uploaded_this_round
            < before.peers@[a].uploaded_this_round implies after.uploads@.contains(a) by {
        if !after.uploads@.contains(a) {
            lemma_best_first(before, after, msgs, pick, now, a, c);
        }
    }
}

/// Only known peers hold slots: while a piece is missing only those that sent
/// data within the snub timeout, and once every piece is held only interested
/// ones. There are never more than there are slots, and where such a peer is left
/// choked, every slot is taken.
pub proof fn law_slots_are_deserved(
    before: DownloadLoop,
    after: DownloadLoop,
    msgs: Seq<Outgoing>,
    pick: int,
    now: Nanos,
    a: PeerAddr,
)
    requires
        round_ran(before, after, msgs, pick, now),
    ensures
        ({
            let p = before.peers@[a];
            let seeding = forall|i: int| 0 <= i < before.have@.len() ==> #[trigger] before.have@[i];
            let lately = p.last_data_received matches Some(t) && (now < t || now - t
                < before.snub_timeout) && before.snub_timeout > 0;
            &&& after.uploads@.len() <= before.uploads.spec_max_uploads()
            &&& after.uploads@.contains(a) ==> before.peers@.contains_key(a)
            &&& after.uploads@.contains(a) && seeding ==> p.peer_interested
            &&& after.uploads@.contains(a) && !seeding ==> lately
            &&& before.peers@.contains_key(a) && seeding && p.peer_interested
                && !after.uploads@.contains(a) ==> after.uploads@.len()
                == before.uploads.spec_max_uploads()
            &&& before.peers@.contains_key(a) && !seeding && lately
                && !after.uploads@.contains(a) ==> after.uploads@.len()
                == before.uploads.spec_max_uploads()
        }),
{
    let seeding = all_true(before.have@);
    let order = before.peers.order();
    let ranked = ranking(round_entries(before.peers@, order, seeding), seeding);
    let eligible = eligible_peers(before.peers@, order, seeding, now, before.snub_timeout);
    let max = before.uploads.spec_max_uploads();
    let keys = ranked_keys(ranked);
    let selected = selection(ranked, eligible, max, pick);
    lemma_round_inputs(before, seeding, now);
    law_selection(ranked, eligible, max, pick);
    selected.unique_seq_to_set();
    if eligible.contains(a) {
        assert(keys.contains(a));
        let i = choose|i: int| 0 <= i < keys.len() && keys[i] == a;
        assert(ranked[i].0 == a);
    }
}

/// Every eligible peer has a chance: for some pick, a round unchokes it.
pub proof fn law_everyone_has_a_chance(l: DownloadLoop, now: Nanos, a: PeerAddr) -> (pick: int)
    requires
        l.wf(),
        l.uploads.spec_max_uploads() > 0,
        l.peers@.contains_key(a),
        ({
            let seeding = forall|i: int| 0 <= i < l.have@.len() ==> #[trigger] l.have@[i];
            if seeding {
                l.peers@[a].peer_interested
            } else {
                l.peers@[a].last_data_received matches Some(t) && t <= now && now - t
                    < l.snub_timeout
            }
        }),
    ensures
        round_candidates(
            l.peers@,
            l.peers.order(),
            all_true(l.have@),
            l.uploads.spec_max_uploads(),
        ) > 0 ==> 0 <= pick < round_candidates(
            l.peers@,
            l.peers.order(),
            all_true(l.have@),
            l.uploads.spec_max_uploads(),
        ),
        forall|after: DownloadLoop, msgs: Seq<Outgoing>| #[trigger]
            round_done(l, after, msgs, pick, now) ==> after.uploads@.contains(a),
{
    let seeding = all_true(l.have@);
    let order = l.peers.order();
    let ranked = ranking(round_entries(l.peers@, order, seeding), seeding);
    let eligible = eligible_peers(l.peers@, order, seeding, now, l.snub_timeout);
    let keys = ranked_keys(ranked);
    lemma_round_inputs(l, seeding, now);
    assert(keys.contains(a));
    let i = choose|i: int| 0 <= i < keys.len() && keys[i] == a;
    assert(ranked[i].0 == a);
    law_every_rank_has_a_chance(ranked, eligible, l.uploads.spec_max_uploads(), i)
}

/// Whether the message cancels a request of the pipeline: for the very block, with
/// the length that the piece in flight leaves for it, or that of a full block where
/// the piece is not in flight.
pub open spec fn cancels(
    dls: Map<u32, DownloadView>,
    pipeline: Seq<Option<BlockRequest>>,
    msg: PeerMessage,
) -> bool {
    msg matches PeerMessage::Cancel { index, begin, length } && {
        &&& exists|j: int|
            0 <= j < pipeline.len() && (#[trigger] pipeline[j] matches Some(r) && r.0 == index
                && r.1 == begin)
        &&& !dls.contains_key(index) ==> length == 16384
        &&& dls.contains_key(index) && begin >= dls[index].data.len() ==> length == 0
        &&& dls.contains_key(index) && begin < dls[index].data.len() ==> length
            == vstd::math::min(dls[index].block_size as int, dls[index].data.len() - begin)
    }
}

proof fn lemma_cancels(
    dls: Map<u32, DownloadView>,
    addr: PeerAddr,
    pipeline: Seq<Option<BlockRequest>>,
)
    ensures
        ({
            let out = cancels_for(dls, addr, pipeline);
            &&& forall|m: int|
                0 <= m < out.len() ==> (#[trigger] out[m]).0 == addr && cancels(
                    dls,
                    pipeline,
                    out[m].1,
                )
            &&& forall|j: int|
                0 <= j < pipeline.len() && #[trigger] pipeline[j] is Some ==> exists|m: int|
                    0 <= m < out.len() && ((#[trigger] out[m]).1 matches PeerMessage::Cancel {
                        index,
                        begin,
                        ..
                    } && index == (pipeline[j]->0).0 && begin == (pipeline[j]->0).1)
        }),
    decreases pipeline.len(),
{
    let out = cancels_for(dls, addr, pipeline);
    if pipeline.len() > 0 {
        let rest = pipeline.drop_last();
        let last = pipeline.len() - 1;
        let shorter = cancels_for(dls, addr, rest);
        lemma_cancels(dls, addr, rest);
        assert forall|m: int| 0 <= m < out.len() implies (#[trigger] out[m]).0 == addr && cancels(
            dls,
            pipeline,
            out[m].1,
        ) by {
            if m < shorter.len() {
                assert(out[m] == shorter[m]);
                assert(cancels(dls, rest, shorter[m].1));
                let msg = out[m].1;
                let j = choose|j: int|
                    0 <= j < rest.len() && (#[trigger] rest[j] matches Some(r) && r.0
                        == msg->Cancel_index && r.1 == msg->Cancel_begin);
                assert(pipeline[j] == rest[j]);
            } else {
                assert(pipeline[last] is Some);
            }
        }
        assert forall|j: int| 0 <= j < pipeline.len() && #[trigger] pipeline[j] is Some implies exists|
            m: int,
        |
            0 <= m < out.len() && ((#[trigger] out[m]).1 matches PeerMessage::Cancel {
                index,
                begin,
                ..
            } && index == (pipeline[j]->0).0 && begin == (pipeline[j]->0).1) by {
            if j < last {
                assert(rest[j] == pipeline[j]);
                let m = choose|m: int|
                    0 <= m < shorter.len() && ((#[trigger] shorter[m]).1 matches PeerMessage::Cancel {
                        index,
                        begin,
                        ..
                    } && index == (rest[j]->0).0 && begin == (rest[j]->0).1);
                assert(out[m] == shorter[m]);
            } else {
                assert(out[shorter.len() as int] == cancel_for(dls, addr, pipeline[j]->0));
            }
        }
    }
}

/// Whether peer `a` loses its slot and was asked for a block that the message
/// cancels.
spec fn cancels_loser(
    peers: Map<PeerAddr, PeerView>,
    dls: Map<u32, DownloadView>,
    m: Outgoing,
) -> bool {
    peers.contains_key(m.0) && cancels(dls, peers[m.0].pipeline, m.1)
}

proof fn lemma_choke_messages(
    peers: Map<PeerAddr, PeerView>,
    dls: Map<u32, DownloadView>,
    losers: Seq<PeerAddr>,
)
    requires
        losers.no_duplicates(),
    ensures
        ({
            let out = choke_messages_for(peers, dls, losers);
            &&& forall|m: int|
                0 <= m < out.len() ==> losers.contains((#[trigger] out[m]).0) && (out[m].1
                    is Choke || cancels_loser(peers, dls, out[m]))
            &&& forall|k: int|
                0 <= k < losers.len() ==> out.contains((#[trigger] losers[k], PeerMessage::Choke))
            &&& forall|m: int, n: int|
                0 <= m < n < out.len() && (#[trigger] out[m]).1 is Choke ==> (
                #[trigger] out[n]).0 != out[m].0
            &&& forall|k: int, j: int|
                0 <= k < losers.len() && peers.contains_key(losers[k]) && 0 <= j
                    < peers[losers[k]].pipeline.len()
                    && #[trigger] peers[losers[k]].pipeline[j] is Some ==> exists|m: int|
                    0 <= m < out.len() && (#[trigger] out[m]).0 == losers[k] && (
                    out[m].1 matches PeerMessage::Cancel { index, begin, .. } && index == (
                    peers[losers[k]].pipeline[j]->0).0 && begin == (
                    peers[losers[k]].pipeline[j]->0).1)
        }),
    decreases losers.len(),
{
    let out = choke_messages_for(peers, dls, losers);
    if losers.len() > 0 {
        let rest = losers.drop_last();
        let a = losers.last();
        let shorter = choke_messages_for(peers, dls, rest);
        let mid = if peers.contains_key(a) {
            cancels_for(dls, a, peers[a].pipeline)
        } else {
            Seq::empty()
        };
        lemma_choke_messages(peers, dls, rest);
        lemma_cancels(dls, a, peers[a].pipeline);
        assert(out == (shorter + mid).push((a, PeerMessage::Choke)));
        assert forall|m: int| 0 <= m < out.len() implies losers.contains((#[trigger] out[m]).0) && (
        out[m].1 is Choke || cancels_loser(peers, dls, out[m])) by {
            if m < shorter.len() {
                assert(out[m] == shorter[m]);
                let k = choose|k: int| 0 <= k < rest.len() && rest[k] == shorter[m].0;
                assert(losers[k] == out[m].0);
            } else {
                assert(losers[losers.len() - 1] == a);
                if m < out.len() - 1 {
                    assert(out[m] == mid[m - shorter.len()]);
                }
            }
        }
        assert forall|k: int| 0 <= k < losers.len() implies out.contains(
            (#[trigger] losers[k], PeerMessage::Choke),
        ) by {
            if k < rest.len() {
                assert(rest[k] == losers[k]);
                let m = choose|m: int|
                    0 <= m < shorter.len() && shorter[m] == (rest[k], PeerMessage::Choke);
                assert(out[m] == shorter[m]);
            } else {
                assert(out[out.len() - 1] == (a, PeerMessage::Choke));
            }
        }
        assert forall|m: int, n: int| 0 <= m < n < out.len() && (#[trigger] out[m]).1
            is Choke implies (#[trigger] out[n]).0 != out[m].0 by {
            if m < shorter.len() {
                assert(out[m] == shorter[m]);
                if n < shorter.len() {
                    assert(out[n] == shorter[n]);
                } else {
                    if n < out.len() - 1 {
                        assert(out[n] == mid[n - shorter.len()]);
                    }
                    assert(out[n].0 == a);
                    let k = choose|k: int| 0 <= k < rest.len() && rest[k] == shorter[m].0;
                    assert(losers[k] != losers[losers.len() - 1]);
                }
            } else {
                assert(out[m] == mid[m - shorter.len()]);
            }
        }
        assert forall|k: int, j: int|
            0 <= k < losers.len() && peers.contains_key(losers[k]) && 0 <= j
                < peers[losers[k]].pipeline.len()
                && #[trigger] peers[losers[k]].pipeline[j] is Some implies exists|m: int|
            0 <= m < out.len() && (#[trigger] out[m]).0 == losers[k] && (
            out[m].1 matches PeerMessage::Cancel { index, begin, .. } && index == (
            peers[losers[k]].pipeline[j]->0).0 && begin == (
            peers[losers[k]].pipeline[j]->0).1) by {
            let r = peers[losers[k]].pipeline[j]->0;
            if k < rest.len() {
                assert(rest[k] == losers[k]);
                assert(peers[rest[k]].pipeline[j] is Some);
                let m = choose|m: int|
                    0 <= m < shorter.len() && (#[trigger] shorter[m]).0 == rest[k] && (
                    shorter[m].1 matches PeerMessage::Cancel { index, begin, .. } && index
                        == r.0 && begin == r.1);
                assert(out[m] == shorter[m]);
            } else {
                let m = choose|m: int|
                    0 <= m < mid.len() && ((#[trigger] mid[m]).1 matches PeerMessage::Cancel {
                        index,
                        begin,
                        ..
                    } && index == r.0 && begin == r.1);
                assert(out[shorter.len() + m] == mid[m]);
            }
        }
    }
}

/// A round tells every peer whose slot changes, and no other: a peer that comes in
/// is unchoked, one that goes is choked. Before that it is told to cancel all that
/// we asked of it, and after the choke it is told nothing.
pub proof fn law_round_messages(
    before: DownloadLoop,
    after: DownloadLoop,
    msgs: Seq<Outgoing>,
    pick: int,
    now: Nanos,
    a: PeerAddr,
)
    requires
        round_ran(before, after, msgs, pick, now),
    ensures
        msgs.contains((a, PeerMessage::Unchoke)) <==> after.uploads@.contains(a)
            && !before.uploads@.contains(a),
        msgs.contains((a, PeerMessage::Choke)) <==> before.uploads@.contains(a)
            && !after.uploads@.contains(a),
        forall|m: int|
            0 <= m < msgs.len() && (#[trigger] msgs[m]).0 == a ==> msgs[m].1 is Unchoke
                || msgs[m].1 is Choke || (before.uploads@.contains(a)
                && !after.uploads@.contains(a) && before.peers@.contains_key(a) && cancels(
                before.active_downloads@,
                before.peers@[a].pipeline,
                msgs[m].1,
            )),
        forall|m: int, n: int|
            0 <= m < n < msgs.len() && (#[trigger] msgs[m]).1 is Choke ==> (
            #[trigger] msgs[n]).0 != msgs[m].0,
        before.uploads@.contains(a) && !after.uploads@.contains(a) && before.peers@.contains_key(a)
            ==> forall|j: int|
            0 <= j < before.peers@[a].pipeline.len()
                && #[trigger] before.peers@[a].pipeline[j] is Some ==> exists|m: int|
                0 <= m < msgs.len() && (#[trigger] msgs[m]).0 == a && (
                msgs[m].1 matches PeerMessage::Cancel { index, begin, .. } && index == (
                before.peers@[a].pipeline[j]->0).0 && begin == (
                before.peers@[a].pipeline[j]->0).1),
{
    let selected = round_selection(
        before.peers@,
        before.peers.order(),
        all_true(before.have@),
        now,
        before.snub_timeout,
        before.uploads.spec_max_uploads(),
        pick,
    );
    let held = before.uploads.order();
    let losers = losing(held, selected);
    let fresh = newly_selected(selected, held);
    let told = choke_messages_for(before.peers@, before.active_downloads@, losers);
    let hello = |x: PeerAddr| (x, PeerMessage::Unchoke);
    let out = |x: PeerAddr| !selected.contains(x);
    let new = |x: PeerAddr| !held.contains(x);
    before.uploads.lemma_wf();
    crate::seqs::lemma_filter_no_duplicates(held, out);
    lemma_choke_messages(before.peers@, before.active_downloads@, losers);
    lemma_filtered(held, out);
    lemma_filtered(selected, new);
    assert(msgs == told + fresh.map_values(hello));
    assert forall|m: int| told.len() <= m < msgs.len() implies #[trigger] msgs[m] == (
        fresh[m - told.len()],
        PeerMessage::Unchoke,
    ) && fresh.contains(msgs[m].0) by {
        assert(msgs[m] == fresh.map_values(hello)[m - told.len()]);
    }
    assert forall|m: int| 0 <= m < told.len() implies msgs[m] == #[trigger] told[m] by {}
    assert forall|m: int| 0 <= m < told.len() implies #[trigger] msgs[m] == told[m] by {}
    if fresh.contains(a) {
        let k = choose|k: int| 0 <= k < fresh.len() && fresh[k] == a;
        assert(msgs[told.len() + k] == (a, PeerMessage::Unchoke));
    }
    if losers.contains(a) {
        let k = choose|k: int| 0 <= k < losers.len() && losers[k] == a;
        assert(told.contains((losers[k], PeerMessage::Choke)));
        let m = choose|m: int| 0 <= m < told.len() && told[m] == (a, PeerMessage::Choke);
        assert(msgs[m] == (a, PeerMessage::Choke));
        if before.peers@.contains_key(a) {
            assert forall|j: int|
                0 <= j < before.peers@[a].pipeline.len()
                    && #[trigger] before.peers@[a].pipeline[j] is Some implies exists|m: int|
                0 <= m < msgs.len() && (#[trigger] msgs[m]).0 == a && (
                msgs[m].1 matches PeerMessage::Cancel { index, begin, .. } && index == (
                before.peers@[a].pipeline[j]->0).0 && begin == (
                before.peers@[a].pipeline[j]->0).1) by {
                assert(before.peers@[losers[k]].pipeline[j] is Some);
                let r = before.peers@[a].pipeline[j]->0;
                let m = choose|m: int|
                    0 <= m < told.len() && (#[trigger] told[m]).0 == losers[k] && (
                    told[m].1 matches PeerMessage::Cancel { index, begin, .. } && index == r.0
                        && begin == r.1);
                assert(msgs[m] == told[m]);
            }
        }
    }
    assert forall|m: int, n: int| 0 <= m < n < msgs.len() && (#[trigger] msgs[m]).1
        is Choke implies (#[trigger] msgs[n]).0 != msgs[m].0 by {
        assert(m < told.len());
        assert(losers.contains(told[m].0));
        if n >= told.len() {
            assert(fresh.contains(msgs[n].0));
        }
    }
}

/// After a round every peer is still there and counts from zero again. A peer that
/// lost its slot has nothing outstanding; the others keep their requests, and all
/// else stays.
pub proof fn law_peers_after_round(
    before: DownloadLoop,
    after: DownloadLoop,
    msgs: Seq<Outgoing>,
    pick: int,
    now: Nanos,
    a: PeerAddr,
)
    requires
        round_ran(before, after, msgs, pick, now),
    ensures
        after.peers@.dom() == before.peers@.dom(),
        before.peers@.contains_key(a) ==> ({
            let p = before.peers@[a];
            let q = after.peers@[a];
            let lost = before.uploads@.contains(a) && !after.uploads@.contains(a);
            &&& q.uploaded_this_round == 0
            &&& q.downloaded_this_round == 0
            &&& lost ==> q.pipeline.len() == 5 && forall|j: int|
                0 <= j < q.pipeline.len() ==> #[trigger] q.pipeline[j] is None
            &&& !lost ==> q.pipeline == p.pipeline
            &&& q == (PeerView {
                uploaded_this_round: 0,
                downloaded_this_round: 0,
                pipeline: q.pipeline,
                ..p
            })
        }),
{
    let selected = round_selection(
        before.peers@,
        before.peers.order(),
        all_true(before.have@),
        now,
        before.snub_timeout,
        before.uploads.spec_max_uploads(),
        pick,
    );
    before.uploads.lemma_wf();
    lemma_filtered(before.uploads.order(), |x: PeerAddr| !selected.contains(x));
    assert(after.peers@.dom() =~= before.peers@.dom());
}

/// A round gives up exactly the blocks that were asked of a peer that lost its
/// slot; the pieces in flight stay, with all their data.
pub proof fn law_blocks_after_round(
    before: DownloadLoop,
    after: DownloadLoop,
    msgs: Seq<Outgoing>,
    pick: int,
    now: Nanos,
    index: u32,
    block: int,
)
    requires
        round_ran(before, after, msgs, pick, now),
        before.active_downloads@.contains_key(index),
        0 <= block < before.active_downloads@[index].requested.len(),
    ensures
        ({
            let d = before.active_downloads@[index];
            let e = after.active_downloads@[index];
            let given_up = exists|a: PeerAddr, j: int|
                {
                    &&& before.uploads@.contains(a)
                    &&& !after.uploads@.contains(a)
                    &&& before.peers@.contains_key(a)
                    &&& 0 <= j < before.peers@[a].pipeline.len()
                    &&& #[trigger] before.peers@[a].pipeline[j] matches Some(r) && r.0 == index
                        && r.1 as int / d.block_size as int == block
                };
            &&& after.active_downloads@.dom() == before.active_downloads@.dom()
            &&& given_up ==> e.requested[block] is None
            &&& !given_up ==> e.requested[block] == d.requested[block]
            &&& e == (DownloadView { requested: e.requested, ..d })
        }),
{
    let selected = round_selection(
        before.peers@,
        before.peers.order(),
        all_true(before.have@),
        now,
        before.snub_timeout,
        before.uploads.spec_max_uploads(),
        pick,
    );
    let held = before.uploads.order();
    let losers = losing(held, selected);
    let d = before.active_downloads@[index];
    let peers = before.peers@;
    before.uploads.lemma_wf();
    lemma_filtered(held, |x: PeerAddr| !selected.contains(x));
    assert(after.active_downloads@.dom() =~= before.active_downloads@.dom());
    if exists|a: PeerAddr, j: int|
        {
            &&& before.uploads@.contains(a)
            &&& !after.uploads@.contains(a)
            &&& peers.contains_key(a)
            &&& 0 <= j < peers[a].pipeline.len()
            &&& #[trigger] peers[a].pipeline[j] matches Some(r) && r.0 == index && r.1 as int
                / d.block_size as int == block
        } {
        let (a, j) = choose|a: PeerAddr, j: int|
            {
                &&& before.uploads@.contains(a)
                &&& !after.uploads@.contains(a)
                &&& peers.contains_key(a)
                &&& 0 <= j < peers[a].pipeline.len()
                &&& #[trigger] peers[a].pipeline[j] matches Some(r) && r.0 == index && r.1 as int
                    / d.block_size as int == block
            };
        assert(losers.contains(a));
        let m = choose|m: int| 0 <= m < losers.len() && losers[m] == a;
        assert(slot_asks(peers[a].pipeline[j], index, block, d.block_size));
        assert(asks_for(peers[losers[m]].pipeline, index, block, d.block_size));
    }
    if asked_of(peers, losers, index, block, d.block_size) {
        let m = choose|m: int|
            0 <= m < losers.len() && peers.contains_key(#[trigger] losers[m]) && asks_for(
                peers[losers[m]].pipeline,
                index,
                block,
                d.block_size,
            );
        let j = choose|j: int|
            0 <= j < peers[losers[m]].pipeline.len() && slot_asks(
                #[trigger] peers[losers[m]].pipeline[j],
                index,
                block,
                d.block_size,
            );
        assert(losers.contains(losers[m]));
        assert(peers[losers[m]].pipeline[j] is Some);
    }
}

} // verus!
