//! Tit-for-tat: which peers get an upload slot.

use crate::collections::{find_key, Key};
use crate::seqs::first_where;
use crate::time::{elapsed, elapsed_at, Nanos};
use vstd::prelude::*;

verus! {

/// `s` with `x` placed after everything that transferred at least as much.
pub open spec fn insert_ranked<K>(s: Seq<(K, u64)>, x: (K, u64)) -> Seq<(K, u64)> {
    s.insert(first_where(s, |y: (K, u64)| y.1 < x.1), x)
}

/// Peers with what they transferred, most first; equal peers keep their order.
/// An entry is a peer, whether it is interested, and what it transferred.
pub open spec fn ranking<K>(entries: Seq<(K, bool, u64)>, only_interested: bool) -> Seq<(K, u64)>
    decreases entries.len(),
{
    if entries.len() == 0 {
        Seq::empty()
    } else {
        let before = ranking(entries.drop_last(), only_interested);
        let e = entries.last();
        if only_interested && !e.1 {
            before
        } else {
            insert_ranked(before, (e.0, e.2))
        }
    }
}

/// Rank peers by what they transferred, most first. Where `only_interested` is
/// set, peers that are not interested are left out.
pub fn rank<K: Key>(entries: &Vec<(K, bool, u64)>, only_interested: bool) -> (r: Vec<(K, u64)>)
    ensures
        r@ == ranking(entries@, only_interested),
{
    let mut r: Vec<(K, u64)> = Vec::new();
    let mut i: usize = 0;
    assert(entries@.take(0) =~= Seq::<(K, bool, u64)>::empty());
    while i < entries.len()
        invariant
            i <= entries@.len(),
            r@ == ranking(entries@.take(i as int), only_interested),
        decreases entries@.len() - i,
    {
        let e = entries[i];
        proof {
            assert(entries@.take(i + 1).drop_last() =~= entries@.take(i as int));
        }
        if !only_interested || e.1 {
            let mut at: usize = 0;
            let ghost below = |y: (K, u64)| y.1 < e.2;
            while at < r.len() && r[at].1 >= e.2
                invariant
                    at <= r@.len(),
                    below == (|y: (K, u64)| y.1 < e.2),
                    forall|j: int| 0 <= j < at ==> !below(#[trigger] r@[j]),
                decreases r@.len() - at,
            {
                at += 1;
            }
            proof {
                crate::seqs::lemma_first_where_is(r@, below, at as int);
                assert(below =~= (|y: (K, u64)| y.1 < (e.0, e.2).1));
            }
            r.insert(at, (e.0, e.2));
        }
        i += 1;
    }
    assert(entries@.take(i as int) =~= entries@);
    r
}

/// The peers of a ranking.
pub open spec fn ranked_keys<K>(ranked: Seq<(K, u64)>) -> Seq<K> {
    ranked.map_values(|x: (K, u64)| x.0)
}

/// The number of peers that get a slot by rank: one slot is kept for chance.
pub open spec fn top_count(n: int, max_uploads: u32) -> int {
    vstd::math::min(max_uploads - 1, n)
}

/// The peers that a round starts from: the best by rank, and among the others
/// the one at position `pick`.
pub open spec fn initial_choice<K>(
    ranked: Seq<(K, u64)>,
    max_uploads: u32,
    pick: int,
) -> Seq<K> {
    let top = top_count(ranked.len() as int, max_uploads);
    let best = ranked_keys(ranked).take(top);
    if ranked.len() > top {
        best.push(ranked[top + pick].0)
    } else {
        best
    }
}

/// `chosen` without the peers that are not eligible.
pub open spec fn retained<K>(chosen: Seq<K>, eligible: Seq<K>) -> Seq<K> {
    chosen.filter(|k: K| eligible.contains(k))
}

/// `chosen` filled up with eligible peers in the order of rank.
pub open spec fn refilled<K>(
    chosen: Seq<K>,
    ranked: Seq<(K, u64)>,
    eligible: Seq<K>,
    max_uploads: u32,
) -> Seq<K>
    decreases ranked.len(),
{
    if ranked.len() == 0 || chosen.len() >= max_uploads {
        chosen
    } else {
        let k = ranked[0].0;
        refilled(
            if eligible.contains(k) && !chosen.contains(k) {
                chosen.push(k)
            } else {
                chosen
            },
            ranked.drop_first(),
            eligible,
            max_uploads,
        )
    }
}

/// The peers that a round unchokes.
pub open spec fn selection<K>(
    ranked: Seq<(K, u64)>,
    eligible: Seq<K>,
    max_uploads: u32,
    pick: int,
) -> Seq<K> {
    refilled(
        retained(initial_choice(ranked, max_uploads, pick), eligible),
        ranked,
        eligible,
        max_uploads,
    )
}

/// Keep only the eligible peers.
pub fn retain_eligible<K: Key>(chosen: &Vec<K>, eligible: &Vec<K>) -> (r: Vec<K>)
    ensures
        r@ == retained(chosen@, eligible@),
{
    let ghost keep = |k: K| eligible@.contains(k);
    let mut r: Vec<K> = Vec::new();
    let mut i: usize = 0;
    proof {
        reveal(Seq::filter);
        assert(chosen@.take(0).filter(keep) =~= Seq::<K>::empty());
    }
    while i < chosen.len()
        invariant
            i <= chosen@.len(),
            keep == (|k: K| eligible@.contains(k)),
            r@ == chosen@.take(i as int).filter(keep),
        decreases chosen@.len() - i,
    {
        let k = chosen[i];
        proof {
            reveal(Seq::filter);
            assert(chosen@.take(i + 1).drop_last() =~= chosen@.take(i as int));
        }
        if find_key(eligible, &k).is_some() {
            r.push(k);
        }
        i += 1;
    }
    assert(chosen@.take(i as int) =~= chosen@);
    r
}

/// Fill free slots with eligible peers, best rank first.
pub fn refill<K: Key>(
    chosen: &mut Vec<K>,
    ranked: &Vec<(K, u64)>,
    eligible: &Vec<K>,
    max_uploads: u32,
)
    ensures
        final(chosen)@ == refilled(old(chosen)@, ranked@, eligible@, max_uploads),
{
    let mut i: usize = 0;
    assert(ranked@.skip(0) =~= ranked@);
    while i < ranked.len() && (chosen.len() as u64) < max_uploads as u64
        invariant
            i <= ranked@.len(),
            refilled(chosen@, ranked@.skip(i as int), eligible@, max_uploads) == refilled(
                old(chosen)@,
                ranked@,
                eligible@,
                max_uploads,
            ),
        decreases ranked@.len() - i,
    {
        let k = ranked[i].0;
        proof {
            assert(ranked@.skip(i as int).drop_first() =~= ranked@.skip(i + 1));
        }
        if find_key(eligible, &k).is_some() && find_key(chosen, &k).is_none() {
            chosen.push(k);
        }
        i += 1;
    }
}

/// Select the peers to unchoke: the best by rank, one by chance (`pick` is its
/// position among the others), none that is not eligible, and the free slots
/// filled with eligible peers in the order of rank.
pub fn select_unchoked<K: Key>(
    ranked: &Vec<(K, u64)>,
    eligible: &Vec<K>,
    max_uploads: u32,
    pick: usize,
) -> (r: Vec<K>)
    requires
        max_uploads > 0,
        ranked@.len() > top_count(ranked@.len() as int, max_uploads) ==> pick < ranked@.len()
            - top_count(ranked@.len() as int, max_uploads),
    ensures
        r@ == selection(ranked@, eligible@, max_uploads, pick as int),
{
    let n: usize = ranked.len();
    let top: usize = top_of(n, max_uploads);
    let mut chosen: Vec<K> = Vec::new();
    let mut i: usize = 0;
    while i < top
        invariant
            i <= top <= n,
            n == ranked@.len(),
            chosen@ == ranked_keys(ranked@).take(i as int),
        decreases top - i,
    {
        chosen.push(ranked[i].0);
        i += 1;
        assert(ranked_keys(ranked@).take(i as int) =~= ranked_keys(ranked@).take(i - 1).push(
            ranked@[i - 1].0,
        ));
    }
    if n > top {
        chosen.push(ranked[top + pick].0);
    }
    let mut kept = retain_eligible(&chosen, eligible);
    refill(&mut kept, ranked, eligible, max_uploads);
    kept
}

/// The number of peers that get a slot by rank.
pub fn top_of(n: usize, max_uploads: u32) -> (top: usize)
    requires
        max_uploads > 0,
    ensures
        top == top_count(n as int, max_uploads),
{
    if n as u64 <= (max_uploads - 1) as u64 {
        n
    } else {
        (max_uploads - 1) as usize
    }
}

/// Whether a peer has sent data within the snub timeout.
pub open spec fn is_active_at(last_data: Option<Nanos>, now: Nanos, snub_timeout: Nanos) -> bool {
    last_data matches Some(t) && elapsed_at(t, now) < snub_timeout
}

/// Whether a peer has sent data within the snub timeout; a peer that has not
/// is snubbed.
pub fn is_active(last_data: Option<Nanos>, now: Nanos, snub_timeout: Nanos) -> (r: bool)
    ensures
        r == is_active_at(last_data, now, snub_timeout),
{
    match last_data {
        Some(t) => elapsed(t, now) < snub_timeout,
        None => false,
    }
}

/// A ranking is sorted, most first, and lists exactly the qualifying entries.
pub proof fn law_ranking<K>(entries: Seq<(K, bool, u64)>, only_interested: bool)
    ensures
        ({
            let r = ranking(entries, only_interested);
            &&& forall|i: int, j: int| 0 <= i <= j < r.len() ==> #[trigger] r[i].1 >= #[trigger] r[j].1
            &&& forall|k: K, n: u64|
                #![trigger r.contains((k, n))]
                r.contains((k, n)) <==> exists|i: int|
                    0 <= i < entries.len() && qualifies(
                        #[trigger] entries[i],
                        only_interested,
                        k,
                        n,
                    )
            &&& distinct_keys(entries) ==> ranked_keys(r).no_duplicates()
        }),
    decreases entries.len(),
{
    let r = ranking(entries, only_interested);
    if entries.len() > 0 {
        let rest = entries.drop_last();
        let e = entries.last();
        let before = ranking(rest, only_interested);
        law_ranking(rest, only_interested);
        let x = (e.0, e.2);
        let below = |y: (K, u64)| y.1 < x.1;
        let at = first_where(before, below);
        crate::seqs::lemma_first_where(before, below);
        let added = !only_interested || e.1;
        if added {
            assert forall|i: int, j: int| 0 <= i <= j < r.len() implies #[trigger] r[i].1
                >= #[trigger] r[j].1 by {}
        }
        assert forall|k: K, n: u64| #![trigger r.contains((k, n))] r.contains((k, n)) <==> exists|
            i: int,
        |
            0 <= i < entries.len() && qualifies(#[trigger] entries[i], only_interested, k, n) by {
            if added {
                lemma_insert_contains(before, at, x, (k, n));
            }
            if r.contains((k, n)) {
                if before.contains((k, n)) {
                    let i = choose|i: int|
                        0 <= i < rest.len() && qualifies(#[trigger] rest[i], only_interested, k, n);
                }
            }
            if exists|i: int|
                0 <= i < entries.len() && qualifies(#[trigger] entries[i], only_interested, k, n) {
                let i = choose|i: int|
                    0 <= i < entries.len() && qualifies(
                        #[trigger] entries[i],
                        only_interested,
                        k,
                        n,
                    );
                if i < rest.len() {
                    assert(rest[i] == entries[i]);
                }
            }
        }
        if distinct_keys(entries) {
            assert(distinct_keys(rest)) by {
                assert forall|i: int, j: int| 0 <= i < j < rest.len() implies #[trigger] rest[i].0
                    != #[trigger] rest[j].0 by {}
            }
            if added {
                assert forall|m: int| 0 <= m < before.len() implies (#[trigger] before[m]).0
                    != e.0 by {
                    let (k, n) = before[m];
                    assert(before.contains((k, n)));
                    let i = choose|i: int|
                        0 <= i < rest.len() && qualifies(#[trigger] rest[i], only_interested, k, n);
                }
                let ks = ranked_keys(r);
                let bs = ranked_keys(before);
                assert forall|a: int, b: int| 0 <= a < b < ks.len() implies ks[a] != ks[b] by {
                    let a2 = if a < at { a } else { a - 1 };
                    let b2 = if b < at { b } else { b - 1 };
                    if a != at && b != at {
                        assert(bs[a2] != bs[b2]);
                    }
                }
            }
        }
    }
}

/// Whether the entry is peer `k` with transfer `n` and takes part in the ranking.
pub open spec fn qualifies<K>(e: (K, bool, u64), only_interested: bool, k: K, n: u64) -> bool {
    e.0 == k && e.2 == n && (!only_interested || e.1)
}

/// No peer has two entries.
pub open spec fn distinct_keys<K>(entries: Seq<(K, bool, u64)>) -> bool {
    forall|i: int, j: int| 0 <= i < j < entries.len() ==> #[trigger] entries[i].0 != #[trigger] entries[j].0
}

proof fn lemma_insert_contains<T>(s: Seq<T>, at: int, x: T, y: T)
    requires
        0 <= at <= s.len(),
    ensures
        s.insert(at, x).contains(y) <==> s.contains(y) || y == x,
{
    let t = s.insert(at, x);
    assert(t[at] == x);
    if s.contains(y) {
        let i = choose|i: int| 0 <= i < s.len() && s[i] == y;
        assert(t[if i < at { i } else { i + 1 }] == y);
    }
    if t.contains(y) && y != x {
        let i = choose|i: int| 0 <= i < t.len() && t[i] == y;
        assert(s[if i < at { i } else { i - 1 }] == y);
    }
}

proof fn lemma_refilled<K>(
    chosen: Seq<K>,
    ranked: Seq<(K, u64)>,
    eligible: Seq<K>,
    max_uploads: u32,
)
    requires
        chosen.no_duplicates(),
        chosen.len() <= max_uploads,
        forall|k: K| #[trigger] chosen.contains(k) ==> eligible.contains(k),
    ensures
        ({
            let r = refilled(chosen, ranked, eligible, max_uploads);
            &&& chosen.is_prefix_of(r)
            &&& r.no_duplicates()
            &&& r.len() <= max_uploads
            &&& forall|k: K| #[trigger] r.contains(k) ==> eligible.contains(k) && (chosen.contains(k)
                || ranked_keys(ranked).contains(k))
            &&& r.len() < max_uploads ==> forall|i: int|
                0 <= i < ranked.len() && eligible.contains(ranked[i].0) ==> r.contains(
                    (#[trigger] ranked[i]).0,
                )
        }),
    decreases ranked.len(),
{
    let r = refilled(chosen, ranked, eligible, max_uploads);
    if ranked.len() > 0 && chosen.len() < max_uploads {
        let k0 = ranked[0].0;
        let rest = ranked.drop_first();
        let next = if eligible.contains(k0) && !chosen.contains(k0) {
            chosen.push(k0)
        } else {
            chosen
        };
        assert forall|k: K| #[trigger] next.contains(k) <==> chosen.contains(k) || (k == k0
            && eligible.contains(k0)) by {
            if next.len() > chosen.len() {
                lemma_insert_contains(chosen, chosen.len() as int, k0, k);
                assert(chosen.insert(chosen.len() as int, k0) =~= chosen.push(k0));
            }
        }
        lemma_refilled(next, rest, eligible, max_uploads);
        assert forall|k: K| #[trigger] r.contains(k) implies eligible.contains(k) && (
        chosen.contains(k) || ranked_keys(ranked).contains(k)) by {
            assert(ranked_keys(ranked)[0] == k0);
            if ranked_keys(rest).contains(k) {
                let i = choose|i: int| 0 <= i < rest.len() && ranked_keys(rest)[i] == k;
                assert(ranked_keys(ranked)[i + 1] == k);
            }
        }
        if r.len() < max_uploads {
            assert forall|i: int| 0 <= i < ranked.len() && eligible.contains(ranked[i].0) implies r.contains(
            (#[trigger] ranked[i]).0) by {
                if i == 0 {
                    assert(next.contains(k0));
                    let j = choose|j: int| 0 <= j < next.len() && next[j] == k0;
                } else {
                    assert(rest[i - 1] == ranked[i]);
                }
            }
        }
    }
}

/// What a round promises: no more peers than slots, each once, only eligible
/// peers of the ranking; every eligible peer among the best gets a slot; and
/// slots stay free only when every eligible peer has one.
pub proof fn law_selection<K>(
    ranked: Seq<(K, u64)>,
    eligible: Seq<K>,
    max_uploads: u32,
    pick: int,
)
    requires
        max_uploads > 0,
        ranked_keys(ranked).no_duplicates(),
        ranked.len() > top_count(ranked.len() as int, max_uploads) ==> 0 <= pick < ranked.len()
            - top_count(ranked.len() as int, max_uploads),
    ensures
        ({
            let r = selection(ranked, eligible, max_uploads, pick);
            &&& r.len() <= max_uploads
            &&& r.no_duplicates()
            &&& forall|k: K| #[trigger] r.contains(k) ==> eligible.contains(k) && ranked_keys(
                ranked,
            ).contains(k)
            &&& forall|i: int|
                0 <= i < top_count(ranked.len() as int, max_uploads) && eligible.contains(ranked[i].0)
                    ==> r.contains((#[trigger] ranked[i]).0)
            &&& r.len() < max_uploads ==> forall|i: int|
                0 <= i < ranked.len() && eligible.contains(ranked[i].0) ==> r.contains(
                    (#[trigger] ranked[i]).0,
                )
        }),
{
    let top = top_count(ranked.len() as int, max_uploads);
    let keys = ranked_keys(ranked);
    let first = initial_choice(ranked, max_uploads, pick);
    let keep = |k: K| eligible.contains(k);
    let kept = retained(first, eligible);
    assert forall|i: int, j: int| 0 <= i < j < first.len() implies first[i] != first[j] by {
        assert(first[j] == keys[if j < top { j } else { top + pick }]);
    }
    crate::seqs::lemma_filter_no_duplicates(first, keep);
    first.lemma_filter_len(keep);
    assert forall|k: K| #[trigger] kept.contains(k) implies eligible.contains(k) by {
        let i = choose|i: int| 0 <= i < kept.len() && kept[i] == k;
        first.lemma_filter_pred(keep, i);
    }
    lemma_refilled(kept, ranked, eligible, max_uploads);
    let r = selection(ranked, eligible, max_uploads, pick);
    assert forall|k: K| #[trigger] r.contains(k) implies keys.contains(k) by {
        if kept.contains(k) {
            first.lemma_filter_contains_rev(keep, k);
            let i = choose|i: int| 0 <= i < first.len() && first[i] == k;
            assert(keys[if i < top { i } else { top + pick }] == k);
        }
    }
    assert forall|i: int| 0 <= i < top && eligible.contains(ranked[i].0) implies r.contains(
    (#[trigger] ranked[i]).0) by {
        first.lemma_filter_contains(keep, i);
        let j = choose|j: int| 0 <= j < kept.len() && kept[j] == ranked[i].0;
        assert(r[j] == ranked[i].0);
    }
}

/// Where an eligible peer of the ranking got no slot, refilling gave none to a
/// peer that ranks after it.
proof fn lemma_refilled_by_rank<K>(
    chosen: Seq<K>,
    ranked: Seq<(K, u64)>,
    eligible: Seq<K>,
    max_uploads: u32,
    i: int,
)
    requires
        0 <= i < ranked.len(),
        eligible.contains(ranked[i].0),
        !refilled(chosen, ranked, eligible, max_uploads).contains(ranked[i].0),
    ensures
        chosen.is_prefix_of(refilled(chosen, ranked, eligible, max_uploads)),
        forall|k: K| #[trigger]
            refilled(chosen, ranked, eligible, max_uploads).contains(k) ==> chosen.contains(k)
                || ranked_keys(ranked).take(i).contains(k),
    decreases ranked.len(),
{
    let r = refilled(chosen, ranked, eligible, max_uploads);
    if chosen.len() < max_uploads {
        let k0 = ranked[0].0;
        let rest = ranked.drop_first();
        let next = if eligible.contains(k0) && !chosen.contains(k0) {
            chosen.push(k0)
        } else {
            chosen
        };
        lemma_refilled_prefix(next, rest, eligible, max_uploads);
        if i == 0 {
            if chosen.contains(k0) {
                let j = choose|j: int| 0 <= j < chosen.len() && chosen[j] == k0;
                assert(r[j] == k0);
            } else {
                assert(r[chosen.len() as int] == k0);
            }
            assert(false);
        }
        assert(rest[i - 1] == ranked[i]);
        lemma_refilled_by_rank(next, rest, eligible, max_uploads, i - 1);
        assert forall|k: K| #[trigger] r.contains(k) implies chosen.contains(k) || ranked_keys(
            ranked,
        ).take(i).contains(k) by {
            let before = ranked_keys(ranked).take(i);
            assert(before[0] == k0);
            if next.contains(k) {
                let j = choose|j: int| 0 <= j < next.len() && next[j] == k;
                if j < chosen.len() {
                    assert(chosen[j] == k);
                }
            } else {
                let after = ranked_keys(rest).take(i - 1);
                let j = choose|j: int| 0 <= j < after.len() && after[j] == k;
                assert(before[j + 1] == k);
            }
        }
    }
}

proof fn lemma_refilled_prefix<K>(
    chosen: Seq<K>,
    ranked: Seq<(K, u64)>,
    eligible: Seq<K>,
    max_uploads: u32,
)
    ensures
        chosen.is_prefix_of(refilled(chosen, ranked, eligible, max_uploads)),
    decreases ranked.len(),
{
    if ranked.len() > 0 && chosen.len() < max_uploads {
        let k = ranked[0].0;
        let next = if eligible.contains(k) && !chosen.contains(k) {
            chosen.push(k)
        } else {
            chosen
        };
        lemma_refilled_prefix(next, ranked.drop_first(), eligible, max_uploads);
    }
}

/// The peer that chance picks among those that did not make it by rank, if there
/// are any.
pub open spec fn picked_by_chance<K>(
    ranked: Seq<(K, u64)>,
    max_uploads: u32,
    pick: int,
) -> Option<K> {
    let top = top_count(ranked.len() as int, max_uploads);
    if ranked.len() > top {
        Some(ranked[top + pick].0)
    } else {
        None
    }
}

/// Slots go by rank: where an eligible peer gets none, every peer that does,
/// other than the one that chance picked, ranks before it.
pub proof fn law_slots_by_rank<K>(
    ranked: Seq<(K, u64)>,
    eligible: Seq<K>,
    max_uploads: u32,
    pick: int,
    i: int,
    x: K,
)
    requires
        max_uploads > 0,
        ranked_keys(ranked).no_duplicates(),
        ranked.len() > top_count(ranked.len() as int, max_uploads) ==> 0 <= pick < ranked.len()
            - top_count(ranked.len() as int, max_uploads),
        0 <= i < ranked.len(),
        eligible.contains(ranked[i].0),
        !selection(ranked, eligible, max_uploads, pick).contains(ranked[i].0),
        selection(ranked, eligible, max_uploads, pick).contains(x),
        picked_by_chance(ranked, max_uploads, pick) != Some(x),
    ensures
        ranked_keys(ranked).take(i).contains(x),
{
    let top = top_count(ranked.len() as int, max_uploads);
    let keys = ranked_keys(ranked);
    let first = initial_choice(ranked, max_uploads, pick);
    let keep = |k: K| eligible.contains(k);
    let kept = retained(first, eligible);
    law_selection(ranked, eligible, max_uploads, pick);
    lemma_refilled_by_rank(kept, ranked, eligible, max_uploads, i);
    assert(i >= top);
    let before = keys.take(i);
    assert forall|k: K| kept.contains(k) implies before.contains(k) || k == ranked[top + pick].0 by {
        first.lemma_filter_contains_rev(keep, k);
        let j = choose|j: int| 0 <= j < first.len() && first[j] == k;
        if j < top {
            assert(before[j] == k);
        }
    }
}

/// Every eligible peer of the ranking gets a slot under some pick.
pub proof fn law_every_rank_has_a_chance<K>(
    ranked: Seq<(K, u64)>,
    eligible: Seq<K>,
    max_uploads: u32,
    i: int,
) -> (pick: int)
    requires
        max_uploads > 0,
        0 <= i < ranked.len(),
        eligible.contains(ranked[i].0),
    ensures
        ranked.len() > top_count(ranked.len() as int, max_uploads) ==> 0 <= pick < ranked.len()
            - top_count(ranked.len() as int, max_uploads),
        selection(ranked, eligible, max_uploads, pick).contains(ranked[i].0),
{
    let top = top_count(ranked.len() as int, max_uploads);
    let pick = if i < top { 0 } else { i - top };
    let first = initial_choice(ranked, max_uploads, pick);
    let keep = |k: K| eligible.contains(k);
    let kept = retained(first, eligible);
    let j = if i < top { i } else { top };
    assert(first[j] == ranked[i].0);
    first.lemma_filter_contains(keep, j);
    lemma_refilled_prefix(kept, ranked, eligible, max_uploads);
    let m = choose|m: int| 0 <= m < kept.len() && kept[m] == ranked[i].0;
    assert(selection(ranked, eligible, max_uploads, pick)[m] == ranked[i].0);
    pick
}

/// Peers that transferred equally much are ranked in the order in which they are
/// listed.
pub proof fn law_ranking_stable<K>(
    entries: Seq<(K, bool, u64)>,
    only_interested: bool,
    i: int,
    j: int,
) -> (at: (int, int))
    requires
        0 <= i < j < entries.len(),
        entries[i].2 == entries[j].2,
        !only_interested || (entries[i].1 && entries[j].1),
    ensures
        ({
            let r = ranking(entries, only_interested);
            &&& 0 <= at.0 < at.1 < r.len()
            &&& r[at.0] == (entries[i].0, entries[i].2)
            &&& r[at.1] == (entries[j].0, entries[j].2)
        }),
    decreases entries.len(),
{
    let r = ranking(entries, only_interested);
    let rest = entries.drop_last();
    let e = entries.last();
    let before = ranking(rest, only_interested);
    let x = (e.0, e.2);
    let below = |y: (K, u64)| y.1 < x.1;
    let cut = first_where(before, below);
    crate::seqs::lemma_first_where(before, below);
    let added = !only_interested || e.1;
    if j < rest.len() {
        let p = law_ranking_stable(rest, only_interested, i, j);
        if added {
            let a = if p.0 < cut { p.0 } else { p.0 + 1 };
            let b = if p.1 < cut { p.1 } else { p.1 + 1 };
            assert(r[a] == before[p.0]);
            assert(r[b] == before[p.1]);
            (a, b)
        } else {
            p
        }
    } else {
        law_ranking(rest, only_interested);
        let y = (entries[i].0, entries[i].2);
        assert(qualifies(rest[i], only_interested, y.0, y.1));
        assert(before.contains((y.0, y.1)));
        let a = choose|a: int| 0 <= a < before.len() && before[a] == y;
        if cut <= a {
            assert(before[cut].1 >= before[a].1);
        }
        assert(r[a] == y);
        assert(r[cut] == x);
        (a, cut)
    }
}

/// All slots but one go by rank; with fewer peers than that, every one of them
/// does.
pub proof fn law_top_count(n: int, max_uploads: u32)
    requires
        max_uploads > 0,
        n >= 0,
    ensures
        n >= max_uploads ==> top_count(n, max_uploads) + 1 == max_uploads,
        n < max_uploads ==> top_count(n, max_uploads) == n,
{
}

} // verus!
