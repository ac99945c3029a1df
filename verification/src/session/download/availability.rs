//! How many peers hold each piece.

use super::tables::Peers;
use super::types::{PeerInfo, PeerView};
use crate::addr::PeerAddr;
use crate::seqs::count_where;
use vstd::prelude::*;

verus! {

/// Whether a peer counts towards the availability of piece `i`; where
/// `unchoked_only` is set, a peer that chokes us does not.
pub open spec fn offers_piece(p: PeerView, i: int, unchoked_only: bool) -> bool {
    !(unchoked_only && p.am_choked) && i < p.bitfield.len() && p.bitfield[i]
}

/// The number of peers, among those in `order`, that hold piece `i`.
pub open spec fn holders(
    peers: Map<PeerAddr, PeerView>,
    order: Seq<PeerAddr>,
    i: int,
    unchoked_only: bool,
) -> nat {
    count_where(order, |a: PeerAddr| offers_piece(peers[a], i, unchoked_only))
}

/// Counts, for every piece, the peers that hold it.
pub fn availability(peers: &Peers, num_pieces: usize, unchoked_only: bool) -> (r: Vec<usize>)
    requires
        peers.wf(),
    ensures
        r@.len() == num_pieces,
        forall|i: int|
            0 <= i < num_pieces ==> #[trigger] r@[i] == holders(
                peers@,
                peers.order(),
                i,
                unchoked_only,
            ),
{
    let mut counts: Vec<usize> = Vec::new();
    counts.resize(num_pieces, 0);
    let addrs = peers.addrs();
    let ghost order = peers.order();
    let ghost ps = peers@;
    proof {
        peers.lemma_wf();
        assert(order.take(0) =~= Seq::<PeerAddr>::empty());
    }
    let mut k: usize = 0;
    while k < addrs.len()
        invariant
            k <= addrs@.len(),
            peers.wf(),
            ps == peers@,
            addrs@ == order,
            order == peers.order(),
            forall|a: PeerAddr| #[trigger] ps.contains_key(a) <==> order.contains(a),
            counts@.len() == num_pieces,
            forall|i: int|
                0 <= i < num_pieces ==> #[trigger] counts@[i] == holders(
                    ps,
                    order.take(k as int),
                    i,
                    unchoked_only,
                ),
        decreases addrs@.len() - k,
    {
        let addr = addrs[k];
        let ghost before = counts@;
        proof {
            assert(order.take(k + 1).drop_last() =~= order.take(k as int));
            assert forall|i: int| 0 <= i < num_pieces implies #[trigger] before[i] <= k by {
                crate::seqs::lemma_count_where(
                    order.take(k as int),
                    |a: PeerAddr| offers_piece(ps[a], i, unchoked_only),
                );
            }
        }
        if let Some(p) = peers.get(&addr) {
            count_peer(&mut counts, p, unchoked_only, k);
        }
        proof {
            assert forall|i: int| 0 <= i < num_pieces implies #[trigger] counts@[i] == holders(
                ps,
                order.take(k + 1),
                i,
                unchoked_only,
            ) by {}
        }
        k += 1;
    }
    assert(order.take(k as int) =~= order);
    counts
}

fn count_peer(counts: &mut Vec<usize>, p: &PeerInfo, unchoked_only: bool, bound: usize)
    requires
        bound < usize::MAX,
        forall|i: int| 0 <= i < old(counts)@.len() ==> #[trigger] old(counts)@[i] <= bound,
    ensures
        final(counts)@.len() == old(counts)@.len(),
        forall|i: int|
            0 <= i < old(counts)@.len() ==> #[trigger] final(counts)@[i] == old(counts)@[i]
                + if offers_piece(p@, i, unchoked_only) {
                1int
            } else {
                0int
            },
{
    if unchoked_only && p.am_choked {
        return;
    }
    let mut i: usize = 0;
    while i < p.bitfield.len() && i < counts.len()
        invariant
            i <= p.bitfield@.len(),
            i <= counts@.len(),
            bound < usize::MAX,
            !(unchoked_only && p.am_choked),
            counts@.len() == old(counts)@.len(),
            forall|j: int| 0 <= j < old(counts)@.len() ==> #[trigger] old(counts)@[j] <= bound,
            forall|j: int|
                0 <= j < i ==> #[trigger] counts@[j] == old(counts)@[j] + if offers_piece(
                    p@,
                    j,
                    unchoked_only,
                ) {
                    1int
                } else {
                    0int
                },
            forall|j: int| i <= j < counts@.len() ==> #[trigger] counts@[j] == old(counts)@[j],
        decreases counts@.len() - i,
    {
        if p.bitfield[i] {
            assert(old(counts)@[i as int] <= bound);
            let c: usize = counts[i];
            counts[i] = c + 1;
        }
        i += 1;
    }
}

/// A peer counts once for every piece that it holds, and not at all for one that
/// it lacks; where only peers that let us in count, one that chokes us does not.
pub proof fn law_holders(
    peers: Map<PeerAddr, PeerView>,
    order: Seq<PeerAddr>,
    a: PeerAddr,
    i: int,
    unchoked_only: bool,
)
    ensures
        holders(peers, Seq::empty(), i, unchoked_only) == 0,
        ({
            let more = holders(peers, order.push(a), i, unchoked_only) - holders(
                peers,
                order,
                i,
                unchoked_only,
            );
            let p = peers[a];
            &&& i < p.bitfield.len() && p.bitfield[i] && !p.am_choked ==> more == 1
            &&& i < p.bitfield.len() && p.bitfield[i] && p.am_choked ==> more
                == if unchoked_only {
                0int
            } else {
                1int
            }
            &&& !(i < p.bitfield.len() && p.bitfield[i]) ==> more == 0
        }),
{
    assert(order.push(a).drop_last() =~= order);
}

} // verus!
