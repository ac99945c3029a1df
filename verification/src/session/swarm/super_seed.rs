//! Super seeding: each piece goes to one peer first.

use crate::addr::PeerAddr;
use crate::collections::VecMap;
use crate::peer::message::PeerMessage;
use crate::seqs::{first_where, lemma_take_contains};
use crate::session::download::availability::{availability, holders, offers_piece};
use crate::session::download::tables::Peers;
use crate::session::download::types::{bit_at, bits_of, PeerEvent, PeerView};
use crate::session::upload_mgr::UploadManager;
use vstd::prelude::*;

verus! {

/// Super seeding state.
///
/// Its view maps each piece that is being uploaded to a single peer to that
/// peer. Such a piece stays hidden from everybody else until the peer confirms
/// that it has it.
pub struct SuperSeedExtension {
    assignments: VecMap<u32, PeerAddr>,
    unrevealed: VecMap<u32, ()>,
}

impl View for SuperSeedExtension {
    type V = Map<u32, PeerAddr>;

    closed spec fn view(&self) -> Map<u32, PeerAddr> {
        self.assignments@
    }
}

/// No peer has two pieces.
pub open spec fn exclusive(m: Map<u32, PeerAddr>) -> bool {
    forall|i: u32, j: u32| #[trigger]
        m.contains_key(i) && #[trigger] m.contains_key(j) && m[i] == m[j] ==> i == j
}

/// Whether piece `i` may be handed out: we hold it, nobody else does, and it is
/// not handed out already.
pub open spec fn assignable(
    have: Seq<bool>,
    peers: Map<PeerAddr, PeerView>,
    order: Seq<PeerAddr>,
    m: Map<u32, PeerAddr>,
    i: int,
) -> bool {
    have[i] && holders(peers, order, i, false) == 0 && !m.contains_key(i as u32)
}

/// The flags of [`assignable`] for every piece.
pub open spec fn assignable_pieces(
    have: Seq<bool>,
    peers: Map<PeerAddr, PeerView>,
    order: Seq<PeerAddr>,
    m: Map<u32, PeerAddr>,
) -> Seq<bool> {
    Seq::new(have.len(), |i: int| assignable(have, peers, order, m, i))
}

/// Whether the peer has no piece yet.
pub open spec fn unassigned_in(m: Map<u32, PeerAddr>) -> spec_fn(PeerAddr) -> bool {
    |a: PeerAddr| forall|i: u32| #[trigger] m.contains_key(i) ==> m[i] != a
}

/// The assignments after one more selection: the first piece that may be handed
/// out goes to the first candidate without a piece, if there are both.
pub open spec fn after_select(
    m: Map<u32, PeerAddr>,
    have: Seq<bool>,
    peers: Map<PeerAddr, PeerView>,
    order: Seq<PeerAddr>,
    candidates: Seq<PeerAddr>,
) -> Map<u32, PeerAddr> {
    let pieces = assignable_pieces(have, peers, order, m);
    let i = first_where(pieces, |b: bool| b);
    let t = first_where(candidates, unassigned_in(m));
    if i < pieces.len() && t < candidates.len() {
        m.insert(i as u32, candidates[t])
    } else {
        m
    }
}

/// The peers that may get a piece: interested in us and unchoked by us.
pub open spec fn served_peers(
    peers: Map<PeerAddr, PeerView>,
    unchoked: Set<PeerAddr>,
) -> spec_fn(PeerAddr) -> bool {
    |a: PeerAddr| peers[a].peer_interested && unchoked.contains(a)
}

/// The assignments without those of one peer.
pub open spec fn without_peer(m: Map<u32, PeerAddr>, addr: PeerAddr) -> Map<u32, PeerAddr> {
    Map::new(|i: u32| m.contains_key(i) && m[i] != addr, |i: u32| m[i])
}

/// What an event means for super seeding.
#[derive(Clone, Copy, Debug, PartialEq, Eq, Structural)]
pub enum SuperSeedEvent {
    /// Nothing.
    Ignored,
    /// A request for a hidden piece by another peer: do not serve it.
    Block(u32),
    /// The assigned peer has the piece: announce it to everybody.
    Reveal(u32),
}

/// The assignments after an event, and what the event means.
pub open spec fn after_event(m: Map<u32, PeerAddr>, addr: PeerAddr, event: PeerEvent) -> (
    Map<u32, PeerAddr>,
    SuperSeedEvent,
) {
    match event {
        PeerEvent::Disconnected => (without_peer(m, addr), SuperSeedEvent::Ignored),
        PeerEvent::Message(PeerMessage::Request { index, .. }) => (
            m,
            if m.contains_key(index) && m[index] != addr {
                SuperSeedEvent::Block(index)
            } else {
                SuperSeedEvent::Ignored
            },
        ),
        PeerEvent::Message(PeerMessage::Have(index)) => if m.contains_key(index) && m[index]
            == addr {
            (m.remove(index), SuperSeedEvent::Reveal(index))
        } else {
            (m, SuperSeedEvent::Ignored)
        },
        _ => (m, SuperSeedEvent::Ignored),
    }
}

impl SuperSeedExtension {
    /// A piece is hidden exactly while it is assigned, and no peer has two.
    pub closed spec fn wf(&self) -> bool {
        &&& self.assignments.wf()
        &&& self.unrevealed.wf()
        &&& self.unrevealed@.dom() == self.assignments@.dom()
        &&& exclusive(self.assignments@)
    }

    /// No peer ever has two pieces.
    pub proof fn lemma_wf(&self)
        requires
            self.wf(),
        ensures
            exclusive(self@),
            self@.dom().finite(),
    {
        self.assignments.lemma_order();
    }

    /// Nothing is assigned.
    pub fn new() -> (x: SuperSeedExtension)
        ensures
            x.wf(),
            x@ == Map::<u32, PeerAddr>::empty(),
    {
        let x = SuperSeedExtension { assignments: VecMap::new(), unrevealed: VecMap::new() };
        assert(x.unrevealed@.dom() =~= x.assignments@.dom());
        x
    }

    /// The number of hidden pieces.
    pub fn remaining(&self) -> (n: usize)
        requires
            self.wf(),
        ensures
            n == self@.dom().len(),
    {
        self.unrevealed.len()
    }

    /// Hand one piece to one of the candidates, if possible.
    fn select(&mut self, peers: &Peers, have: &Vec<bool>, candidates: &Vec<PeerAddr>)
        requires
            old(self).wf(),
            peers.wf(),
            have@.len() <= 0x1_0000_0000,
        ensures
            final(self).wf(),
            final(self)@ == after_select(
                old(self)@,
                have@,
                peers@,
                peers.order(),
                candidates@,
            ),
    {
        let counts = availability(peers, have.len(), false);
        let ghost pieces = assignable_pieces(have@, peers@, peers.order(), self@);
        let ghost yes = |b: bool| b;
        let mut i: usize = 0;
        while i < have.len()
            invariant_except_break
                forall|j: int| 0 <= j < i ==> !yes(#[trigger] pieces[j]),
            invariant
                i <= have@.len() <= 0x1_0000_0000,
                self.wf(),
                *self == *old(self),
                counts@.len() == have@.len(),
                yes == (|b: bool| b),
                pieces == assignable_pieces(have@, peers@, peers.order(), self@),
                forall|j: int|
                    0 <= j < have@.len() ==> #[trigger] counts@[j] == holders(
                        peers@,
                        peers.order(),
                        j,
                        false,
                    ),
            ensures
                i <= have@.len(),
                i < have@.len() ==> yes(pieces[i as int]),
                forall|j: int| 0 <= j < i ==> !yes(#[trigger] pieces[j]),
            decreases have@.len() - i,
        {
            let free = have[i] && counts[i] == 0 && !self.assignments.contains_key(&(i as u32));
            if free {
                break;
            }
            i += 1;
        }
        proof {
            crate::seqs::lemma_first_where_is(pieces, yes, i as int);
        }
        if i < have.len() {
            if let Some(addr) = self.first_unassigned(candidates) {
                self.assignments.insert(i as u32, addr);
                self.unrevealed.insert(i as u32, ());
                assert(self.unrevealed@.dom() =~= self.assignments@.dom());
            }
        }
    }

    /// The first candidate without a piece.
    fn first_unassigned(&self, candidates: &Vec<PeerAddr>) -> (r: Option<PeerAddr>)
        requires
            self.wf(),
        ensures
            ({
                let t = first_where(candidates@, unassigned_in(self@));
                &&& r == if t < candidates@.len() {
                    Some(candidates@[t])
                } else {
                    None
                }
                &&& r matches Some(a) ==> unassigned_in(self@)(a)
            }),
    {
        let ghost f = unassigned_in(self@);
        let mut t: usize = 0;
        while t < candidates.len()
            invariant
                t <= candidates@.len(),
                self.wf(),
                f == unassigned_in(self@),
                forall|j: int| 0 <= j < t ==> !f(#[trigger] candidates@[j]),
            decreases candidates@.len() - t,
        {
            if !self.has_piece(candidates[t]) {
                proof {
                    crate::seqs::lemma_first_where_is(candidates@, f, t as int);
                }
                return Some(candidates[t]);
            }
            t += 1;
        }
        proof {
            crate::seqs::lemma_first_where_is(candidates@, f, t as int);
        }
        None
    }

    /// Whether a piece is assigned to the peer.
    fn has_piece(&self, addr: PeerAddr) -> (r: bool)
        requires
            self.wf(),
        ensures
            r == !unassigned_in(self@)(addr),
    {
        let keys = self.assignments.keys();
        proof {
            self.assignments.lemma_order();
        }
        let mut k: usize = 0;
        while k < keys.len()
            invariant
                k <= keys@.len(),
                self.wf(),
                keys@ == self.assignments.order(),
                forall|i: u32| #[trigger] self@.contains_key(i) <==> keys@.contains(i),
                forall|j: int| 0 <= j < k ==> self@[#[trigger] keys@[j]] != addr,
            decreases keys@.len() - k,
        {
            if let Some(a) = self.assignments.get(&keys[k]) {
                if *a == addr {
                    return true;
                }
            }
            k += 1;
        }
        proof {
            assert forall|i: u32| #[trigger] self@.contains_key(i) implies self@[i] != addr by {
                let j = choose|j: int| 0 <= j < keys@.len() && keys@[j] == i;
                assert(self@[keys@[j]] != addr);
            }
        }
        false
    }

    /// Hand a piece that nobody else holds to one interested peer that we have
    /// unchoked. At most one piece is handed out.
    pub fn select_piece(
        &mut self,
        peers: &Peers,
        uploads: &UploadManager,
        have: &Vec<bool>,
    )
        requires
            old(self).wf(),
            peers.wf(),
            uploads.wf(),
            have@.len() <= 0x1_0000_0000,
        ensures
            final(self).wf(),
            final(self)@ == after_select(
                old(self)@,
                have@,
                peers@,
                peers.order(),
                peers.order().filter(served_peers(peers@, uploads@)),
            ),
    {
        let addrs = peers.addrs();
        let ghost order = peers.order();
        let ghost f = served_peers(peers@, uploads@);
        let mut candidates: Vec<PeerAddr> = Vec::new();
        proof {
            peers.lemma_wf();
            reveal(Seq::filter);
            assert(order.take(0).filter(f) =~= Seq::<PeerAddr>::empty());
        }
        let mut k: usize = 0;
        while k < addrs.len()
            invariant
                k <= addrs@.len(),
                peers.wf(),
                uploads.wf(),
                addrs@ == order,
                f == served_peers(peers@, uploads@),
                forall|a: PeerAddr| #[trigger] peers@.contains_key(a) <==> order.contains(a),
                candidates@ == order.take(k as int).filter(f),
            decreases addrs@.len() - k,
        {
            let a = addrs[k];
            proof {
                reveal(Seq::filter);
                assert(order.take(k + 1).drop_last() =~= order.take(k as int));
            }
            if let Some(p) = peers.get(&a) {
                if p.peer_interested && uploads.is_unchoked(&a) {
                    candidates.push(a);
                }
            }
            k += 1;
        }
        assert(order.take(k as int) =~= order);
        self.select(peers, have, &candidates);
    }

    /// Release the pieces of a peer that left.
    fn release(&mut self, addr: PeerAddr)
        requires
            old(self).wf(),
        ensures
            final(self).wf(),
            final(self)@ == without_peer(old(self)@, addr),
    {
        let keys = self.assignments.keys();
        proof {
            self.assignments.lemma_order();
        }
        let ghost m = self@;
        let mut k: usize = 0;
        while k < keys.len()
            invariant
                k <= keys@.len(),
                self.wf(),
                keys@.no_duplicates(),
                m == old(self)@,
                forall|i: u32| #[trigger] m.contains_key(i) <==> keys@.contains(i),
                forall|i: u32| #[trigger]
                    self@.contains_key(i) <==> m.contains_key(i) && !(m[i] == addr && keys@.take(
                        k as int,
                    ).contains(i)),
                forall|i: u32| #[trigger] self@.contains_key(i) ==> self@[i] == m[i],
            decreases keys@.len() - k,
        {
            let idx: u32 = keys[k];
            proof {
                let u = keys@.take(k as int);
                assert forall|i: u32| #[trigger]
                    keys@.take(k + 1).contains(i) <==> u.contains(i) || i == idx by {
                    lemma_take_contains(keys@, k as int, i);
                }
                if u.contains(idx) {
                    let j = choose|j: int| 0 <= j < u.len() && u[j] == idx;
                }
            }
            let mine = match self.assignments.get(&idx) {
                Some(a) => *a == addr,
                None => false,
            };
            if mine {
                let ghost before = self@;
                self.unrevealed.remove(&idx);
                self.assignments.remove(&idx);
                assert(self@ =~= before.remove(idx));
                assert(self.unrevealed@.dom() =~= self.assignments@.dom());
            }
            k += 1;
        }
        proof {
            assert(keys@.take(k as int) =~= keys@);
            assert(self@ =~= without_peer(m, addr));
        }
    }

    /// Take note of an event, and tell what it means.
    pub fn on_peer_event(&mut self, addr: PeerAddr, event: &PeerEvent) -> (r: SuperSeedEvent)
        requires
            old(self).wf(),
        ensures
            final(self).wf(),
            match event {
                PeerEvent::Disconnected => r is Ignored && final(self)@ == without_peer(
                    old(self)@,
                    addr,
                ),
                PeerEvent::Message(PeerMessage::Request { index, .. }) => {
                    &&& final(self)@ == old(self)@
                    &&& r == if old(self)@.contains_key(*index) && old(self)@[*index] != addr {
                        SuperSeedEvent::Block(*index)
                    } else {
                        SuperSeedEvent::Ignored
                    }
                },
                PeerEvent::Message(PeerMessage::Have(index)) => if old(self)@.contains_key(*index)
                    && old(self)@[*index] == addr {
                    r == SuperSeedEvent::Reveal(*index) && final(self)@ == old(self)@.remove(*index)
                } else {
                    r is Ignored && final(self)@ == old(self)@
                },
                _ => r is Ignored && final(self)@ == old(self)@,
            },
            (final(self)@, r) == after_event(old(self)@, addr, *event),
    {
        match event {
            PeerEvent::Disconnected => {
                self.release(addr);
                SuperSeedEvent::Ignored
            },
            PeerEvent::Message(msg) => match msg {
                PeerMessage::Request { index, begin: _, length: _ } => {
                    match self.assignments.get(index) {
                        Some(a) => {
                            if *a != addr {
                                SuperSeedEvent::Block(*index)
                            } else {
                                SuperSeedEvent::Ignored
                            }
                        },
                        None => SuperSeedEvent::Ignored,
                    }
                },
                PeerMessage::Have(index) => {
                    let mine = match self.assignments.get(index) {
                        Some(a) => *a == addr,
                        None => false,
                    };
                    if mine {
                        self.unrevealed.remove(index);
                        self.assignments.remove(index);
                        assert(self.unrevealed@.dom() =~= self.assignments@.dom());
                        SuperSeedEvent::Reveal(*index)
                    } else {
                        SuperSeedEvent::Ignored
                    }
                },
                _ => SuperSeedEvent::Ignored,
            },
        }
    }

    /// Hide the assigned pieces in a bitfield that is about to be sent.
    pub fn mask_bitfield(&self, bf: &mut Vec<u8>)
        requires
            self.wf(),
        ensures
            final(bf)@.len() == old(bf)@.len(),
            forall|i: int|
                0 <= i < 8 * old(bf)@.len() ==> #[trigger] bit_at(final(bf)@, i) == (bit_at(
                    old(bf)@,
                    i,
                ) && !hidden(self@, i)),
    {
        let keys = self.unrevealed.keys();
        proof {
            self.unrevealed.lemma_order();
        }
        let ghost start = bf@;
        let mut k: usize = 0;
        while k < keys.len()
            invariant
                k <= keys@.len(),
                bf@.len() == start.len(),
                start == old(bf)@,
                forall|i: int|
                    0 <= i < 8 * start.len() ==> #[trigger] bit_at(bf@, i) == (bit_at(start, i)
                        && !listed(keys@.take(k as int), i)),
            decreases keys@.len() - k,
        {
            let idx: u32 = keys[k];
            let byte: usize = (idx / 8) as usize;
            let bit: u8 = (7 - (idx % 8)) as u8;
            let ghost before = bf@;
            if byte < bf.len() {
                let b: u8 = bf[byte];
                bf[byte] = b & !(1u8 << bit);
            }
            proof {
                assert forall|i: int| 0 <= i < 8 * start.len() implies #[trigger] bit_at(bf@, i) == (
                bit_at(start, i) && !listed(keys@.take(k + 1), i)) by {
                    assert(bit_at(before, i) == (bit_at(start, i) && !listed(
                        keys@.take(k as int),
                        i,
                    )));
                    lemma_listed_step(keys@, k as int, i);
                    let j = (7 - i % 8) as u8;
                    if i / 8 == byte {
                        let b = before[byte as int];
                        assert(((b & !(1u8 << bit)) & (1u8 << j) != 0) == (b & (1u8 << j) != 0 && j
                            != bit)) by (bit_vector)
                            requires
                                bit < 8,
                                j < 8,
                        ;
                    }
                }
            }
            k += 1;
        }
        proof {
            assert(keys@.take(k as int) =~= keys@);
            assert forall|i: int| 0 <= i < 8 * start.len() implies listed(keys@, i) == hidden(
                self@,
                i,
            ) by {
                if 0 <= i <= u32::MAX {
                    if keys@.contains(i as u32) {
                        let m = choose|m: int| 0 <= m < keys@.len() && keys@[m] == i as u32;
                    }
                }
                if listed(keys@, i) {
                    let m = choose|m: int| 0 <= m < keys@.len() && #[trigger] keys@[m] == i;
                    assert(keys@.contains(keys@[m]));
                }
            }
            assert forall|i: int| 0 <= i < 8 * start.len() implies #[trigger] bit_at(bf@, i) == (
            bit_at(start, i) && !hidden(self@, i)) by {}
        }
    }
}

/// Whether piece `i` is hidden from everybody but its peer.
pub open spec fn hidden(m: Map<u32, PeerAddr>, i: int) -> bool {
    0 <= i <= u32::MAX && m.contains_key(i as u32)
}

spec fn listed(keys: Seq<u32>, i: int) -> bool {
    exists|m: int| 0 <= m < keys.len() && #[trigger] keys[m] == i
}

proof fn lemma_listed_step(keys: Seq<u32>, k: int, i: int)
    requires
        0 <= k < keys.len(),
    ensures
        listed(keys.take(k + 1), i) <==> listed(keys.take(k), i) || keys[k] == i,
{
    let t = keys.take(k + 1);
    let u = keys.take(k);
    if listed(t, i) {
        let m = choose|m: int| 0 <= m < t.len() && #[trigger] t[m] == i;
    }
    if listed(u, i) {
        let m = choose|m: int| 0 <= m < u.len() && #[trigger] u[m] == i;
    }
    if keys[k] == i {
        assert(t[k] == i);
    }
}

/// A selection keeps every assignment, adds at most one, and never gives a
/// second piece to a peer.
pub proof fn law_select_exclusive(
    m: Map<u32, PeerAddr>,
    have: Seq<bool>,
    peers: Map<PeerAddr, PeerView>,
    order: Seq<PeerAddr>,
    candidates: Seq<PeerAddr>,
)
    requires
        exclusive(m),
        have.len() <= 0x1_0000_0000,
    ensures
        ({
            let n = after_select(m, have, peers, order, candidates);
            &&& exclusive(n)
            &&& forall|i: u32| #[trigger] m.contains_key(i) ==> n.contains_key(i) && n[i] == m[i]
        }),
{
    let pieces = assignable_pieces(have, peers, order, m);
    crate::seqs::lemma_first_where(pieces, |b: bool| b);
    crate::seqs::lemma_first_where(candidates, unassigned_in(m));
    let i = first_where(pieces, |b: bool| b);
    let t = first_where(candidates, unassigned_in(m));
    if i < pieces.len() && t < candidates.len() {
        assert(unassigned_in(m)(candidates[t]));
    }
}

/// A peer that reads the masked bitfield sees every piece but the hidden ones.
pub proof fn law_masked_bitfield(m: Map<u32, PeerAddr>, sent: Seq<u8>, own: Seq<u8>, n: nat)
    requires
        sent.len() == own.len(),
        forall|i: int|
            0 <= i < 8 * own.len() ==> #[trigger] bit_at(sent, i) == (bit_at(own, i) && !hidden(
                m,
                i,
            )),
    ensures
        bits_of(sent, n) == Seq::new(n, |i: int| bits_of(own, n)[i] && !hidden(m, i)),
{
    let r = Seq::new(n, |i: int| bits_of(own, n)[i] && !hidden(m, i));
    assert forall|i: int| 0 <= i < n implies bits_of(sent, n)[i] == r[i] by {}
    assert(bits_of(sent, n) =~= r);
}

/// A piece that was revealed by its peer is hidden no more, and the others stay
/// as they were.
pub proof fn law_reveal(m: Map<u32, PeerAddr>, index: u32, i: int)
    ensures
        !hidden(m.remove(index), index as int),
        i != index ==> hidden(m.remove(index), i) == hidden(m, i),
{
}

/// Nobody is counted for a piece exactly when no peer of the table holds it.
proof fn lemma_held_by_nobody(
    peers: Map<PeerAddr, PeerView>,
    order: Seq<PeerAddr>,
    i: int,
)
    requires
        forall|a: PeerAddr| #[trigger] peers.contains_key(a) <==> order.contains(a),
    ensures
        holders(peers, order, i, false) == 0 <==> forall|a: PeerAddr| #[trigger]
            peers.contains_key(a) ==> !(i < peers[a].bitfield.len() && peers[a].bitfield[i]),
{
    let unchoked_only = false;
    let f = |a: PeerAddr| offers_piece(peers[a], i, unchoked_only);
    crate::seqs::lemma_count_where(order, f);
    if holders(peers, order, i, false) == 0 {
        assert forall|a: PeerAddr| #[trigger] peers.contains_key(a) implies !(i
            < peers[a].bitfield.len() && peers[a].bitfield[i]) by {
            let k = choose|k: int| 0 <= k < order.len() && order[k] == a;
            assert(!f(order[k]));
        }
    } else {
        let k = choose|k: int| 0 <= k < order.len() && f(#[trigger] order[k]);
        assert(order.contains(order[k]));
        assert(peers.contains_key(order[k]));
    }
}

/// Whatever a selection adds is one piece that we hold, that no peer holds and
/// that was not handed out, and it goes to a peer that is interested, that we
/// unchoked and that had no piece.
pub proof fn law_selected(
    m: Map<u32, PeerAddr>,
    have: Seq<bool>,
    peers: Map<PeerAddr, PeerView>,
    order: Seq<PeerAddr>,
    unchoked: Set<PeerAddr>,
    i: u32,
    j: u32,
)
    requires
        forall|a: PeerAddr| #[trigger] peers.contains_key(a) <==> order.contains(a),
        have.len() <= 0x1_0000_0000,
    ensures
        ({
            let n = after_select(
                m,
                have,
                peers,
                order,
                order.filter(served_peers(peers, unchoked)),
            );
            let new = |k: u32| n.contains_key(k) && !m.contains_key(k);
            &&& m.contains_key(i) ==> n.contains_key(i) && n[i] == m[i]
            &&& new(i) && new(j) ==> i == j
            &&& new(i) ==> {
                &&& i < have.len()
                &&& have[i as int]
                &&& forall|a: PeerAddr| #[trigger]
                    peers.contains_key(a) ==> !(i < peers[a].bitfield.len()
                        && peers[a].bitfield[i as int])
                &&& peers.contains_key(n[i])
                &&& peers[n[i]].peer_interested
                &&& unchoked.contains(n[i])
                &&& forall|k: u32| #[trigger] m.contains_key(k) ==> m[k] != n[i]
            }
        }),
{
    let candidates = order.filter(served_peers(peers, unchoked));
    let pieces = assignable_pieces(have, peers, order, m);
    let yes = |b: bool| b;
    crate::seqs::lemma_first_where(pieces, yes);
    crate::seqs::lemma_first_where(candidates, unassigned_in(m));
    crate::seqs::lemma_filtered(order, served_peers(peers, unchoked));
    let p = first_where(pieces, yes);
    let t = first_where(candidates, unassigned_in(m));
    if p < pieces.len() && t < candidates.len() {
        assert(yes(pieces[p]));
        assert(unassigned_in(m)(candidates[t]));
        assert(candidates.contains(candidates[t]));
        lemma_held_by_nobody(peers, order, p);
    }
}

/// As long as there is a piece to hand out and a peer to give it to, a selection
/// hands one out: the lowest such piece.
pub proof fn law_selects(
    m: Map<u32, PeerAddr>,
    have: Seq<bool>,
    peers: Map<PeerAddr, PeerView>,
    order: Seq<PeerAddr>,
    unchoked: Set<PeerAddr>,
    i: u32,
    a: PeerAddr,
) -> (k: u32)
    requires
        forall|x: PeerAddr| #[trigger] peers.contains_key(x) <==> order.contains(x),
        have.len() <= 0x1_0000_0000,
        i < have.len(),
        have[i as int],
        !m.contains_key(i),
        forall|x: PeerAddr| #[trigger]
            peers.contains_key(x) ==> !(i < peers[x].bitfield.len() && peers[x].bitfield[i as int]),
        peers.contains_key(a),
        peers[a].peer_interested,
        unchoked.contains(a),
        forall|j: u32| #[trigger] m.contains_key(j) ==> m[j] != a,
    ensures
        k <= i,
        !m.contains_key(k),
        after_select(
            m,
            have,
            peers,
            order,
            order.filter(served_peers(peers, unchoked)),
        ).contains_key(k),
{
    let candidates = order.filter(served_peers(peers, unchoked));
    let pieces = assignable_pieces(have, peers, order, m);
    let yes = |b: bool| b;
    crate::seqs::lemma_first_where(pieces, yes);
    crate::seqs::lemma_first_where(candidates, unassigned_in(m));
    crate::seqs::lemma_filtered(order, served_peers(peers, unchoked));
    lemma_held_by_nobody(peers, order, i as int);
    assert(yes(pieces[i as int]));
    assert(candidates.contains(a));
    let t = choose|t: int| 0 <= t < candidates.len() && candidates[t] == a;
    assert(unassigned_in(m)(candidates[t]));
    let p = first_where(pieces, yes);
    assert(yes(pieces[p]));
    p as u32
}

/// When a peer leaves, nothing stays hidden for it, and what is hidden for the
/// others stays hidden.
pub proof fn law_peer_leaves(m: Map<u32, PeerAddr>, addr: PeerAddr, i: u32)
    ensures
        without_peer(m, addr).contains_key(i) ==> m.contains_key(i) && without_peer(m, addr)[i]
            == m[i] && m[i] != addr,
        m.contains_key(i) && m[i] != addr ==> without_peer(m, addr).contains_key(i),
        m.contains_key(i) && m[i] == addr ==> !hidden(without_peer(m, addr), i as int),
        hidden(m, i as int) <==> m.contains_key(i),
{
}

/// A piece that was handed to one peer is refused to every other until that peer
/// says that it has it: then it is revealed, and nobody is refused it any more. That
/// another peer has it reveals nothing. If the peer leaves before, the piece is free
/// to be handed out again; if another leaves, it is not.
pub proof fn law_hidden_until_confirmed(
    m: Map<u32, PeerAddr>,
    index: u32,
    other: PeerAddr,
    begin: u32,
    length: u32,
)
    requires
        m.contains_key(index),
        other != m[index],
    ensures
        ({
            let holder = m[index];
            let asks = PeerEvent::Message(PeerMessage::Request { index, begin, length });
            let has = PeerEvent::Message(PeerMessage::Have(index));
            let (confirmed, told) = after_event(m, holder, has);
            &&& after_event(m, other, asks) == (m, SuperSeedEvent::Block(index))
            &&& after_event(m, holder, asks) == (m, SuperSeedEvent::Ignored)
            &&& after_event(m, other, has) == (m, SuperSeedEvent::Ignored)
            &&& told == SuperSeedEvent::Reveal(index)
            &&& after_event(confirmed, other, asks).1 == SuperSeedEvent::Ignored
            &&& forall|i: u32|
                i != index ==> #[trigger] confirmed.contains_key(i) == m.contains_key(i)
                    && confirmed[i] == m[i]
            &&& !after_event(m, holder, PeerEvent::Disconnected).0.contains_key(index)
            &&& after_event(m, other, PeerEvent::Disconnected).0.contains_key(index)
            &&& after_event(m, other, PeerEvent::Disconnected).0[index] == holder
        }),
{
}

/// Nothing is refused of a piece that is not hidden, and other messages than
/// requests and confirmations change nothing.
pub proof fn law_unaffected(
    m: Map<u32, PeerAddr>,
    addr: PeerAddr,
    index: u32,
    begin: u32,
    length: u32,
    msg: PeerMessage,
)
    requires
        !m.contains_key(index),
        !(msg is Request),
        !(msg is Have),
    ensures
        after_event(m, addr, PeerEvent::Message(PeerMessage::Request { index, begin, length })) == (
            m,
            SuperSeedEvent::Ignored,
        ),
        after_event(m, addr, PeerEvent::Message(PeerMessage::Have(index))) == (
            m,
            SuperSeedEvent::Ignored,
        ),
        after_event(m, addr, PeerEvent::Message(msg)) == (m, SuperSeedEvent::Ignored),
{
}

} // verus!
