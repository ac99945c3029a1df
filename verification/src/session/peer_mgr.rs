//! Peer connections of one torrent: pending queue, backoff and live connections.

use crate::addr::PeerAddr;
use crate::collections::VecMap;
use crate::error::Error;
use crate::session::uni_deque::UniDeque;
use crate::time::Nanos;
use crate::seqs::{lemma_contains_last, lemma_push_contains};
use vstd::prelude::*;

verus! {

/// A peer's identity on the wire.
pub type PeerId = [u8; 20];

/// Per-peer backoff state tracking connection retries.
#[derive(Clone, Copy, Debug, PartialEq, Eq, Structural)]
pub struct BackoffState {
    /// Failed attempts counted so far.
    pub attempts: u32,
    /// Before this time the peer is not tried again.
    pub cooldown_until: Nanos,
}

impl BackoffState {
    /// The state of a peer that has just failed for the first time.
    pub fn new(cooldown: Nanos, now: Nanos) -> (s: BackoffState)
        requires
            now + cooldown <= u64::MAX,
        ensures
            s == (BackoffState { attempts: 0, cooldown_until: (now + cooldown) as u64 }),
    {
        BackoffState { attempts: 0, cooldown_until: now + cooldown }
    }

    /// Count one more failed attempt and start a new cooldown.
    pub fn increment(&mut self, cooldown: Nanos, now: Nanos)
        requires
            now + cooldown <= u64::MAX,
            old(self).attempts < u32::MAX,
        ensures
            *final(self) == (BackoffState {
                attempts: (old(self).attempts + 1) as u32,
                cooldown_until: (now + cooldown) as u64,
            }),
    {
        self.attempts = self.attempts + 1;
        self.cooldown_until = now + cooldown;
    }
}

/// What a connection manager knows: live connections, addresses waiting to be
/// tried (front first) and the peers that failed lately.
#[verifier::ext_equal]
pub struct PeerTable<C> {
    pub connections: Map<PeerAddr, C>,
    pub pending: Seq<PeerAddr>,
    pub backoff: Map<PeerAddr, BackoffState>,
}

/// The queue after `addr` was offered to it: nothing is queued twice.
pub open spec fn enqueue(pending: Seq<PeerAddr>, addr: PeerAddr) -> Seq<PeerAddr> {
    if pending.contains(addr) {
        pending
    } else {
        pending.push(addr)
    }
}

/// The queue after every address that is not excluded was offered to it, in order.
pub open spec fn enqueue_all(
    pending: Seq<PeerAddr>,
    addrs: Seq<PeerAddr>,
    excluded: Set<PeerAddr>,
) -> Seq<PeerAddr>
    decreases addrs.len(),
{
    if addrs.len() == 0 {
        pending
    } else {
        let before = enqueue_all(pending, addrs.drop_last(), excluded);
        if excluded.contains(addrs.last()) {
            before
        } else {
            enqueue(before, addrs.last())
        }
    }
}

/// Whether the peer failed lately and is not to be tried at `now`.
pub open spec fn is_cooling(
    backoff: Map<PeerAddr, BackoffState>,
    now: Nanos,
    addr: PeerAddr,
) -> bool {
    backoff.contains_key(addr) && backoff[addr].cooldown_until > now
}

/// The backoff state of a peer before the failure that is being counted.
pub open spec fn prior_backoff(
    backoff: Map<PeerAddr, BackoffState>,
    addr: PeerAddr,
    fresh: BackoffState,
) -> BackoffState {
    if backoff.contains_key(addr) {
        backoff[addr]
    } else {
        fresh
    }
}

/// The table after one connection attempt: a success is connected and its
/// backoff forgotten; a failure is queued again with a new cooldown, or
/// dropped once it has failed `max_retries` times.
pub open spec fn after_outcome<C>(
    t: PeerTable<C>,
    addr: PeerAddr,
    result: Result<C, Error>,
    max_retries: u32,
    fresh: BackoffState,
) -> PeerTable<C> {
    match result {
        Ok(conn) => PeerTable {
            connections: t.connections.insert(addr, conn),
            pending: t.pending,
            backoff: t.backoff.remove(addr),
        },
        Err(_) => {
            let prior = prior_backoff(t.backoff, addr, fresh);
            if prior.attempts < max_retries {
                PeerTable {
                    connections: t.connections,
                    pending: enqueue(t.pending, addr),
                    backoff: t.backoff.insert(
                        addr,
                        BackoffState {
                            attempts: (prior.attempts + 1) as u32,
                            cooldown_until: fresh.cooldown_until,
                        },
                    ),
                }
            } else {
                PeerTable { backoff: t.backoff.remove(addr), ..t }
            }
        },
    }
}

/// The table after a series of connection attempts.
pub open spec fn after_outcomes<C>(
    t: PeerTable<C>,
    outcomes: Seq<(PeerAddr, Result<C, Error>)>,
    max_retries: u32,
    fresh: BackoffState,
) -> PeerTable<C>
    decreases outcomes.len(),
{
    if outcomes.len() == 0 {
        t
    } else {
        after_outcome(
            after_outcomes(t, outcomes.drop_last(), max_retries, fresh),
            outcomes.last().0,
            outcomes.last().1,
            max_retries,
            fresh,
        )
    }
}

/// The addresses of the successful attempts, in order.
pub open spec fn successes<C>(outcomes: Seq<(PeerAddr, Result<C, Error>)>) -> Seq<PeerAddr>
    decreases outcomes.len(),
{
    if outcomes.len() == 0 {
        Seq::empty()
    } else if outcomes.last().1 is Ok {
        successes(outcomes.drop_last()).push(outcomes.last().0)
    } else {
        successes(outcomes.drop_last())
    }
}

/// The addresses that were attempted.
pub open spec fn attempted<C>(outcomes: Seq<(PeerAddr, Result<C, Error>)>) -> Set<PeerAddr> {
    Set::new(|a: PeerAddr| exists|i: int| 0 <= i < outcomes.len() && (#[trigger] outcomes[i]).0 == a)
}

/// The number of connection attempts that may start now.
pub open spec fn free_slots(max_connections: u32, connections: int) -> int {
    if connections < max_connections {
        max_connections - connections
    } else {
        0
    }
}

/// Manages peer connections for a single torrent.
///
/// `C` is the handle of a live connection.
pub struct PeerManager<C> {
    peer_id: PeerId,
    info_hash: [u8; 20],
    connections: VecMap<PeerAddr, C>,
    pending: UniDeque<PeerAddr>,
    max_connections: u32,
    backoff: VecMap<PeerAddr, BackoffState>,
    connect_timeout: Nanos,
    max_retries: u32,
    cooldown: Nanos,
}

/// The peers among the first `n` of the queue that are ready.
pub open spec fn ready_among<C>(t: PeerTable<C>, n: int, now: Nanos) -> Seq<PeerAddr> {
    t.pending.take(n).filter(|a: PeerAddr| !is_cooling(t.backoff, now, a))
}

/// The table after the peers that are ready among the first `n` of the queue
/// left it: those in cooldown go to the end.
pub open spec fn after_drain<C>(t: PeerTable<C>, n: int, now: Nanos) -> PeerTable<C> {
    PeerTable {
        pending: t.pending.skip(n) + t.pending.take(n).filter(
            |a: PeerAddr| is_cooling(t.backoff, now, a),
        ),
        ..t
    }
}

/// Whether a batch was drained: the peers among the first of the queue that are
/// ready, as many as there are free slots; those in cooldown go to the end.
pub open spec fn is_batch<C>(
    before: PeerManager<C>,
    after: PeerTable<C>,
    now: Nanos,
    batch: Seq<PeerAddr>,
) -> bool {
    let free = free_slots(
        before.spec_max_connections(),
        before.connection_order().len() as int,
    );
    let n = vstd::math::min(free, before@.pending.len() as int);
    &&& batch == ready_among(before@, n, now)
    &&& after == after_drain(before@, n, now)
}

/// The table after the attempts to connect to a batch of peers: the results are
/// applied, and the peers without a result are queued again.
pub open spec fn after_batch<C>(
    before: PeerManager<C>,
    outcomes: Seq<(PeerAddr, Result<C, Error>)>,
    batch: Seq<PeerAddr>,
    now: Nanos,
) -> PeerTable<C> {
    let fresh = BackoffState {
        attempts: 0,
        cooldown_until: (now + before.spec_cooldown()) as u64,
    };
    let t = after_outcomes(before@, outcomes, before.spec_max_retries(), fresh);
    PeerTable { pending: enqueue_all(t.pending, batch, attempted(outcomes)), ..t }
}

impl<C> View for PeerManager<C> {
    type V = PeerTable<C>;

    closed spec fn view(&self) -> PeerTable<C> {
        PeerTable {
            connections: self.connections@,
            pending: self.pending@,
            backoff: self.backoff@,
        }
    }
}

impl<C> PeerManager<C> {
    /// Keys are unique and nothing is queued twice.
    pub closed spec fn wf(&self) -> bool {
        &&& self.connections.wf()
        &&& self.pending.wf()
        &&& self.backoff.wf()
    }

    /// The connected addresses, oldest first.
    pub closed spec fn connection_order(&self) -> Seq<PeerAddr> {
        self.connections.order()
    }

    /// The limit on connections.
    pub closed spec fn spec_max_connections(&self) -> u32 {
        self.max_connections
    }

    /// The number of failures after which a peer is dropped.
    pub closed spec fn spec_max_retries(&self) -> u32 {
        self.max_retries
    }

    /// The time a failed peer is left alone.
    pub closed spec fn spec_cooldown(&self) -> Nanos {
        self.cooldown
    }

    /// The time a connection attempt may take.
    pub closed spec fn spec_connect_timeout(&self) -> Nanos {
        self.connect_timeout
    }

    /// The torrent, as contracts speak of it.
    pub closed spec fn spec_info_hash(&self) -> [u8; 20] {
        self.info_hash
    }

    /// Our own ID, as contracts speak of it.
    pub closed spec fn spec_peer_id(&self) -> PeerId {
        self.peer_id
    }

    /// The identities, limits and times are those of `other`.
    pub closed spec fn same_settings(&self, other: &PeerManager<C>) -> bool {
        &&& self.peer_id == other.peer_id
        &&& self.info_hash == other.info_hash
        &&& self.max_connections == other.max_connections
        &&& self.connect_timeout == other.connect_timeout
        &&& self.max_retries == other.max_retries
        &&& self.cooldown == other.cooldown
    }

    /// Settings that were kept twice are kept.
    pub proof fn lemma_same_settings(&self, b: &PeerManager<C>, c: &PeerManager<C>)
        requires
            self.same_settings(b),
            b.same_settings(c),
        ensures
            self.same_settings(c),
    {
    }

    /// What a well-formed manager guarantees of its view.
    pub proof fn lemma_wf(&self)
        requires
            self.wf(),
        ensures
            self@.pending.no_duplicates(),
            self.connection_order().no_duplicates(),
            self.connection_order().to_set() == self@.connections.dom(),
            self@.connections.dom().finite(),
            self@.connections.dom().len() == self.connection_order().len(),
            forall|o: &PeerManager<C>| #[trigger]
                self.same_settings(o) ==> self.spec_max_connections() == o.spec_max_connections()
                    && self.spec_max_retries() == o.spec_max_retries() && self.spec_cooldown()
                    == o.spec_cooldown() && self.spec_connect_timeout() == o.spec_connect_timeout()
                    && self.spec_info_hash() == o.spec_info_hash() && self.spec_peer_id()
                    == o.spec_peer_id(),
    {
        self.connections.lemma_order();
    }

    /// Create a manager without peers.
    pub fn new(
        info_hash: [u8; 20],
        peer_id: PeerId,
        max_connections: u32,
        connect_timeout: Nanos,
        max_retries: u32,
        cooldown: Nanos,
    ) -> (pm: PeerManager<C>)
        ensures
            pm.wf(),
            pm@ == (PeerTable::<C> {
                connections: Map::empty(),
                pending: Seq::empty(),
                backoff: Map::empty(),
            }),
            pm.connection_order() == Seq::<PeerAddr>::empty(),
            pm.spec_max_connections() == max_connections,
            pm.spec_connect_timeout() == connect_timeout,
            pm.spec_max_retries() == max_retries,
            pm.spec_cooldown() == cooldown,
            pm.spec_info_hash() == info_hash,
            pm.spec_peer_id() == peer_id,
    {
        PeerManager {
            peer_id,
            info_hash,
            connections: VecMap::new(),
            pending: UniDeque::new(),
            max_connections,
            backoff: VecMap::new(),
            connect_timeout,
            max_retries,
            cooldown,
        }
    }

    /// Add peers from a tracker or DHT announce.
    ///
    /// Skips addresses already connected; what is already queued keeps its place.
    pub fn add_peers(&mut self, addrs: Vec<PeerAddr>)
        requires
            old(self).wf(),
        ensures
            final(self).wf(),
            final(self).same_settings(old(self)),
            final(self).connection_order() == old(self).connection_order(),
            final(self)@ == (PeerTable {
                pending: enqueue_all(
                    old(self)@.pending,
                    addrs@,
                    old(self)@.connections.dom(),
                ),
                ..old(self)@
            }),
    {
        let mut i: usize = 0;
        assert(addrs@.take(0) =~= Seq::<PeerAddr>::empty());
        while i < addrs.len()
            invariant
                i <= addrs@.len(),
                self.wf(),
                self.same_settings(old(self)),
                self.connections == old(self).connections,
                self.backoff == old(self).backoff,
                self.pending@ == enqueue_all(
                    old(self).pending@,
                    addrs@.take(i as int),
                    old(self).connections@.dom(),
                ),
            decreases addrs@.len() - i,
        {
            let addr = addrs[i];
            assert(addrs@.take(i + 1).drop_last() =~= addrs@.take(i as int));
            if !self.connections.contains_key(&addr) {
                self.pending.push_unique(addr);
            }
            i += 1;
        }
        assert(addrs@.take(i as int) =~= addrs@);
    }

    /// Close the connection of a peer; its backoff state stays.
    pub fn disconnect(&mut self, addr: &PeerAddr)
        requires
            old(self).wf(),
        ensures
            final(self).wf(),
            final(self).same_settings(old(self)),
            final(self)@ == (PeerTable {
                connections: old(self)@.connections.remove(*addr),
                ..old(self)@
            }),
    {
        self.connections.remove(addr);
    }

    /// Remove a peer: its connection and its backoff state.
    pub fn remove_peer(&mut self, addr: &PeerAddr)
        requires
            old(self).wf(),
        ensures
            final(self).wf(),
            final(self).same_settings(old(self)),
            final(self)@ == (PeerTable {
                connections: old(self)@.connections.remove(*addr),
                backoff: old(self)@.backoff.remove(*addr),
                ..old(self)@
            }),
    {
        self.connections.remove(addr);
        self.backoff.remove(addr);
    }

    /// Get the number of active connections.
    pub fn num_connections(&self) -> (n: usize)
        requires
            self.wf(),
        ensures
            n == self@.connections.dom().len(),
            n == self.connection_order().len(),
    {
        self.connections.len()
    }

    /// Drain a batch of pending peers for connection attempts.
    ///
    /// Takes as many addresses from the front of the queue as there are free
    /// slots. Peers still in cooldown go back to the end of the queue.
    pub fn drain_pending_batch(&mut self, now: Nanos) -> (batch: Vec<PeerAddr>)
        requires
            old(self).wf(),
        ensures
            final(self).wf(),
            final(self).same_settings(old(self)),
            final(self).connection_order() == old(self).connection_order(),
            is_batch(*old(self), final(self)@, now, batch@),
    {
        let connected: usize = self.connections.len();
        let slots: u64 = self.max_connections as u64;
        let batch_size: usize = if (connected as u64) < slots {
            (slots - connected as u64) as usize
        } else {
            0
        };
        let ghost pending = self.pending@;
        let raw = self.pending.drain_first_n(batch_size);
        let ghost n = raw@.len() as int;
        let ghost cooling = |a: PeerAddr| is_cooling(old(self)@.backoff, now, a);
        let ghost ready = |a: PeerAddr| !is_cooling(old(self)@.backoff, now, a);
        proof {
            crate::session::uni_deque::law_drain_re_enqueue(pending, n);
            assert(raw@.take(0).filter(ready) =~= Seq::<PeerAddr>::empty()) by {
                reveal(Seq::filter);
            }
            assert(raw@.take(0).filter(cooling) =~= Seq::<PeerAddr>::empty()) by {
                reveal(Seq::filter);
            }
        }
        let mut batch: Vec<PeerAddr> = Vec::new();
        let mut i: usize = 0;
        while i < raw.len()
            invariant
                i <= raw@.len(),
                self.wf(),
                self.same_settings(old(self)),
                self.connections == old(self).connections,
                self.backoff == old(self).backoff,
                old(self)@.backoff == old(self).backoff@,
                raw@.no_duplicates(),
                forall|a: PeerAddr| raw@.contains(a) ==> !pending.skip(n).contains(a),
                cooling == (|a: PeerAddr| is_cooling(old(self)@.backoff, now, a)),
                ready == (|a: PeerAddr| !is_cooling(old(self)@.backoff, now, a)),
                batch@ == raw@.take(i as int).filter(ready),
                self.pending@ == pending.skip(n) + raw@.take(i as int).filter(cooling),
            decreases raw@.len() - i,
        {
            let addr = raw[i];
            proof {
                let t = raw@.take(i + 1);
                assert(t.drop_last() =~= raw@.take(i as int));
                reveal(Seq::filter);
                assert(raw@.contains(addr));
                let kept = raw@.take(i as int).filter(cooling);
                if kept.contains(addr) {
                    raw@.take(i as int).lemma_filter_contains_rev(cooling, addr);
                    let j = choose|j: int| 0 <= j < i && raw@.take(i as int)[j] == addr;
                }
                assert(!self.pending@.contains(addr)) by {
                    if self.pending@.contains(addr) {
                        let j = choose|j: int| 0 <= j < self.pending@.len() && self.pending@[j] == addr;
                    }
                }
            }
            let is_cool = match self.backoff.get(&addr) {
                Some(state) => state.cooldown_until > now,
                None => false,
            };
            if is_cool {
                self.pending.push_unique(addr);
            } else {
                batch.push(addr);
            }
            proof {
                let kept = raw@.take(i as int).filter(cooling);
                assert(pending.skip(n) + kept.push(addr) =~= (pending.skip(n) + kept).push(addr));
            }
            i += 1;
        }
        proof {
            assert(raw@.take(i as int) =~= raw@);
            assert(raw@ =~= pending.take(n));
            assert(self@ =~= (PeerTable {
                pending: pending.skip(n) + pending.take(n).filter(cooling),
                ..old(self)@
            }));
        }
        batch
    }

    /// Return the configured limit on connections.
    pub fn max_connections(&self) -> (n: u32)
        ensures
            n == self.spec_max_connections(),
    {
        self.max_connections
    }

    /// The torrent whose peers these are.
    pub fn info_hash(&self) -> (h: [u8; 20])
        ensures
            h == self.spec_info_hash(),
    {
        self.info_hash
    }

    /// Our own ID: what connection attempts are made with.
    pub fn peer_id(&self) -> (id: PeerId)
        ensures
            id == self.spec_peer_id(),
    {
        self.peer_id
    }

    /// Return the configured connect timeout.
    pub fn connect_timeout(&self) -> (t: Nanos)
        ensures
            t == self.spec_connect_timeout(),
    {
        self.connect_timeout
    }

    /// Apply the results of a batch of connection attempts.
    ///
    /// Addresses of `batch` without a result timed out and are queued again.
    /// Returns the newly connected addresses.
    pub fn apply_connect_results(
        &mut self,
        outcomes: Vec<(PeerAddr, Result<C, Error>)>,
        batch: &[PeerAddr],
        now: Nanos,
    ) -> (connected: Vec<PeerAddr>)
        requires
            old(self).wf(),
            now + old(self).spec_cooldown() <= u64::MAX,
        ensures
            final(self).wf(),
            final(self).same_settings(old(self)),
            connected@ == successes(outcomes@),
            final(self)@ == after_batch(*old(self), outcomes@, batch@, now),
    {
        let ghost fresh = BackoffState {
            attempts: 0,
            cooldown_until: (now + old(self).spec_cooldown()) as u64,
        };
        let ghost all = outcomes@;
        let max_retries: u32 = self.max_retries;
        let cooldown: Nanos = self.cooldown;
        let mut processed: VecMap<PeerAddr, ()> = VecMap::new();
        let mut connected: Vec<PeerAddr> = Vec::new();
        assert(all.take(0) =~= Seq::<(PeerAddr, Result<C, Error>)>::empty());
        for outcome in it: outcomes
            invariant
                it.seq() == all,
                self.wf(),
                processed.wf(),
                self.same_settings(old(self)),
                max_retries == old(self).max_retries,
                cooldown == old(self).cooldown,
                now + cooldown <= u64::MAX,
                fresh == (BackoffState { attempts: 0, cooldown_until: (now + cooldown) as u64 }),
                connected@ == successes(all.take(it.index() as int)),
                processed@.dom() == attempted(all.take(it.index() as int)),
                self@ == after_outcomes(
                    old(self)@,
                    all.take(it.index() as int),
                    max_retries,
                    fresh,
                ),
        {
            let ghost i = it.index() as int;
            let ghost t = self@;
            proof {
                assert(all.take(i + 1).drop_last() =~= all.take(i));
            }
            let (addr, result) = outcome;
            processed.insert(addr, ());
            proof {
                lemma_attempted_push(all.take(i), outcome);
                assert(all.take(i).push(outcome) =~= all.take(i + 1));
                assert(processed@.dom() =~= attempted(all.take(i + 1)));
            }
            match result {
                Ok(conn) => {
                    self.connections.insert(addr, conn);
                    self.backoff.remove(&addr);
                    connected.push(addr);
                },
                Err(_) => {
                    let mut state = match self.backoff.get(&addr) {
                        Some(s) => *s,
                        None => BackoffState::new(cooldown, now),
                    };
                    if state.attempts < max_retries {
                        state.increment(cooldown, now);
                        self.backoff.insert(addr, state);
                        self.pending.push_unique(addr);
                    } else {
                        self.backoff.remove(&addr);
                    }
                },
            }
            assert(self@ =~= after_outcome(t, addr, result, max_retries, fresh));
        }
        assert(all.take(all.len() as int) =~= all);
        let ghost t = self@;
        let mut i: usize = 0;
        assert(batch@.take(0) =~= Seq::<PeerAddr>::empty());
        while i < batch.len()
            invariant
                i <= batch@.len(),
                self.wf(),
                processed.wf(),
                self.same_settings(old(self)),
                processed@.dom() == attempted(all),
                self@ == (PeerTable {
                    pending: enqueue_all(t.pending, batch@.take(i as int), attempted(all)),
                    ..t
                }),
            decreases batch@.len() - i,
        {
            let addr = batch[i];
            assert(batch@.take(i + 1).drop_last() =~= batch@.take(i as int));
            if !processed.contains_key(&addr) {
                self.pending.push_unique(addr);
            }
            i += 1;
        }
        assert(batch@.take(i as int) =~= batch@);
        connected
    }

    /// Get the connection of a peer.
    pub fn connection(&self, addr: &PeerAddr) -> (r: Option<&C>)
        requires
            self.wf(),
        ensures
            match r {
                Some(c) => self@.connections.contains_key(*addr) && *c == self@.connections[*addr],
                None => !self@.connections.contains_key(*addr),
            },
    {
        self.connections.get(addr)
    }

    /// Get all connected peer addresses.
    pub fn connection_addrs(&self) -> (r: Vec<PeerAddr>)
        requires
            self.wf(),
        ensures
            r@ == self.connection_order(),
            r@.no_duplicates(),
            r@.to_set() == self@.connections.dom(),
    {
        proof {
            self.lemma_wf();
        }
        self.connections.keys()
    }
}

proof fn lemma_attempted_push<C>(
    s: Seq<(PeerAddr, Result<C, Error>)>,
    o: (PeerAddr, Result<C, Error>),
)
    ensures
        attempted(s.push(o)) == attempted(s).insert(o.0),
{
    let p = s.push(o);
    assert forall|a: PeerAddr| attempted(p).contains(a) <==> attempted(s).insert(o.0).contains(a) by {
        if attempted(p).contains(a) {
            let i = choose|i: int| 0 <= i < p.len() && (#[trigger] p[i]).0 == a;
        }
        if attempted(s).contains(a) {
            let i = choose|i: int| 0 <= i < s.len() && (#[trigger] s[i]).0 == a;
            assert(p[i].0 == a);
        }
        if a == o.0 {
            assert(p[s.len() as int].0 == a);
        }
    }
    assert(attempted(p) =~= attempted(s).insert(o.0));
}

/// Applying results never drops a live connection, and adds at most one per result.
pub proof fn law_connections_grow<C>(
    t: PeerTable<C>,
    outcomes: Seq<(PeerAddr, Result<C, Error>)>,
    max_retries: u32,
    fresh: BackoffState,
)
    requires
        t.connections.dom().finite(),
    ensures
        ({
            let u = after_outcomes(t, outcomes, max_retries, fresh);
            &&& t.connections.dom().subset_of(u.connections.dom())
            &&& u.connections.dom().finite()
            &&& u.connections.dom().len() <= t.connections.dom().len() + outcomes.len()
        }),
    decreases outcomes.len(),
{
    if outcomes.len() > 0 {
        law_connections_grow(t, outcomes.drop_last(), max_retries, fresh);
    }
}

/// A batch never overfills the manager: the results of attempts that fit into
/// the free slots leave at most `max_connections` connections, if there were no
/// more before.
pub proof fn law_capacity<C>(
    t: PeerTable<C>,
    outcomes: Seq<(PeerAddr, Result<C, Error>)>,
    max_connections: u32,
    max_retries: u32,
    fresh: BackoffState,
)
    requires
        t.connections.dom().finite(),
        t.connections.dom().len() <= max_connections,
        outcomes.len() <= free_slots(max_connections, t.connections.dom().len() as int),
    ensures
        after_outcomes(t, outcomes, max_retries, fresh).connections.dom().len() <= max_connections,
{
    law_connections_grow(t, outcomes, max_retries, fresh);
}

/// Offering addresses to the queue keeps what is queued, and queues every
/// address that is not excluded.
pub proof fn law_enqueue_all(
    pending: Seq<PeerAddr>,
    addrs: Seq<PeerAddr>,
    excluded: Set<PeerAddr>,
)
    ensures
        pending.is_prefix_of(enqueue_all(pending, addrs, excluded)),
        pending.no_duplicates() ==> enqueue_all(pending, addrs, excluded).no_duplicates(),
        forall|a: PeerAddr|
            #![trigger enqueue_all(pending, addrs, excluded).contains(a)]
            enqueue_all(pending, addrs, excluded).contains(a) <==> pending.contains(a) || (
            addrs.contains(a) && !excluded.contains(a)),
    decreases addrs.len(),
{
    if addrs.len() > 0 {
        let before = enqueue_all(pending, addrs.drop_last(), excluded);
        let after = enqueue_all(pending, addrs, excluded);
        let x = addrs.last();
        law_enqueue_all(pending, addrs.drop_last(), excluded);
        assert forall|a: PeerAddr| after.contains(a) <==> pending.contains(a) || (addrs.contains(a)
            && !excluded.contains(a)) by {
            lemma_contains_last(addrs, a);
            lemma_push_contains(before, x, a);
            assert(before.contains(a) <==> pending.contains(a) || (addrs.drop_last().contains(a)
                && !excluded.contains(a)));
        }
    } else {
        assert forall|a: PeerAddr| !addrs.contains(a) by {}
    }
}

/// No peer of a batch is lost: unless an attempt to reach it failed, it ends up
/// connected or back in the queue.
pub proof fn law_no_peer_lost<C>(
    t: PeerTable<C>,
    outcomes: Seq<(PeerAddr, Result<C, Error>)>,
    batch: Seq<PeerAddr>,
    max_retries: u32,
    fresh: BackoffState,
    a: PeerAddr,
)
    requires
        batch.contains(a),
        forall|i: int| 0 <= i < outcomes.len() && outcomes[i].0 == a ==> (#[trigger] outcomes[i]).1 is Ok,
    ensures
        ({
            let u = after_outcomes(t, outcomes, max_retries, fresh);
            u.connections.contains_key(a) || enqueue_all(
                u.pending,
                batch,
                attempted(outcomes),
            ).contains(a)
        }),
{
    let u = after_outcomes(t, outcomes, max_retries, fresh);
    law_enqueue_all(u.pending, batch, attempted(outcomes));
    if attempted(outcomes).contains(a) {
        let i = choose|i: int| 0 <= i < outcomes.len() && (#[trigger] outcomes[i]).0 == a;
        lemma_connected_stays(t, outcomes, max_retries, fresh, i);
    }
}

/// One round of connection attempts: the first `n` of the queue are drained at
/// `now`, and the outcomes are applied at `at`. Those of `requeued` without an
/// outcome are queued again.
pub struct Round<C> {
    /// The table before the round.
    pub before: PeerTable<C>,
    /// How many of the queue are looked at.
    pub n: int,
    /// When the queue is drained.
    pub now: Nanos,
    /// What became of the attempts.
    pub outcomes: Seq<(PeerAddr, Result<C, Error>)>,
    /// The peers that are queued again unless they have an outcome.
    pub requeued: Seq<PeerAddr>,
    /// When the outcomes are applied.
    pub at: Nanos,
}

impl<C> Round<C> {
    /// The table after the round.
    pub open spec fn after(self, max_retries: u32, cooldown: Nanos) -> PeerTable<C> {
        let fresh = BackoffState { attempts: 0, cooldown_until: (self.at + cooldown) as u64 };
        let t = after_outcomes(
            after_drain(self.before, self.n, self.now),
            self.outcomes,
            max_retries,
            fresh,
        );
        PeerTable {
            pending: enqueue_all(t.pending, self.requeued, attempted(self.outcomes)),
            ..t
        }
    }

    /// Whether the peer takes part in the round and fails, whatever becomes of
    /// the others.
    pub open spec fn fails(self, a: PeerAddr) -> bool {
        &&& self.before.pending.no_duplicates()
        &&& 0 <= self.n <= self.before.pending.len()
        &&& ready_among(self.before, self.n, self.now).contains(a)
        &&& fails_once(self.outcomes, a)
    }
}

/// Whether the outcomes hold one failure of the peer, and nothing else of it.
pub open spec fn fails_once<C>(
    outcomes: Seq<(PeerAddr, Result<C, Error>)>,
    a: PeerAddr,
) -> bool {
    exists|j: int|
        {
            &&& 0 <= j < outcomes.len()
            &&& (#[trigger] outcomes[j]).0 == a
            &&& outcomes[j].1 is Err
            &&& forall|i: int| 0 <= i < outcomes.len() && i != j ==> (#[trigger] outcomes[i]).0 != a
        }
}

/// The failures of a peer that are on record.
pub open spec fn failures<C>(t: PeerTable<C>, a: PeerAddr) -> int {
    if t.backoff.contains_key(a) {
        t.backoff[a].attempts as int
    } else {
        0
    }
}

/// What the outcomes of others leave alone of a peer, and that nothing is queued
/// twice.
proof fn lemma_untouched<C>(
    t: PeerTable<C>,
    outcomes: Seq<(PeerAddr, Result<C, Error>)>,
    max_retries: u32,
    fresh: BackoffState,
    a: PeerAddr,
)
    requires
        forall|i: int| 0 <= i < outcomes.len() ==> (#[trigger] outcomes[i]).0 != a,
    ensures
        ({
            let u = after_outcomes(t, outcomes, max_retries, fresh);
            &&& u.pending.contains(a) == t.pending.contains(a)
            &&& u.backoff.contains_key(a) == t.backoff.contains_key(a)
            &&& t.backoff.contains_key(a) ==> u.backoff[a] == t.backoff[a]
            &&& !successes(outcomes).contains(a)
        }),
    decreases outcomes.len(),
{
    if outcomes.len() > 0 {
        let p = after_outcomes(t, outcomes.drop_last(), max_retries, fresh);
        lemma_untouched(t, outcomes.drop_last(), max_retries, fresh, a);
        assert(outcomes[outcomes.len() - 1].0 != a);
        lemma_push_contains(p.pending, outcomes.last().0, a);
        lemma_push_contains(successes(outcomes.drop_last()), outcomes.last().0, a);
    }
}

/// One failure of a peer, whatever became of the others: it is queued again and
/// the failure is recorded, as long as it may be retried; else it is forgotten.
proof fn lemma_one_failure<C>(
    t: PeerTable<C>,
    outcomes: Seq<(PeerAddr, Result<C, Error>)>,
    max_retries: u32,
    fresh: BackoffState,
    a: PeerAddr,
)
    requires
        fails_once(outcomes, a),
        !t.pending.contains(a),
        fresh.attempts == 0,
    ensures
        ({
            let u = after_outcomes(t, outcomes, max_retries, fresh);
            &&& !successes(outcomes).contains(a)
            &&& if failures(t, a) < max_retries {
                &&& u.pending.contains(a)
                &&& u.backoff.contains_key(a)
                &&& u.backoff[a].attempts == failures(t, a) + 1
                &&& u.backoff[a].cooldown_until == fresh.cooldown_until
            } else {
                !u.pending.contains(a) && !u.backoff.contains_key(a)
            }
        }),
    decreases outcomes.len(),
{
    let j = choose|j: int|
        {
            &&& 0 <= j < outcomes.len()
            &&& (#[trigger] outcomes[j]).0 == a
            &&& outcomes[j].1 is Err
            &&& forall|i: int| 0 <= i < outcomes.len() && i != j ==> (#[trigger] outcomes[i]).0 != a
        };
    let rest = outcomes.drop_last();
    let p = after_outcomes(t, rest, max_retries, fresh);
    lemma_push_contains(p.pending, outcomes.last().0, a);
    lemma_push_contains(successes(rest), outcomes.last().0, a);
    if j == outcomes.len() - 1 {
        assert forall|i: int| 0 <= i < rest.len() implies (#[trigger] rest[i]).0 != a by {
            assert(outcomes[i].0 != a);
        }
        lemma_untouched(t, rest, max_retries, fresh, a);
    } else {
        assert(rest[j].0 == a && rest[j].1 is Err);
        assert forall|i: int| 0 <= i < rest.len() && i != j implies (#[trigger] rest[i]).0
            != a by {
            assert(outcomes[i].0 != a);
        }
        lemma_one_failure(t, rest, max_retries, fresh, a);
        assert(outcomes[outcomes.len() - 1].0 != a);
    }
}

/// A peer that was drained to be connected is no longer queued.
pub proof fn law_drained_leaves<C>(t: PeerTable<C>, n: int, now: Nanos, a: PeerAddr)
    requires
        t.pending.no_duplicates(),
        0 <= n <= t.pending.len(),
        ready_among(t, n, now).contains(a),
    ensures
        t.pending.contains(a),
        !is_cooling(t.backoff, now, a),
        !after_drain(t, n, now).pending.contains(a),
{
    let head = t.pending.take(n);
    let ready = |x: PeerAddr| !is_cooling(t.backoff, now, x);
    let cooling = |x: PeerAddr| is_cooling(t.backoff, now, x);
    let m = choose|m: int| 0 <= m < head.filter(ready).len() && head.filter(ready)[m] == a;
    head.lemma_filter_pred(ready, m);
    head.lemma_filter_contains_rev(ready, a);
    let k = choose|k: int| 0 <= k < head.len() && head[k] == a;
    assert(t.pending[k] == a);
    let d = after_drain(t, n, now).pending;
    if d.contains(a) {
        let q = choose|q: int| 0 <= q < d.len() && d[q] == a;
        let tail = t.pending.skip(n);
        if q < tail.len() {
            assert(t.pending[n + q] == a);
        } else {
            head.lemma_filter_pred(cooling, q - tail.len());
        }
    }
}

/// A peer that is among the first of the queue and not in cooldown is drained.
pub proof fn law_ready_is_drained<C>(t: PeerTable<C>, n: int, now: Nanos, k: int)
    requires
        0 <= k < n <= t.pending.len(),
        !is_cooling(t.backoff, now, t.pending[k]),
    ensures
        ready_among(t, n, now).contains(t.pending[k]),
{
    let ready = |x: PeerAddr| !is_cooling(t.backoff, now, x);
    t.pending.take(n).lemma_filter_contains(ready, k);
}

/// What a round does to a peer that fails in it, whatever becomes of the others:
/// with retries left it is queued again, to be left alone for the cooldown, and
/// the failure is recorded; without, it is neither queued nor remembered. It is
/// never reported as connected.
pub proof fn law_failed_round<C>(
    r: Round<C>,
    max_retries: u32,
    cooldown: Nanos,
    a: PeerAddr,
)
    requires
        r.fails(a),
        r.at + cooldown <= u64::MAX,
    ensures
        !successes(r.outcomes).contains(a),
        ({
            let u = r.after(max_retries, cooldown);
            if failures(r.before, a) < max_retries {
                &&& u.pending.contains(a)
                &&& u.backoff.contains_key(a)
                &&& u.backoff[a].attempts == failures(r.before, a) + 1
                &&& u.backoff[a].cooldown_until == r.at + cooldown
            } else {
                !u.pending.contains(a) && !u.backoff.contains_key(a)
            }
        }),
{
    let fresh = BackoffState { attempts: 0, cooldown_until: (r.at + cooldown) as u64 };
    let d = after_drain(r.before, r.n, r.now);
    law_drained_leaves(r.before, r.n, r.now, a);
    lemma_one_failure(d, r.outcomes, max_retries, fresh, a);
    let t = after_outcomes(d, r.outcomes, max_retries, fresh);
    law_enqueue_all(t.pending, r.requeued, attempted(r.outcomes));
    assert(attempted(r.outcomes).contains(a));
}

/// Whether what happened between two rounds left a peer alone.
pub open spec fn same_for<C>(t: PeerTable<C>, u: PeerTable<C>, a: PeerAddr) -> bool {
    &&& t.pending.contains(a) == u.pending.contains(a)
    &&& t.backoff.contains_key(a) == u.backoff.contains_key(a)
    &&& t.backoff.contains_key(a) ==> t.backoff[a] == u.backoff[a]
}

/// A peer that fails in every round is queued again after each of its first
/// `max_retries` failures, and dropped with the next: it is then neither queued
/// nor remembered. It is never reported as connected.
pub proof fn law_retries<C>(
    rounds: Seq<Round<C>>,
    max_retries: u32,
    cooldown: Nanos,
    a: PeerAddr,
    k: int,
)
    requires
        rounds.len() == max_retries + 1,
        forall|i: int| 0 <= i < rounds.len() ==> (#[trigger] rounds[i]).fails(a) && rounds[i].at
            + cooldown <= u64::MAX,
        !rounds[0].before.backoff.contains_key(a),
        forall|i: int|
            1 <= i < rounds.len() ==> same_for(
                rounds[i - 1].after(max_retries, cooldown),
                (#[trigger] rounds[i]).before,
                a,
            ),
        0 <= k <= max_retries,
    ensures
        !successes(rounds[k].outcomes).contains(a),
        failures(rounds[k].before, a) == k,
        ({
            let u = rounds[k].after(max_retries, cooldown);
            if k < max_retries {
                &&& u.pending.contains(a)
                &&& u.backoff.contains_key(a)
                &&& u.backoff[a].attempts == k + 1
                &&& u.backoff[a].cooldown_until == rounds[k].at + cooldown
            } else {
                !u.pending.contains(a) && !u.backoff.contains_key(a)
            }
        }),
    decreases k,
{
    assert(rounds[k].fails(a));
    if k > 0 {
        law_retries(rounds, max_retries, cooldown, a, k - 1);
        assert(same_for(rounds[k - 1].after(max_retries, cooldown), rounds[k].before, a));
    }
    law_failed_round(rounds[k], max_retries, cooldown, a);
}

proof fn lemma_connected_stays<C>(
    t: PeerTable<C>,
    outcomes: Seq<(PeerAddr, Result<C, Error>)>,
    max_retries: u32,
    fresh: BackoffState,
    i: int,
)
    requires
        0 <= i < outcomes.len(),
        outcomes[i].1 is Ok,
    ensures
        after_outcomes(t, outcomes, max_retries, fresh).connections.contains_key(outcomes[i].0),
    decreases outcomes.len(),
{
    if i < outcomes.len() - 1 {
        lemma_connected_stays(t, outcomes.drop_last(), max_retries, fresh, i);
    }
}

/// Free slots and live connections add up to the limit; over the limit no slot is
/// free.
pub proof fn law_free_slots(max_connections: u32, connections: int)
    ensures
        0 <= connections <= max_connections ==> free_slots(max_connections, connections)
            + connections == max_connections,
        connections >= max_connections ==> free_slots(max_connections, connections) == 0,
{
}

/// What is taken from the first `n` of the queue: each peer whose cooldown is over,
/// and no other. A peer that is still cooling down stays queued, behind those that
/// were not looked at, which move up in their order. Nothing else changes.
pub proof fn law_drain<C>(t: PeerTable<C>, n: int, now: Nanos, k: int)
    requires
        t.pending.no_duplicates(),
        0 <= n <= t.pending.len(),
        0 <= k < t.pending.len(),
    ensures
        ({
            let a = t.pending[k];
            let cooling = t.backoff.contains_key(a) && now < t.backoff[a].cooldown_until;
            let batch = ready_among(t, n, now);
            let u = after_drain(t, n, now);
            &&& batch.len() <= n
            &&& batch.contains(a) <==> k < n && !cooling
            &&& u.pending.contains(a) <==> k >= n || cooling
            &&& k >= n ==> u.pending[k - n] == a
            &&& u.pending.len() + batch.len() == t.pending.len()
            &&& u.connections == t.connections
            &&& u.backoff == t.backoff
        }),
{
    let a = t.pending[k];
    let head = t.pending.take(n);
    let tail = t.pending.skip(n);
    let cold = |x: PeerAddr| is_cooling(t.backoff, now, x);
    let ready = |x: PeerAddr| !is_cooling(t.backoff, now, x);
    let u = after_drain(t, n, now);
    lemma_filter_splits(head, cold, ready);
    if k < n {
        assert(head[k] == a);
        if cold(a) {
            head.lemma_filter_contains(cold, k);
            let m = choose|m: int| 0 <= m < head.filter(cold).len() && head.filter(cold)[m] == a;
            assert(u.pending[tail.len() + m] == a);
            if ready_among(t, n, now).contains(a) {
                law_drained_leaves(t, n, now, a);
            }
        } else {
            law_ready_is_drained(t, n, now, k);
            law_drained_leaves(t, n, now, a);
        }
    } else {
        assert(tail[k - n] == a);
        assert(u.pending[k - n] == a);
        if ready_among(t, n, now).contains(a) {
            head.lemma_filter_contains_rev(ready, a);
            let m = choose|m: int| 0 <= m < head.len() && head[m] == a;
            assert(t.pending[m] == t.pending[k]);
        }
    }
}

/// A test and its opposite share a sequence out between them.
proof fn lemma_filter_splits<T>(s: Seq<T>, f: spec_fn(T) -> bool, g: spec_fn(T) -> bool)
    requires
        forall|x: T| #[trigger] f(x) == !g(x),
    ensures
        s.filter(f).len() + s.filter(g).len() == s.len(),
    decreases s.len(),
{
    reveal(Seq::filter);
    if s.len() > 0 {
        lemma_filter_splits(s.drop_last(), f, g);
        let x = s.last();
        assert(f(x) == !g(x));
    }
}

/// A connection that was made is kept under the address it was made to, and the
/// failures of that peer are forgotten; a failure makes no connection. The queue
/// and the other peers are left alone by a success, and the other peers by a
/// failure.
pub proof fn law_outcome<C>(
    t: PeerTable<C>,
    addr: PeerAddr,
    result: Result<C, Error>,
    max_retries: u32,
    fresh: BackoffState,
    other: PeerAddr,
)
    ensures
        ({
            let u = after_outcome(t, addr, result, max_retries, fresh);
            &&& result matches Ok(c) ==> u.connections.contains_key(addr) && u.connections[addr]
                == c && !u.backoff.contains_key(addr) && u.pending == t.pending
            &&& result is Err ==> u.connections == t.connections
            &&& other != addr ==> u.connections.contains_key(other) == t.connections.contains_key(
                other,
            ) && u.connections[other] == t.connections[other]
            &&& other != addr ==> u.backoff.contains_key(other) == t.backoff.contains_key(other)
                && u.backoff[other] == t.backoff[other]
            &&& other != addr ==> u.pending.contains(other) == t.pending.contains(other)
            &&& t.pending.is_prefix_of(u.pending)
        }),
{
    lemma_push_contains(t.pending, addr, other);
}

/// The reported peers are those with a successful attempt.
pub proof fn law_successes<C>(outcomes: Seq<(PeerAddr, Result<C, Error>)>, a: PeerAddr)
    ensures
        successes(outcomes).contains(a) <==> exists|i: int|
            0 <= i < outcomes.len() && (#[trigger] outcomes[i]).0 == a && outcomes[i].1 is Ok,
        successes(outcomes).len() <= outcomes.len(),
    decreases outcomes.len(),
{
    if outcomes.len() > 0 {
        let rest = outcomes.drop_last();
        law_successes(rest, a);
        lemma_push_contains(successes(rest), outcomes.last().0, a);
        if successes(rest).contains(a) {
            let i = choose|i: int|
                0 <= i < rest.len() && (#[trigger] rest[i]).0 == a && rest[i].1 is Ok;
            assert(outcomes[i] == rest[i]);
        }
        if exists|i: int|
            0 <= i < outcomes.len() && (#[trigger] outcomes[i]).0 == a && outcomes[i].1 is Ok {
            let i = choose|i: int|
                0 <= i < outcomes.len() && (#[trigger] outcomes[i]).0 == a && outcomes[i].1 is Ok;
            if i < rest.len() {
                assert(rest[i] == outcomes[i]);
            }
        }
    }
}

/// A batch fits: were every peer of it connected, the limit would still hold. It
/// is never short while a peer at the front of the queue is ready and a slot free.
pub proof fn law_batch_fits<C>(
    before: PeerManager<C>,
    after: PeerTable<C>,
    now: Nanos,
    batch: Seq<PeerAddr>,
)
    requires
        before.wf(),
        is_batch(before, after, now, batch),
    ensures
        ({
            let live = before@.connections.dom().len();
            let max = before.spec_max_connections();
            &&& live <= max ==> live + batch.len() <= max
            &&& live >= max ==> batch.len() == 0 && after.pending =~= before@.pending
            &&& forall|k: int|
                0 <= k < before@.pending.len() && k < max - live && !(before@.backoff.contains_key(
                    before@.pending[k],
                ) && now < before@.backoff[before@.pending[k]].cooldown_until)
                    ==> batch.contains(#[trigger] before@.pending[k])
            &&& after.connections == before@.connections
            &&& after.backoff == before@.backoff
        }),
{
    before.lemma_wf();
    let live = before@.connections.dom().len();
    let max = before.spec_max_connections();
    let free = free_slots(max, before.connection_order().len() as int);
    let n = vstd::math::min(free, before@.pending.len() as int);
    before.connection_order().unique_seq_to_set();
    before@.pending.take(n).lemma_filter_len(
        |a: PeerAddr| !is_cooling(before@.backoff, now, a),
    );
    assert forall|k: int|
        0 <= k < before@.pending.len() && k < max - live && !(before@.backoff.contains_key(
            before@.pending[k],
        ) && now < before@.backoff[before@.pending[k]].cooldown_until) implies batch.contains(
        #[trigger] before@.pending[k],
    ) by {
        law_ready_is_drained(before@, n, now, k);
    }
    if live >= max {
        let cold = |a: PeerAddr| is_cooling(before@.backoff, now, a);
        before@.pending.take(0).lemma_filter_len(cold);
        assert(before@.pending.skip(0) =~= before@.pending);
    }
}

/// What becomes of the peers of a batch. One whose attempt has no result is queued
/// again and otherwise left as it was. One that was reached is connected. One that
/// failed is queued again with its failure on record, to be left alone for the
/// cooldown, or, after as many failures as it may have, forgotten.
pub proof fn law_batch_results<C>(
    before: PeerManager<C>,
    outcomes: Seq<(PeerAddr, Result<C, Error>)>,
    batch: Seq<PeerAddr>,
    now: Nanos,
    a: PeerAddr,
)
    requires
        batch.contains(a),
        !before@.pending.contains(a),
        now + before.spec_cooldown() <= u64::MAX,
    ensures
        ({
            let u = after_batch(before, outcomes, batch, now);
            &&& (forall|i: int| 0 <= i < outcomes.len() ==> (#[trigger] outcomes[i]).0 != a) ==> {
                &&& u.pending.contains(a)
                &&& u.backoff.contains_key(a) == before@.backoff.contains_key(a)
                &&& u.backoff.contains_key(a) ==> u.backoff[a] == before@.backoff[a]
            }
            &&& forall|i: int|
                0 <= i < outcomes.len() && (#[trigger] outcomes[i]).0 == a && outcomes[i].1 is Ok
                    ==> u.connections.contains_key(a)
            &&& fails_once(outcomes, a) && failures(before@, a) < before.spec_max_retries() ==> {
                &&& u.pending.contains(a)
                &&& u.backoff.contains_key(a)
                &&& u.backoff[a].attempts == failures(before@, a) + 1
                &&& u.backoff[a].cooldown_until == now + before.spec_cooldown()
            }
            &&& fails_once(outcomes, a) && failures(before@, a) >= before.spec_max_retries()
                ==> !u.pending.contains(a) && !u.backoff.contains_key(a)
        }),
{
    let fresh = BackoffState {
        attempts: 0,
        cooldown_until: (now + before.spec_cooldown()) as u64,
    };
    let max = before.spec_max_retries();
    let t = after_outcomes(before@, outcomes, max, fresh);
    let u = after_batch(before, outcomes, batch, now);
    law_enqueue_all(t.pending, batch, attempted(outcomes));
    if forall|i: int| 0 <= i < outcomes.len() ==> (#[trigger] outcomes[i]).0 != a {
        lemma_untouched(before@, outcomes, max, fresh, a);
        assert(!attempted(outcomes).contains(a));
    }
    assert forall|i: int|
        0 <= i < outcomes.len() && (#[trigger] outcomes[i]).0 == a && outcomes[i].1
            is Ok implies u.connections.contains_key(a) by {
        lemma_connected_stays(before@, outcomes, max, fresh, i);
    }
    if fails_once(outcomes, a) {
        lemma_one_failure(before@, outcomes, max, fresh, a);
        assert(attempted(outcomes).contains(a));
    }
}

} // verus!
