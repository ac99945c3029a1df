//! Peer connections with fixed limits: three retries, half a minute apart.

use crate::addr::PeerAddr;
use crate::error::Error;
use crate::session::peer_mgr::{
    after_drain, after_outcomes, enqueue_all, free_slots, law_retries, ready_among, same_for,
    successes, BackoffState, PeerId, PeerTable, Round,
};
use crate::time::Nanos;
use vstd::prelude::*;

verus! {

/// Retries per peer before it is discarded.
pub const MAX_RETRIES: u32 = 3;

/// Time before a failed peer is tried again.
pub const PEER_COOLDOWN: Nanos = 30_000_000_000;

/// Manages peer connections for a single torrent. `C` is the handle of a live
/// connection.
pub struct PeerManager<C> {
    inner: crate::session::peer_mgr::PeerManager<C>,
}

impl<C> View for PeerManager<C> {
    type V = PeerTable<C>;

    closed spec fn view(&self) -> PeerTable<C> {
        self.inner@
    }
}

/// The backoff of a peer at its first failure, before that failure is counted.
pub open spec fn first_backoff(now: Nanos) -> BackoffState {
    BackoffState { attempts: 0, cooldown_until: (now + PEER_COOLDOWN) as u64 }
}

impl<C> PeerManager<C> {
    /// The peers are well-formed and the limits are those of this module.
    pub closed spec fn wf(&self) -> bool {
        &&& self.inner.wf()
        &&& self.inner.spec_max_retries() == MAX_RETRIES
        &&& self.inner.spec_cooldown() == PEER_COOLDOWN
    }

    /// The limit on connections, as contracts speak of it.
    pub closed spec fn spec_max_connections(&self) -> u32 {
        self.inner.spec_max_connections()
    }

    /// The identities and the limit are those of `other`.
    pub open spec fn same_settings(&self, other: &PeerManager<C>) -> bool {
        &&& self.spec_max_connections() == other.spec_max_connections()
        &&& self.spec_info_hash() == other.spec_info_hash()
        &&& self.spec_peer_id() == other.spec_peer_id()
    }

    /// The torrent, as contracts speak of it.
    pub closed spec fn spec_info_hash(&self) -> [u8; 20] {
        self.inner.spec_info_hash()
    }

    /// Our own ID, as contracts speak of it.
    pub closed spec fn spec_peer_id(&self) -> PeerId {
        self.inner.spec_peer_id()
    }

    /// The connected addresses, oldest first.
    pub closed spec fn connection_order(&self) -> Seq<PeerAddr> {
        self.inner.connection_order()
    }

    /// Nothing is queued twice, and the order lists each connection once.
    pub proof fn lemma_wf(&self)
        requires
            self.wf(),
        ensures
            self@.pending.no_duplicates(),
            self.connection_order().no_duplicates(),
            self.connection_order().to_set() == self@.connections.dom(),
    {
        self.inner.lemma_wf();
    }

    /// Create a new manager without peers.
    pub fn new(info_hash: [u8; 20], peer_id: PeerId, max_connections: u32) -> (pm: PeerManager<C>)
        ensures
            pm.wf(),
            pm@ == (PeerTable::<C> {
                connections: Map::empty(),
                pending: Seq::empty(),
                backoff: Map::empty(),
            }),
            pm.connection_order() == Seq::<PeerAddr>::empty(),
            pm.spec_max_connections() == max_connections,
            pm.spec_info_hash() == info_hash,
            pm.spec_peer_id() == peer_id,
    {
        PeerManager {
            inner: crate::session::peer_mgr::PeerManager::new(
                info_hash,
                peer_id,
                max_connections,
                0,
                MAX_RETRIES,
                PEER_COOLDOWN,
            ),
        }
    }

    /// The torrent whose peers these are.
    pub fn info_hash(&self) -> (h: [u8; 20])
        ensures
            h == self.spec_info_hash(),
    {
        self.inner.info_hash()
    }

    /// Our own ID: what connection attempts are made with.
    pub fn peer_id(&self) -> (id: PeerId)
        ensures
            id == self.spec_peer_id(),
    {
        self.inner.peer_id()
    }

    /// The limit on connections.
    pub fn max_connections(&self) -> (n: u32)
        ensures
            n == self.spec_max_connections(),
    {
        self.inner.max_connections()
    }

    /// Add peers from a tracker or DHT announce. Skips addresses already
    /// connected or already pending.
    pub fn add_peers(&mut self, addrs: Vec<PeerAddr>)
        requires
            old(self).wf(),
        ensures
            final(self).wf(),
            final(self).same_settings(old(self)),
            final(self).connection_order() == old(self).connection_order(),
            final(self)@ == (PeerTable {
                pending: enqueue_all(
                    old(self)@.pending,
                    addrs@,
                    old(self)@.connections.dom(),
                ),
                ..old(self)@
            }),
    {
        self.inner.add_peers(addrs);
        proof {
            self.inner.lemma_wf();
        }
    }

    /// Remove a peer: its connection is closed.
    pub fn remove_peer(&mut self, addr: &PeerAddr)
        requires
            old(self).wf(),
        ensures
            final(self).wf(),
            final(self).same_settings(old(self)),
            final(self)@ == (PeerTable {
                connections: old(self)@.connections.remove(*addr),
                ..old(self)@
            }),
    {
        self.inner.disconnect(addr);
        proof {
            self.inner.lemma_wf();
        }
    }

    /// The number of active connections.
    pub fn num_connections(&self) -> (n: usize)
        requires
            self.wf(),
        ensures
            n == self@.connections.dom().len(),
            n == self.connection_order().len(),
    {
        self.inner.num_connections()
    }

    /// The pending peers to connect to now: as many from the front of the queue
    /// as there are free slots. Peers still in cooldown go back to its end.
    pub fn connect_pending(&mut self, now: Nanos) -> (batch: Vec<PeerAddr>)
        requires
            old(self).wf(),
        ensures
            final(self).wf(),
            final(self).same_settings(old(self)),
            final(self).connection_order() == old(self).connection_order(),
            ({
                let free = free_slots(
                    old(self).spec_max_connections(),
                    old(self).connection_order().len() as int,
                );
                let n = vstd::math::min(free, old(self)@.pending.len() as int);
                &&& batch@ == ready_among(old(self)@, n, now)
                &&& final(self)@ == after_drain(old(self)@, n, now)
            }),
    {
        let batch = self.inner.drain_pending_batch(now);
        proof {
            self.inner.lemma_wf();
        }
        batch
    }

    /// Apply the results of connection attempts. A failed peer is queued again
    /// with a cooldown, up to [`MAX_RETRIES`] times, and discarded with its next
    /// failure. Returns the newly connected addresses.
    pub fn connected(&mut self, outcomes: Vec<(PeerAddr, Result<C, Error>)>, now: Nanos) -> (r: Vec<
        PeerAddr,
    >)
        requires
            old(self).wf(),
            now + PEER_COOLDOWN <= u64::MAX,
        ensures
            final(self).wf(),
            final(self).same_settings(old(self)),
            r@ == successes(outcomes@),
            final(self)@ == after_outcomes(
                old(self)@,
                outcomes@,
                MAX_RETRIES,
                first_backoff(now),
            ),
    {
        let none: Vec<PeerAddr> = Vec::new();
        let r = self.inner.apply_connect_results(outcomes, none.as_slice(), now);
        proof {
            self.inner.lemma_wf();
            let t = after_outcomes(
                old(self)@,
                outcomes@,
                MAX_RETRIES,
                first_backoff(now),
            );
            assert(none@ =~= Seq::<PeerAddr>::empty());
            assert(self@ =~= t);
        }
        r
    }

    /// The connection of a peer.
    pub fn connection(&self, addr: &PeerAddr) -> (r: Option<&C>)
        requires
            self.wf(),
        ensures
            match r {
                Some(c) => self@.connections.contains_key(*addr) && *c == self@.connections[*addr],
                None => !self@.connections.contains_key(*addr),
            },
    {
        self.inner.connection(addr)
    }

    /// All connected peer addresses.
    pub fn connection_addrs(&self) -> (r: Vec<PeerAddr>)
        requires
            self.wf(),
        ensures
            r@ == self.connection_order(),
            r@.to_set() == self@.connections.dom(),
    {
        self.inner.connection_addrs()
    }
}

/// A peer that fails in every round, whatever becomes of the others, is queued
/// again after each of its first three failures, and discarded with the fourth:
/// it is then neither queued nor remembered. It is never reported as connected.
pub proof fn law_retries_then_discard<C>(rounds: Seq<Round<C>>, a: PeerAddr)
    requires
        rounds.len() == 4,
        forall|i: int| 0 <= i < rounds.len() ==> (#[trigger] rounds[i]).fails(a) && rounds[i].at
            + PEER_COOLDOWN <= u64::MAX && rounds[i].requeued.len() == 0,
        !rounds[0].before.backoff.contains_key(a),
        forall|i: int|
            1 <= i < rounds.len() ==> same_for(
                rounds[i - 1].after(MAX_RETRIES, PEER_COOLDOWN),
                (#[trigger] rounds[i]).before,
                a,
            ),
    ensures
        forall|i: int|
            0 <= i < 3 ==> (#[trigger] rounds[i]).after(
                MAX_RETRIES,
                PEER_COOLDOWN,
            ).pending.contains(a),
        ({
            let last = rounds[3].after(MAX_RETRIES, PEER_COOLDOWN);
            !last.pending.contains(a) && !last.backoff.contains_key(a)
        }),
        forall|i: int|
            0 <= i < 4 ==> !successes((#[trigger] rounds[i]).outcomes).contains(a),
        forall|i: int|
            0 <= i < 4 ==> (#[trigger] rounds[i]).after(MAX_RETRIES, PEER_COOLDOWN)
                == after_outcomes(
                after_drain(rounds[i].before, rounds[i].n, rounds[i].now),
                rounds[i].outcomes,
                MAX_RETRIES,
                first_backoff(rounds[i].at),
            ),
{
    assert forall|i: int| 0 <= i < 4 implies {
        &&& !successes((#[trigger] rounds[i]).outcomes).contains(a)
        &&& i < 3 ==> rounds[i].after(MAX_RETRIES, PEER_COOLDOWN).pending.contains(a)
        &&& rounds[i].after(MAX_RETRIES, PEER_COOLDOWN) == after_outcomes(
            after_drain(rounds[i].before, rounds[i].n, rounds[i].now),
            rounds[i].outcomes,
            MAX_RETRIES,
            first_backoff(rounds[i].at),
        )
    } by {
        law_retries(rounds, MAX_RETRIES, PEER_COOLDOWN, a, i);
        assert(rounds[i].requeued.len() == 0);
    }
    law_retries(rounds, MAX_RETRIES, PEER_COOLDOWN, a, 3);
}

} // verus!
