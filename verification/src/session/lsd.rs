//! Local service discovery: peers on the same network.

use crate::addr::PeerAddr;
use crate::metainfo::InfoHash;
use crate::session::peer_mgr::enqueue_all;
use crate::session::registry::{found_peers, Session};
use crate::seqs::lemma_take_contains;
use vstd::prelude::*;

verus! {

/// Maximum size of a datagram.
pub const MAX_LSD_DATAGRAM: usize = 1500;

/// An announcement from the local network.
pub struct LsdAnnounce {
    /// TCP port of the peer.
    pub port: u16,
    /// Torrents of the peer.
    pub info_hashes: Vec<InfoHash>,
}

/// An announcement to be sent.
pub struct LsdBroadcast {
    /// Our torrents.
    pub info_hashes: Vec<InfoHash>,
    /// Whether to send it to the IPv4 group.
    pub v4: bool,
    /// Whether to send it to the IPv6 group.
    pub v6: bool,
}

/// Take an announcement in: its sender is a peer, on the announced port, for
/// every torrent of the session that it names.
pub fn handle_incoming<C>(session: &mut Session<C>, announce: &LsdAnnounce, src: PeerAddr)
    requires
        old(session).wf(),
    ensures
        final(session).wf(),
        final(session).spec_config() == old(session).spec_config(),
        final(session).order() == old(session).order(),
        final(session)@.dom() == old(session)@.dom(),
        forall|h: InfoHash| #[trigger]
            old(session)@.contains_key(h) ==> if announce.info_hashes@.contains(h) {
                found_peers(
                    old(session)@[h],
                    final(session)@[h],
                    seq![src.spec_on_port(announce.port)],
                )
            } else {
                final(session)@[h] == old(session)@[h]
            },
{
    let addr = src.on_port(announce.port);
    let ghost addrs = seq![addr];
    let ghost before = session@;
    let ghost hashes = announce.info_hashes@;
    let mut i: usize = 0;
    while i < announce.info_hashes.len()
        invariant
            i <= hashes.len(),
            hashes == announce.info_hashes@,
            addrs == seq![addr],
            before == old(session)@,
            old(session).wf(),
            session.wf(),
            session.spec_config() == old(session).spec_config(),
            session.order() == old(session).order(),
            session@.dom() == before.dom(),
            forall|h: InfoHash| #[trigger]
                before.contains_key(h) ==> if hashes.take(i as int).contains(h) {
                    found_peers(before[h], session@[h], addrs)
                } else {
                    session@[h] == before[h]
                },
        decreases hashes.len() - i,
    {
        let h: InfoHash = announce.info_hashes[i];
        let ghost mid = session@;
        let mut one: Vec<PeerAddr> = Vec::new();
        one.push(addr);
        assert(one@ =~= addrs);
        session.add_peers(&h, one);
        proof {
            assert(session@.dom() =~= mid.dom());
            assert forall|q: InfoHash| #[trigger] before.contains_key(q) implies if hashes.take(
                i + 1,
            ).contains(q) {
                found_peers(before[q], session@[q], addrs)
            } else {
                session@[q] == before[q]
            } by {
                lemma_take_contains(hashes, i as int, q);
                if q == h {
                    if hashes.take(i as int).contains(q) {
                        lemma_found_twice(before[q], mid[q], session@[q], addr);
                    }
                }
            }
        }
        i += 1;
    }
    assert(hashes.take(i as int) =~= hashes);
}

/// To find a peer a second time changes nothing more.
proof fn lemma_found_twice<C>(
    a: crate::session::torrent::TorrentHandle<C>,
    b: crate::session::torrent::TorrentHandle<C>,
    c: crate::session::torrent::TorrentHandle<C>,
    addr: PeerAddr,
)
    requires
        found_peers(a, b, seq![addr]),
        found_peers(b, c, seq![addr]),
    ensures
        found_peers(a, c, seq![addr]),
{
    let s = seq![addr];
    assert(s.drop_last() =~= Seq::<PeerAddr>::empty());
    let p = a.peer_mgr@.pending;
    let x = a.peer_mgr@.connections.dom();
    assert(enqueue_all(p, s.drop_last(), x) == p);
    let q = enqueue_all(p, s, x);
    assert(enqueue_all(q, s.drop_last(), x) == q);
    crate::seqs::lemma_push_contains(p, addr, addr);
    assert(enqueue_all(q, s, x) == q);
    c.peer_mgr.lemma_same_settings(&b.peer_mgr, &a.peer_mgr);
}

/// The announcement of our presence: for all torrents, to the groups whose
/// socket is there. There is none without torrents.
pub fn broadcast_announce<C>(session: &Session<C>, has_v4: bool, has_v6: bool) -> (r: Option<
    LsdBroadcast,
>)
    requires
        session.wf(),
    ensures
        match r {
            Some(b) => session.order().len() > 0 && b.info_hashes@ == session.order() && b.v4
                == has_v4 && b.v6 == has_v6,
            None => session.order().len() == 0,
        },
{
    let info_hashes = session.active_torrents();
    if info_hashes.len() == 0 {
        return None;
    }
    Some(LsdBroadcast { info_hashes, v4: has_v4, v6: has_v6 })
}

} // verus!
