//! A node of the distributed hash table, shared by all torrents.

use crate::addr::PeerAddr;
use crate::collections::find_key;
use crate::hash::{sha1_digest, sha1_of};
use crate::metainfo::InfoHash;
use crate::seqs::{lemma_filtered, lemma_push_contains};
use crate::text::{chars_of, same_text};
use crate::time::{elapsed, Nanos};
use vstd::prelude::*;

verus! {

/// Interval between periodic bootstrap refreshes.
pub const BOOTSTRAP_INTERVAL: Nanos = 300_000_000_000;

/// How long a lookup may take.
pub const LOOKUP_TIMEOUT: Nanos = 15_000_000_000;

/// Number of closest nodes that a lookup starts from.
pub const ALPHA: usize = 8;

/// Number of nodes that are queried in one round of a lookup.
pub const LOOKUP_CONCURRENCY: usize = 3;

/// Length of a token.
pub const TOKEN_LEN: usize = 4;

/// A node of the table: its ID and its address.
#[derive(Clone, Copy, Debug)]
pub struct Node {
    /// ID of the node.
    pub id: InfoHash,
    /// Address of the node.
    pub addr: PeerAddr,
}

/// The socket that reaches an address.
#[derive(Clone, Copy, Debug, PartialEq, Eq, Structural)]
pub enum Route {
    /// The IPv4 socket.
    V4,
    /// The IPv6 socket.
    V6,
}

/// The socket that reaches an address, if there is one. There may be no IPv6
/// socket.
pub open spec fn route_of(addr: PeerAddr, has_v6: bool) -> Option<Route> {
    if addr.spec_is_ipv4() {
        Some(Route::V4)
    } else if has_v6 {
        Some(Route::V6)
    } else {
        None
    }
}

/// The socket that reaches an address, if there is one.
pub fn route(addr: &PeerAddr, has_v6: bool) -> (r: Option<Route>)
    ensures
        r == route_of(*addr, has_v6),
{
    if addr.is_ipv4() {
        Some(Route::V4)
    } else if has_v6 {
        Some(Route::V6)
    } else {
        None
    }
}

/// Whether an address can be reached.
pub open spec fn is_reachable(has_v6: bool) -> spec_fn(PeerAddr) -> bool {
    |a: PeerAddr| route_of(a, has_v6) is Some
}

/// The addresses that can be reached, in order: those that a bootstrap or an
/// announcement is sent to.
pub fn reachable(addrs: &Vec<PeerAddr>, has_v6: bool) -> (r: Vec<PeerAddr>)
    ensures
        r@ == addrs@.filter(is_reachable(has_v6)),
{
    let mut r: Vec<PeerAddr> = Vec::new();
    let mut i: usize = 0;
    proof {
        reveal(Seq::filter);
        assert(addrs@.take(0).filter(is_reachable(has_v6)) =~= Seq::<PeerAddr>::empty());
    }
    while i < addrs.len()
        invariant
            i <= addrs@.len(),
            r@ == addrs@.take(i as int).filter(is_reachable(has_v6)),
        decreases addrs@.len() - i,
    {
        proof {
            reveal(Seq::filter);
            assert(addrs@.take(i + 1).drop_last() =~= addrs@.take(i as int));
        }
        if route(&addrs[i], has_v6).is_some() {
            r.push(addrs[i]);
        }
        i += 1;
    }
    assert(addrs@.take(i as int) =~= addrs@);
    r
}

/// What a node answered to a lookup.
pub enum LookupReply {
    /// Peers of the torrent.
    Values(Vec<PeerAddr>),
    /// Nodes that are closer.
    Nodes(Vec<Node>),
}

/// A lookup as contracts speak of it.
#[verifier::ext_equal]
pub struct LookupView {
    /// IDs of the nodes that were queried.
    pub queried: Seq<InfoHash>,
    /// Peers that were found, each once.
    pub peers: Seq<PeerAddr>,
    /// Nodes to be queried.
    pub pending: Seq<Node>,
}

/// An iterative lookup of the peers of a torrent.
pub struct Lookup {
    queried: Vec<InfoHash>,
    peers: Vec<PeerAddr>,
    pending: Vec<Node>,
    started: Nanos,
}

impl View for Lookup {
    type V = LookupView;

    closed spec fn view(&self) -> LookupView {
        LookupView { queried: self.queried@, peers: self.peers@, pending: self.pending@ }
    }
}

/// The first nodes of `pending`, up to `max`, whose IDs are not in `queried` and
/// occur for the first time.
pub open spec fn unseen(queried: Seq<InfoHash>, pending: Seq<Node>, max: nat) -> Seq<Node>
    decreases pending.len(),
{
    if pending.len() == 0 || max == 0 {
        Seq::empty()
    } else if queried.contains(pending[0].id) {
        unseen(queried, pending.drop_first(), max)
    } else {
        seq![pending[0]] + unseen(
            queried.push(pending[0].id),
            pending.drop_first(),
            (max - 1) as nat,
        )
    }
}

/// The IDs of nodes.
pub open spec fn ids(nodes: Seq<Node>) -> Seq<InfoHash> {
    nodes.map_values(|n: Node| n.id)
}

/// The nodes that were not queried.
pub open spec fn not_queried(queried: Seq<InfoHash>) -> spec_fn(Node) -> bool {
    |n: Node| !queried.contains(n.id)
}

/// The peers with more added, each once.
pub open spec fn with_peers(peers: Seq<PeerAddr>, more: Seq<PeerAddr>) -> Seq<PeerAddr>
    decreases more.len(),
{
    if more.len() == 0 {
        peers
    } else {
        let before = with_peers(peers, more.drop_last());
        if before.contains(more.last()) {
            before
        } else {
            before.push(more.last())
        }
    }
}

/// Whether a lookup ends: it found peers, or its time is up.
pub open spec fn is_over(v: LookupView, started: Nanos, now: Nanos) -> bool {
    v.peers.len() > 0 || crate::time::elapsed_at(started, now) >= LOOKUP_TIMEOUT
}

/// The lookup after nodes were found that are to be queried too, unless they were.
pub open spec fn with_nodes(v: LookupView, nodes: Seq<Node>) -> LookupView {
    LookupView { pending: v.pending + nodes.filter(not_queried(v.queried)), ..v }
}

impl Lookup {
    /// When the lookup was started, as contracts speak of it.
    pub closed spec fn spec_started(&self) -> Nanos {
        self.started
    }

    /// Start a lookup at the nodes that are closest.
    pub fn new(closest: Vec<Node>, now: Nanos) -> (l: Lookup)
        ensures
            l@ == (LookupView {
                queried: Seq::empty(),
                peers: Seq::empty(),
                pending: closest@,
            }),
            l.spec_started() == now,
    {
        let l = Lookup { queried: Vec::new(), peers: Vec::new(), pending: closest, started: now };
        assert(l@ =~= (LookupView {
            queried: Seq::empty(),
            peers: Seq::empty(),
            pending: closest@,
        }));
        l
    }

    /// Whether the lookup took too long.
    pub fn is_late(&self, now: Nanos) -> (r: bool)
        ensures
            r == (crate::time::elapsed_at(self.spec_started(), now) >= LOOKUP_TIMEOUT),
    {
        elapsed(self.started, now) >= LOOKUP_TIMEOUT
    }

    /// The next nodes to be queried, up to [`LOOKUP_CONCURRENCY`]; none if there
    /// is nothing left to query. The rest of the pending nodes is dropped: they
    /// come back from the routing table.
    pub fn next_batch(&mut self) -> (batch: Vec<Node>)
        ensures
            batch@ == unseen(
                old(self)@.queried,
                old(self)@.pending,
                LOOKUP_CONCURRENCY as nat,
            ),
            final(self)@ == (LookupView {
                queried: old(self)@.queried + ids(batch@),
                pending: Seq::empty(),
                ..old(self)@
            }),
            final(self).spec_started() == old(self).spec_started(),
    {
        let mut batch: Vec<Node> = Vec::new();
        let ghost pending = self.pending@;
        let ghost all = unseen(self.queried@, pending, LOOKUP_CONCURRENCY as nat);
        let mut i: usize = 0;
        proof {
            assert(pending.skip(0) =~= pending);
            assert(batch@ + all =~= all);
            assert(self.queried@ + ids(batch@) =~= self.queried@);
        }
        while i < self.pending.len() && batch.len() < LOOKUP_CONCURRENCY
            invariant
                i <= pending.len(),
                self.pending@ == pending,
                batch@.len() <= LOOKUP_CONCURRENCY,
                self.peers@ == old(self).peers@,
                self.started == old(self).started,
                batch@ + unseen(
                    self.queried@,
                    pending.skip(i as int),
                    (LOOKUP_CONCURRENCY - batch@.len()) as nat,
                ) == all,
                self.queried@ == old(self).queried@ + ids(batch@),
            decreases pending.len() - i,
        {
            let node: Node = self.pending[i];
            let ghost rest = pending.skip(i as int);
            proof {
                assert(rest.drop_first() =~= pending.skip(i + 1));
            }
            if find_key(&self.queried, &node.id).is_none() {
                let ghost before = batch@;
                self.queried.push(node.id);
                batch.push(node);
                proof {
                    let later = unseen(
                        self.queried@,
                        pending.skip(i + 1),
                        (LOOKUP_CONCURRENCY - batch@.len()) as nat,
                    );
                    assert(before + (seq![node] + later) =~= batch@ + later);
                    assert(self.queried@ =~= old(self).queried@ + ids(batch@));
                }
            }
            i += 1;
        }
        proof {
            let left = unseen(
                self.queried@,
                pending.skip(i as int),
                (LOOKUP_CONCURRENCY - batch@.len()) as nat,
            );
            assert(left =~= Seq::<Node>::empty());
            assert(batch@ + left =~= batch@);
        }
        self.pending.clear();
        assert(self@ =~= (LookupView {
            queried: old(self)@.queried + ids(batch@),
            pending: Seq::empty(),
            ..old(self)@
        }));
        batch
    }

    /// Take an answer in. Peers are collected. Nodes that were not queried are
    /// to be queried, and to be entered into the routing table: these are
    /// returned.
    pub fn on_reply(&mut self, reply: LookupReply) -> (learned: Vec<Node>)
        ensures
            match reply {
                LookupReply::Values(peers) => {
                    &&& learned@ == Seq::<Node>::empty()
                    &&& final(self)@ == (LookupView {
                        peers: with_peers(old(self)@.peers, peers@),
                        ..old(self)@
                    })
                },
                LookupReply::Nodes(nodes) => {
                    &&& learned@ == nodes@.filter(not_queried(old(self)@.queried))
                    &&& final(self)@ == (LookupView {
                        pending: old(self)@.pending + learned@,
                        ..old(self)@
                    })
                },
            },
            final(self).spec_started() == old(self).spec_started(),
    {
        match reply {
            LookupReply::Values(peers) => {
                let mut i: usize = 0;
                assert(peers@.take(0) =~= Seq::<PeerAddr>::empty());
                while i < peers.len()
                    invariant
                        i <= peers@.len(),
                        self.peers@ == with_peers(old(self).peers@, peers@.take(i as int)),
                        self.queried@ == old(self).queried@,
                        self.pending@ == old(self).pending@,
                        self.started == old(self).started,
                    decreases peers@.len() - i,
                {
                    proof {
                        assert(peers@.take(i + 1).drop_last() =~= peers@.take(i as int));
                    }
                    if find_key(&self.peers, &peers[i]).is_none() {
                        self.peers.push(peers[i]);
                    }
                    i += 1;
                }
                assert(peers@.take(i as int) =~= peers@);
                assert(self@ =~= (LookupView {
                    peers: with_peers(old(self)@.peers, peers@),
                    ..old(self)@
                }));
                Vec::new()
            },
            LookupReply::Nodes(nodes) => {
                let learned = self.fresh(&nodes);
                assert(self@ =~= (LookupView {
                    pending: old(self)@.pending + learned@,
                    ..old(self)@
                }));
                learned
            },
        }
    }

    fn fresh(&mut self, nodes: &Vec<Node>) -> (learned: Vec<Node>)
        ensures
            learned@ == nodes@.filter(not_queried(old(self)@.queried)),
            final(self)@ == (LookupView {
                pending: old(self)@.pending + learned@,
                ..old(self)@
            }),
            final(self).spec_started() == old(self).spec_started(),
    {
        let mut learned: Vec<Node> = Vec::new();
        let ghost f = not_queried(self.queried@);
        let mut i: usize = 0;
        proof {
            reveal(Seq::filter);
            assert(nodes@.take(0).filter(f) =~= Seq::<Node>::empty());
            assert(self.pending@ + Seq::<Node>::empty() =~= self.pending@);
        }
        while i < nodes.len()
            invariant
                i <= nodes@.len(),
                f == not_queried(self.queried@),
                self.queried@ == old(self).queried@,
                self.peers@ == old(self).peers@,
                self.started == old(self).started,
                learned@ == nodes@.take(i as int).filter(f),
                self.pending@ == old(self).pending@ + learned@,
            decreases nodes@.len() - i,
        {
            let node: Node = nodes[i];
            proof {
                reveal(Seq::filter);
                assert(nodes@.take(i + 1).drop_last() =~= nodes@.take(i as int));
            }
            if find_key(&self.queried, &node.id).is_none() {
                learned.push(node);
                self.pending.push(node);
                assert(self.pending@ =~= old(self).pending@ + learned@);
            }
            i += 1;
        }
        assert(nodes@.take(i as int) =~= nodes@);
        assert(self@ =~= (LookupView { pending: old(self)@.pending + learned@, ..old(self)@ }));
        learned
    }

    /// End a round: the lookup is done once peers were found or time is up.
    /// Otherwise the closest nodes of the routing table that were not queried
    /// are to be queried too, and the lookup is done if there are none.
    pub fn end_round(&mut self, closest: &Vec<Node>, now: Nanos) -> (done: bool)
        ensures
            ({
                let late = crate::time::elapsed_at(old(self).spec_started(), now)
                    >= LOOKUP_TIMEOUT;
                if old(self)@.peers.len() > 0 || late {
                    done && final(self)@ == old(self)@
                } else {
                    &&& final(self)@ == (LookupView {
                        pending: old(self)@.pending + closest@.filter(
                            not_queried(old(self)@.queried),
                        ),
                        ..old(self)@
                    })
                    &&& done == (final(self)@.pending.len() == 0)
                }
            }),
            final(self)@ == if is_over(old(self)@, old(self).spec_started(), now) {
                old(self)@
            } else {
                with_nodes(old(self)@, closest@)
            },
            done <==> is_over(old(self)@, old(self).spec_started(), now) || with_nodes(
                old(self)@,
                closest@,
            ).pending.len() == 0,
            final(self).spec_started() == old(self).spec_started(),
    {
        if self.peers.len() > 0 || self.is_late(now) {
            return true;
        }
        self.fresh(closest);
        self.pending.len() == 0
    }

    /// The peers that were found.
    pub fn into_peers(self) -> (r: Vec<PeerAddr>)
        ensures
            r@ == self@.peers,
    {
        self.peers
    }
}

/// A round queries nodes that were not queried before, and none twice.
pub proof fn law_no_node_queried_twice(queried: Seq<InfoHash>, pending: Seq<Node>, max: nat)
    ensures
        unseen(queried, pending, max).len() <= max,
        forall|i: int|
            0 <= i < unseen(queried, pending, max).len() ==> !queried.contains(
                (#[trigger] unseen(queried, pending, max)[i]).id,
            ),
        forall|i: int, j: int|
            0 <= i < j < unseen(queried, pending, max).len() ==> (#[trigger] unseen(
                queried,
                pending,
                max,
            )[i]).id != (#[trigger] unseen(queried, pending, max)[j]).id,
        queried.no_duplicates() ==> (queried + ids(unseen(queried, pending, max))).no_duplicates(),
    decreases pending.len(),
{
    let all = unseen(queried, pending, max);
    if pending.len() > 0 && max > 0 {
        let rest = pending.drop_first();
        if queried.contains(pending[0].id) {
            law_no_node_queried_twice(queried, rest, max);
        } else {
            let q = queried.push(pending[0].id);
            law_no_node_queried_twice(q, rest, (max - 1) as nat);
            assert forall|i: int| 0 <= i < all.len() implies !queried.contains(
                (#[trigger] all[i]).id,
            ) by {
                if i > 0 {
                    lemma_push_contains(queried, pending[0].id, all[i].id);
                }
            }
            assert forall|i: int, j: int| 0 <= i < j < all.len() implies (#[trigger] all[i]).id != (
            #[trigger] all[j]).id by {
                lemma_push_contains(queried, pending[0].id, all[j].id);
            }
        }
    }
    if queried.no_duplicates() {
        let s = queried + ids(all);
        assert forall|i: int, j: int| 0 <= i < j < s.len() implies s[i] != s[j] by {
            if i < queried.len() <= j {
                assert(queried.contains(s[i]));
            }
        }
    }
}

/// A peer is found once, and none that was found is lost.
pub proof fn law_peers_found(peers: Seq<PeerAddr>, more: Seq<PeerAddr>, a: PeerAddr)
    requires
        peers.no_duplicates(),
    ensures
        with_peers(peers, more).no_duplicates(),
        with_peers(peers, more).contains(a) <==> peers.contains(a) || more.contains(a),
    decreases more.len(),
{
    if more.len() > 0 {
        law_peers_found(peers, more.drop_last(), a);
        law_peers_found(peers, more.drop_last(), more.last());
        let before = with_peers(peers, more.drop_last());
        lemma_push_contains(before, more.last(), a);
        crate::seqs::lemma_contains_last(more, a);
    }
}

/// Bytes cut or filled up with zeros to the length of an ID.
pub open spec fn padded(bytes: Seq<u8>) -> Seq<u8> {
    Seq::new(
        20,
        |i: int|
            if i < bytes.len() {
                bytes[i]
            } else {
                0
            },
    )
}

/// Bytes cut or filled up with zeros to the length of an ID.
pub fn pad_id(bytes: &[u8]) -> (id: InfoHash)
    ensures
        id@ == padded(bytes@),
{
    let mut id: InfoHash = [0u8; 20];
    let mut i: usize = 0;
    while i < 20 && i < bytes.len()
        invariant
            i <= 20,
            i <= bytes@.len(),
            id@.len() == 20,
            forall|j: int| 0 <= j < i ==> id@[j] == bytes@[j],
            forall|j: int| i <= j < 20 ==> id@[j] == 0,
        decreases 20 - i,
    {
        id[i] = bytes[i];
        i += 1;
    }
    assert(id@ =~= padded(bytes@));
    id
}

/// The token for an address, given as text: the beginning of a hash that only
/// the holder of the secret can compute.
pub open spec fn token_for(secret: Seq<u8>, ip: Seq<u8>) -> Seq<u8> {
    sha1_of(secret + ip).take(TOKEN_LEN as int)
}

/// Generate the token for an address, given as the bytes of its text.
pub fn generate_token(secret: &InfoHash, ip: &[u8]) -> (token: Vec<u8>)
    ensures
        token@ == token_for(secret@, ip@),
{
    let mut data: Vec<u8> = Vec::new();
    let mut i: usize = 0;
    while i < 20
        invariant
            i <= 20,
            data@ == secret@.take(i as int),
        decreases 20 - i,
    {
        data.push(secret[i]);
        i += 1;
        assert(data@ =~= secret@.take(i as int));
    }
    data.extend_from_slice(ip);
    assert(data@ =~= secret@ + ip@);
    let digest = sha1_digest(data.as_slice());
    let mut token: Vec<u8> = Vec::new();
    let mut k: usize = 0;
    while k < TOKEN_LEN
        invariant
            k <= TOKEN_LEN,
            digest@.len() == 20,
            token@ == digest@.take(k as int),
        decreases TOKEN_LEN - k,
    {
        token.push(digest[k]);
        k += 1;
        assert(token@ =~= digest@.take(k as int));
    }
    token
}

/// A query from another node, as far as the answer depends on it.
pub struct Query {
    /// Name of the method.
    pub method: String,
    /// The argument `target`.
    pub target: Option<Vec<u8>>,
    /// The argument `info_hash`.
    pub info_hash: Option<Vec<u8>>,
}

/// The answer to a query.
pub enum Answer {
    /// Our ID.
    Id,
    /// The nodes that are closest to the target.
    Closest { target: InfoHash },
    /// A token, and the nodes that are closest to the torrent.
    ClosestWithToken { info_hash: InfoHash, token: Vec<u8> },
}

/// Whether an answer is the one to a query. `ip` is the address that the query
/// came from, as text.
pub open spec fn is_answer(q: Query, secret: Seq<u8>, ip: Seq<u8>, r: Option<Answer>) -> bool {
    let m = q.method@;
    if m == "ping"@ || m == "announce_peer"@ {
        r == Some(Answer::Id)
    } else if m == "find_node"@ {
        match q.target {
            Some(t) => r matches Some(Answer::Closest { target }) && target@ == padded(t@),
            None => r is None,
        }
    } else if m == "get_peers"@ {
        match q.info_hash {
            Some(h) => r matches Some(Answer::ClosestWithToken { info_hash, token }) && info_hash@
                == padded(h@) && token@ == token_for(secret, ip),
            None => r is None,
        }
    } else {
        r is None
    }
}

/// Answer a query. One that is unknown or lacks its argument gets no answer.
pub fn answer_query(q: &Query, secret: &InfoHash, ip: &[u8]) -> (r: Option<Answer>)
    ensures
        is_answer(*q, secret@, ip@, r),
{
    proof {
        reveal_strlit("ping");
        reveal_strlit("find_node");
        reveal_strlit("get_peers");
        reveal_strlit("announce_peer");
    }
    let method = chars_of(q.method.as_str());
    if same_text(&method, &chars_of("ping")) || same_text(&method, &chars_of("announce_peer")) {
        return Some(Answer::Id);
    }
    if same_text(&method, &chars_of("find_node")) {
        return match &q.target {
            Some(t) => Some(Answer::Closest { target: pad_id(t.as_slice()) }),
            None => None,
        };
    }
    if same_text(&method, &chars_of("get_peers")) {
        return match &q.info_hash {
            Some(h) => Some(
                Answer::ClosestWithToken {
                    info_hash: pad_id(h.as_slice()),
                    token: generate_token(secret, ip),
                },
            ),
            None => None,
        };
    }
    None
}

/// An IPv4 address is reached over the IPv4 socket, an IPv6 address over the IPv6
/// socket if there is one, and not at all otherwise.
pub proof fn law_route(addr: PeerAddr, has_v6: bool)
    ensures
        addr is V4 ==> route_of(addr, has_v6) == Some(Route::V4),
        addr is V6 && has_v6 ==> route_of(addr, has_v6) == Some(Route::V6),
        addr is V6 && !has_v6 ==> route_of(addr, has_v6) is None,
{
}

/// The addresses that something is sent to: all of the list, but for IPv6
/// addresses where there is no IPv6 socket.
pub proof fn law_reachable(addrs: Seq<PeerAddr>, has_v6: bool, a: PeerAddr)
    ensures
        addrs.filter(is_reachable(has_v6)).contains(a) <==> addrs.contains(a) && (a is V4
            || has_v6),
{
    lemma_filtered(addrs, is_reachable(has_v6));
}

/// A round queries pending nodes only, and it is never short of nodes while there
/// is a pending one that was not queried.
pub proof fn law_round_is_full(
    queried: Seq<InfoHash>,
    pending: Seq<Node>,
    max: nat,
    k: int,
)
    requires
        0 <= k < pending.len(),
    ensures
        ({
            let batch = unseen(queried, pending, max);
            &&& forall|i: int| 0 <= i < batch.len() ==> pending.contains(#[trigger] batch[i])
            &&& batch.len() < max ==> queried.contains(pending[k].id) || ids(batch).contains(
                pending[k].id,
            )
        }),
    decreases pending.len(),
{
    lemma_unseen_pending(queried, pending, max);
    if max > 0 {
        let rest = pending.drop_first();
        let first = pending[0];
        let batch = unseen(queried, pending, max);
        if queried.contains(first.id) {
            if k > 0 {
                law_round_is_full(queried, rest, max, k - 1);
            }
        } else {
            assert(ids(batch)[0] == first.id);
            if k > 0 {
                let q = queried.push(first.id);
                let later = unseen(q, rest, (max - 1) as nat);
                law_round_is_full(q, rest, (max - 1) as nat, k - 1);
                lemma_push_contains(queried, first.id, pending[k].id);
                if ids(later).contains(pending[k].id) {
                    let i = choose|i: int|
                        0 <= i < later.len() && ids(later)[i] == pending[k].id;
                    assert(batch[i + 1] == later[i]);
                    assert(ids(batch)[i + 1] == pending[k].id);
                }
            }
        }
    }
}

proof fn lemma_unseen_pending(queried: Seq<InfoHash>, pending: Seq<Node>, max: nat)
    ensures
        forall|i: int|
            0 <= i < unseen(queried, pending, max).len() ==> pending.contains(
                #[trigger] unseen(queried, pending, max)[i],
            ),
    decreases pending.len(),
{
    let batch = unseen(queried, pending, max);
    if pending.len() > 0 && max > 0 {
        let rest = pending.drop_first();
        let known = queried.contains(pending[0].id);
        let later = if known {
            unseen(queried, rest, max)
        } else {
            unseen(queried.push(pending[0].id), rest, (max - 1) as nat)
        };
        if known {
            lemma_unseen_pending(queried, rest, max);
        } else {
            lemma_unseen_pending(queried.push(pending[0].id), rest, (max - 1) as nat);
        }
        assert forall|i: int| 0 <= i < batch.len() implies pending.contains(
            #[trigger] batch[i],
        ) by {
            let d: int = if known {
                0
            } else {
                1
            };
            if i >= d {
                assert(batch[i] == later[i - d]);
                let j = choose|j: int| 0 <= j < rest.len() && rest[j] == later[i - d];
                assert(pending[j + 1] == batch[i]);
            } else {
                assert(pending[0] == batch[i]);
            }
        }
    }
}

/// The nodes learned from an answer are those in it that were not queried.
pub proof fn law_learned(nodes: Seq<Node>, queried: Seq<InfoHash>, n: Node)
    ensures
        nodes.filter(not_queried(queried)).contains(n) <==> nodes.contains(n)
            && !queried.contains(n.id),
{
    lemma_filtered(nodes, not_queried(queried));
}

/// An ID of the right length is kept as it is; a longer one loses its end, and a
/// shorter one ends in zeros.
pub proof fn law_padded(bytes: Seq<u8>, i: int)
    requires
        0 <= i < 20,
    ensures
        padded(bytes).len() == 20,
        i < bytes.len() ==> padded(bytes)[i] == bytes[i],
        i >= bytes.len() ==> padded(bytes)[i] == 0,
        bytes.len() == 20 ==> padded(bytes) == bytes,
{
    if bytes.len() == 20 {
        assert(padded(bytes) =~= bytes);
    }
}

/// A token is the beginning of the hash of the secret followed by the address.
pub proof fn law_token(secret: Seq<u8>, ip: Seq<u8>, i: int)
    requires
        0 <= i < 4,
        sha1_of(secret + ip).len() == 20,
    ensures
        token_for(secret, ip).len() == 4,
        token_for(secret, ip)[i] == sha1_of(secret + ip)[i],
{
}

/// What each method is answered: a ping and an announcement with our ID, a search
/// for nodes with those closest to the very target, a search for peers with those
/// closest to the very torrent and the token of the one who asks. What lacks its
/// argument, and any other method, gets no answer.
pub proof fn law_answers(q: Query, secret: Seq<u8>, ip: Seq<u8>, r: Option<Answer>)
    requires
        is_answer(q, secret, ip, r),
    ensures
        q.method@ == "ping"@ || q.method@ == "announce_peer"@ ==> r == Some(Answer::Id),
        q.method@ == "find_node"@ ==> match q.target {
            Some(t) => t@.len() == 20 ==> (r matches Some(Answer::Closest { target }) && target@
                == t@),
            None => r is None,
        },
        q.method@ == "get_peers"@ ==> match q.info_hash {
            Some(h) => h@.len() == 20 ==> (r matches Some(
                Answer::ClosestWithToken { info_hash, token },
            ) && info_hash@ == h@ && token@ == token_for(secret, ip)),
            None => r is None,
        },
        q.method@ != "ping"@ && q.method@ != "announce_peer"@ && q.method@ != "find_node"@
            && q.method@ != "get_peers"@ ==> r is None,
{
    reveal_strlit("ping");
    reveal_strlit("find_node");
    reveal_strlit("get_peers");
    reveal_strlit("announce_peer");
    assert("ping"@.len() != "find_node"@.len());
    assert("ping"@.len() != "get_peers"@.len());
    assert("announce_peer"@.len() != "find_node"@.len());
    assert("announce_peer"@.len() != "get_peers"@.len());
    assert("find_node"@[0] != "get_peers"@[0]);
    if let Some(t) = q.target {
        law_padded(t@, 0);
    }
    if let Some(h) = q.info_hash {
        law_padded(h@, 0);
    }
}

/// A lookup ends with the first peers it finds, or fifteen seconds after it was
/// started. Otherwise it goes on with every node that was not queried, and with no
/// other; peers and queries are kept.
pub proof fn law_lookup(v: LookupView, nodes: Seq<Node>, started: Nanos, now: Nanos, n: Node)
    ensures
        v.peers.len() > 0 ==> is_over(v, started, now),
        v.peers.len() == 0 ==> (is_over(v, started, now) <==> started + 15_000_000_000 <= now),
        ({
            let w = with_nodes(v, nodes);
            &&& w.peers == v.peers
            &&& w.queried == v.queried
            &&& w.pending.contains(n) <==> v.pending.contains(n) || (nodes.contains(n)
                && !v.queried.contains(n.id))
        }),
{
    let more = nodes.filter(not_queried(v.queried));
    let w = with_nodes(v, nodes);
    lemma_filtered(nodes, not_queried(v.queried));
    if w.pending.contains(n) {
        let i = choose|i: int| 0 <= i < w.pending.len() && w.pending[i] == n;
        if i < v.pending.len() {
            assert(v.pending[i] == n);
        } else {
            assert(more[i - v.pending.len()] == n);
        }
    }
    if v.pending.contains(n) {
        let i = choose|i: int| 0 <= i < v.pending.len() && v.pending[i] == n;
        assert(w.pending[i] == n);
    }
    if more.contains(n) {
        let i = choose|i: int| 0 <= i < more.len() && more[i] == n;
        assert(w.pending[v.pending.len() + i] == n);
    }
}

} // verus!
