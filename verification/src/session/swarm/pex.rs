//! Peer exchange.

use crate::addr::PeerAddr;
use crate::peer::message::PeerMessage;
use crate::seqs::{first_where, lemma_filtered};
use crate::session::download::tables::Peers;
use crate::session::download::types::{ExtensionIds, PeerEvent, PeerView, PIPELINE_SIZE};
use crate::time::{elapsed, elapsed_at, Nanos};
use vstd::prelude::*;

verus! {

/// The name of the peer exchange extension.
pub const UT_PEX: &'static str = "ut_pex";

/// The message number we offer for peer exchange.
pub const UT_PEX_ID: u8 = 1;

/// How many peers of one address family a message may add.
pub const MAX_ADDED: usize = 50;

/// What a peer exchange message says.
pub struct PexMessage {
    /// IPv4 peers that joined.
    pub added: Vec<PeerAddr>,
    /// IPv6 peers that joined.
    pub added6: Vec<PeerAddr>,
    /// IPv4 peers that left.
    pub dropped: Vec<PeerAddr>,
    /// IPv6 peers that left.
    pub dropped6: Vec<PeerAddr>,
}

/// What the extension handshake of a peer says.
pub struct Negotiation {
    /// Message numbers that the peer offers.
    pub ids: ExtensionIds,
    /// What the peer calls itself.
    pub version: Option<String>,
    /// Size of the info dictionary.
    pub metadata_size: Option<u64>,
    /// How many requests the peer queues.
    pub reqq: Option<i64>,
}

/// Whether an offer is for the named extension.
pub open spec fn is_named(name: Seq<char>) -> spec_fn((String, u8)) -> bool {
    |e: (String, u8)| e.0@ == name
}

/// The message number offered for an extension.
pub open spec fn ext_lookup(ids: Seq<(String, u8)>, name: Seq<char>) -> Option<u8> {
    let i = first_where(ids, is_named(name));
    if i < ids.len() {
        Some(ids[i].1)
    } else {
        None
    }
}

/// The message number offered for an extension.
pub fn ext_id(ids: &ExtensionIds, name: &str) -> (r: Option<u8>)
    ensures
        r == ext_lookup(ids@, name@),
{
    let wanted = name.to_string();
    let mut i: usize = 0;
    while i < ids.len()
        invariant
            i <= ids@.len(),
            wanted@ == name@,
            forall|j: int| 0 <= j < i ==> !is_named(name@)(#[trigger] ids@[j]),
        decreases ids@.len() - i,
    {
        if ids[i].0 == wanted {
            proof {
                crate::seqs::lemma_first_where_is(ids@, is_named(name@), i as int);
            }
            return Some(ids[i].1);
        }
        i += 1;
    }
    proof {
        crate::seqs::lemma_first_where_is(ids@, is_named(name@), i as int);
    }
    None
}

/// Whether an address belongs to the family and is not the one to skip.
pub open spec fn in_family(skip: Option<PeerAddr>, v4: bool) -> spec_fn(PeerAddr) -> bool {
    |a: PeerAddr| skip != Some(a) && a.spec_is_ipv4() == v4
}

/// The addresses of one family, in order, without the one to skip.
pub fn of_family(list: &[PeerAddr], skip: Option<PeerAddr>, v4: bool) -> (r: Vec<PeerAddr>)
    ensures
        r@ == list@.filter(in_family(skip, v4)),
{
    let mut r: Vec<PeerAddr> = Vec::new();
    let mut i: usize = 0;
    proof {
        reveal(Seq::filter);
        assert(list@.take(0).filter(in_family(skip, v4)) =~= Seq::<PeerAddr>::empty());
    }
    while i < list.len()
        invariant
            i <= list@.len(),
            r@ == list@.take(i as int).filter(in_family(skip, v4)),
        decreases list@.len() - i,
    {
        let a = list[i];
        proof {
            reveal(Seq::filter);
            assert(list@.take(i + 1).drop_last() =~= list@.take(i as int));
        }
        let skipped = match skip {
            Some(s) => s == a,
            None => false,
        };
        if !skipped && a.is_ipv4() == v4 {
            r.push(a);
        }
        i += 1;
    }
    assert(list@.take(i as int) =~= list@);
    r
}

/// The first `n` elements, or all if there are fewer.
pub open spec fn up_to(s: Seq<PeerAddr>, n: int) -> Seq<PeerAddr> {
    s.take(vstd::math::min(n, s.len() as int))
}

/// What we tell a peer: the connected peers but itself, at most fifty of each
/// family, and the peers that left.
pub open spec fn message_for(
    msg: PexMessage,
    addr: PeerAddr,
    connected: Seq<PeerAddr>,
    dropped: Seq<PeerAddr>,
) -> bool {
    &&& msg.added@ == up_to(connected.filter(in_family(Some(addr), true)), MAX_ADDED as int)
    &&& msg.added6@ == up_to(connected.filter(in_family(Some(addr), false)), MAX_ADDED as int)
    &&& msg.dropped@ == dropped.filter(in_family(None, true))
    &&& msg.dropped6@ == dropped.filter(in_family(None, false))
}

/// The message number for a peer that is due a message: it offers the
/// extension, and the last message lies at least `interval` back.
pub open spec fn pex_due(p: PeerView, interval: Nanos, now: Nanos) -> Option<u8> {
    if p.last_pex_sent matches Some(t) && elapsed_at(t, now) < interval {
        None
    } else {
        ext_lookup(p.remote_extension_ids, UT_PEX@)
    }
}

/// Put together the message for a peer, if it is due one.
pub fn pex_for(
    peers: &Peers,
    interval: Nanos,
    addr: &PeerAddr,
    connected: &Vec<PeerAddr>,
    dropped: &Vec<PeerAddr>,
    now: Nanos,
) -> (r: Option<(u8, PexMessage)>)
    requires
        peers.wf(),
    ensures
        match r {
            Some((id, msg)) => peers@.contains_key(*addr) && pex_due(peers@[*addr], interval, now)
                == Some(id) && message_for(msg, *addr, connected@, dropped@),
            None => !peers@.contains_key(*addr) || pex_due(peers@[*addr], interval, now) is None,
        },
{
    let peer = match peers.get(addr) {
        Some(p) => p,
        None => {
            return None;
        },
    };
    let id = match ext_id(&peer.remote_extension_ids, UT_PEX) {
        Some(id) => id,
        None => {
            return None;
        },
    };
    if let Some(t) = peer.last_pex_sent {
        if elapsed(t, now) < interval {
            return None;
        }
    }
    let mut added = of_family(connected.as_slice(), Some(*addr), true);
    let mut added6 = of_family(connected.as_slice(), Some(*addr), false);
    let ghost all = added@;
    let ghost all6 = added6@;
    added.truncate(MAX_ADDED);
    added6.truncate(MAX_ADDED);
    proof {
        assert(added@ =~= up_to(all, MAX_ADDED as int));
        assert(added6@ =~= up_to(all6, MAX_ADDED as int));
    }
    let msg = PexMessage {
        added,
        added6,
        dropped: of_family(dropped.as_slice(), None, true),
        dropped6: of_family(dropped.as_slice(), None, false),
    };
    Some((id, msg))
}

/// Remember that a message was sent to the peer.
pub fn pex_sent(peers: &mut Peers, addr: &PeerAddr, now: Nanos)
    requires
        old(peers).wf(),
    ensures
        final(peers).wf(),
        final(peers).order() == old(peers).order(),
        final(peers)@ == if old(peers)@.contains_key(*addr) {
            old(peers)@.insert(
                *addr,
                PeerView { last_pex_sent: Some(now), ..old(peers)@[*addr] },
            )
        } else {
            old(peers)@
        },
{
    if let Some(p) = peers.get_mut(addr) {
        p.last_pex_sent = Some(now);
    }
}

/// Remember that a message came from the peer.
pub fn pex_received(peers: &mut Peers, addr: &PeerAddr, now: Nanos)
    requires
        old(peers).wf(),
    ensures
        final(peers).wf(),
        final(peers).order() == old(peers).order(),
        final(peers)@ == if old(peers)@.contains_key(*addr) {
            old(peers)@.insert(
                *addr,
                PeerView { last_pex_received: Some(now), ..old(peers)@[*addr] },
            )
        } else {
            old(peers)@
        },
{
    if let Some(p) = peers.get_mut(addr) {
        p.last_pex_received = Some(now);
    }
}

/// The queue depth after a handshake: what the peer states, but no more than
/// our own pipeline; a value that makes no sense counts as our own.
pub open spec fn agreed_depth(current: usize, reqq: Option<i64>) -> usize {
    match reqq {
        None => current,
        Some(n) => if 0 <= n < PIPELINE_SIZE {
            n as usize
        } else {
            PIPELINE_SIZE
        },
    }
}

/// Store what the extension handshake of a peer says.
pub fn handle_ltep_handshake(peers: &mut Peers, addr: &PeerAddr, neg: Negotiation)
    requires
        old(peers).wf(),
    ensures
        final(peers).wf(),
        final(peers).order() == old(peers).order(),
        final(peers)@ == if old(peers)@.contains_key(*addr) {
            let p = old(peers)@[*addr];
            old(peers)@.insert(
                *addr,
                PeerView {
                    remote_extension_ids: neg.ids@,
                    client_version: neg.version,
                    metadata_size: neg.metadata_size,
                    max_requests: agreed_depth(p.max_requests, neg.reqq),
                    ..p
                },
            )
        } else {
            old(peers)@
        },
{
    if let Some(p) = peers.get_mut(addr) {
        p.remote_extension_ids = neg.ids;
        p.client_version = neg.version;
        p.metadata_size = neg.metadata_size;
        if let Some(n) = neg.reqq {
            p.max_requests = if n >= 0 && n < PIPELINE_SIZE as i64 {
                n as usize
            } else {
                PIPELINE_SIZE
            };
        }
    }
}

/// Whether the number is the one we offered the peer for peer exchange.
pub fn is_pex(peers: &Peers, addr: &PeerAddr, id: u8) -> (r: bool)
    requires
        peers.wf(),
    ensures
        r == (peers@.contains_key(*addr) && ext_lookup(peers@[*addr].our_extension_ids, UT_PEX@)
            == Some(id)),
{
    match peers.get(addr) {
        Some(p) => match ext_id(&p.our_extension_ids, UT_PEX) {
            Some(offered) => offered == id,
            None => false,
        },
        None => false,
    }
}

/// What an event means for peer exchange.
#[derive(Clone, Copy, Debug, PartialEq, Eq, Structural)]
pub enum PexEvent {
    /// A peer left; it will be reported as dropped.
    Dropped,
    /// An extension handshake: store it, then send a first message.
    Handshake,
    /// A peer exchange message.
    Exchange,
    /// Nothing.
    Ignored,
}

/// What an event of a peer means; `offered` is the number that we offered the peer
/// for peer exchange.
pub open spec fn meaning_of(event: PeerEvent, offered: Option<u8>) -> PexEvent {
    match event {
        PeerEvent::Disconnected => PexEvent::Dropped,
        PeerEvent::Message(PeerMessage::Extended { ext_id, .. }) => if ext_id == 0 {
            PexEvent::Handshake
        } else if offered == Some(ext_id) {
            PexEvent::Exchange
        } else {
            PexEvent::Ignored
        },
        _ => PexEvent::Ignored,
    }
}

/// Peer exchange with the peers of one torrent.
pub struct PexExtension {
    interval: Nanos,
    recently_dropped: Vec<PeerAddr>,
}

impl PexExtension {
    /// The time between two messages to the same peer.
    pub closed spec fn spec_interval(&self) -> Nanos {
        self.interval
    }

    /// The peers that left since the last broadcast.
    pub closed spec fn dropped(&self) -> Seq<PeerAddr> {
        self.recently_dropped@
    }

    /// An extension that broadcasts every `interval`.
    pub fn new(interval: Nanos) -> (x: PexExtension)
        ensures
            x.spec_interval() == interval,
            x.dropped() == Seq::<PeerAddr>::empty(),
    {
        PexExtension { interval, recently_dropped: Vec::new() }
    }

    /// The message numbers to offer a peer.
    pub fn ltep_extensions(&self) -> (ids: ExtensionIds)
        ensures
            ids@.len() == 1,
            ids@[0].0@ == UT_PEX@,
            ids@[0].1 == UT_PEX_ID,
            ext_lookup(ids@, UT_PEX@) == Some(UT_PEX_ID),
    {
        let mut ids: ExtensionIds = Vec::new();
        ids.push((UT_PEX.to_string(), UT_PEX_ID));
        proof {
            crate::seqs::lemma_first_where_is(ids@, is_named(UT_PEX@), 0);
        }
        ids
    }

    /// Take note of an event, and tell what it means.
    pub fn on_peer_event(&mut self, addr: PeerAddr, event: &PeerEvent, peers: &Peers) -> (r:
        PexEvent)
        requires
            peers.wf(),
        ensures
            final(self).spec_interval() == old(self).spec_interval(),
            final(self).dropped() == if event is Disconnected {
                old(self).dropped().push(addr)
            } else {
                old(self).dropped()
            },
            r == match event {
                PeerEvent::Disconnected => PexEvent::Dropped,
                PeerEvent::Message(PeerMessage::Extended { ext_id, .. }) => if *ext_id == 0 {
                    PexEvent::Handshake
                } else if peers@.contains_key(addr) && ext_lookup(
                    peers@[addr].our_extension_ids,
                    UT_PEX@,
                ) == Some(*ext_id) {
                    PexEvent::Exchange
                } else {
                    PexEvent::Ignored
                },
                _ => PexEvent::Ignored,
            },
            r == meaning_of(
                *event,
                if peers@.contains_key(addr) {
                    ext_lookup(peers@[addr].our_extension_ids, UT_PEX@)
                } else {
                    None
                },
            ),
    {
        match event {
            PeerEvent::Disconnected => {
                self.recently_dropped.push(addr);
                PexEvent::Dropped
            },
            PeerEvent::Message(msg) => match msg {
                PeerMessage::Extended { ext_id, data: _ } => {
                    if *ext_id == 0 {
                        PexEvent::Handshake
                    } else if is_pex(peers, &addr, *ext_id) {
                        PexEvent::Exchange
                    } else {
                        PexEvent::Ignored
                    }
                },
                _ => PexEvent::Ignored,
            },
        }
    }

    /// Start a broadcast: the peers that offer the extension, and the peers
    /// that left since the last broadcast, which are then forgotten.
    pub fn begin_broadcast(&mut self, peers: &Peers) -> (r: (Vec<PeerAddr>, Vec<PeerAddr>))
        requires
            peers.wf(),
        ensures
            final(self).spec_interval() == old(self).spec_interval(),
            final(self).dropped() == Seq::<PeerAddr>::empty(),
            r.0@ == peers.order().filter(offers_pex(peers@)),
            r.1@ == old(self).dropped(),
    {
        let mut dropped: Vec<PeerAddr> = Vec::new();
        std::mem::swap(&mut self.recently_dropped, &mut dropped);
        let addrs = peers.addrs();
        let ghost order = peers.order();
        let ghost f = offers_pex(peers@);
        let mut to: Vec<PeerAddr> = Vec::new();
        proof {
            peers.lemma_wf();
            reveal(Seq::filter);
            assert(order.take(0).filter(f) =~= Seq::<PeerAddr>::empty());
        }
        let mut k: usize = 0;
        while k < addrs.len()
            invariant
                k <= addrs@.len(),
                peers.wf(),
                addrs@ == order,
                f == offers_pex(peers@),
                forall|a: PeerAddr| #[trigger] peers@.contains_key(a) <==> order.contains(a),
                to@ == order.take(k as int).filter(f),
            decreases addrs@.len() - k,
        {
            let a = addrs[k];
            proof {
                reveal(Seq::filter);
                assert(order.take(k + 1).drop_last() =~= order.take(k as int));
            }
            if let Some(p) = peers.get(&a) {
                if ext_id(&p.remote_extension_ids, UT_PEX).is_some() {
                    to.push(a);
                }
            }
            k += 1;
        }
        assert(order.take(k as int) =~= order);
        (to, dropped)
    }

    /// The peers that left, without the recipient.
    pub fn dropped_for(dropped: &Vec<PeerAddr>, addr: PeerAddr) -> (r: Vec<PeerAddr>)
        ensures
            r@ == dropped@.filter(is_not(addr)),
    {
        let ghost f = is_not(addr);
        let mut r: Vec<PeerAddr> = Vec::new();
        proof {
            reveal(Seq::filter);
            assert(dropped@.take(0).filter(f) =~= Seq::<PeerAddr>::empty());
        }
        let mut k: usize = 0;
        while k < dropped.len()
            invariant
                k <= dropped@.len(),
                f == is_not(addr),
                r@ == dropped@.take(k as int).filter(f),
            decreases dropped@.len() - k,
        {
            let a = dropped[k];
            proof {
                reveal(Seq::filter);
                assert(dropped@.take(k + 1).drop_last() =~= dropped@.take(k as int));
            }
            if a != addr {
                r.push(a);
            }
            k += 1;
        }
        assert(dropped@.take(k as int) =~= dropped@);
        r
    }

    /// Broadcast: the message for every peer that is due one. The peers that
    /// left since the last broadcast are reported and forgotten.
    pub fn broadcast(&mut self, peers: &Peers, connected: &Vec<PeerAddr>, now: Nanos) -> (r: Vec<
        (PeerAddr, u8, PexMessage),
    >)
        requires
            peers.wf(),
        ensures
            final(self).spec_interval() == old(self).spec_interval(),
            final(self).dropped() == Seq::<PeerAddr>::empty(),
            ({
                let due = peers.order().filter(is_due(peers@, old(self).spec_interval(), now));
                &&& r@.len() == due.len()
                &&& forall|i: int|
                    0 <= i < r@.len() ==> {
                        &&& (#[trigger] r@[i]).0 == due[i]
                        &&& pex_due(peers@[due[i]], old(self).spec_interval(), now) == Some(r@[i].1)
                        &&& message_for(
                            r@[i].2,
                            due[i],
                            connected@,
                            old(self).dropped().filter(is_not(due[i])),
                        )
                    }
            }),
    {
        let ghost order = peers.order();
        let ghost f = offers_pex(peers@);
        let ghost g = is_due(peers@, old(self).spec_interval(), now);
        let (to, dropped) = self.begin_broadcast(peers);
        let mut r: Vec<(PeerAddr, u8, PexMessage)> = Vec::new();
        proof {
            reveal(Seq::filter);
            assert(to@.take(0).filter(g) =~= Seq::<PeerAddr>::empty());
        }
        let mut k: usize = 0;
        while k < to.len()
            invariant
                k <= to@.len(),
                peers.wf(),
                self.interval == old(self).interval,
                self.dropped() == Seq::<PeerAddr>::empty(),
                dropped@ == old(self).dropped(),
                g == is_due(peers@, old(self).interval, now),
                r@.len() == to@.take(k as int).filter(g).len(),
                forall|i: int|
                    0 <= i < r@.len() ==> {
                        let a = to@.take(k as int).filter(g)[i];
                        &&& (#[trigger] r@[i]).0 == a
                        &&& pex_due(peers@[a], old(self).interval, now) == Some(r@[i].1)
                        &&& message_for(
                            r@[i].2,
                            a,
                            connected@,
                            dropped@.filter(is_not(a)),
                        )
                    },
            decreases to@.len() - k,
        {
            let addr = to[k];
            proof {
                reveal(Seq::filter);
                assert(to@.take(k + 1).drop_last() =~= to@.take(k as int));
            }
            let gone = Self::dropped_for(&dropped, addr);
            if let Some((id, msg)) = pex_for(peers, self.interval, &addr, connected, &gone, now) {
                r.push((addr, id, msg));
            }
            k += 1;
        }
        proof {
            assert(to@.take(k as int) =~= to@);
            lemma_filter_filter(order, f, g);
        }
        r
    }
}

/// Whether an address is another one.
pub open spec fn is_not(addr: PeerAddr) -> spec_fn(PeerAddr) -> bool {
    |a: PeerAddr| a != addr
}

/// Whether a peer offers the extension.
pub open spec fn offers_pex(peers: Map<PeerAddr, PeerView>) -> spec_fn(PeerAddr) -> bool {
    |a: PeerAddr| ext_lookup(peers[a].remote_extension_ids, UT_PEX@) is Some
}

/// Whether a peer is due a message.
pub open spec fn is_due(
    peers: Map<PeerAddr, PeerView>,
    interval: Nanos,
    now: Nanos,
) -> spec_fn(PeerAddr) -> bool {
    |a: PeerAddr| peers.contains_key(a) && pex_due(peers[a], interval, now) is Some
}

proof fn lemma_filter_filter(
    s: Seq<PeerAddr>,
    f: spec_fn(PeerAddr) -> bool,
    g: spec_fn(PeerAddr) -> bool,
)
    requires
        forall|a: PeerAddr| #[trigger] g(a) ==> f(a),
    ensures
        s.filter(f).filter(g) == s.filter(g),
    decreases s.len(),
{
    reveal(Seq::filter);
    if s.len() > 0 {
        lemma_filter_filter(s.drop_last(), f, g);
        let t = s.drop_last().filter(f);
        if f(s.last()) {
            assert(t.push(s.last()).drop_last() =~= t);
        } else {
            assert(!g(s.last()));
        }
    }
}

/// A message never names its recipient among the peers that joined, lists at
/// most fifty peers of each family, and keeps the families apart.
pub proof fn law_message(
    msg: PexMessage,
    addr: PeerAddr,
    connected: Seq<PeerAddr>,
    dropped: Seq<PeerAddr>,
)
    requires
        message_for(msg, addr, connected, dropped),
    ensures
        !msg.added@.contains(addr),
        !msg.added6@.contains(addr),
        msg.added@.len() <= 50,
        msg.added6@.len() <= 50,
        forall|i: int| 0 <= i < msg.added@.len() ==> (#[trigger] msg.added@[i]).spec_is_ipv4(),
        forall|i: int| 0 <= i < msg.added6@.len() ==> !(#[trigger] msg.added6@[i]).spec_is_ipv4(),
        forall|i: int| 0 <= i < msg.dropped@.len() ==> (#[trigger] msg.dropped@[i]).spec_is_ipv4(),
        forall|i: int| 0 <= i < msg.dropped6@.len() ==> !(#[trigger] msg.dropped6@[i]).spec_is_ipv4(),
{
    assert forall|i: int| 0 <= i < msg.added@.len() implies (#[trigger] msg.added@[i]).spec_is_ipv4()
        && msg.added@[i] != addr by {
        connected.lemma_filter_pred(in_family(Some(addr), true), i);
    }
    assert forall|i: int| 0 <= i < msg.added6@.len() implies !(
    #[trigger] msg.added6@[i]).spec_is_ipv4() && msg.added6@[i] != addr by {
        connected.lemma_filter_pred(in_family(Some(addr), false), i);
    }
    assert forall|i: int| 0 <= i < msg.dropped@.len() implies (
    #[trigger] msg.dropped@[i]).spec_is_ipv4() by {
        dropped.lemma_filter_pred(in_family(None, true), i);
    }
    assert forall|i: int| 0 <= i < msg.dropped6@.len() implies !(
    #[trigger] msg.dropped6@[i]).spec_is_ipv4() by {
        dropped.lemma_filter_pred(in_family(None, false), i);
    }
}

/// A message names only peers that are connected, and only peers that left as
/// left. It leaves none of them out, but for connected peers of a family once it
/// holds fifty of that family, and its recipient.
pub proof fn law_message_complete(
    msg: PexMessage,
    addr: PeerAddr,
    connected: Seq<PeerAddr>,
    dropped: Seq<PeerAddr>,
    a: PeerAddr,
)
    requires
        message_for(msg, addr, connected, dropped),
    ensures
        msg.added@.contains(a) || msg.added6@.contains(a) ==> connected.contains(a),
        connected.contains(a) && a != addr && a is V4 ==> msg.added@.contains(a)
            || msg.added@.len() == 50,
        connected.contains(a) && a != addr && a is V6 ==> msg.added6@.contains(a)
            || msg.added6@.len() == 50,
        msg.dropped@.contains(a) <==> dropped.contains(a) && a is V4,
        msg.dropped6@.contains(a) <==> dropped.contains(a) && a is V6,
{
    let four = connected.filter(in_family(Some(addr), true));
    let six = connected.filter(in_family(Some(addr), false));
    lemma_filtered(connected, in_family(Some(addr), true));
    lemma_filtered(connected, in_family(Some(addr), false));
    lemma_filtered(dropped, in_family(None, true));
    lemma_filtered(dropped, in_family(None, false));
    lemma_up_to(four, a);
    lemma_up_to(six, a);
}

proof fn lemma_up_to(s: Seq<PeerAddr>, a: PeerAddr)
    ensures
        up_to(s, MAX_ADDED as int).contains(a) ==> s.contains(a),
        s.contains(a) ==> up_to(s, MAX_ADDED as int).contains(a) || up_to(
            s,
            MAX_ADDED as int,
        ).len() == MAX_ADDED,
{
    let t = up_to(s, MAX_ADDED as int);
    if t.contains(a) {
        let i = choose|i: int| 0 <= i < t.len() && t[i] == a;
        assert(s[i] == a);
    }
    if s.len() <= MAX_ADDED {
        assert(t =~= s);
    }
}

/// A peer gets a message under a number that it offered for the extension. It gets
/// none without such an offer, nor within the interval after the last one; a peer
/// that offers the extension and was sent nothing yet is due one at once.
pub proof fn law_due(p: PeerView, interval: Nanos, now: Nanos, k: int)
    ensures
        pex_due(p, interval, now) matches Some(id) ==> {
            &&& exists|i: int|
                0 <= i < p.remote_extension_ids.len() && (
                #[trigger] p.remote_extension_ids[i]).0@ == UT_PEX@ && p.remote_extension_ids[i].1
                    == id
            &&& p.last_pex_sent matches Some(t) ==> interval == 0 || t + interval <= now
        },
        0 <= k < p.remote_extension_ids.len() && p.remote_extension_ids[k].0@ == UT_PEX@ && (
        p.last_pex_sent is None || interval == 0 || (p.last_pex_sent matches Some(t) && t
            + interval <= now)) ==> pex_due(p, interval, now) is Some,
{
    law_ext_lookup(p.remote_extension_ids, UT_PEX@, k);
}

/// The number of an extension is one that was offered under its name, the first
/// of them; without an offer there is none.
pub proof fn law_ext_lookup(ids: Seq<(String, u8)>, name: Seq<char>, k: int)
    ensures
        ext_lookup(ids, name) matches Some(id) ==> exists|i: int|
            {
                &&& 0 <= i < ids.len()
                &&& (#[trigger] ids[i]).0@ == name
                &&& ids[i].1 == id
                &&& forall|j: int| 0 <= j < i ==> (#[trigger] ids[j]).0@ != name
            },
        0 <= k < ids.len() && ids[k].0@ == name ==> ext_lookup(ids, name) is Some,
{
    let f = is_named(name);
    crate::seqs::lemma_first_where(ids, f);
    let i = first_where(ids, f);
    if i < ids.len() {
        assert(ids[i].0@ == name);
        assert forall|j: int| 0 <= j < i implies (#[trigger] ids[j]).0@ != name by {
            assert(!f(ids[j]));
        }
    }
    if 0 <= k < ids.len() && ids[k].0@ == name {
        assert(f(ids[k]));
    }
}

/// The depth agreed on is never above our own pipeline where the peer states one;
/// a depth that fits is taken as stated, and without one nothing changes.
pub proof fn law_agreed_depth(current: usize, reqq: Option<i64>)
    ensures
        reqq is None ==> agreed_depth(current, reqq) == current,
        reqq is Some ==> agreed_depth(current, reqq) <= 5,
        reqq matches Some(n) ==> (0 <= n <= 5 ==> agreed_depth(current, reqq) == n),
        reqq matches Some(n) ==> (n < 0 || n > 5 ==> agreed_depth(current, reqq) == 5),
{
}

/// A broadcast goes to each peer that offers the extension and was sent nothing
/// within the interval, and to no other. What it says of peers that left does not
/// name the recipient.
pub proof fn law_recipients(
    peers: Map<PeerAddr, PeerView>,
    order: Seq<PeerAddr>,
    interval: Nanos,
    now: Nanos,
    a: PeerAddr,
    dropped: Seq<PeerAddr>,
    gone: PeerAddr,
)
    requires
        forall|x: PeerAddr| #[trigger] peers.contains_key(x) <==> order.contains(x),
    ensures
        order.filter(is_due(peers, interval, now)).contains(a) <==> {
            &&& peers.contains_key(a)
            &&& exists|i: int|
                0 <= i < peers[a].remote_extension_ids.len() && (
                #[trigger] peers[a].remote_extension_ids[i]).0@ == UT_PEX@
            &&& peers[a].last_pex_sent is None || interval == 0 || (
            peers[a].last_pex_sent matches Some(t) && t + interval <= now)
        },
        order.filter(offers_pex(peers)).contains(a) <==> {
            &&& peers.contains_key(a)
            &&& exists|i: int|
                0 <= i < peers[a].remote_extension_ids.len() && (
                #[trigger] peers[a].remote_extension_ids[i]).0@ == UT_PEX@
        },
        dropped.filter(is_not(a)).contains(gone) <==> dropped.contains(gone) && gone != a,
{
    lemma_filtered(order, is_due(peers, interval, now));
    lemma_filtered(order, offers_pex(peers));
    lemma_filtered(dropped, is_not(a));
    let ids = peers[a].remote_extension_ids;
    if exists|i: int| 0 <= i < ids.len() && (#[trigger] ids[i]).0@ == UT_PEX@ {
        let i = choose|i: int| 0 <= i < ids.len() && (#[trigger] ids[i]).0@ == UT_PEX@;
        law_due(peers[a], interval, now, i);
        law_ext_lookup(ids, UT_PEX@, i);
    } else {
        law_due(peers[a], interval, now, 0);
        law_ext_lookup(ids, UT_PEX@, 0);
    }
}

/// An extension message under number zero is a handshake. One under the number that
/// we offered for peer exchange is an exchange, and one under another number is not
/// for us, nor is any other message.
pub proof fn law_meaning(ext_id: u8, data: Vec<u8>, offered: Option<u8>, msg: PeerMessage)
    requires
        !(msg is Extended),
    ensures
        ({
            let e = meaning_of(PeerEvent::Message(PeerMessage::Extended { ext_id, data }), offered);
            &&& e == PexEvent::Handshake <==> ext_id == 0
            &&& e == PexEvent::Exchange <==> ext_id > 0 && offered == Some(ext_id)
            &&& e != PexEvent::Dropped
        }),
        meaning_of(PeerEvent::Message(msg), offered) == PexEvent::Ignored,
        meaning_of(PeerEvent::Disconnected, offered) == PexEvent::Dropped,
{
}

} // verus!
