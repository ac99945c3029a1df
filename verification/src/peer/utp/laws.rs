//! What a connection does, told by packets, numbers and times.

use super::connection::{
    accepted_view, ack_events, after, after_ack, after_chunk, after_control, after_data_sent,
    after_packet, checked, chunk_size, connected_view, control_packet, data_packet, data_packets,
    drained, events_of_packet, events_of_sends, head_chunk, is_acked, is_late, is_stuck, late_of,
    outbound_view, packets_view, resent, resent_packets, swept, tail_chunks, takes_ack,
    CongestionEvent, ConnState, ConnView, Packet, PacketView, SentView, Stamp, UtpError, UtpHeader,
    UtpType,
};
use super::socket::{dispatch_of, Dispatch};
use crate::addr::PeerAddr;
use crate::ordered::{ascending, lemma_ascending};
use crate::seqs::{first_where, lemma_filtered, lemma_first_where};
use crate::time::Nanos;
use vstd::prelude::*;

verus! {

/// Numbers go round after 65536 of them.
pub proof fn law_after(n: u16)
    ensures
        after(n) == (n + 1) % 0x1_0000,
{
}

/// An acknowledgement covers the number it names and the half circle before it:
/// those from which fewer than 32768 steps lead to it.
pub proof fn law_covers(seq: u16, ack: u16, d: int)
    requires
        0 <= d < 0x1_0000,
        (seq + d) % 0x1_0000 == ack,
    ensures
        is_acked(seq, ack) <==> d < 0x8000,
{
}

/// Delivering what was held leaves everything but the received data alone.
proof fn lemma_drained(v: ConnView)
    ensures
        drained(v) == (ConnView {
            ack_nr: drained(v).ack_nr,
            ready: drained(v).ready,
            held: drained(v).held,
            ..v
        }),
    decreases v.held.dom().len(),
{
    let next = after(v.ack_nr);
    if v.held.dom().finite() && v.held.contains_key(next) {
        let w = ConnView {
            ack_nr: next,
            ready: v.ready + v.held[next],
            held: v.held.remove(next),
            ..v
        };
        lemma_drained(w);
    }
}

/// How a packet changes the state of a connection. An acknowledgement answers our
/// SYN; the first data packet confirms an accepted connection. A reset closes an
/// established connection, and a FIN begins its end, or ends it if we sent ours.
/// When the other side has finished, the connection closes once nothing is in
/// flight. Whatever arrives counts as activity, and neither the addresses nor our
/// own numbers change.
pub proof fn law_states(v: ConnView, header: UtpHeader, payload: Seq<u8>, now: Nanos)
    ensures
        ({
            let w = after_packet(v, header, payload, now);
            let t = header.utp_type;
            &&& w.last_activity == now
            &&& w.remote_addr == v.remote_addr
            &&& w.conn_id_send == v.conn_id_send
            &&& w.conn_id_recv == v.conn_id_recv
            &&& w.seq_nr == v.seq_nr
            &&& v.state is SynSent && t is StState ==> w.state is Connected && w.ack_nr
                == header.seq_nr
            &&& v.state is SynSent && !(t is StState) ==> w.state is SynSent && w.ack_nr
                == v.ack_nr
            &&& v.state is SynRecv ==> (w.state is Connected <==> t is StData) && (w.state
                is SynRecv <==> !(t is StData))
            &&& v.state is Connected && t is StReset ==> w.state is Closed
            &&& v.state is Connected && t is StFin ==> w.state is FinRecv
            &&& v.state is Connected && (t is StData || t is StState || t is StSyn) ==> w.state
                is Connected
            &&& v.state is FinSent ==> w.state == if t is StFin {
                ConnState::Closed
            } else {
                ConnState::FinSent
            }
            &&& v.state is FinRecv ==> w.state == if forall|s: u16| !w.sent.contains_key(s) {
                ConnState::Closed
            } else {
                ConnState::FinRecv
            }
            &&& v.state is Closed ==> w.state is Closed
            &&& w.eof_pkt == if t is StFin && (v.state is Connected || v.state is SynRecv) {
                Some(header.seq_nr)
            } else {
                v.eof_pkt
            }
        }),
{
    let u = ConnView { last_activity: now, ..v };
    let a = after_ack(u, header.ack_nr);
    let b = after_ack(ConnView { state: ConnState::Connected, ..u }, header.ack_nr);
    lemma_drained(ConnView { ack_nr: header.seq_nr, ready: a.ready + payload, ..a });
    lemma_drained(ConnView { ack_nr: header.seq_nr, ready: b.ready + payload, ..b });
    if v.state is FinRecv {
        if forall|s: u16| !a.sent.contains_key(s) {
            assert(a.sent =~= Map::<u16, SentView>::empty());
        } else {
            let s = choose|s: u16| a.sent.contains_key(s);
            assert(!Map::<u16, SentView>::empty().contains_key(s));
        }
    }
}

/// A packet takes out of flight exactly the packets that its acknowledgement
/// covers, in every state in which data goes to the other side: data and FIN
/// packets, acknowledgements, and after a FIN anything. Other packets leave what is
/// in flight alone.
pub proof fn law_flight(
    v: ConnView,
    header: UtpHeader,
    payload: Seq<u8>,
    now: Nanos,
    s: u16,
)
    ensures
        ({
            let w = after_packet(v, header, payload, now);
            let t = header.utp_type;
            let read = match v.state {
                ConnState::SynSent => false,
                ConnState::SynRecv => t is StData,
                ConnState::Connected => t is StData || t is StState || t is StFin,
                ConnState::FinSent => true,
                ConnState::FinRecv => true,
                ConnState::Closed => false,
            };
            &&& read ==> (w.sent.contains_key(s) <==> v.sent.contains_key(s) && !is_acked(
                s,
                header.ack_nr,
            ))
            &&& !read ==> w.sent == v.sent
            &&& w.sent.contains_key(s) ==> w.sent[s] == v.sent[s]
            &&& takes_ack(v.state, t) == read
        }),
{
    let u = ConnView { last_activity: now, ..v };
    let a = after_ack(u, header.ack_nr);
    let b = after_ack(ConnView { state: ConnState::Connected, ..u }, header.ack_nr);
    lemma_drained(ConnView { ack_nr: header.seq_nr, ready: a.ready + payload, ..a });
    lemma_drained(ConnView { ack_nr: header.seq_nr, ready: b.ready + payload, ..b });
}

/// The congestion control hears of every packet first how long it was delayed. Of
/// an acknowledgement it then hears of the packets that are covered, and last that
/// the window is to be adjusted.
pub proof fn law_packet_events(v: ConnView, header: UtpHeader, now: Nanos)
    ensures
        ({
            let e = events_of_packet(v, header, now);
            &&& e.len() >= 1
            &&& e[0] == (CongestionEvent::Delay {
                micros: header.timestamp_difference_microseconds,
                now,
            })
            &&& takes_ack(v.state, header.utp_type) ==> e.len() >= 2 && e[e.len() - 1]
                == CongestionEvent::Adjust && e.subrange(1, e.len() - 1) == ack_events(
                v.sent,
                header.ack_nr,
                ascending(v.sent.dom()),
                now,
            )
            &&& !takes_ack(v.state, header.utp_type) ==> e.len() == 1
        }),
{
    let e = events_of_packet(v, header, now);
    if takes_ack(v.state, header.utp_type) {
        assert(e.subrange(1, e.len() - 1) =~= ack_events(
            v.sent,
            header.ack_nr,
            ascending(v.sent.dom()),
            now,
        ));
    }
}

/// Of a packet that is covered the congestion control hears its bytes, header and
/// payload; and before that how long the round trip took, in milliseconds, if the
/// packet was sent once. Of a packet that is not covered it hears nothing.
pub proof fn law_ack_event(
    sent: Map<u16, SentView>,
    ack: u16,
    keys: Seq<u16>,
    k: u16,
    now: Nanos,
)
    requires
        20 + sent[k].packet.payload.len() <= u32::MAX,
        sent[k].send_time <= now,
        now - sent[k].send_time < 1_000_000 * 0x1_0000_0000,
    ensures
        ({
            let before = ack_events(sent, ack, keys, now);
            let e = ack_events(sent, ack, keys.push(k), now);
            let n = e.len() as int;
            &&& !is_acked(k, ack) ==> e == before
            &&& is_acked(k, ack) ==> {
                &&& n == before.len() + if sent[k].rtt_measurable {
                    2int
                } else {
                    1int
                }
                &&& before.is_prefix_of(e)
                &&& e[n - 1] == (CongestionEvent::Acked {
                    bytes: (20 + sent[k].packet.payload.len()) as u32,
                })
                &&& sent[k].rtt_measurable ==> (e[n - 2] matches CongestionEvent::RoundTrip {
                    millis,
                } && millis * 1_000_000 <= now - sent[k].send_time < (millis + 1) * 1_000_000)
            }
        }),
{
    assert(keys.push(k).drop_last() =~= keys);
}

/// A packet that goes out carries our connection and what we received so far, and
/// has no extension.
pub proof fn law_header(v: ConnView, utp_type: UtpType, stamp: Stamp)
    ensures
        ({
            let p = control_packet(v, utp_type, stamp);
            let h = p.header;
            &&& p.payload.len() == 0
            &&& h.utp_type == utp_type
            &&& h.version == 1
            &&& h.extension == 0
            &&& h.connection_id == v.conn_id_send
            &&& h.timestamp_microseconds == stamp.timestamp_us
            &&& h.timestamp_difference_microseconds == stamp.reply_micro
            &&& h.wnd_size == 1_000_000
            &&& h.seq_nr == v.seq_nr
            &&& h.ack_nr == v.ack_nr
        }),
{
}

/// What was sent is in flight, as it was sent, from then on; only an
/// acknowledgement leaves its number to the next packet. A SYN packet does not
/// measure the round trip.
pub proof fn law_control_sent(v: ConnView, utp_type: UtpType, stamp: Stamp, s: u16)
    ensures
        ({
            let w = after_control(v, utp_type, stamp);
            let p = w.sent[v.seq_nr];
            &&& w.sent.contains_key(v.seq_nr)
            &&& p.packet == control_packet(v, utp_type, stamp)
            &&& p.send_time == stamp.now
            &&& p.retransmit_count == 0
            &&& p.rtt_measurable <==> !(utp_type is StSyn)
            &&& s != v.seq_nr ==> w.sent.contains_key(s) == v.sent.contains_key(s) && w.sent[s]
                == v.sent[s]
            &&& utp_type is StState ==> w.seq_nr == v.seq_nr
            &&& !(utp_type is StState) ==> w.seq_nr == (v.seq_nr + 1) % 0x1_0000
            &&& w.last_activity == stamp.now
            &&& w == (ConnView {
                seq_nr: w.seq_nr,
                sent: w.sent,
                last_activity: w.last_activity,
                ..v
            })
        }),
{
}

/// Every packet of data is full but the last, says that it carries data, goes over
/// our connection and acknowledges what we received.
pub proof fn law_data_packets(v: ConnView, data: Seq<u8>, size: int, stamp: Stamp, i: int)
    requires
        size > 0,
        0 <= i < data_packets(v, data, size, stamp).len(),
    ensures
        ({
            let all = data_packets(v, data, size, stamp);
            let p = all[i];
            &&& p.header.utp_type is StData
            &&& p.header.connection_id == v.conn_id_send
            &&& p.header.ack_nr == v.ack_nr
            &&& p.header.version == 1
            &&& p.header.timestamp_microseconds == stamp.timestamp_us
            &&& p.header.timestamp_difference_microseconds == stamp.reply_micro
            &&& i + 1 < all.len() ==> p.payload.len() == size
            &&& i * size + p.payload.len() <= data.len()
            &&& forall|j: int| 0 <= j < p.payload.len() ==> #[trigger] p.payload[j] == data[i * size
                + j]
        }),
    decreases data.len(),
{
    let all = data_packets(v, data, size, stamp);
    let chunk = head_chunk(data, size);
    let rest = tail_chunks(data, size);
    let w = after_chunk(v, chunk, stamp);
    let later = data_packets(w, rest, size, stamp);
    assert(all == seq![data_packet(v, chunk, stamp)] + later);
    if i > 0 {
        assert(all[i] == later[i - 1]);
        law_data_packets(w, rest, size, stamp, i - 1);
        assert((i - 1) * size + size == i * size) by (nonlinear_arith);
        let p = all[i];
        assert forall|j: int| 0 <= j < p.payload.len() implies #[trigger] p.payload[j] == data[i
            * size + j] by {
            assert(p.payload[j] == rest[(i - 1) * size + j]);
        }
    } else {
        assert(0 * size == 0);
    }
}

/// Data that was sent is in flight, packet by packet, under the numbers of the
/// packets, as long as these do not go all the way round.
pub proof fn law_data_in_flight(v: ConnView, data: Seq<u8>, size: int, stamp: Stamp, i: int)
    requires
        size > 0,
        0 <= i < data_packets(v, data, size, stamp).len(),
        data_packets(v, data, size, stamp).len() < 0x1_0000,
    ensures
        ({
            let p = data_packets(v, data, size, stamp)[i];
            let w = after_data_sent(v, data, size, stamp);
            let n = ((v.seq_nr + i) % 0x1_0000) as u16;
            &&& w.sent.contains_key(n)
            &&& w.sent[n] == (SentView {
                packet: p,
                send_time: stamp.now,
                retransmit_count: 0,
                rtt_measurable: true,
            })
        }),
    decreases data.len(),
{
    let all = data_packets(v, data, size, stamp);
    let chunk = head_chunk(data, size);
    let rest = tail_chunks(data, size);
    let u = after_chunk(v, chunk, stamp);
    let later = data_packets(u, rest, size, stamp);
    assert(all == seq![data_packet(v, chunk, stamp)] + later);
    if i > 0 {
        assert(all[i] == later[i - 1]);
        law_data_in_flight(u, rest, size, stamp, i - 1);
    } else {
        lemma_kept_in_flight(u, rest, size, stamp, v.seq_nr);
    }
}

/// Sending data replaces nothing in flight under another number.
proof fn lemma_kept_in_flight(v: ConnView, data: Seq<u8>, size: int, stamp: Stamp, s: u16)
    requires
        size > 0,
        (v.seq_nr - s) % 0x1_0000 + data_packets(v, data, size, stamp).len() <= 0x1_0000,
        (v.seq_nr - s) % 0x1_0000 > 0,
        v.sent.contains_key(s),
    ensures
        after_data_sent(v, data, size, stamp).sent.contains_key(s),
        after_data_sent(v, data, size, stamp).sent[s] == v.sent[s],
    decreases data.len(),
{
    if data.len() > 0 {
        let chunk = head_chunk(data, size);
        let rest = tail_chunks(data, size);
        let w = after_chunk(v, chunk, stamp);
        let later = data_packets(w, rest, size, stamp);
        assert(data_packets(v, data, size, stamp) == seq![data_packet(v, chunk, stamp)] + later);
        assert(v.seq_nr != s);
        if rest.len() > 0 {
            assert(later.len() > 0);
            lemma_kept_in_flight(w, rest, size, stamp, s);
        }
    }
}

/// The congestion control hears of every packet that is sent how many bytes it
/// has, header and payload.
pub proof fn law_send_events(packets: Seq<PacketView>, i: int)
    requires
        0 <= i < packets.len(),
        20 + packets[i].payload.len() <= u32::MAX,
    ensures
        events_of_sends(packets).len() == packets.len(),
        events_of_sends(packets)[i] matches CongestionEvent::InFlight { bytes } && bytes == 20
            + packets[i].payload.len(),
{
}

/// Payloads are as large as the congestion control says, but never below 150
/// bytes.
pub proof fn law_chunk_size(packet_size: u32)
    ensures
        packet_size >= 150 ==> chunk_size(packet_size) == packet_size,
        packet_size <= 150 ==> chunk_size(packet_size) == 150,
{
}

/// A connection that we open receives under the number that was drawn and sends
/// under the next one. It has one packet in flight, its SYN, and waits.
pub proof fn law_connecting(id: u16, remote_addr: PeerAddr, stamp: Stamp, s: u16)
    ensures
        ({
            let v = connected_view(id, remote_addr, stamp);
            let syn = control_packet(
                outbound_view(id, remote_addr, stamp.now),
                UtpType::StSyn,
                stamp,
            );
            &&& v.state is SynSent
            &&& v.remote_addr == remote_addr
            &&& v.conn_id_recv == id
            &&& v.conn_id_send == (id + 1) % 0x1_0000
            &&& syn.header.utp_type is StSyn
            &&& syn.header.connection_id == v.conn_id_send
            &&& syn.header.seq_nr == 2
            &&& syn.header.ack_nr == 0
            &&& v.ack_nr == 0
            &&& v.sent.contains_key(s) <==> s == syn.header.seq_nr
            &&& v.sent[syn.header.seq_nr].packet == syn
            &&& v.seq_nr == (syn.header.seq_nr + 1) % 0x1_0000
            &&& v.ready.len() == 0
            &&& v.eof_pkt is None
        }),
{
}

/// A connection that we accept receives under the number of the SYN packet and
/// sends under the next one. It has received that packet and nothing else.
pub proof fn law_accepting(
    syn: UtpHeader,
    seq_nr: u16,
    remote_addr: PeerAddr,
    now: Nanos,
    s: u16,
)
    ensures
        ({
            let v = accepted_view(syn, seq_nr, remote_addr, now);
            &&& v.state is SynRecv
            &&& v.remote_addr == remote_addr
            &&& v.conn_id_recv == syn.connection_id
            &&& v.conn_id_send == (syn.connection_id + 1) % 0x1_0000
            &&& v.ack_nr == syn.seq_nr
            &&& v.seq_nr == seq_nr
            &&& !v.sent.contains_key(s)
            &&& !v.held.contains_key(s)
            &&& v.ready.len() == 0
            &&& v.eof_pkt is None
        }),
{
}

/// A connection that was silent for more than four timeouts is given up at once.
pub proof fn law_silent(v: ConnView, timeout_ms: u32, stamp: Stamp)
    requires
        v.last_activity <= stamp.now,
        (stamp.now - v.last_activity) / 1_000_000 > 4 * timeout_ms,
    ensures
        ({
            let c = checked(v, timeout_ms, stamp);
            &&& c.result == Err::<(), UtpError>(UtpError::TimedOut)
            &&& c.conn.state is Closed
            &&& c.packets.len() == 0
            &&& c.events.len() == 0
            &&& c.conn.sent == v.sent
        }),
{
}

/// Otherwise the packets that are in flight for the timeout or longer are sent
/// again as they are, in ascending order, unless one of them was sent again ten
/// times: then the connection is given up. A packet that is sent again counts that
/// and no longer measures the round trip; the others stay as they are.
pub proof fn law_retransmission(v: ConnView, timeout_ms: u32, stamp: Stamp, s: u16)
    requires
        v.last_activity <= stamp.now,
        (stamp.now - v.last_activity) / 1_000_000 <= 4 * timeout_ms,
        timeout_ms * 1_000_000 <= u64::MAX,
        v.sent.dom().finite(),
        v.sent.contains_key(s),
        v.sent[s].send_time <= stamp.now,
        v.sent[s].retransmit_count <= 10,
    ensures
        ({
            let c = checked(v, timeout_ms, stamp);
            let p = v.sent[s];
            let q = c.conn.sent[s];
            let late = stamp.now - p.send_time >= timeout_ms * 1_000_000;
            &&& c.result == Ok::<(), UtpError>(()) || c.result == Err::<(), UtpError>(
                UtpError::MaxRetransmits,
            )
            &&& late && p.retransmit_count == 10 ==> c.result is Err
            &&& c.result is Err ==> c.conn.state is Closed
            &&& c.result is Ok ==> c.conn.state == v.state
            &&& c.result is Ok && late ==> {
                &&& c.packets.contains(p.packet)
                &&& q.packet == p.packet
                &&& q.send_time == stamp.now
                &&& q.retransmit_count == p.retransmit_count + 1
                &&& !q.rtt_measurable
            }
            &&& c.result is Ok && !late ==> q == p
            &&& c.conn.sent.contains_key(s)
            &&& c.result is Ok ==> c.conn.ready == v.ready && c.conn.ack_nr == v.ack_nr
        }),
{
    let timeout = (timeout_ms * 1_000_000) as u64;
    let all = ascending(v.sent.dom());
    let f = is_late(v.sent, timeout, stamp.now);
    let late = late_of(v.sent, timeout, stamp.now);
    let stuck = is_stuck(v.sent);
    lemma_ascending(v.sent.dom());
    lemma_filtered(all, f);
    lemma_first_where(late, stuck);
    let n = first_where(late, stuck);
    assert(all.contains(s));
    assert(late.contains(s) <==> f(s));
    if f(s) {
        let k = choose|k: int| 0 <= k < late.len() && late[k] == s;
        if stuck(s) {
            assert(stuck(late[k]));
        }
        if n == late.len() {
            assert(late.take(n) =~= late);
            assert(resent_packets(v.sent, late.take(n))[k] == v.sent[s].packet);
        }
    } else {
        if late.take(n).contains(s) {
            let k = choose|k: int| 0 <= k < n && late.take(n)[k] == s;
            assert(late[k] == s);
        }
    }
    let w = ConnView { sent: resent(v.sent, late.take(n), stamp.now), ..v };
    assert(w.sent.contains_key(s));
    assert(!Map::<u16, SentView>::empty().contains_key(s));
    assert(w.sent != Map::<u16, SentView>::empty());
}

/// A packet that cannot be read is dropped. One of a connection that is not there
/// opens one if it is a SYN, is dropped if it is a RESET, and is answered with a
/// RESET otherwise: for the same connection, and with the numbers the other way
/// round.
pub proof fn law_unknown_connection(known: Set<u16>, header: UtpHeader)
    requires
        !known.contains(header.connection_id),
    ensures
        dispatch_of(known, None) == Dispatch::Ignore,
        header.utp_type is StSyn ==> dispatch_of(known, Some(header)) == Dispatch::Accept,
        header.utp_type is StReset ==> dispatch_of(known, Some(header)) == Dispatch::Ignore,
        !(header.utp_type is StSyn) && !(header.utp_type is StReset) ==> (dispatch_of(
            known,
            Some(header),
        ) matches Dispatch::Reset { header: r } && {
            &&& r.utp_type is StReset
            &&& r.connection_id == header.connection_id
            &&& r.seq_nr == header.ack_nr
            &&& r.ack_nr == header.seq_nr
            &&& r.version == 1
            &&& r.extension == 0
            &&& r.wnd_size == 0
        }),
{
}

/// While we wait for the answer to a SYN and nothing is in flight, a SYN is sent
/// anew once the timeout has passed, and is in flight then.
pub proof fn law_syn_again(v: ConnView, timeout_ms: u32, stamp: Stamp)
    requires
        v.state is SynSent,
        v.sent == Map::<u16, SentView>::empty(),
        v.last_activity <= stamp.now,
        (stamp.now - v.last_activity) / 1_000_000 <= 4 * timeout_ms,
        timeout_ms * 1_000_000 <= u64::MAX,
    ensures
        ({
            let c = checked(v, timeout_ms, stamp);
            let again = stamp.now - v.last_activity > timeout_ms * 1_000_000;
            &&& c.result is Ok
            &&& again ==> c.packets.len() == 1 && c.packets[0].header.utp_type is StSyn
                && c.packets[0].header.seq_nr == v.seq_nr && c.conn.sent.contains_key(v.seq_nr)
                && c.conn.state is SynSent
            &&& again ==> c.events == seq![CongestionEvent::InFlight { bytes: 20 }]
            &&& !again ==> c.packets.len() == 0 && c.events.len() == 0 && c.conn == v
        }),
{
    let timeout = (timeout_ms * 1_000_000) as u64;
    let late = late_of(v.sent, timeout, stamp.now);
    lemma_ascending(v.sent.dom());
    lemma_filtered(ascending(v.sent.dom()), is_late(v.sent, timeout, stamp.now));
    if late.len() > 0 {
        assert(late.contains(late[0]));
        assert(v.sent.contains_key(late[0]));
    }
    lemma_first_where(late, is_stuck(v.sent));
    let n = first_where(late, is_stuck(v.sent));
    assert(resent(v.sent, late.take(n), stamp.now) =~= v.sent);
    let w = ConnView { sent: resent(v.sent, late.take(n), stamp.now), ..v };
    assert(w =~= v);
    let c = checked(v, timeout_ms, stamp);
    if stamp.now - v.last_activity > timeout_ms * 1_000_000 {
        assert(c.events =~= seq![CongestionEvent::InFlight { bytes: 20 }]);
    }
}

/// The congestion control hears of one timeout for every packet that is sent again.
pub proof fn law_timeout_events(v: ConnView, timeout: Nanos, stamp: Stamp, i: int)
    requires
        !(v.state is SynSent),
        0 <= i < swept(v, timeout, stamp).events.len(),
    ensures
        swept(v, timeout, stamp).events.len() == swept(v, timeout, stamp).packets.len(),
        swept(v, timeout, stamp).events[i] == CongestionEvent::Timeout,
{
    let late = late_of(v.sent, timeout, stamp.now);
    lemma_first_where(late, is_stuck(v.sent));
}

/// Packets are seen one for one, each with its header and its payload.
pub proof fn law_packets_view(packets: Seq<Packet>, i: int)
    requires
        0 <= i < packets.len(),
    ensures
        packets_view(packets).len() == packets.len(),
        packets_view(packets)[i].header == packets[i].header,
        packets_view(packets)[i].payload == packets[i].payload@,
{
}

} // verus!
