//! Per-connection uTP state machine.
//!
//! A connection is set up, carries data with sequence numbers and
//! retransmission, and is torn down. What is to be sent, and what the congestion
//! control has to be told, comes back as plain values.

use crate::addr::PeerAddr;
use crate::ordered::{ascending, lemma_ascending, SeqMap};
use crate::random::random_u16;
use crate::seqs::{
    copy_bytes, first_where, lemma_filter_no_duplicates, lemma_first_where_is,
    lemma_take_contains,
};
use crate::time::{elapsed, elapsed_at, Nanos, MILLISECOND};
use vstd::prelude::*;

verus! {

/// Maximum number of retransmissions of a packet.
pub const MAX_RETRANSMIT: u32 = 10;

/// Interval between two checks for packets to be sent again.
pub const RETRANSMIT_CHECK_INTERVAL: Nanos = 100_000_000;

/// Length of a header in bytes.
pub const HEADER_LEN: usize = 20;

/// The smallest payload that data is split into.
pub const MIN_PACKET_SIZE: u32 = 150;

/// The type of a packet.
#[derive(Clone, Copy, Debug, PartialEq, Eq, Structural)]
pub enum UtpType {
    /// Regular data.
    StData,
    /// The last packet of a connection.
    StFin,
    /// An acknowledgement without data.
    StState,
    /// The connection is terminated by force.
    StReset,
    /// The first packet of a connection.
    StSyn,
}

/// The header of a packet.
#[derive(Clone, Copy, Debug, PartialEq, Eq, Structural)]
pub struct UtpHeader {
    /// Type of the packet.
    pub utp_type: UtpType,
    /// Protocol version.
    pub version: u8,
    /// Type of the first extension; 0 for none.
    pub extension: u8,
    /// Connection that the packet belongs to.
    pub connection_id: u16,
    /// When the packet was sent.
    pub timestamp_microseconds: u32,
    /// Delay of the last packet from the other side.
    pub timestamp_difference_microseconds: u32,
    /// Receive window.
    pub wnd_size: u32,
    /// Sequence number.
    pub seq_nr: u16,
    /// Sequence number that was last received.
    pub ack_nr: u16,
}

/// A packet to be sent.
pub struct Packet {
    /// Its header.
    pub header: UtpHeader,
    /// What follows the header.
    pub payload: Vec<u8>,
}

/// A packet as contracts speak of it.
#[verifier::ext_equal]
pub struct PacketView {
    /// Its header.
    pub header: UtpHeader,
    /// What follows the header.
    pub payload: Seq<u8>,
}

impl View for Packet {
    type V = PacketView;

    open spec fn view(&self) -> PacketView {
        PacketView { header: self.header, payload: self.payload@ }
    }
}

/// The packets as contracts speak of them.
pub open spec fn packets_view(s: Seq<Packet>) -> Seq<PacketView> {
    s.map_values(|p: Packet| p@)
}

/// A packet that was sent and is not acknowledged yet.
pub struct SentPacket {
    /// The packet.
    pub packet: Packet,
    /// When it was sent last.
    pub send_time: Nanos,
    /// How often it was sent again.
    pub retransmit_count: u32,
    /// Whether the round-trip time is measured by it: only the first
    /// transmission counts.
    pub rtt_measurable: bool,
}

/// A sent packet as contracts speak of it.
#[verifier::ext_equal]
pub struct SentView {
    /// The packet.
    pub packet: PacketView,
    /// When it was sent last.
    pub send_time: Nanos,
    /// How often it was sent again.
    pub retransmit_count: u32,
    /// Whether the round-trip time is measured by it.
    pub rtt_measurable: bool,
}

impl View for SentPacket {
    type V = SentView;

    open spec fn view(&self) -> SentView {
        SentView {
            packet: self.packet@,
            send_time: self.send_time,
            retransmit_count: self.retransmit_count,
            rtt_measurable: self.rtt_measurable,
        }
    }
}

/// What the congestion control has to be told, in order.
#[derive(Clone, Copy, Debug, PartialEq, Eq, Structural)]
pub enum CongestionEvent {
    /// The other side measured this delay.
    Delay { micros: u32, now: Nanos },
    /// A round trip took this long.
    RoundTrip { millis: u32 },
    /// So many bytes more are in flight.
    InFlight { bytes: u32 },
    /// So many bytes are no longer in flight.
    Acked { bytes: u32 },
    /// The window is to be adjusted.
    Adjust,
    /// A packet timed out.
    Timeout,
}

/// Connection state.
#[derive(Clone, Copy, Debug, PartialEq, Eq, Structural)]
pub enum ConnState {
    /// We initiated: sent SYN, waiting for STATE.
    SynSent,
    /// We received SYN, waiting for DATA.
    SynRecv,
    /// Connection established.
    Connected,
    /// We sent FIN, waiting for the other side's FIN.
    FinSent,
    /// The other side sent FIN, waiting for our packets to be acknowledged.
    FinRecv,
    /// Connection closed.
    Closed,
}

/// Why a connection failed.
#[derive(Clone, Copy, Debug, PartialEq, Eq, Structural)]
pub enum UtpError {
    /// The connection is not established.
    NotConnected,
    /// Nothing was heard for too long.
    TimedOut,
    /// A packet was sent again too often.
    MaxRetransmits,
}

/// What the clock says as a packet is made.
#[derive(Clone, Copy, Debug, PartialEq, Eq, Structural)]
pub struct Stamp {
    /// The time of the connection's clock.
    pub now: Nanos,
    /// The time that goes into the header.
    pub timestamp_us: u32,
    /// The delay that goes into the header.
    pub reply_micro: u32,
}

/// A connection as contracts speak of it.
#[verifier::ext_equal]
pub struct ConnView {
    /// Remote address.
    pub remote_addr: PeerAddr,
    /// Connection ID in outgoing packets.
    pub conn_id_send: u16,
    /// Connection ID in incoming packets.
    pub conn_id_recv: u16,
    /// Connection state.
    pub state: ConnState,
    /// Next sequence number to be used.
    pub seq_nr: u16,
    /// Sequence number up to which everything was received.
    pub ack_nr: u16,
    /// Sequence number of the other side's FIN.
    pub eof_pkt: Option<u16>,
    /// Packets that are not acknowledged yet.
    pub sent: Map<u16, SentView>,
    /// Payloads that came too early.
    pub held: Map<u16, Seq<u8>>,
    /// Bytes that are ready to be read.
    pub ready: Seq<u8>,
    /// When a packet was last sent or received.
    pub last_activity: Nanos,
}

/// Per-connection uTP state machine.
pub struct UtpConnection {
    remote_addr: PeerAddr,
    conn_id_send: u16,
    conn_id_recv: u16,
    state: ConnState,
    seq_nr: u16,
    ack_nr: u16,
    eof_pkt: Option<u16>,
    send_buffer: SeqMap<SentPacket>,
    recv_buffer: SeqMap<Vec<u8>>,
    ready_data: Vec<u8>,
    last_activity: Nanos,
}

/// The number after `n`, going round.
pub open spec fn after(n: u16) -> u16 {
    if n == 0xffff {
        0
    } else {
        (n + 1) as u16
    }
}

/// The sent packets as contracts speak of them.
pub open spec fn sent_view(m: Map<u16, SentPacket>) -> Map<u16, SentView> {
    m.map_values(|p: SentPacket| p@)
}

/// The held payloads as contracts speak of them.
pub open spec fn held_view(m: Map<u16, Vec<u8>>) -> Map<u16, Seq<u8>> {
    m.map_values(|p: Vec<u8>| p@)
}

impl View for UtpConnection {
    type V = ConnView;

    closed spec fn view(&self) -> ConnView {
        ConnView {
            remote_addr: self.remote_addr,
            conn_id_send: self.conn_id_send,
            conn_id_recv: self.conn_id_recv,
            state: self.state,
            seq_nr: self.seq_nr,
            ack_nr: self.ack_nr,
            eof_pkt: self.eof_pkt,
            sent: sent_view(self.send_buffer@),
            held: held_view(self.recv_buffer@),
            ready: self.ready_data@,
            last_activity: self.last_activity,
        }
    }
}

/// The length of a packet in bytes.
pub open spec fn packet_len(p: PacketView) -> int {
    HEADER_LEN + p.payload.len()
}

/// Whether the packets in flight have lengths of 32 bits, and no more
/// retransmissions than allowed.
pub open spec fn sent_ok(sent: Map<u16, SentView>) -> bool {
    forall|s: u16| #[trigger]
        sent.contains_key(s) ==> packet_len(sent[s].packet) <= u32::MAX && sent[s].retransmit_count
            <= MAX_RETRANSMIT
}

/// Whether an acknowledgement of `ack` covers `seq`: it is `ack`, or lies less
/// than half way round before it.
pub open spec fn is_acked(seq: u16, ack: u16) -> bool {
    let d = (seq - ack) % 0x1_0000;
    d == 0 || d > 0x8000
}

/// The numbers that an acknowledgement of `ack` covers.
pub open spec fn acked_set(ack: u16) -> Set<u16> {
    Set::new(|s: u16| is_acked(s, ack))
}

/// A duration in milliseconds, as 32 bits hold it.
pub open spec fn millis(d: int) -> u32 {
    (d / (MILLISECOND as int)) as u32
}

/// What the congestion control is told of the packets among `keys` that are
/// acknowledged.
pub open spec fn ack_events(
    sent: Map<u16, SentView>,
    ack: u16,
    keys: Seq<u16>,
    now: Nanos,
) -> Seq<CongestionEvent>
    decreases keys.len(),
{
    if keys.len() == 0 {
        Seq::empty()
    } else {
        let before = ack_events(sent, ack, keys.drop_last(), now);
        let k = keys.last();
        if is_acked(k, ack) {
            let p = sent[k];
            let bytes = packet_len(p.packet) as u32;
            if p.rtt_measurable {
                before.push(
                    CongestionEvent::RoundTrip { millis: millis(elapsed_at(p.send_time, now)) },
                ).push(CongestionEvent::Acked { bytes })
            } else {
                before.push(CongestionEvent::Acked { bytes })
            }
        } else {
            before
        }
    }
}

/// What the congestion control is told of an acknowledgement: the packets that
/// it covers, in ascending order, and then to adjust the window.
pub open spec fn events_of_ack(v: ConnView, ack: u16, now: Nanos) -> Seq<CongestionEvent> {
    ack_events(v.sent, ack, ascending(v.sent.dom()), now).push(CongestionEvent::Adjust)
}

/// The connection after an acknowledgement: the packets that it covers are no
/// longer in flight.
pub open spec fn after_ack(v: ConnView, ack: u16) -> ConnView {
    ConnView { sent: v.sent.remove_keys(acked_set(ack)), ..v }
}

/// The connection after it delivered the payloads that follow without a gap.
pub open spec fn drained(v: ConnView) -> ConnView
    decreases v.held.dom().len(),
{
    let next = after(v.ack_nr);
    if v.held.dom().finite() && v.held.contains_key(next) {
        drained(
            ConnView {
                ack_nr: next,
                ready: v.ready + v.held[next],
                held: v.held.remove(next),
                ..v
            },
        )
    } else {
        v
    }
}

/// The connection after a payload arrived: one that was received already is
/// dropped, the next one is delivered with those that follow it, and one that
/// came too early is held. Numbers go round: what lies less than half way round
/// before the last one was received already.
pub open spec fn after_payload(v: ConnView, seq: u16, payload: Seq<u8>) -> ConnView {
    if is_acked(seq, v.ack_nr) {
        v
    } else if seq == after(v.ack_nr) {
        drained(ConnView { ack_nr: seq, ready: v.ready + payload, ..v })
    } else {
        ConnView { held: v.held.insert(seq, payload), ..v }
    }
}

/// The connection after a data packet.
pub open spec fn after_data(v: ConnView, header: UtpHeader, payload: Seq<u8>) -> ConnView {
    after_payload(after_ack(v, header.ack_nr), header.seq_nr, payload)
}

/// The connection after a FIN packet.
pub open spec fn after_fin(v: ConnView, header: UtpHeader) -> ConnView {
    ConnView {
        eof_pkt: Some(header.seq_nr),
        state: if v.state is Connected {
            ConnState::FinRecv
        } else {
            v.state
        },
        ..v
    }
}

/// The connection after a packet.
pub open spec fn after_packet(
    v: ConnView,
    header: UtpHeader,
    payload: Seq<u8>,
    now: Nanos,
) -> ConnView {
    let v = ConnView { last_activity: now, ..v };
    match v.state {
        ConnState::SynSent => if header.utp_type is StState {
            ConnView { state: ConnState::Connected, ack_nr: header.seq_nr, ..v }
        } else {
            v
        },
        ConnState::SynRecv => match header.utp_type {
            UtpType::StData => after_data(
                ConnView { state: ConnState::Connected, ..v },
                header,
                payload,
            ),
            UtpType::StFin => after_fin(v, header),
            _ => v,
        },
        ConnState::Connected => match header.utp_type {
            UtpType::StData => after_data(v, header, payload),
            UtpType::StState => after_ack(v, header.ack_nr),
            UtpType::StFin => after_fin(after_data(v, header, payload), header),
            UtpType::StReset => ConnView { state: ConnState::Closed, ..v },
            UtpType::StSyn => v,
        },
        ConnState::FinSent => after_ack(
            ConnView {
                state: if header.utp_type is StFin {
                    ConnState::Closed
                } else {
                    v.state
                },
                ..v
            },
            header.ack_nr,
        ),
        ConnState::FinRecv => {
            let w = after_ack(v, header.ack_nr);
            if w.sent =~= Map::<u16, SentView>::empty() {
                ConnView { state: ConnState::Closed, ..w }
            } else {
                w
            }
        },
        ConnState::Closed => v,
    }
}

/// Whether the acknowledgement in a packet is looked at.
pub open spec fn takes_ack(state: ConnState, utp_type: UtpType) -> bool {
    match state {
        ConnState::SynRecv => utp_type is StData,
        ConnState::Connected => utp_type is StData || utp_type is StState || utp_type is StFin,
        ConnState::FinSent => true,
        ConnState::FinRecv => true,
        _ => false,
    }
}

/// What the congestion control is told of a packet.
pub open spec fn events_of_packet(v: ConnView, header: UtpHeader, now: Nanos) -> Seq<
    CongestionEvent,
> {
    let delay = seq![
        CongestionEvent::Delay { micros: header.timestamp_difference_microseconds, now },
    ];
    if takes_ack(v.state, header.utp_type) {
        delay + events_of_ack(v, header.ack_nr, now)
    } else {
        delay
    }
}

/// The header of an outgoing packet.
pub open spec fn header_of(
    v: ConnView,
    utp_type: UtpType,
    seq_nr: u16,
    ack_nr: u16,
    stamp: Stamp,
) -> UtpHeader {
    UtpHeader {
        utp_type,
        version: 1,
        extension: 0,
        connection_id: v.conn_id_send,
        timestamp_microseconds: stamp.timestamp_us,
        timestamp_difference_microseconds: stamp.reply_micro,
        wnd_size: 1_000_000,
        seq_nr,
        ack_nr,
    }
}

/// The connection after a packet was sent: it is in flight.
pub open spec fn after_send(v: ConnView, p: PacketView, now: Nanos) -> ConnView {
    ConnView {
        sent: v.sent.insert(
            p.header.seq_nr,
            SentView {
                packet: p,
                send_time: now,
                retransmit_count: 0,
                rtt_measurable: !(p.header.utp_type is StSyn),
            },
        ),
        last_activity: now,
        ..v
    }
}

/// A packet without a payload that takes the next sequence number.
pub open spec fn control_packet(v: ConnView, utp_type: UtpType, stamp: Stamp) -> PacketView {
    PacketView {
        header: header_of(v, utp_type, v.seq_nr, v.ack_nr, stamp),
        payload: Seq::empty(),
    }
}

/// The connection after it sent a packet without a payload: an acknowledgement
/// does not use up its sequence number.
pub open spec fn after_control(v: ConnView, utp_type: UtpType, stamp: Stamp) -> ConnView {
    after_send(
        ConnView {
            seq_nr: if utp_type is StState {
                v.seq_nr
            } else {
                after(v.seq_nr)
            },
            ..v
        },
        control_packet(v, utp_type, stamp),
        stamp.now,
    )
}

/// The first chunk of the data.
pub open spec fn head_chunk(data: Seq<u8>, size: int) -> Seq<u8> {
    if data.len() <= size {
        data
    } else {
        data.take(size)
    }
}

/// What follows the first chunk of the data.
pub open spec fn tail_chunks(data: Seq<u8>, size: int) -> Seq<u8> {
    if data.len() <= size {
        Seq::empty()
    } else {
        data.skip(size)
    }
}

/// The packet that carries a chunk.
pub open spec fn data_packet(v: ConnView, chunk: Seq<u8>, stamp: Stamp) -> PacketView {
    PacketView {
        header: header_of(v, UtpType::StData, v.seq_nr, v.ack_nr, stamp),
        payload: chunk,
    }
}

/// The connection after it sent a chunk.
pub open spec fn after_chunk(v: ConnView, chunk: Seq<u8>, stamp: Stamp) -> ConnView {
    after_send(
        ConnView { seq_nr: after(v.seq_nr), ..v },
        data_packet(v, chunk, stamp),
        stamp.now,
    )
}

/// The packets that carry the data, in chunks of `size` bytes; the last may be
/// shorter.
pub open spec fn data_packets(v: ConnView, data: Seq<u8>, size: int, stamp: Stamp) -> Seq<
    PacketView,
>
    decreases data.len(),
{
    if data.len() == 0 || size <= 0 {
        Seq::empty()
    } else {
        let chunk = head_chunk(data, size);
        seq![data_packet(v, chunk, stamp)] + data_packets(
            after_chunk(v, chunk, stamp),
            tail_chunks(data, size),
            size,
            stamp,
        )
    }
}

/// The connection after it sent the data.
pub open spec fn after_data_sent(v: ConnView, data: Seq<u8>, size: int, stamp: Stamp) -> ConnView
    decreases data.len(),
{
    if data.len() == 0 || size <= 0 {
        v
    } else {
        after_data_sent(
            after_chunk(v, head_chunk(data, size), stamp),
            tail_chunks(data, size),
            size,
            stamp,
        )
    }
}

/// What the congestion control is told of packets that are sent.
pub open spec fn events_of_sends(packets: Seq<PacketView>) -> Seq<CongestionEvent> {
    packets.map_values(
        |p: PacketView| CongestionEvent::InFlight { bytes: packet_len(p) as u32 },
    )
}

/// The size of the chunks that data is split into.
pub open spec fn chunk_size(packet_size: u32) -> int {
    if packet_size < MIN_PACKET_SIZE {
        MIN_PACKET_SIZE as int
    } else {
        packet_size as int
    }
}

/// The payloads, one after the other.
pub open spec fn payloads(packets: Seq<PacketView>) -> Seq<u8>
    decreases packets.len(),
{
    if packets.len() == 0 {
        Seq::empty()
    } else {
        packets[0].payload + payloads(packets.drop_first())
    }
}

/// The payloads of the packets that carry data are the data, and the packets
/// have consecutive sequence numbers.
pub proof fn law_send_carries_data(v: ConnView, data: Seq<u8>, size: int, stamp: Stamp)
    requires
        size > 0,
    ensures
        payloads(data_packets(v, data, size, stamp)) == data,
        forall|i: int|
            0 <= i < data_packets(v, data, size, stamp).len() ==> {
                let p = #[trigger] data_packets(v, data, size, stamp)[i];
                &&& p.header.seq_nr == (v.seq_nr + i) % 0x1_0000
                &&& 0 < p.payload.len() <= size
            },
        after_data_sent(v, data, size, stamp).seq_nr == (v.seq_nr + data_packets(
            v,
            data,
            size,
            stamp,
        ).len()) % 0x1_0000,
    decreases data.len(),
{
    let all = data_packets(v, data, size, stamp);
    if data.len() > 0 {
        let chunk = head_chunk(data, size);
        let rest = tail_chunks(data, size);
        let w = after_chunk(v, chunk, stamp);
        law_send_carries_data(w, rest, size, stamp);
        let later = data_packets(w, rest, size, stamp);
        assert(all.drop_first() =~= later);
        assert(chunk + rest =~= data);
        assert forall|i: int| 0 <= i < all.len() implies {
            let p = #[trigger] all[i];
            &&& p.header.seq_nr == (v.seq_nr + i) % 0x1_0000
            &&& 0 < p.payload.len() <= size
        } by {
            if i > 0 {
                assert(all[i] == later[i - 1]);
            }
        }
    }
}

/// An outbound connection before its SYN packet.
pub open spec fn outbound_view(id: u16, remote_addr: PeerAddr, now: Nanos) -> ConnView {
    ConnView {
        remote_addr,
        conn_id_send: after(id),
        conn_id_recv: id,
        state: ConnState::SynSent,
        seq_nr: 2,
        ack_nr: 0,
        eof_pkt: None,
        sent: Map::empty(),
        held: Map::empty(),
        ready: Seq::empty(),
        last_activity: now,
    }
}

/// An outbound connection after its SYN packet.
pub open spec fn connected_view(id: u16, remote_addr: PeerAddr, stamp: Stamp) -> ConnView {
    after_control(outbound_view(id, remote_addr, stamp.now), UtpType::StSyn, stamp)
}

/// An inbound connection.
pub open spec fn accepted_view(
    syn: UtpHeader,
    seq_nr: u16,
    remote_addr: PeerAddr,
    now: Nanos,
) -> ConnView {
    ConnView {
        remote_addr,
        conn_id_send: after(syn.connection_id),
        conn_id_recv: syn.connection_id,
        state: ConnState::SynRecv,
        seq_nr,
        ack_nr: syn.seq_nr,
        eof_pkt: None,
        sent: Map::empty(),
        held: Map::empty(),
        ready: Seq::empty(),
        last_activity: now,
    }
}

/// Whether a packet in flight timed out.
pub open spec fn is_late(sent: Map<u16, SentView>, timeout: Nanos, now: Nanos) -> spec_fn(
    u16,
) -> bool {
    |s: u16| elapsed_at(sent[s].send_time, now) >= timeout
}

/// The packets that timed out, in ascending order.
pub open spec fn late_of(sent: Map<u16, SentView>, timeout: Nanos, now: Nanos) -> Seq<u16> {
    ascending(sent.dom()).filter(is_late(sent, timeout, now))
}

/// Whether a packet was sent again as often as allowed.
pub open spec fn is_stuck(sent: Map<u16, SentView>) -> spec_fn(u16) -> bool {
    |s: u16| sent[s].retransmit_count >= MAX_RETRANSMIT
}

/// A packet after it was sent again.
pub open spec fn resend(p: SentView, now: Nanos) -> SentView {
    SentView {
        packet: p.packet,
        send_time: now,
        retransmit_count: (p.retransmit_count + 1) as u32,
        rtt_measurable: false,
    }
}

/// The packets in flight after some were sent again.
pub open spec fn resent(sent: Map<u16, SentView>, keys: Seq<u16>, now: Nanos) -> Map<
    u16,
    SentView,
> {
    Map::new(
        |s: u16| sent.contains_key(s),
        |s: u16|
            if keys.contains(s) {
                resend(sent[s], now)
            } else {
                sent[s]
            },
    )
}

/// The packets that are sent again.
pub open spec fn resent_packets(sent: Map<u16, SentView>, keys: Seq<u16>) -> Seq<PacketView> {
    keys.map_values(|s: u16| sent[s].packet)
}

/// What the congestion control is told of `n` packets that timed out.
pub open spec fn timeouts(n: nat) -> Seq<CongestionEvent> {
    Seq::new(n, |i: int| CongestionEvent::Timeout)
}

/// What a check for timeouts leads to.
#[verifier::ext_equal]
pub struct Checked {
    /// The connection afterwards.
    pub conn: ConnView,
    /// The packets to be sent.
    pub packets: Seq<PacketView>,
    /// What the congestion control is told.
    pub events: Seq<CongestionEvent>,
    /// Whether the connection failed.
    pub result: Result<(), UtpError>,
}

/// What a check of the packets in flight leads to: they are sent again in
/// ascending order, up to one that is stuck, which closes the connection.
pub open spec fn swept(v: ConnView, timeout: Nanos, stamp: Stamp) -> Checked {
    let late = late_of(v.sent, timeout, stamp.now);
    let n = first_where(late, is_stuck(v.sent));
    let w = ConnView { sent: resent(v.sent, late.take(n), stamp.now), ..v };
    let packets = resent_packets(v.sent, late.take(n));
    let events = timeouts(n as nat);
    if n < late.len() {
        Checked {
            conn: ConnView { state: ConnState::Closed, ..w },
            packets,
            events,
            result: Err(UtpError::MaxRetransmits),
        }
    } else if w.state is SynSent && w.sent == Map::<u16, SentView>::empty() && elapsed_at(
        w.last_activity,
        stamp.now,
    ) > timeout {
        Checked {
            conn: after_control(w, UtpType::StSyn, stamp),
            packets: packets.push(control_packet(w, UtpType::StSyn, stamp)),
            events: events.push(CongestionEvent::InFlight { bytes: HEADER_LEN as u32 }),
            result: Ok(()),
        }
    } else {
        Checked { conn: w, packets, events, result: Ok(()) }
    }
}

/// What a check for timeouts leads to.
pub open spec fn checked(v: ConnView, timeout_ms: u32, stamp: Stamp) -> Checked {
    if elapsed_at(v.last_activity, stamp.now) / (MILLISECOND as int) > timeout_ms * 4 {
        Checked {
            conn: ConnView { state: ConnState::Closed, ..v },
            packets: Seq::empty(),
            events: Seq::empty(),
            result: Err(UtpError::TimedOut),
        }
    } else {
        swept(v, (timeout_ms * MILLISECOND) as u64, stamp)
    }
}

proof fn lemma_late(sent: Map<u16, SentView>, timeout: Nanos, now: Nanos)
    ensures
        late_of(sent, timeout, now).no_duplicates(),
        forall|k: u16| #[trigger]
            late_of(sent, timeout, now).contains(k) ==> sent.contains_key(k),
{
    let all = ascending(sent.dom());
    let f = is_late(sent, timeout, now);
    lemma_ascending(sent.dom());
    lemma_filter_no_duplicates(all, f);
    assert forall|k: u16| #[trigger] late_of(sent, timeout, now).contains(k) implies
        sent.contains_key(k) by {
        all.lemma_filter_contains_rev(f, k);
        assert(all.contains(k));
    }
}

proof fn lemma_empty_views(m: Map<u16, SentPacket>)
    ensures
        m == Map::<u16, SentPacket>::empty() <==> sent_view(m) == Map::<u16, SentView>::empty(),
{
    if sent_view(m) == Map::<u16, SentView>::empty() {
        assert forall|k: u16| !m.contains_key(k) by {
            assert(!sent_view(m).contains_key(k));
        }
        assert(m =~= Map::<u16, SentPacket>::empty());
    } else if m == Map::<u16, SentPacket>::empty() {
        assert(sent_view(m) =~= Map::<u16, SentView>::empty());
    }
}

impl UtpConnection {
    /// The packets in flight are within their limits.
    pub open spec fn wf(&self) -> bool {
        sent_ok(self@.sent)
    }

    fn handle_ack(&mut self, header: &UtpHeader, now: Nanos, events: &mut Vec<CongestionEvent>)
        requires
            old(self).wf(),
        ensures
            final(self).wf(),
            final(self)@ == after_ack(old(self)@, header.ack_nr),
            final(events)@ == old(events)@ + events_of_ack(old(self)@, header.ack_nr, now),
    {
        let ack: u16 = header.ack_nr;
        let keys = self.send_buffer.keys();
        let ghost all = sent_view(self.send_buffer@);
        proof {
            lemma_ascending(all.dom());
            assert(self.send_buffer@.dom() =~= all.dom());
            assert(keys@.take(0) =~= Seq::<u16>::empty());
        }
        let ghost before = events@;
        let mut i: usize = 0;
        assert(sent_view(self.send_buffer@) =~= all.remove_keys(Set::<u16>::empty()));
        assert(events@ =~= before + ack_events(all, ack, keys@.take(0), now));
        while i < keys.len()
            invariant
                i <= keys@.len(),
                keys@ == ascending(all.dom()),
                keys@.no_duplicates(),
                forall|k: u16| #[trigger] keys@.contains(k) <==> all.contains_key(k),
                sent_ok(all),
                ack == header.ack_nr,
                self.same_but_sent(*old(self)),
                all == sent_view(old(self).send_buffer@),
                forall|k: u16| #[trigger]
                    self.send_buffer@.contains_key(k) <==> all.contains_key(k) && !(is_acked(k, ack)
                        && keys@.take(i as int).contains(k)),
                forall|k: u16| #[trigger]
                    self.send_buffer@.contains_key(k) ==> self.send_buffer@[k]@ == all[k],
                events@ == before + ack_events(all, ack, keys@.take(i as int), now),
            decreases keys@.len() - i,
        {
            let k: u16 = keys[i];
            let ghost first = keys@.take(i as int);
            proof {
                assert(keys@.contains(k));
                assert(keys@.take(i + 1).drop_last() =~= first);
                if first.contains(k) {
                    let j = choose|j: int| 0 <= j < first.len() && first[j] == k;
                }
                assert forall|q: u16| #[trigger]
                    keys@.take(i + 1).contains(q) <==> first.contains(q) || q == k by {
                    lemma_take_contains(keys@, i as int, q);
                }
            }
            let d: u16 = k.wrapping_sub(ack);
            if d == 0 || d > 0x8000 {
                if let Some(p) = self.send_buffer.remove(k) {
                    if p.rtt_measurable {
                        let ms: u64 = elapsed(p.send_time, now) / MILLISECOND;
                        events.push(CongestionEvent::RoundTrip { millis: ms as u32 });
                    }
                    let bytes: u32 = (HEADER_LEN + p.packet.payload.len()) as u32;
                    events.push(CongestionEvent::Acked { bytes });
                }
                assert(events@ =~= before + ack_events(all, ack, keys@.take(i + 1), now));
            }
            i += 1;
        }
        events.push(CongestionEvent::Adjust);
        proof {
            assert(keys@.take(i as int) =~= keys@);
            assert(events@ =~= before + events_of_ack(old(self)@, ack, now));
            assert(sent_view(self.send_buffer@) =~= all.remove_keys(acked_set(ack)));
            assert(self@ =~= after_ack(old(self)@, ack));
        }
    }

    fn deliver(&mut self, seq: u16, payload: &[u8])
        requires
            old(self).wf(),
        ensures
            final(self).wf(),
            final(self)@ == after_payload(old(self)@, seq, payload@),
    {
        let ahead: u16 = seq.wrapping_sub(self.ack_nr);
        if ahead == 0 || ahead > 0x8000 {
            return;
        }
        if ahead == 1 {
            self.ack_nr = seq;
            self.ready_data.extend_from_slice(payload);
            proof {
                assert(self@ =~= (ConnView {
                    ack_nr: seq,
                    ready: old(self)@.ready + payload@,
                    ..old(self)@
                }));
            }
            let ghost whole = drained(self@);
            let mut next: u16 = seq.wrapping_add(1);
            let mut more = true;
            while more
                invariant
                    self.wf(),
                    next == after(self.ack_nr),
                    drained(self@) == whole,
                    !more ==> self@ == whole,
                decreases self.recv_buffer@.dom().len() + if more {
                    1nat
                } else {
                    0nat
                },
            {
                proof {
                    self.recv_buffer.lemma_finite();
                    assert(self@.held.dom() =~= self.recv_buffer@.dom());
                }
                let ghost v = self@;
                let ghost dom = self.recv_buffer@.dom();
                match self.recv_buffer.remove(next) {
                    Some(data) => {
                        self.ack_nr = next;
                        self.ready_data.extend_from_slice(data.as_slice());
                        assert(self@ =~= (ConnView {
                            ack_nr: next,
                            ready: v.ready + v.held[next],
                            held: v.held.remove(next),
                            ..v
                        }));
                        assert(self.recv_buffer@.dom() =~= dom.remove(next));
                        next = next.wrapping_add(1);
                    },
                    None => {
                        assert(self.recv_buffer@ =~= self.recv_buffer@.remove(next));
                        assert(self@ =~= v);
                        more = false;
                    },
                }
            }
        } else {
            self.recv_buffer.insert(seq, copy_bytes(payload));
            assert(self@ =~= after_payload(old(self)@, seq, payload@));
        }
    }

    fn process_data_packet(
        &mut self,
        header: &UtpHeader,
        payload: &[u8],
        now: Nanos,
        events: &mut Vec<CongestionEvent>,
    )
        requires
            old(self).wf(),
        ensures
            final(self).wf(),
            final(self)@ == after_data(old(self)@, *header, payload@),
            final(events)@ == old(events)@ + events_of_ack(old(self)@, header.ack_nr, now),
    {
        self.handle_ack(header, now, events);
        self.deliver(header.seq_nr, payload);
    }

    fn handle_fin(&mut self, header: &UtpHeader)
        requires
            old(self).wf(),
        ensures
            final(self).wf(),
            final(self)@ == after_fin(old(self)@, *header),
    {
        self.eof_pkt = Some(header.seq_nr);
        if self.state == ConnState::Connected {
            self.state = ConnState::FinRecv;
        }
        assert(self@ =~= after_fin(old(self)@, *header));
    }

    /// Process an incoming packet: updates the state, takes the acknowledgement
    /// into account and buffers the payload.
    pub fn handle_packet(&mut self, header: &UtpHeader, payload: &[u8], now: Nanos) -> (r: Vec<
        CongestionEvent,
    >)
        requires
            old(self).wf(),
        ensures
            final(self).wf(),
            final(self)@ == after_packet(old(self)@, *header, payload@, now),
            r@ == events_of_packet(old(self)@, *header, now),
    {
        let mut events: Vec<CongestionEvent> = Vec::new();
        self.last_activity = now;
        events.push(
            CongestionEvent::Delay { micros: header.timestamp_difference_microseconds, now },
        );
        let ghost delay = events@;
        let ghost v = self@;
        proof {
            assert(delay =~= seq![
                CongestionEvent::Delay { micros: header.timestamp_difference_microseconds, now },
            ]);
            assert(v =~= (ConnView { last_activity: now, ..old(self)@ }));
        }
        match self.state {
            ConnState::SynSent => {
                if header.utp_type == UtpType::StState {
                    self.state = ConnState::Connected;
                    self.ack_nr = header.seq_nr;
                }
            },
            ConnState::SynRecv => {
                if header.utp_type == UtpType::StData {
                    self.state = ConnState::Connected;
                    assert(self@ =~= (ConnView { state: ConnState::Connected, ..v }));
                    self.process_data_packet(header, payload, now, &mut events);
                } else if header.utp_type == UtpType::StFin {
                    self.handle_fin(header);
                }
            },
            ConnState::Connected => match header.utp_type {
                UtpType::StData => {
                    self.process_data_packet(header, payload, now, &mut events);
                },
                UtpType::StState => {
                    self.handle_ack(header, now, &mut events);
                },
                UtpType::StFin => {
                    self.process_data_packet(header, payload, now, &mut events);
                    self.handle_fin(header);
                },
                UtpType::StReset => {
                    self.state = ConnState::Closed;
                },
                UtpType::StSyn => {},
            },
            ConnState::FinSent => {
                if header.utp_type == UtpType::StFin {
                    self.state = ConnState::Closed;
                }
                assert(self@ =~= (ConnView {
                    state: if header.utp_type is StFin {
                        ConnState::Closed
                    } else {
                        v.state
                    },
                    ..v
                }));
                self.handle_ack(header, now, &mut events);
            },
            ConnState::FinRecv => {
                self.handle_ack(header, now, &mut events);
                let ghost w = self@;
                proof {
                    lemma_empty_views(self.send_buffer@);
                }
                if self.send_buffer.is_empty() {
                    self.state = ConnState::Closed;
                    assert(self@ =~= (ConnView { state: ConnState::Closed, ..w }));
                }
            },
            ConnState::Closed => {},
        }
        proof {
            assert(self@ =~= after_packet(old(self)@, *header, payload@, now));
            assert(events@ =~= events_of_packet(old(self)@, *header, now));
        }
        events
    }

    fn send_raw(
        &mut self,
        utp_type: UtpType,
        seq_nr: u16,
        ack_nr: u16,
        payload: &[u8],
        stamp: Stamp,
        events: &mut Vec<CongestionEvent>,
    ) -> (p: Packet)
        requires
            old(self).wf(),
            HEADER_LEN + payload@.len() <= u32::MAX,
        ensures
            final(self).wf(),
            p@ == (PacketView {
                header: header_of(old(self)@, utp_type, seq_nr, ack_nr, stamp),
                payload: payload@,
            }),
            final(self)@ == after_send(old(self)@, p@, stamp.now),
            final(events)@ == old(events)@.push(
                CongestionEvent::InFlight { bytes: packet_len(p@) as u32 },
            ),
    {
        let header = UtpHeader {
            utp_type,
            version: 1,
            extension: 0,
            connection_id: self.conn_id_send,
            timestamp_microseconds: stamp.timestamp_us,
            timestamp_difference_microseconds: stamp.reply_micro,
            wnd_size: 1_000_000,
            seq_nr,
            ack_nr,
        };
        let bytes: u32 = (HEADER_LEN + payload.len()) as u32;
        events.push(CongestionEvent::InFlight { bytes });
        let sent = SentPacket {
            packet: Packet { header, payload: copy_bytes(payload) },
            send_time: stamp.now,
            retransmit_count: 0,
            rtt_measurable: utp_type != UtpType::StSyn,
        };
        let ghost before = self.send_buffer@;
        self.send_buffer.insert(seq_nr, sent);
        self.last_activity = stamp.now;
        let p = Packet { header, payload: copy_bytes(payload) };
        proof {
            assert(sent_view(self.send_buffer@) =~= sent_view(before).insert(seq_nr, sent@));
            assert(self@ =~= after_send(old(self)@, p@, stamp.now));
        }
        p
    }

    fn send_packet(
        &mut self,
        utp_type: UtpType,
        stamp: Stamp,
        events: &mut Vec<CongestionEvent>,
    ) -> (p: Packet)
        requires
            old(self).wf(),
        ensures
            final(self).wf(),
            p@ == control_packet(old(self)@, utp_type, stamp),
            final(self)@ == after_control(old(self)@, utp_type, stamp),
            final(events)@ == old(events)@.push(
                CongestionEvent::InFlight { bytes: HEADER_LEN as u32 },
            ),
    {
        let seq: u16 = self.seq_nr;
        let ack: u16 = self.ack_nr;
        if utp_type != UtpType::StState {
            self.seq_nr = seq.wrapping_add(1);
        }
        let empty: Vec<u8> = Vec::new();
        let ghost v = self@;
        let p = self.send_raw(utp_type, seq, ack, empty.as_slice(), stamp, events);
        proof {
            assert(empty@ =~= Seq::<u8>::empty());
            assert(v =~= (ConnView {
                seq_nr: if utp_type is StState {
                    seq
                } else {
                    after(seq)
                },
                ..old(self)@
            }));
        }
        p
    }

    /// Create a new outbound connection, and its SYN packet.
    pub fn connect(remote_addr: PeerAddr, stamp: Stamp) -> (r: (
        UtpConnection,
        Packet,
        Vec<CongestionEvent>,
    ))
        ensures
            r.0.wf(),
            exists|id: u16| r.0@ == #[trigger] connected_view(id, remote_addr, stamp),
            r.1@ == control_packet(
                outbound_view(r.0@.conn_id_recv, remote_addr, stamp.now),
                UtpType::StSyn,
                stamp,
            ),
            r.2@ == seq![CongestionEvent::InFlight { bytes: HEADER_LEN as u32 }],
    {
        let id: u16 = random_u16();
        let r = UtpConnection::connect_with(id, remote_addr, stamp);
        assert(r.0@ == connected_view(id, remote_addr, stamp));
        r
    }

    /// Create a new outbound connection with the given connection ID, and its
    /// SYN packet.
    pub fn connect_with(conn_id_recv: u16, remote_addr: PeerAddr, stamp: Stamp) -> (r: (
        UtpConnection,
        Packet,
        Vec<CongestionEvent>,
    ))
        ensures
            r.0.wf(),
            r.0@ == connected_view(conn_id_recv, remote_addr, stamp),
            r.1@ == control_packet(
                outbound_view(conn_id_recv, remote_addr, stamp.now),
                UtpType::StSyn,
                stamp,
            ),
            r.2@ == seq![CongestionEvent::InFlight { bytes: HEADER_LEN as u32 }],
    {
        let mut conn = UtpConnection {
            remote_addr,
            conn_id_send: conn_id_recv.wrapping_add(1),
            conn_id_recv,
            state: ConnState::SynSent,
            seq_nr: 2,
            ack_nr: 0,
            eof_pkt: None,
            send_buffer: SeqMap::new(),
            recv_buffer: SeqMap::new(),
            ready_data: Vec::new(),
            last_activity: stamp.now,
        };
        assert(conn@ =~= outbound_view(conn_id_recv, remote_addr, stamp.now));
        let mut events: Vec<CongestionEvent> = Vec::new();
        let p = conn.send_packet(UtpType::StSyn, stamp, &mut events);
        assert(events@ =~= seq![CongestionEvent::InFlight { bytes: HEADER_LEN as u32 }]);
        (conn, p, events)
    }

    /// Create a new inbound connection from a received SYN packet. Returns it
    /// with the STATE packet that answers the SYN, and what the congestion control
    /// has to be told.
    pub fn accept(syn: &UtpHeader, remote_addr: PeerAddr, stamp: Stamp) -> (r: (
        UtpConnection,
        Packet,
        Vec<CongestionEvent>,
    ))
        ensures
            r.0.wf(),
            exists|seq: u16|
                {
                    let v = #[trigger] accepted_view(*syn, seq, remote_addr, stamp.now);
                    &&& r.0@ == after_control(v, UtpType::StState, stamp)
                    &&& r.1@ == control_packet(v, UtpType::StState, stamp)
                },
            r.2@ == seq![CongestionEvent::InFlight { bytes: HEADER_LEN as u32 }],
    {
        let seq: u16 = random_u16();
        let r = UtpConnection::accept_with(syn, seq, remote_addr, stamp);
        let ghost v = accepted_view(*syn, seq, remote_addr, stamp.now);
        assert(r.0@ == after_control(v, UtpType::StState, stamp));
        r
    }

    /// Create a new inbound connection from a received SYN packet, with the
    /// given first sequence number, and answer the SYN.
    pub fn accept_with(syn: &UtpHeader, seq_nr: u16, remote_addr: PeerAddr, stamp: Stamp) -> (r: (
        UtpConnection,
        Packet,
        Vec<CongestionEvent>,
    ))
        ensures
            r.0.wf(),
            ({
                let v = accepted_view(*syn, seq_nr, remote_addr, stamp.now);
                &&& r.0@ == after_control(v, UtpType::StState, stamp)
                &&& r.1@ == control_packet(v, UtpType::StState, stamp)
            }),
            r.2@ == seq![CongestionEvent::InFlight { bytes: HEADER_LEN as u32 }],
    {
        let mut c = UtpConnection {
            remote_addr,
            conn_id_send: syn.connection_id.wrapping_add(1),
            conn_id_recv: syn.connection_id,
            state: ConnState::SynRecv,
            seq_nr,
            ack_nr: syn.seq_nr,
            eof_pkt: None,
            send_buffer: SeqMap::new(),
            recv_buffer: SeqMap::new(),
            ready_data: Vec::new(),
            last_activity: stamp.now,
        };
        assert(c@ =~= accepted_view(*syn, seq_nr, remote_addr, stamp.now));
        let (p, events) = c.send_state_response(stamp);
        (c, p, events)
    }

    /// The STATE packet that accepts a connection. It acknowledges and does not
    /// use up its sequence number.
    pub fn send_state_response(&mut self, stamp: Stamp) -> (r: (Packet, Vec<CongestionEvent>))
        requires
            old(self).wf(),
        ensures
            final(self).wf(),
            r.0@ == control_packet(old(self)@, UtpType::StState, stamp),
            final(self)@ == after_control(old(self)@, UtpType::StState, stamp),
            r.1@ == seq![CongestionEvent::InFlight { bytes: HEADER_LEN as u32 }],
    {
        let mut events: Vec<CongestionEvent> = Vec::new();
        let p = self.send_packet(UtpType::StState, stamp, &mut events);
        assert(events@ =~= seq![CongestionEvent::InFlight { bytes: HEADER_LEN as u32 }]);
        (p, events)
    }

    /// Send application data: splits it into packets of at most `packet_size`
    /// bytes, but no smaller than 150. Fails if the connection is not
    /// established.
    pub fn send(&mut self, data: &[u8], packet_size: u32, stamp: Stamp) -> (r: Result<
        (Vec<Packet>, Vec<CongestionEvent>),
        UtpError,
    >)
        requires
            old(self).wf(),
            HEADER_LEN + packet_size <= u32::MAX,
        ensures
            final(self).wf(),
            match r {
                Ok((packets, events)) => {
                    let size = chunk_size(packet_size);
                    let sent = data_packets(old(self)@, data@, size, stamp);
                    &&& old(self)@.state is Connected
                    &&& packets_view(packets@) == sent
                    &&& events@ == events_of_sends(sent)
                    &&& final(self)@ == after_data_sent(old(self)@, data@, size, stamp)
                },
                Err(e) => {
                    &&& !(old(self)@.state is Connected)
                    &&& e == UtpError::NotConnected
                    &&& final(self)@ == old(self)@
                },
            },
    {
        if self.state != ConnState::Connected {
            return Err(UtpError::NotConnected);
        }
        let size: usize = if packet_size < MIN_PACKET_SIZE {
            MIN_PACKET_SIZE as usize
        } else {
            packet_size as usize
        };
        let mut packets: Vec<Packet> = Vec::new();
        let mut events: Vec<CongestionEvent> = Vec::new();
        let total: usize = data.len();
        let mut from: usize = 0;
        let ghost all = data_packets(self@, data@, size as int, stamp);
        let ghost end = after_data_sent(self@, data@, size as int, stamp);
        proof {
            assert(data@.skip(0) =~= data@);
            assert(packets_view(packets@) =~= Seq::<PacketView>::empty());
            assert(Seq::<PacketView>::empty() + all =~= all);
            assert(events@ =~= events_of_sends(packets_view(packets@)));
        }
        while from < total
            invariant
                self.wf(),
                from <= total == data@.len(),
                size == chunk_size(packet_size),
                HEADER_LEN + packet_size <= u32::MAX,
                packets_view(packets@) + data_packets(
                    self@,
                    data@.skip(from as int),
                    size as int,
                    stamp,
                ) == all,
                after_data_sent(self@, data@.skip(from as int), size as int, stamp) == end,
                events@ == events_of_sends(packets_view(packets@)),
            decreases total - from,
        {
            let ghost rest = data@.skip(from as int);
            let to: usize = if total - from <= size {
                total
            } else {
                from + size
            };
            let chunk = vstd::slice::slice_subrange(data, from, to);
            proof {
                assert(chunk@ =~= head_chunk(rest, size as int));
                assert(data@.skip(to as int) =~= tail_chunks(rest, size as int));
            }
            let seq: u16 = self.seq_nr;
            let ack: u16 = self.ack_nr;
            let ghost v = self@;
            self.seq_nr = seq.wrapping_add(1);
            assert(self@ =~= (ConnView { seq_nr: after(v.seq_nr), ..v }));
            let ghost made = packets_view(packets@);
            let p = self.send_raw(UtpType::StData, seq, ack, chunk, stamp, &mut events);
            packets.push(p);
            proof {
                let later = data_packets(self@, data@.skip(to as int), size as int, stamp);
                assert(packets_view(packets@) =~= made.push(p@));
                assert(made + (seq![p@] + later) =~= made.push(p@) + later);
                assert(events@ =~= events_of_sends(packets_view(packets@)));
            }
            from = to;
        }
        proof {
            assert(data@.skip(from as int) =~= Seq::<u8>::empty());
            assert(packets_view(packets@) + Seq::<PacketView>::empty() =~= packets_view(packets@));
        }
        Ok((packets, events))
    }

    /// Close the connection: the FIN packet, if the connection is established.
    pub fn close(&mut self, stamp: Stamp) -> (r: Option<(Packet, Vec<CongestionEvent>)>)
        requires
            old(self).wf(),
        ensures
            final(self).wf(),
            match r {
                Some((p, events)) => {
                    &&& old(self)@.state is Connected
                    &&& p@ == control_packet(old(self)@, UtpType::StFin, stamp)
                    &&& final(self)@ == (ConnView {
                        state: ConnState::FinSent,
                        ..after_control(old(self)@, UtpType::StFin, stamp)
                    })
                    &&& events@ == seq![CongestionEvent::InFlight { bytes: HEADER_LEN as u32 }]
                },
                None => !(old(self)@.state is Connected) && final(self)@ == old(self)@,
            },
    {
        if self.state != ConnState::Connected {
            return None;
        }
        let mut events: Vec<CongestionEvent> = Vec::new();
        let p = self.send_packet(UtpType::StFin, stamp, &mut events);
        let ghost v = self@;
        self.state = ConnState::FinSent;
        proof {
            assert(self@ =~= (ConnView { state: ConnState::FinSent, ..v }));
            assert(events@ =~= seq![CongestionEvent::InFlight { bytes: HEADER_LEN as u32 }]);
        }
        Some((p, events))
    }

    /// Read the application data that is ready: all of it.
    pub fn recv(&mut self) -> (data: Vec<u8>)
        requires
            old(self).wf(),
        ensures
            final(self).wf(),
            data@ == old(self)@.ready,
            final(self)@ == (ConnView { ready: Seq::empty(), ..old(self)@ }),
    {
        let mut data: Vec<u8> = Vec::new();
        std::mem::swap(&mut data, &mut self.ready_data);
        assert(self@ =~= (ConnView { ready: Seq::empty(), ..old(self)@ }));
        data
    }

    /// Whether there is data to be read.
    pub fn has_data(&self) -> (r: bool)
        ensures
            r == (self@.ready.len() > 0),
    {
        self.ready_data.len() > 0
    }

    /// Whether the connection is established.
    pub fn is_connected(&self) -> (r: bool)
        ensures
            r == (self@.state is Connected),
    {
        self.state == ConnState::Connected
    }

    /// Whether the connection is closed.
    pub fn is_closed(&self) -> (r: bool)
        ensures
            r == (self@.state is Closed),
    {
        self.state == ConnState::Closed
    }

    /// The state that the users of the connection are told.
    pub fn reported_state(&self) -> (s: ConnState)
        ensures
            s == match self@.state {
                ConnState::Connected => ConnState::Connected,
                ConnState::Closed => ConnState::Closed,
                _ => ConnState::SynSent,
            },
    {
        if self.is_connected() {
            ConnState::Connected
        } else if self.is_closed() {
            ConnState::Closed
        } else {
            ConnState::SynSent
        }
    }

    /// The connection ID in outgoing packets.
    pub fn conn_id_send(&self) -> (id: u16)
        ensures
            id == self@.conn_id_send,
    {
        self.conn_id_send
    }

    /// The connection ID in incoming packets.
    pub fn conn_id_recv(&self) -> (id: u16)
        ensures
            id == self@.conn_id_recv,
    {
        self.conn_id_recv
    }

    /// The remote address.
    pub fn remote_addr(&self) -> (a: PeerAddr)
        ensures
            a == self@.remote_addr,
    {
        self.remote_addr
    }

    /// Check for packets that timed out and for a connection that did. To be
    /// called every [`RETRANSMIT_CHECK_INTERVAL`].
    ///
    /// A connection that was silent for four timeouts is closed, and so is one
    /// with a packet that timed out after its last retransmission. Other packets
    /// that timed out are sent again. A SYN packet is sent anew if nothing is in
    /// flight. Returns the packets to be sent, what the congestion control has to
    /// be told, and whether the connection failed.
    pub fn check_retransmit(&mut self, timeout_ms: u32, stamp: Stamp) -> (r: (
        Vec<Packet>,
        Vec<CongestionEvent>,
        Result<(), UtpError>,
    ))
        requires
            old(self).wf(),
        ensures
            final(self).wf(),
            ({
                let c = checked(old(self)@, timeout_ms, stamp);
                &&& final(self)@ == c.conn
                &&& packets_view(r.0@) == c.packets
                &&& r.1@ == c.events
                &&& r.2 == c.result
            }),
    {
        let now: Nanos = stamp.now;
        let idle: u64 = elapsed(self.last_activity, now) / MILLISECOND;
        let mut packets: Vec<Packet> = Vec::new();
        let mut events: Vec<CongestionEvent> = Vec::new();
        assert(packets_view(packets@) =~= Seq::<PacketView>::empty());
        if idle > timeout_ms as u64 * 4 {
            self.state = ConnState::Closed;
            assert(self@ =~= (ConnView { state: ConnState::Closed, ..old(self)@ }));
            return (packets, events, Err(UtpError::TimedOut));
        }
        let timeout: Nanos = timeout_ms as u64 * MILLISECOND;
        let late = self.late_keys(timeout, now);
        let ghost v = self@;
        let ghost stuck = is_stuck(v.sent);
        proof {
            lemma_late(v.sent, timeout, now);
            assert(late@.take(0) =~= Seq::<u16>::empty());
            assert(v.sent =~= resent(v.sent, Seq::empty(), now));
            assert(packets_view(packets@) =~= resent_packets(v.sent, late@.take(0)));
        }
        let mut i: usize = 0;
        while i < late.len()
            invariant
                i <= late@.len(),
                self.wf(),
                sent_ok(v.sent),
                v == old(self)@,
                late@ == late_of(v.sent, timeout, now),
                late@.no_duplicates(),
                stuck == is_stuck(v.sent),
                forall|k: u16| #[trigger] late@.contains(k) ==> v.sent.contains_key(k),
                forall|j: int| 0 <= j < i ==> !stuck(#[trigger] late@[j]),
                self@ == (ConnView { sent: resent(v.sent, late@.take(i as int), now), ..v }),
                packets_view(packets@) == resent_packets(v.sent, late@.take(i as int)),
                events@ == timeouts(i as nat),
                now == stamp.now,
                checked(v, timeout_ms, stamp) == swept(v, timeout, stamp),
            decreases late@.len() - i,
        {
            let k: u16 = late[i];
            let ghost first = late@.take(i as int);
            let ghost m = self.send_buffer@;
            proof {
                assert(late@.contains(k));
                assert(!first.contains(k)) by {
                    if first.contains(k) {
                        let j = choose|j: int| 0 <= j < first.len() && first[j] == k;
                    }
                }
                assert(sent_view(m).contains_key(k));
            }
            if let Some(p) = self.send_buffer.get(k) {
                if p.retransmit_count >= MAX_RETRANSMIT {
                    let ghost w = self@;
                    self.state = ConnState::Closed;
                    proof {
                        lemma_first_where_is(late@, stuck, i as int);
                        assert(self@ =~= (ConnView { state: ConnState::Closed, ..w }));
                    }
                    return (packets, events, Err(UtpError::MaxRetransmits));
                }
            }
            if let Some(old_p) = self.send_buffer.remove(k) {
                let mut p = old_p;
                p.retransmit_count += 1;
                p.rtt_measurable = false;
                p.send_time = now;
                let again = Packet {
                    header: p.packet.header,
                    payload: copy_bytes(p.packet.payload.as_slice()),
                };
                let ghost sofar = packets_view(packets@);
                packets.push(again);
                self.send_buffer.insert(k, p);
                proof {
                    assert(again@ =~= v.sent[k].packet);
                    assert(packets_view(packets@) =~= sofar.push(again@));
                    assert(late@.take(i + 1) =~= first.push(k));
                    assert(packets_view(packets@) =~= resent_packets(v.sent, late@.take(i + 1)));
                    assert(p@ =~= resend(v.sent[k], now));
                    assert forall|q: u16| #[trigger]
                        late@.take(i + 1).contains(q) <==> first.contains(q) || q == k by {
                        lemma_take_contains(late@, i as int, q);
                    }
                    assert(sent_view(self.send_buffer@) =~= sent_view(m).insert(k, p@));
                    assert(sent_view(self.send_buffer@) =~= resent(
                        v.sent,
                        late@.take(i + 1),
                        now,
                    ));
                }
            }
            events.push(CongestionEvent::Timeout);
            proof {
                assert(events@ =~= timeouts((i + 1) as nat));
                assert(self@ =~= (ConnView {
                    sent: resent(v.sent, late@.take(i + 1), now),
                    ..v
                }));
            }
            i += 1;
        }
        proof {
            assert(late@.take(i as int) =~= late@);
            lemma_first_where_is(late@, stuck, i as int);
            lemma_empty_views(self.send_buffer@);
        }
        if self.state == ConnState::SynSent && self.send_buffer.is_empty() && elapsed(
            self.last_activity,
            now,
        ) > timeout {
            let ghost sofar = packets_view(packets@);
            let p = self.send_packet(UtpType::StSyn, stamp, &mut events);
            packets.push(p);
            assert(packets_view(packets@) =~= sofar.push(p@));
        }
        (packets, events, Ok(()))
    }

    fn late_keys(&self, timeout: Nanos, now: Nanos) -> (r: Vec<u16>)
        ensures
            r@ == late_of(self@.sent, timeout, now),
    {
        let keys = self.send_buffer.keys();
        let ghost v = self@;
        proof {
            assert(self.send_buffer@.dom() =~= v.sent.dom());
            lemma_ascending(v.sent.dom());
            reveal(Seq::filter);
            assert(keys@.take(0).filter(is_late(v.sent, timeout, now)) =~= Seq::<u16>::empty());
        }
        let mut r: Vec<u16> = Vec::new();
        let mut i: usize = 0;
        while i < keys.len()
            invariant
                i <= keys@.len(),
                v == self@,
                keys@ == ascending(v.sent.dom()),
                forall|k: u16| #[trigger] keys@.contains(k) <==> v.sent.dom().contains(k),
                r@ == keys@.take(i as int).filter(is_late(v.sent, timeout, now)),
            decreases keys@.len() - i,
        {
            let k: u16 = keys[i];
            proof {
                assert(keys@.contains(k));
                assert(keys@.take(i + 1).drop_last() =~= keys@.take(i as int));
                reveal(Seq::filter);
            }
            if let Some(p) = self.send_buffer.get(k) {
                if elapsed(p.send_time, now) >= timeout {
                    r.push(k);
                }
            }
            i += 1;
        }
        assert(keys@.take(i as int) =~= keys@);
        r
    }

    /// Everything but the packets in flight is as in `o`.
    spec fn same_but_sent(self, o: UtpConnection) -> bool {
        &&& self.remote_addr == o.remote_addr
        &&& self.conn_id_send == o.conn_id_send
        &&& self.conn_id_recv == o.conn_id_recv
        &&& self.state == o.state
        &&& self.seq_nr == o.seq_nr
        &&& self.ack_nr == o.ack_nr
        &&& self.eof_pkt == o.eof_pkt
        &&& self.recv_buffer == o.recv_buffer
        &&& self.ready_data == o.ready_data
        &&& self.last_activity == o.last_activity
    }
}

/// The payloads of a stream, one after the other.
pub open spec fn concat(stream: Seq<Seq<u8>>) -> Seq<u8>
    decreases stream.len(),
{
    if stream.len() == 0 {
        Seq::empty()
    } else {
        concat(stream.drop_last()) + stream.last()
    }
}

/// How far a number lies ahead of another, going round.
pub open spec fn distance(seq: u16, from: u16) -> int {
    (seq - from) % 0x1_0000
}

/// The sequence number of the payload at position `i` of a stream whose first
/// payload comes after `base`.
pub open spec fn number(base: u16, i: int) -> u16 {
    ((base + i + 1) % 0x1_0000) as u16
}

/// Whether the payload at position `i` of the stream was received, after the
/// first `pos` were delivered.
pub open spec fn received(v: ConnView, base: u16, pos: int, i: int) -> bool {
    i < pos || (i - pos < 0x8000 && v.held.contains_key(number(base, i)))
}

/// Whether the connection is in step with a stream whose payloads have the
/// sequence numbers after `base`, going round: what was read from it and what is
/// ready are the first `pos` payloads, and what is held are payloads further on,
/// less than half way round.
pub open spec fn in_step(
    v: ConnView,
    base: u16,
    pos: int,
    stream: Seq<Seq<u8>>,
    taken: Seq<u8>,
) -> bool {
    &&& 0 <= pos <= stream.len()
    &&& v.ack_nr == (base + pos) % 0x1_0000
    &&& taken + v.ready == concat(stream.take(pos))
    &&& v.held.dom().finite()
    &&& holds_ahead(v, pos, stream, 2, 0x8000)
}

/// Whether everything that is held is a payload of the stream, between `near` and
/// `far` numbers ahead.
pub open spec fn holds_ahead(
    v: ConnView,
    pos: int,
    stream: Seq<Seq<u8>>,
    near: int,
    far: int,
) -> bool {
    forall|s: u16| #[trigger]
        v.held.contains_key(s) ==> {
            let d = distance(s, v.ack_nr);
            &&& near <= d <= far
            &&& pos + d <= stream.len()
            &&& v.held[s] == stream[pos + d - 1]
        }
}

/// The number of payloads that were delivered, after some were before.
pub open spec fn delivered(pos: int, before: ConnView, after: ConnView) -> int {
    pos + distance(after.ack_nr, before.ack_nr)
}

/// Packets may arrive in any order and more than once, and their numbers may go
/// round: the bytes that come out are those of the stream in order, nothing that
/// was received is lost, and nothing is delivered twice. A packet must be less
/// than half way round from the last one delivered, or its number stands for
/// another.
pub proof fn law_in_order_delivery(
    v: ConnView,
    base: u16,
    pos: int,
    stream: Seq<Seq<u8>>,
    taken: Seq<u8>,
    i: int,
)
    requires
        in_step(v, base, pos, stream, taken),
        0 <= i < stream.len(),
        -0x8000 < i + 1 - pos <= 0x8000,
    ensures
        ({
            let w = after_payload(v, number(base, i), stream[i]);
            let p = delivered(pos, v, w);
            &&& pos <= p
            &&& in_step(w, base, p, stream, taken)
            &&& received(w, base, p, i)
            &&& forall|q: int| #[trigger]
                received(v, base, pos, q) ==> received(w, base, p, q)
            &&& after_payload(w, number(base, i), stream[i]) == w
        }),
{
    let seq = number(base, i);
    let payload = stream[i];
    let w = after_payload(v, seq, payload);
    let p = delivered(pos, v, w);
    assert(distance(seq, v.ack_nr) == (i + 1 - pos) % 0x1_0000);
    assert(distance(v.ack_nr, v.ack_nr) == 0);
    if i + 1 <= pos {
        assert(is_acked(seq, v.ack_nr));
    } else if i == pos {
        assert(seq == after(v.ack_nr));
        let u = ConnView { ack_nr: seq, ready: v.ready + payload, ..v };
        assert(stream.take(i + 1).drop_last() =~= stream.take(pos));
        assert(stream.take(i + 1).last() == payload);
        assert(taken + u.ready =~= (taken + v.ready) + payload);
        assert(holds_ahead(u, i + 1, stream, 1, 0x7fff)) by {
            assert forall|s: u16| #[trigger] u.held.contains_key(s) implies {
                let d = distance(s, u.ack_nr);
                &&& 1 <= d <= 0x7fff
                &&& i + 1 + d <= stream.len()
                &&& u.held[s] == stream[i + 1 + d - 1]
            } by {
                assert(v.held.contains_key(s));
                assert(distance(s, u.ack_nr) == distance(s, v.ack_nr) - 1);
            }
        }
        lemma_drain(u, base, i + 1, stream, taken, 0x7fff);
        assert(p == delivered(i + 1, u, w));
        assert forall|q: int| #[trigger] received(v, base, pos, q) implies received(
            w,
            base,
            p,
            q,
        ) by {
            assert(received(u, base, i + 1, q));
        }
        assert(received(u, base, i + 1, i));
        assert(distance(seq, w.ack_nr) == (i + 1 - p) % 0x1_0000);
        assert(is_acked(seq, w.ack_nr));
    } else {
        assert(!is_acked(seq, v.ack_nr) && seq != after(v.ack_nr));
        assert(w == (ConnView { held: v.held.insert(seq, payload), ..v }));
        assert(w.held.insert(seq, payload) =~= w.held);
        assert(after_payload(w, seq, payload) =~= w);
    }
}

proof fn lemma_drain(
    u: ConnView,
    base: u16,
    pos: int,
    stream: Seq<Seq<u8>>,
    taken: Seq<u8>,
    far: int,
)
    requires
        0 <= pos <= stream.len(),
        0 <= far <= 0x7fff,
        u.ack_nr == (base + pos) % 0x1_0000,
        taken + u.ready == concat(stream.take(pos)),
        u.held.dom().finite(),
        holds_ahead(u, pos, stream, 1, far),
    ensures
        ({
            let w = drained(u);
            let p = delivered(pos, u, w);
            &&& pos <= p <= pos + far
            &&& in_step(w, base, p, stream, taken)
            &&& forall|q: int| #[trigger]
                received(u, base, pos, q) ==> received(w, base, p, q)
        }),
    decreases u.held.dom().len(),
{
    let next = after(u.ack_nr);
    assert(distance(next, u.ack_nr) == 1);
    assert(distance(u.ack_nr, u.ack_nr) == 0);
    if u.held.contains_key(next) {
        let n = ConnView {
            ack_nr: next,
            ready: u.ready + u.held[next],
            held: u.held.remove(next),
            ..u
        };
        assert(stream.take(pos + 1).drop_last() =~= stream.take(pos));
        assert(stream.take(pos + 1).last() == u.held[next]);
        assert(taken + n.ready =~= (taken + u.ready) + u.held[next]);
        assert forall|s: u16| #[trigger] n.held.contains_key(s) implies {
            let d = distance(s, n.ack_nr);
            &&& 1 <= d <= far - 1
            &&& pos + 1 + d <= stream.len()
            &&& n.held[s] == stream[pos + 1 + d - 1]
        } by {
            assert(u.held.contains_key(s));
            assert(s != next);
            assert(distance(s, n.ack_nr) == distance(s, u.ack_nr) - 1);
        }
        lemma_drain(n, base, pos + 1, stream, taken, far - 1);
        let w = drained(u);
        assert(w == drained(n));
        assert(delivered(pos, u, w) == delivered(pos + 1, n, w));
        assert forall|q: int| #[trigger] received(u, base, pos, q) implies received(
            w,
            base,
            delivered(pos, u, w),
            q,
        ) by {
            assert(number(base, q) == next ==> q < pos + 1 || q - pos >= 0x8000);
            assert(received(n, base, pos + 1, q));
        }
    } else {
        assert forall|s: u16| #[trigger] u.held.contains_key(s) implies 2 <= distance(
            s,
            u.ack_nr,
        ) by {
            if distance(s, u.ack_nr) == 1 {
                assert(s == next);
            }
        }
    }
}

/// Once every packet of a stream was received, all its bytes have come out.
pub proof fn law_complete_delivery(
    v: ConnView,
    base: u16,
    pos: int,
    stream: Seq<Seq<u8>>,
    taken: Seq<u8>,
)
    requires
        in_step(v, base, pos, stream, taken),
        forall|q: int| 0 <= q < stream.len() ==> #[trigger] received(v, base, pos, q),
    ensures
        taken + v.ready == concat(stream),
{
    if pos < stream.len() {
        assert(received(v, base, pos, pos));
        assert(distance(number(base, pos), v.ack_nr) == 1);
    }
    assert(stream.take(stream.len() as int) =~= stream);
}

/// Reading takes bytes out in order.
pub proof fn law_reading_keeps_step(
    v: ConnView,
    base: u16,
    pos: int,
    stream: Seq<Seq<u8>>,
    taken: Seq<u8>,
)
    requires
        in_step(v, base, pos, stream, taken),
    ensures
        in_step(ConnView { ready: Seq::empty(), ..v }, base, pos, stream, taken + v.ready),
{
    assert(taken + v.ready + Seq::<u8>::empty() =~= taken + v.ready);
}

/// A connection that was accepted takes in the stream from its first packet on:
/// it is in step with the payloads numbered after the SYN, whichever of them
/// comes first.
pub proof fn law_accepted_in_step(
    syn: UtpHeader,
    seq_nr: u16,
    remote_addr: PeerAddr,
    stream: Seq<Seq<u8>>,
    first: UtpHeader,
    i: int,
    stamp: Stamp,
    later: Nanos,
)
    requires
        first.utp_type is StData,
        0 <= i < stream.len(),
        i < 0x8000,
        first.seq_nr == number(syn.seq_nr, i),
    ensures
        ({
            let v = after_control(
                accepted_view(syn, seq_nr, remote_addr, stamp.now),
                UtpType::StState,
                stamp,
            );
            let w = after_packet(v, first, stream[i], later);
            let p = delivered(0, v, w);
            &&& in_step(v, syn.seq_nr, 0, stream, Seq::empty())
            &&& w.state is Connected
            &&& in_step(w, syn.seq_nr, p, stream, Seq::empty())
            &&& received(w, syn.seq_nr, p, i)
            &&& i == 0 ==> w.ready == stream[0]
        }),
{
    let v = after_control(
        accepted_view(syn, seq_nr, remote_addr, stamp.now),
        UtpType::StState,
        stamp,
    );
    assert(stream.take(0) =~= Seq::<Seq<u8>>::empty());
    assert(Seq::<u8>::empty() + v.ready =~= Seq::<u8>::empty());
    let u = after_ack(
        ConnView { state: ConnState::Connected, last_activity: later, ..v },
        first.ack_nr,
    );
    law_in_order_delivery(u, syn.seq_nr, 0, stream, Seq::empty(), i);
    if i == 0 {
        let next = ConnView { ack_nr: first.seq_nr, ready: u.ready + stream[0], ..u };
        assert(first.seq_nr == after(u.ack_nr));
        assert(drained(next) == next);
        assert(u.ready + stream[0] =~= stream[0]);
    }
}

/// A closed connection stays closed and takes nothing from a packet.
pub proof fn law_closed_stays_closed(
    v: ConnView,
    header: UtpHeader,
    payload: Seq<u8>,
    now: Nanos,
)
    requires
        v.state is Closed,
    ensures
        after_packet(v, header, payload, now) == (ConnView { last_activity: now, ..v }),
{
}

/// A FIN packet from each side closes the connection.
pub proof fn law_two_fins_close(
    v: ConnView,
    stamp: Stamp,
    header: UtpHeader,
    payload: Seq<u8>,
    now: Nanos,
)
    requires
        header.utp_type is StFin,
    ensures
        ({
            let w = ConnView {
                state: ConnState::FinSent,
                ..after_control(v, UtpType::StFin, stamp)
            };
            after_packet(w, header, payload, now).state is Closed
        }),
{
}

/// What was acknowledged is no longer in flight; everything else still is.
pub proof fn law_acknowledged_leaves(v: ConnView, ack: u16, seq: u16)
    ensures
        after_ack(v, ack).sent.contains_key(seq) <==> v.sent.contains_key(seq) && !is_acked(
            seq,
            ack,
        ),
        is_acked(ack, ack),
        0 < ack - seq < 0x8000 ==> is_acked(seq, ack),
        0 < seq - ack <= 0x8000 ==> !is_acked(seq, ack),
{
}

} // verus!
