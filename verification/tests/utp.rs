use torrent::addr::PeerAddr;
use torrent::peer::utp::connection::{
    CongestionEvent, ConnState, Stamp, UtpConnection, UtpError, UtpHeader, UtpType,
};
use torrent::peer::utp::socket::{reset_header, split_datagram, Dispatch, UtpSocket};
use torrent::peer::utp::stream::UtpStream;
use torrent::time::{MILLISECOND, SECOND};

const REMOTE: PeerAddr = PeerAddr::V4 { ip: 0x0a00_0001, port: 6881 };

fn stamp(now: u64) -> Stamp {
    Stamp { now, timestamp_us: 77, reply_micro: 5 }
}

fn header(utp_type: UtpType, seq_nr: u16, ack_nr: u16) -> UtpHeader {
    UtpHeader {
        utp_type,
        version: 1,
        extension: 0,
        connection_id: 9,
        timestamp_microseconds: 1,
        timestamp_difference_microseconds: 42,
        wnd_size: 1000,
        seq_nr,
        ack_nr,
    }
}

/// A connection that is established, with everything up to 100 received.
fn established() -> UtpConnection {
    let (mut conn, _, _) = UtpConnection::connect_with(9, REMOTE, stamp(0));
    conn.handle_packet(&header(UtpType::StState, 100, 2), &[], 0);
    assert!(conn.is_connected());
    conn
}

#[test]
fn connecting_sends_a_syn() {
    let (conn, packet, events) = UtpConnection::connect_with(0xffff, REMOTE, stamp(0));
    assert_eq!(conn.conn_id_recv(), 0xffff);
    assert_eq!(conn.conn_id_send(), 0);
    assert_eq!(packet.header.utp_type, UtpType::StSyn);
    assert_eq!(packet.header.connection_id, 0);
    assert_eq!(packet.header.seq_nr, 2);
    assert_eq!(packet.header.wnd_size, 1_000_000);
    assert_eq!(packet.header.timestamp_microseconds, 77);
    assert!(packet.payload.is_empty());
    assert_eq!(events, vec![CongestionEvent::InFlight { bytes: 20 }]);
    assert_eq!(conn.reported_state(), ConnState::SynSent);
    let (random, syn, _) = UtpConnection::connect(REMOTE, stamp(0));
    assert_eq!(random.conn_id_send(), random.conn_id_recv().wrapping_add(1));
    assert_eq!(syn.header.connection_id, random.conn_id_send());
    assert_eq!(random.remote_addr(), REMOTE);
}

#[test]
fn accepting_answers_with_state() {
    let syn = header(UtpType::StSyn, 1, 0);
    let (mut conn, packet, _) = UtpConnection::accept_with(&syn, 500, REMOTE, stamp(1));
    assert_eq!(conn.conn_id_recv(), 9);
    assert_eq!(conn.conn_id_send(), 10);
    assert_eq!(packet.header.utp_type, UtpType::StState);
    assert_eq!((packet.header.seq_nr, packet.header.ack_nr), (500, 1));
    conn.handle_packet(&header(UtpType::StData, 2, 500), b"x", 2);
    assert!(conn.is_connected());
    assert!(conn.has_data());
    assert_eq!(conn.recv(), b"x".to_vec());
    let (other, state, _) = UtpConnection::accept(&syn, REMOTE, stamp(1));
    assert_eq!(state.header.ack_nr, 1);
    assert_eq!(other.conn_id_recv(), 9);
}

#[test]
fn data_is_delivered_in_order() {
    let mut conn = established();
    conn.handle_packet(&header(UtpType::StData, 103, 2), b"cc", 1);
    conn.handle_packet(&header(UtpType::StData, 102, 2), b"bb", 1);
    assert!(!conn.has_data());
    conn.handle_packet(&header(UtpType::StData, 101, 2), b"aa", 1);
    assert!(conn.has_data());
    conn.handle_packet(&header(UtpType::StData, 101, 2), b"zz", 1);
    conn.handle_packet(&header(UtpType::StData, 104, 2), b"dd", 1);
    assert_eq!(conn.recv(), b"aabbccdd".to_vec());
    assert!(conn.recv().is_empty());
}

#[test]
fn acknowledged_packets_leave_and_are_measured() {
    let mut conn = established();
    let (packets, events) = conn.send(&[7u8; 350], 200, stamp(SECOND)).ok().unwrap();
    assert_eq!(packets.iter().map(|p| p.payload.len()).collect::<Vec<_>>(), vec![200, 150]);
    assert_eq!(packets.iter().map(|p| p.header.seq_nr).collect::<Vec<_>>(), vec![3, 4]);
    assert_eq!(packets[0].header.ack_nr, 100);
    assert_eq!(
        events,
        vec![CongestionEvent::InFlight { bytes: 220 }, CongestionEvent::InFlight { bytes: 170 }]
    );
    let now = SECOND + 30 * MILLISECOND;
    let events = conn.handle_packet(&header(UtpType::StState, 101, 3), &[], now);
    assert_eq!(
        events,
        vec![
            CongestionEvent::Delay { micros: 42, now },
            CongestionEvent::Acked { bytes: 20 },
            CongestionEvent::RoundTrip { millis: 30 },
            CongestionEvent::Acked { bytes: 220 },
            CongestionEvent::Adjust,
        ]
    );
}

#[test]
fn small_packet_sizes_are_raised() {
    let mut conn = established();
    let (packets, _) = conn.send(&[7u8; 151], 10, stamp(0)).ok().unwrap();
    assert_eq!(packets.iter().map(|p| p.payload.len()).collect::<Vec<_>>(), vec![150, 1]);
    assert!(conn.send(&[], 10, stamp(0)).ok().unwrap().0.is_empty());
}

#[test]
fn sending_needs_a_connection() {
    let (mut conn, _, _) = UtpConnection::connect_with(1, REMOTE, stamp(0));
    assert_eq!(conn.send(b"x", 200, stamp(0)).err(), Some(UtpError::NotConnected));
    assert!(conn.close(stamp(0)).is_none());
}

#[test]
fn closing_from_both_sides() {
    let mut conn = established();
    let (fin, _) = conn.close(stamp(1)).unwrap();
    assert_eq!(fin.header.utp_type, UtpType::StFin);
    assert_eq!(fin.header.seq_nr, 3);
    conn.handle_packet(&header(UtpType::StFin, 101, 3), &[], 2);
    assert!(conn.is_closed());
    assert_eq!(conn.reported_state(), ConnState::Closed);
    conn.handle_packet(&header(UtpType::StData, 101, 3), b"late", 3);
    assert!(conn.is_closed());
    assert!(!conn.has_data());
}

#[test]
fn remote_fin_waits_for_our_packets() {
    let mut conn = established();
    conn.handle_packet(&header(UtpType::StFin, 101, 1), b"bye", 1);
    assert!(!conn.is_closed());
    assert_eq!(conn.recv(), b"bye".to_vec());
    conn.handle_packet(&header(UtpType::StState, 102, 2), &[], 2);
    assert!(conn.is_closed());
}

#[test]
fn reset_closes() {
    let mut conn = established();
    conn.handle_packet(&header(UtpType::StReset, 0, 0), &[], 1);
    assert!(conn.is_closed());
}

#[test]
fn late_packets_are_sent_again_until_given_up() {
    let mut conn = established();
    conn.handle_packet(&header(UtpType::StState, 100, 2), &[], 0);
    let (sent, _) = conn.send(b"hello", 200, stamp(0)).ok().unwrap();
    let mut now = 0;
    for _ in 0..10 {
        now += 1000 * MILLISECOND;
        conn.handle_packet(&header(UtpType::StSyn, 0, 0), &[], now);
        let (packets, events, result) = conn.check_retransmit(1000, stamp(now));
        assert!(result.is_ok());
        assert_eq!(packets.len(), 1);
        assert_eq!(packets[0].payload, sent[0].payload);
        assert_eq!(packets[0].header, sent[0].header);
        assert_eq!(events, vec![CongestionEvent::Timeout]);
    }
    now += 1000 * MILLISECOND;
    let (packets, _, result) = conn.check_retransmit(1000, stamp(now));
    assert!(packets.is_empty());
    assert_eq!(result.err(), Some(UtpError::MaxRetransmits));
    assert!(conn.is_closed());
}

#[test]
fn silent_connection_times_out() {
    let mut conn = established();
    let (_, _, result) = conn.check_retransmit(1000, stamp(4000 * MILLISECOND));
    assert!(result.is_ok());
    let (packets, _, result) = conn.check_retransmit(1000, stamp(4001 * MILLISECOND));
    assert!(packets.is_empty());
    assert_eq!(result.err(), Some(UtpError::TimedOut));
    assert!(conn.is_closed());
}

#[test]
fn datagrams_find_their_connection() {
    let mut socket: UtpSocket<&str> = UtpSocket::new();
    socket.register(9, "nine");
    assert_eq!(
        socket.dispatch(Some(header(UtpType::StData, 5, 6))),
        Dispatch::Deliver { conn_id: 9 }
    );
    assert_eq!(socket.connection(9), Some(&"nine"));
    socket.unregister(9);
    assert_eq!(socket.dispatch(Some(header(UtpType::StSyn, 5, 6))), Dispatch::Accept);
    assert_eq!(socket.dispatch(Some(header(UtpType::StReset, 5, 6))), Dispatch::Ignore);
    assert_eq!(socket.dispatch(None), Dispatch::Ignore);
    let unknown = header(UtpType::StData, 5, 6);
    let reset = reset_header(&unknown);
    assert_eq!(socket.dispatch(Some(unknown)), Dispatch::Reset { header: reset });
    assert_eq!((reset.seq_nr, reset.ack_nr, reset.connection_id), (6, 5, 9));
    assert_eq!(reset.utp_type, UtpType::StReset);
}

#[test]
fn datagrams_are_split() {
    let data: Vec<u8> = (0..23).collect();
    let (head, payload) = split_datagram(&data).unwrap();
    assert_eq!(&head[..], &data[..20]);
    assert_eq!(payload, vec![20, 21, 22]);
    assert!(split_datagram(&data[..19]).is_none());
}

#[test]
fn stream_hands_out_what_came_in() {
    let mut s = UtpStream::new();
    assert!(s.is_exhausted());
    s.refill(vec![1, 2, 3, 4, 5]);
    assert_eq!(s.read(2), vec![1, 2]);
    assert!(!s.is_exhausted());
    assert_eq!(s.read(10), vec![3, 4, 5]);
    assert!(s.is_exhausted());
    assert!(s.read(1).is_empty());
}

#[test]
fn sequence_numbers_go_round() {
    let (mut conn, _, _) = UtpConnection::connect_with(9, REMOTE, stamp(0));
    conn.handle_packet(&header(UtpType::StState, 65_534, 2), &[], 0);
    conn.handle_packet(&header(UtpType::StData, 1, 2), b"d", 1);
    conn.handle_packet(&header(UtpType::StData, 65_535, 2), b"b", 1);
    conn.handle_packet(&header(UtpType::StData, 65_534, 2), b"a", 1);
    assert_eq!(conn.recv(), b"b".to_vec());
    conn.handle_packet(&header(UtpType::StData, 0, 2), b"c", 1);
    assert_eq!(conn.recv(), b"cd".to_vec());
    conn.handle_packet(&header(UtpType::StData, 65_535, 2), b"b", 1);
    conn.handle_packet(&header(UtpType::StData, 0, 2), b"c", 1);
    assert!(!conn.has_data());
    conn.handle_packet(&header(UtpType::StData, 2, 2), b"e", 1);
    assert_eq!(conn.recv(), b"e".to_vec());
}
