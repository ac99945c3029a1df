use torrent::addr::PeerAddr;
use torrent::error::ErrorKind;
use torrent::metainfo::{Info, Metainfo};
use torrent::peer::stream::{read_frame, whole_message, Frame, Handshake, PeerConnection, PeerState};
use torrent::session::builder::TorrentBuilder;
use torrent::session::config::{SessionConfig, SessionStatus, TorrentState};
use torrent::session::inbound::dispatch_inbound;
use torrent::session::lsd::{broadcast_announce, handle_incoming, LsdAnnounce};
use torrent::session::registry::Session;
use torrent::session::seed::builder::SeedBuilder;
use torrent::session::swarm::engine::TorrentCommand;
use torrent::session::torrent::{MagnetUri, TorrentSpec};
use torrent::time::{MILLISECOND, SECOND};

fn addr(n: u8) -> PeerAddr {
    PeerAddr::V4 { ip: 0x7f00_0000 + n as u32, port: 6881 }
}

fn metainfo(n: u8) -> Metainfo {
    Metainfo {
        announce: "http://tracker.example.com/".to_string(),
        announce_list: Vec::new(),
        comment: None,
        created_by: None,
        private: false,
        info_hash: [n; 20],
        info: Info {
            name: "file".to_string(),
            piece_length: 10,
            pieces: vec![[0; 20]; 3],
            length: 25,
        },
    }
}

fn magnet(n: u8, name: Option<&str>) -> TorrentSpec {
    TorrentSpec::Magnet(MagnetUri {
        info_hash: [n; 20],
        display_name: name.map(|s| s.to_string()),
    })
}

fn session() -> Session<u32> {
    Session::new(SessionConfig::default())
}

fn kind<T>(r: Result<T, torrent::error::Error>) -> Option<ErrorKind> {
    r.err().map(|e| e.kind())
}

#[test]
fn default_configuration() {
    let c = SessionConfig::default();
    assert_eq!(c.listen_port, 6881);
    assert_eq!(c.max_connections, 50);
    assert_eq!(c.max_uploads, 8);
    assert_eq!(c.max_active_torrents, 0);
    assert_eq!(c.max_concurrent_pieces, 5);
    assert_eq!(c.piece_cache_size, 256);
    assert_eq!(c.endgame_threshold, 10);
    assert_eq!(c.request_timeout, 60 * SECOND);
    assert_eq!(c.peer_connect_timeout, 500 * MILLISECOND);
    assert_eq!(c.peer_max_retries, 3);
    assert_eq!(c.choke_interval, 10 * SECOND);
    assert_eq!(c.bootstrap_nodes.map(|v| v.len()), Some(2));
    assert_eq!(SessionStatus::default().num_torrents, 0);
}

#[test]
fn torrents_are_registered() {
    let mut s = session();
    let b = s.add_torrent(
        TorrentSpec::Metainfo(metainfo(1)),
        vec!["http://seed/".to_string()],
        vec![addr(9)],
        [7; 20],
    )
    .ok()
    .unwrap();
    assert_eq!(b.info_hash(), [1; 20]);
    assert!(b.metadata_resolved);
    assert!(b.magnet_peers.is_empty());
    let h = s.torrent(&[1; 20]).ok().unwrap();
    assert_eq!(h.status.state, TorrentState::Registered);
    assert_eq!(h.status.num_pieces, 3);
    assert_eq!(h.status.total_size, 25);
    assert_eq!(h.tracker_status.url, "http://tracker.example.com/");
    assert_eq!(s.torrent_status(&[1; 20]).ok().unwrap().total_size, 25);
    assert_eq!(kind(s.torrent_status(&[2; 20])), Some(ErrorKind::InvalidInput));
    assert_eq!(h.title(), "file");
    assert_eq!(h.web_seeds, vec!["http://seed/".to_string()]);

    assert!(s.add_torrent(magnet(0xab, None), Vec::new(), Vec::new(), [7; 20]).is_ok());
    let h = s.torrent(&[0xab; 20]).ok().unwrap();
    assert_eq!(h.status.name, "ab".repeat(20));
    assert_eq!(h.title(), "<unknown>");
    assert!(s.add_torrent(magnet(3, Some("named")), Vec::new(), Vec::new(), [7; 20]).is_ok());
    assert_eq!(s.torrent(&[3; 20]).ok().unwrap().status.name, "named");
    assert_eq!(s.active_torrents(), vec![[1; 20], [0xab; 20], [3; 20]]);
}

#[test]
fn magnet_uris_are_generated() {
    let mut s = session();
    assert!(s.add_torrent(TorrentSpec::Metainfo(metainfo(0x0f)), Vec::new(), Vec::new(), [7; 20]).is_ok());
    assert!(s.add_torrent(magnet(2, None), Vec::new(), Vec::new(), [7; 20]).is_ok());
    assert_eq!(
        s.magnet_uri(&[0x0f; 20]),
        Some(format!("magnet:?xt=urn:btih:{}&dn=file", "0f".repeat(20)))
    );
    assert_eq!(s.magnet_uri(&[2; 20]), None);
    assert_eq!(s.magnet_uri(&[9; 20]), None);
    assert!(s.metainfo(&[0x0f; 20]).is_some());
    assert!(s.metainfo(&[2; 20]).is_none());
}

#[test]
fn torrents_are_started_paused_and_removed() {
    let mut s = session();
    let ih = [1; 20];
    let b = s
        .add_torrent(TorrentSpec::Metainfo(metainfo(1)), Vec::new(), Vec::new(), [7; 20])
        .ok()
        .unwrap();
    assert_eq!(s.prepare_start(&b).ok(), Some(false));
    assert!(matches!(s.pause_torrent(&ih), Ok(None)));
    let b = b.storage();
    assert_eq!(s.prepare_start(&b).ok(), Some(true));
    let l = s.activate(&ih, [8; 20], SECOND).ok().unwrap();
    assert_eq!(l.settings.started_at, SECOND);
    assert_eq!(l.have, vec![false; 3]);
    assert!(matches!(s.pause_torrent(&ih), Ok(Some(TorrentCommand::Pause))));
    assert!(matches!(s.resume_torrent(&ih), Ok(Some(TorrentCommand::Resume))));
    assert!(matches!(s.remove_torrent(&ih), Ok(Some(TorrentCommand::Cancel))));
    assert_eq!(kind(s.remove_torrent(&ih)), Some(ErrorKind::InvalidInput));
    assert_eq!(kind(s.pause_torrent(&ih)), Some(ErrorKind::InvalidInput));
    assert_eq!(kind(s.resume_torrent(&ih)), Some(ErrorKind::InvalidInput));
    assert_eq!(kind(s.torrent(&ih)), Some(ErrorKind::InvalidInput));
    assert_eq!(kind(s.prepare_start(&b)), Some(ErrorKind::InvalidInput));
    assert_eq!(kind(s.activate(&ih, [8; 20], 0)), Some(ErrorKind::InvalidInput));
}

#[test]
fn active_torrents_are_limited() {
    let mut s: Session<u32> =
        Session::new(SessionConfig { max_active_torrents: 1, ..SessionConfig::default() });
    let a = s
        .add_torrent(TorrentSpec::Metainfo(metainfo(1)), Vec::new(), Vec::new(), [7; 20])
        .ok()
        .unwrap()
        .storage();
    let b = s
        .add_torrent(TorrentSpec::Metainfo(metainfo(2)), Vec::new(), Vec::new(), [7; 20])
        .ok()
        .unwrap()
        .storage();
    assert!(s.prepare_start(&a).is_ok());
    assert!(s.activate(&[1; 20], [8; 20], 0).is_ok());
    assert_eq!(s.active_count(), 1);
    assert_eq!(kind(s.prepare_start(&b)), Some(ErrorKind::InvalidInput));
    let third = TorrentSpec::Metainfo(metainfo(3));
    assert_eq!(
        kind(s.add_torrent(third, Vec::new(), Vec::new(), [7; 20])),
        Some(ErrorKind::InvalidInput)
    );
    assert!(s.is_full());
    assert_eq!(s.active_torrents().len(), 2);
}

#[test]
fn magnet_links_need_metadata() {
    let mut s = session();
    let b = s
        .add_torrent(magnet(4, None), Vec::new(), vec![addr(5)], [7; 20])
        .ok()
        .unwrap()
        .storage();
    assert_eq!(b.magnet_peers, vec![addr(5)]);
    assert_eq!(kind(s.prepare_start(&b)), Some(ErrorKind::InvalidInput));
    assert_eq!(kind(s.activate(&[4; 20], [8; 20], 0)), Some(ErrorKind::InvalidInput));
    let unresolved = TorrentBuilder::new([4; 20], false, Vec::new());
    assert_eq!(kind(s.resolve_metadata(unresolved)), Some(ErrorKind::InvalidInput));
    assert_eq!(
        kind(s.metadata_received(&[4; 20], metainfo(5))),
        Some(ErrorKind::InvalidInput)
    );
    assert!(s.metadata_received(&[4; 20], metainfo(4)).is_ok());
    assert_eq!(s.metainfo(&[4; 20]).unwrap().info_hash, [4; 20]);
    assert_eq!(s.torrent_status(&[4; 20]).ok().unwrap().num_pieces, 3);
    let resolved = s.resolve_metadata(b).ok().unwrap();
    assert!(resolved.metadata_resolved);
    let again = s.resolve_metadata(resolved).ok().unwrap();
    assert!(again.metadata_resolved);
    assert_eq!(s.prepare_start(&again).ok(), Some(true));
    assert!(s.activate(&[4; 20], [8; 20], 0).is_ok());
}

#[test]
fn seeding_starts_complete() {
    let data: Vec<u8> = (0..100u8).collect();
    let prepared = SeedBuilder::new(data)
        .piece_length(32)
        .hash()
        .ok()
        .unwrap()
        .encoded([6; 20], Some(vec![1]))
        .ok()
        .unwrap();
    let mut s = session();
    let (ih, storage, l) = s.start_seeding(prepared, true, [8; 20], SECOND).ok().unwrap();
    assert_eq!(ih, [6; 20]);
    assert_eq!(storage.num_pieces(), 4);
    assert_eq!(l.have, vec![true; 4]);
    assert_eq!(l.status.state, TorrentState::Seeding);
    assert_eq!(l.status.pieces_completed, 4);
    assert!(l.settings.super_seed);
    assert!(s.takes_inbound(&ih));
}

#[test]
fn inbound_connections_reach_running_torrents() {
    let mut s = session();
    assert!(s.add_torrent(TorrentSpec::Metainfo(metainfo(1)), Vec::new(), Vec::new(), [7; 20]).is_ok());
    assert!(dispatch_inbound(&s, &[1; 20], addr(1), 5).is_none());
    s.activate(&[1; 20], [8; 20], 0).ok();
    assert!(matches!(
        dispatch_inbound(&s, &[1; 20], addr(1), 5),
        Some(TorrentCommand::InboundPeer(_, 5))
    ));
    assert!(dispatch_inbound(&s, &[2; 20], addr(1), 5).is_none());
}

#[test]
fn local_peers_are_added() {
    let mut s = session();
    assert!(broadcast_announce(&s, true, true).is_none());
    let b = s
        .add_torrent(TorrentSpec::Metainfo(metainfo(1)), Vec::new(), Vec::new(), [7; 20])
        .ok()
        .unwrap()
        .storage();
    let out = broadcast_announce(&s, true, false).unwrap();
    assert_eq!(out.info_hashes, vec![[1; 20]]);
    assert!(out.v4 && !out.v6);
    let announce = LsdAnnounce { port: 7000, info_hashes: vec![[9; 20], [1; 20], [1; 20]] };
    handle_incoming(&mut s, &announce, addr(3));
    assert!(s.prepare_start(&b).is_ok());
    let mut h = match s.remove_torrent(&[1; 20]) {
        Ok(_) => s,
        Err(_) => panic!("not there"),
    };
    assert!(h.active_torrents().is_empty());
    h.add_peers(&[1; 20], vec![addr(1)]);
}

#[test]
fn dht_ports_follow_the_listen_port() {
    assert_eq!(session().dht_ports(), Some((6882, 6883)));
    let without: Session<u32> =
        Session::new(SessionConfig { bootstrap_nodes: None, ..SessionConfig::default() });
    assert_eq!(without.dht_ports(), None);
    let joins_nobody: Session<u32> = Session::new(SessionConfig {
        bootstrap_nodes: Some(Vec::new()),
        ..SessionConfig::default()
    });
    assert_eq!(joins_nobody.dht_ports(), Some((6882, 6883)));
}

#[test]
fn frames_are_bounded() {
    assert!(matches!(read_frame(&[0, 0, 0, 0]), Ok(Frame::KeepAlive)));
    assert!(matches!(read_frame(&[0, 0, 1, 2]), Ok(Frame::Body(258))));
    assert_eq!(kind(read_frame(&[0xff, 0, 0, 0])), Some(ErrorKind::PeerConnectionClosed));
    assert_eq!(whole_message(&[0, 0, 0, 2], &[7, 8]), vec![0, 0, 0, 2, 7, 8]);
}

#[test]
fn handshakes_must_match() {
    let ours = Handshake::ours([1; 20], [2; 20]);
    assert_eq!(ours.reserved, [0, 0, 0, 0, 0, 0x18, 0, 1]);
    let mut c = PeerConnection::from_handshake(&ours, &[1; 20]).ok().unwrap();
    assert_eq!(c.remote_peer_id(), Some([2; 20]));
    assert!(c.remote_has_extension(43));
    assert!(c.remote_has_extension(44));
    assert!(c.remote_has_extension(63));
    assert!(!c.remote_has_extension(0));
    assert!(!c.remote_has_extension(64));
    assert_eq!(c.state(), PeerState::Init);
    c.set_state(PeerState::Init);
    assert_eq!(c.remote_reserved(), &ours.reserved);
    assert_eq!(
        kind(PeerConnection::from_handshake(&ours, &[3; 20])),
        Some(ErrorKind::PeerInvalidHandshake)
    );
}

#[test]
fn connections_are_opened_in_batches() {
    let mut s = session();
    assert!(s.add_torrent(TorrentSpec::Metainfo(metainfo(1)), Vec::new(), Vec::new(), [7; 20]).is_ok());
    s.add_peers(&[1; 20], vec![addr(1), addr(2), addr(3)]);
    let batch = s.connect_pending(&[1; 20], 0);
    assert_eq!(batch, vec![addr(1), addr(2), addr(3)]);
    let failed = torrent::error::Error::new(ErrorKind::Io);
    let outcomes = vec![(addr(1), Ok(7u32)), (addr(2), Err(failed))];
    assert_eq!(s.connected(&[1; 20], outcomes, &batch, 0), vec![addr(1)]);
    {
        let pm = &s.torrent(&[1; 20]).ok().unwrap().peer_mgr;
        assert_eq!(pm.connection(&addr(1)), Some(&7));
        assert_eq!(pm.num_connections(), 1);
    }
    assert_eq!(s.connect_pending(&[1; 20], 0), vec![addr(3)]);
    s.disconnected(&[1; 20], &addr(1));
    assert_eq!(s.torrent(&[1; 20]).ok().unwrap().peer_mgr.num_connections(), 0);
    assert_eq!(s.connect_pending(&[1; 20], u64::MAX), vec![addr(2)]);
    assert!(s.connect_pending(&[9; 20], 0).is_empty());
    assert!(s.connected(&[9; 20], vec![(addr(1), Ok(7))], &[], 0).is_empty());
}

#[test]
fn layouts_are_checked() {
    let layout = |n: usize, piece_length: u64, length: u64| Info {
        name: String::new(),
        piece_length,
        pieces: vec![[0; 20]; n],
        length,
    };
    assert!(layout(3, 10, 25).is_consistent());
    assert!(layout(3, 10, 25).is_exact());
    assert!(layout(3, 10, 40).is_consistent());
    assert!(!layout(3, 10, 40).is_exact());
    assert!(!layout(3, 10, 19).is_consistent());
    assert!(!layout(3, u64::MAX, u64::MAX).is_consistent());
    assert!(!layout(3, 0, 0).is_exact());
    assert!(layout(0, 10, 0).is_exact());
    assert!(!layout(1, 10, 0x1_0000_0001).is_consistent());
    assert!(layout(1, 10, 0x1_0000_0000).is_consistent());
}

#[test]
fn damaged_data_is_not_seeded() {
    let hashed = SeedBuilder::new(vec![1u8; 100]).piece_length(30).hash().ok().unwrap();
    let mut damaged = hashed.source.clone();
    damaged[95] = 2;
    let prepared = torrent::session::seed::builder::HashedTorrent { source: damaged, ..hashed }
        .encoded([6; 20], Some(vec![1]))
        .ok()
        .unwrap();
    let mut s = session();
    assert_eq!(
        kind(s.start_seeding(prepared, false, [8; 20], SECOND)),
        Some(ErrorKind::InvalidInput)
    );
    assert!(s.active_torrents().is_empty());
}

#[test]
fn private_torrents_stay_out_of_dht_and_exchange() {
    let mut s = session();
    for (n, private) in [(6u8, true), (7u8, false)] {
        let builder = SeedBuilder::new(vec![n; 100]).piece_length(30);
        let builder = if private { builder.private() } else { builder };
        let prepared =
            builder.hash().ok().unwrap().encoded([n; 20], Some(vec![1])).ok().unwrap();
        assert_eq!(prepared.metainfo().private, private);
        let (_, _, l) = s.start_seeding(prepared, false, [8; 20], SECOND).ok().unwrap();
        assert_eq!(l.settings.pex_enabled, !private);
    }
    assert_eq!(s.dht_torrents(), vec![[7; 20]]);
}
