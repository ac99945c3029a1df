use sha1::{Digest, Sha1};
use torrent::addr::PeerAddr;
use torrent::metainfo::{Info, Metainfo};
use torrent::peer::message::PeerMessage;
use torrent::session::announce::{AnnounceEvent, AnnounceResponse, AnnounceState};
use torrent::session::config::{SessionConfig, TorrentEvent, TorrentState};
use torrent::session::download::engine::{
    piece_message, BlockOutcome, DownloadLoop, Limits, MessageStep,
};
use torrent::session::download::pieces::PieceCheck;
use torrent::session::download::status::Progress;
use torrent::session::download::tables::Peers;
use torrent::session::download::types::{PeerEvent, PeerInfo};
use torrent::session::registry::Session;
use torrent::session::swarm::engine::{
    opening_messages, plan_tick, screen_peer, Admission, CommandStep, LoopTask, SwarmLoop, Tick,
    TorrentCommand,
};
use torrent::session::swarm::extension::{SwarmBuilder, SwarmExtension};
use torrent::session::swarm::pex::{
    handle_ltep_handshake, pex_received, pex_sent, Negotiation, PexEvent, PexExtension,
};
use torrent::session::swarm::super_seed::{SuperSeedEvent, SuperSeedExtension};
use torrent::session::torrent::TorrentSpec;
use torrent::session::upload_mgr::UploadManager;
use torrent::session::webseed::WebSeedConfig;
use torrent::time::SECOND;

fn addr(n: u8) -> PeerAddr {
    PeerAddr::V4 { ip: 0x7f00_0000 + n as u32, port: 6881 }
}

fn addr6(n: u8) -> PeerAddr {
    PeerAddr::V6 { ip: n as u128, port: 6881, flowinfo: 0, scope_id: 0 }
}

fn digest(data: &[u8]) -> [u8; 20] {
    let mut h = Sha1::new();
    h.update(data);
    h.finalize().into()
}

fn content() -> Vec<u8> {
    (0..100_000u32).map(|v| (v ^ (v >> 8)) as u8).collect()
}

fn info() -> Info {
    let data = content();
    Info {
        name: "file".to_string(),
        piece_length: 40_000,
        pieces: data.chunks(40_000).map(digest).collect(),
        length: data.len() as u64,
    }
}

fn metainfo() -> Metainfo {
    Metainfo {
        announce: "http://tracker.example.com/".to_string(),
        announce_list: Vec::new(),
        comment: None,
        created_by: None,
        private: false,
        info_hash: [5; 20],
        info: info(),
    }
}

fn swarm(config: SessionConfig) -> SwarmLoop {
    let mut session: Session<u32> = Session::new(config);
    let b = session.add_torrent(TorrentSpec::Metainfo(metainfo()), Vec::new(), Vec::new(), [1; 20])
        .ok()
        .unwrap();
    session.activate(&b.info_hash, [1; 20], 0).ok().unwrap()
}

fn message(m: PeerMessage) -> PeerEvent {
    PeerEvent::Message(m)
}

fn interested(bits: Vec<bool>) -> PeerInfo {
    let mut p = PeerInfo::new();
    p.peer_interested = true;
    p.am_choked = false;
    p.bitfield = bits;
    p
}

#[test]
fn mod_torrent_command_variants() {
    let pause: TorrentCommand<u32> = TorrentCommand::Pause;
    let resume: TorrentCommand<u32> = TorrentCommand::Resume;
    let cancel: TorrentCommand<u32> = TorrentCommand::Cancel;
    match pause {
        TorrentCommand::Pause
        | TorrentCommand::Resume
        | TorrentCommand::Cancel
        | TorrentCommand::InboundPeer(_, _) => {}
    }
    let _ = (pause, resume, cancel);
}

#[test]
fn torrent_torrent_command_variants() {
    let mut l = swarm(SessionConfig::default());
    l.start();
    assert_eq!(l.status.state, TorrentState::Downloading);
    assert!(matches!(l.on_command::<u32>(Some(TorrentCommand::Pause)), CommandStep::Continue));
    assert_eq!(l.status.state, TorrentState::Paused);
    assert!(matches!(l.on_command::<u32>(Some(TorrentCommand::Resume)), CommandStep::Continue));
    assert_eq!(l.status.state, TorrentState::Downloading);
    l.status.state = TorrentState::Seeding;
    assert!(matches!(l.on_command::<u32>(Some(TorrentCommand::Resume)), CommandStep::Continue));
    assert_eq!(l.status.state, TorrentState::Seeding);
    assert!(matches!(
        l.on_command(Some(TorrentCommand::InboundPeer(addr(1), 7u32))),
        CommandStep::Register(_, 7)
    ));
    assert!(matches!(l.on_command::<u32>(Some(TorrentCommand::Cancel)), CommandStep::Stop));
    assert!(matches!(l.on_command::<u32>(None), CommandStep::Stop));
}

#[test]
fn download_of_a_whole_torrent() {
    let data = content();
    let mut l = DownloadLoop::new(info(), vec![false; 3], 4, 60 * SECOND);
    assert!(l.register_peer(addr(1), &[0, 0, 0, 0, 0, 0x10, 0, 0], true));
    assert!(matches!(
        l.handle_peer_message(addr(1), PeerMessage::Bitfield(vec![0b1110_0000])),
        MessageStep::Done
    ));
    l.handle_peer_message(addr(1), PeerMessage::Unchoke);
    let (counts, endgame) = l.begin_fill();
    assert_eq!(counts, vec![1, 1, 1]);
    assert!(endgame);
    let mut completed = 0;
    for index in 0..3u32 {
        while let Some(c) = l.choose_block(&addr(1), endgame, Some(index)) {
            assert_eq!(c.index, index);
            l.record_request(addr(1), c.index, c.begin, 0);
            let from = (c.index as usize) * 40_000 + c.begin as usize;
            let block = data[from..from + c.length as usize].to_vec();
            let step = l.handle_peer_message(
                addr(1),
                PeerMessage::Piece { index: c.index, begin: c.begin, data: block },
            );
            let (begin, block) = match step {
                MessageStep::WriteBlock { begin, data, .. } => (begin, data),
                _ => panic!("block not taken"),
            };
            match l.block_received(&addr(1), index, begin, &block, SECOND) {
                BlockOutcome::Completed => {
                    completed += 1;
                    break;
                }
                BlockOutcome::Partial => {}
                BlockOutcome::Corrupt(_) => panic!("corrupt"),
            }
        }
    }
    assert_eq!(completed, 3);
    assert!(l.is_seeding());
    assert_eq!(l.traffic.total_downloaded, 100_000);
}

#[test]
fn corrupt_piece_strikes_its_contributors() {
    let mut l = DownloadLoop::new(info(), vec![false; 3], 4, 60 * SECOND);
    l.register_peer(addr(1), &[0; 8], false);
    l.handle_peer_message(addr(1), PeerMessage::Bitfield(vec![0b1110_0000]));
    l.handle_peer_message(addr(1), PeerMessage::Unchoke);
    let mut corrupt = false;
    while let Some(c) = l.choose_block(&addr(1), false, Some(2)) {
        l.record_request(addr(1), c.index, c.begin, 0);
        let step = l.handle_peer_message(
            addr(1),
            PeerMessage::Piece { index: 2, begin: c.begin, data: vec![0; c.length as usize] },
        );
        assert!(matches!(step, MessageStep::WriteBlock { .. }));
        let block = vec![0u8; c.length as usize];
        if let BlockOutcome::Corrupt(banned) = l.block_received(&addr(1), 2, c.begin, &block, 0) {
            assert!(banned.is_empty());
            corrupt = true;
            break;
        }
    }
    assert!(corrupt);
    assert!(!l.have[2]);
    assert_eq!(l.peers.get(&addr(1)).unwrap().corrupt_blocks, 1);
}

#[test]
fn stale_requests_expire() {
    let mut l = DownloadLoop::new(info(), vec![false; 3], 4, 60 * SECOND);
    l.register_peer(addr(1), &[0; 8], false);
    l.handle_peer_message(addr(1), PeerMessage::Bitfield(vec![0b1110_0000]));
    l.handle_peer_message(addr(1), PeerMessage::Unchoke);
    let c = l.choose_block(&addr(1), false, Some(0)).unwrap();
    l.record_request(addr(1), c.index, c.begin, 0);
    assert!(l.peers.get(&addr(1)).unwrap().pipeline[0].is_some());
    l.expire_stale_requests(59 * SECOND);
    assert!(l.peers.get(&addr(1)).unwrap().pipeline[0].is_some());
    l.expire_stale_requests(61 * SECOND);
    let free = match l.peers.get(&addr(1)) {
        Some(p) => p.pipeline[0].is_none(),
        None => true,
    };
    assert!(free);
    l.drop_peer(&addr(1));
    assert!(l.peers.get(&addr(1)).is_none());
}

#[test]
fn requests_are_served_to_unchoked_peers() {
    let mut l = DownloadLoop::new(info(), vec![true; 3], 4, 60 * SECOND);
    l.register_peer(addr(1), &[0; 8], false);
    let request = PeerMessage::Request { index: 0, begin: 10, length: 5 };
    assert!(matches!(l.handle_peer_message(addr(1), request), MessageStep::Done));
    l.uploads.unchoke(addr(1));
    let request = PeerMessage::Request { index: 0, begin: 10, length: 5 };
    assert!(matches!(
        l.handle_peer_message(addr(1), request),
        MessageStep::ReadBlock { index: 0, begin: 10, length: 5 }
    ));
    l.piece_cache.push((0, content()[..40_000].to_vec()));
    let request = PeerMessage::Request { index: 0, begin: 10, length: 5 };
    match l.handle_peer_message(addr(1), request) {
        MessageStep::Send(PeerMessage::Piece { index: 0, begin: 10, data }) => {
            assert_eq!(data, content()[10..15].to_vec())
        }
        _ => panic!("not served"),
    }
    l.block_sent(&addr(1), 5);
    assert_eq!(l.traffic.total_uploaded, 5);
    assert!(piece_message(1, 2, Vec::new()).is_none());
}

#[test]
fn choke_round_serves_interested_peers() {
    let mut l = DownloadLoop::new(info(), vec![true; 3], 2, 60 * SECOND);
    for n in 1..=4 {
        l.register_peer(addr(n), &[0; 8], false);
        l.handle_peer_message(addr(n), PeerMessage::Interested);
        l.block_sent(&addr(n), n as u64 * 100);
    }
    let messages = l.choke_round(0, SECOND);
    let unchoked: Vec<PeerAddr> = messages
        .iter()
        .filter(|(_, m)| matches!(m, PeerMessage::Unchoke))
        .map(|(a, _)| *a)
        .collect();
    assert_eq!(unchoked, vec![addr(4), addr(3)]);
    assert_eq!(l.uploads.num_unchoked(), 2);
    l.choke_round(1, 2 * SECOND);
    assert_eq!(l.uploads.num_unchoked(), 2);
    assert!(l.uploads.is_unchoked(&addr(1)));
    assert!(l.uploads.is_unchoked(&addr(3)));
    l.run_choke_unchoke(3 * SECOND);
    assert_eq!(l.uploads.num_unchoked(), 2);
}

#[test]
fn download_status_reports_rates_and_completion() {
    let mut l = DownloadLoop::new(info(), vec![true; 3], 2, 60 * SECOND);
    l.traffic.total_downloaded = 500;
    let mut session: Session<u32> = Session::new(SessionConfig::default());
    let b = session.add_torrent(TorrentSpec::Metainfo(metainfo()), Vec::new(), Vec::new(), [1; 20])
        .ok()
        .unwrap();
    let mut status = session.torrent(&b.info_hash).ok().unwrap().status.duplicate();
    let mut progress =
        Progress { last_downloaded: 200, last_uploaded: 0, announced_completed: false };
    assert!(l.update_status(&mut status, &mut progress, 7));
    assert_eq!(status.download_rate, 300);
    assert_eq!(status.num_peers, 7);
    assert_eq!(status.state, TorrentState::Seeding);
    assert!(!l.update_status(&mut status, &mut progress, 7));
    assert_eq!(status.download_rate, 0);
    let req = l.announce_request([1; 20], [2; 20], 6881, AnnounceEvent::Completed);
    assert_eq!(req.left, 99_500);
    assert_eq!(req.downloaded, 500);
}

#[test]
fn swarm_registers_peers_and_completes_pieces() {
    let data = content();
    let mut l = swarm(SessionConfig::default());
    let mut reserved = [0u8; 8];
    reserved[5] = 0x18;
    let r = l.register_new_peer(addr(1), &reserved, vec![2, 0]);
    assert!(r.send_ltep);
    assert_eq!(r.allowed_fast.len(), 2);
    assert!(matches!(r.event, TorrentEvent::PeerConnected { client_name: None, .. }));
    {
        let p = l.peers.get_mut(&addr(1)).unwrap();
        p.am_choked = false;
        p.bitfield = vec![true; 3];
    }
    let counts = l.piece_pipeline.begin_fill(&l.peers, &l.have, 3);
    assert_eq!(counts, vec![1, 1, 1]);
    loop {
        let c = l
            .piece_pipeline
            .choose_block(&l.peers, &addr(1), Some(2), &l.metainfo.info)
            .unwrap();
        assert_eq!(c.index, 2);
        l.piece_pipeline.record_request(&mut l.peers, addr(1), c.index, c.begin, 0);
        let from = 80_000 + c.begin as usize;
        let done = l
            .piece_pipeline
            .active_downloads_mut()
            .mark_received(2, c.begin, &data[from..from + c.length as usize]);
        if done {
            break;
        }
    }
    let piece = match l.check_piece(2) {
        PieceCheck::Valid(p) => p,
        _ => panic!("piece not valid"),
    };
    assert_eq!(piece, data[80_000..].to_vec());
    l.piece_written(2, piece, Vec::new(), 1);
    assert_eq!(l.have, vec![false, false, true]);
    let update = l.update_status(1, 5 * SECOND);
    assert!(!update.announce_completed);
    assert_eq!(l.status.pieces_completed, 1);
    assert_eq!(l.status.num_seeds, 1);
    assert_eq!(l.status.elapsed, 5 * SECOND);
    assert_eq!(update.peer_statuses.len(), 1);
}

#[test]
fn swarm_announces() {
    let mut l = swarm(SessionConfig::default());
    let req = l.announce_request(AnnounceEvent::Started, 30_000);
    assert_eq!(req.left, 70_000);
    assert_eq!(req.port, 6881);
    let resp = AnnounceResponse {
        interval: 1800,
        min_interval: Some(60),
        complete: 3,
        incomplete: 4,
        peers: vec![addr(9)],
    };
    let (event, peers) = l.announce_succeeded(resp, SECOND);
    assert!(matches!(event, TorrentEvent::TrackerAnnounced { peers_found: 1 }));
    assert_eq!(peers, vec![addr(9)]);
    assert_eq!(l.announce.next_announce, Some(61 * SECOND));
    assert_eq!(l.tracker_status.seeds_reported, 3);
    let (event, _) = l.announce_failed("down".to_string(), 100 * SECOND);
    assert!(matches!(event, TorrentEvent::TrackerError { .. }));
    assert_eq!(l.announce.next_announce, Some(130 * SECOND));
}

#[test]
fn announces_fall_due() {
    let mut s = AnnounceState::new();
    assert_eq!(s.announce_if_needed(false, 0), None);
    assert_eq!(s.announce_if_needed(true, 0), Some(AnnounceEvent::Started));
    s.mark_announced();
    s.failed(30 * SECOND, 0);
    assert_eq!(s.announce_if_needed(true, 29 * SECOND), None);
    assert_eq!(s.announce_if_needed(true, 30 * SECOND), Some(AnnounceEvent::Regular));
}

#[test]
fn ticks_lead_to_tasks() {
    assert_eq!(
        plan_tick(Tick::Status, true, true, true),
        vec![
            LoopTask::UpdateStatus,
            LoopTask::AnnounceIfNeeded,
            LoopTask::SelectSuperSeedPiece,
            LoopTask::ConnectPending,
        ]
    );
    assert_eq!(plan_tick(Tick::Status, true, false, true).len(), 3);
    assert_eq!(plan_tick(Tick::Choke, false, false, false), vec![LoopTask::ChokeRound]);
    assert_eq!(plan_tick(Tick::Stale, false, false, false), vec![LoopTask::ExpireStale]);
    assert_eq!(plan_tick(Tick::Pex, false, false, true), vec![LoopTask::BroadcastPex]);
    assert!(plan_tick(Tick::Pex, false, false, false).is_empty());
}

#[test]
fn new_connections_are_screened() {
    let mut session: Session<u32> = Session::new(SessionConfig {
        max_connections: 1,
        ..SessionConfig::default()
    });
    let b = session.add_torrent(TorrentSpec::Metainfo(metainfo()), Vec::new(), Vec::new(), [1; 20])
        .ok()
        .unwrap();
    assert_eq!(
        screen_peer(&session.torrent(&b.info_hash).ok().unwrap().peer_mgr, &addr(1)),
        Admission::Accept
    );
    let mut pm = torrent::session::peer_mgr::PeerManager::new([0; 20], [0; 20], 1, 0, 3, 0);
    pm.apply_connect_results(vec![(addr(1), Ok(1u32))], &[], 0);
    assert_eq!(screen_peer(&pm, &addr(1)), Admission::Duplicate);
    assert_eq!(screen_peer(&pm, &addr(2)), Admission::Full);
}

#[test]
fn opening_messages_skip_an_empty_bitfield() {
    assert_eq!(opening_messages(vec![0, 0]).len(), 1);
    let both = opening_messages(vec![0, 1]);
    assert!(matches!(both[0], PeerMessage::Bitfield(_)));
    assert!(matches!(both[1], PeerMessage::Interested));
}

#[test]
fn peer_exchange_reports_joined_and_left() {
    let mut peers = Peers::new();
    peers.insert(addr(1), PeerInfo::new());
    peers.insert(addr(2), PeerInfo::new());
    let mut pex = PexExtension::new(60 * SECOND);
    assert_eq!(pex.ltep_extensions(), vec![("ut_pex".to_string(), 1)]);
    let neg = Negotiation {
        ids: vec![("ut_pex".to_string(), 4)],
        version: Some("x".to_string()),
        metadata_size: Some(10),
        reqq: Some(2),
    };
    handle_ltep_handshake(&mut peers, &addr(1), neg);
    assert_eq!(peers.get(&addr(1)).unwrap().max_requests, 2);
    assert_eq!(pex.on_peer_event(addr(3), &PeerEvent::Disconnected, &peers), PexEvent::Dropped);
    assert_eq!(
        pex.on_peer_event(
            addr(1),
            &message(PeerMessage::Extended { ext_id: 0, data: Vec::new() }),
            &peers
        ),
        PexEvent::Handshake
    );
    let connected = vec![addr(1), addr(2), addr6(9)];
    let messages = pex.broadcast(&peers, &connected, SECOND);
    assert_eq!(messages.len(), 1);
    let (to, id, msg) = &messages[0];
    assert_eq!((*to, *id), (addr(1), 4));
    assert_eq!(msg.added, vec![addr(2)]);
    assert_eq!(msg.added6, vec![addr6(9)]);
    assert_eq!(msg.dropped, vec![addr(3)]);
    assert!(msg.dropped6.is_empty());
    assert!(pex.broadcast(&peers, &connected, SECOND)[0].2.dropped.is_empty());
}

#[test]
fn super_seeding_hands_out_one_piece_at_a_time() {
    let mut peers = Peers::new();
    peers.insert(addr(1), interested(vec![false; 3]));
    peers.insert(addr(2), interested(vec![true, false, false]));
    let have = vec![true; 3];
    let mut uploads = UploadManager::new(2);
    let mut x = SuperSeedExtension::new();
    x.select_piece(&peers, &uploads, &have);
    assert_eq!(x.remaining(), 0);
    uploads.unchoke(addr(1));
    uploads.unchoke(addr(2));
    x.select_piece(&peers, &uploads, &have);
    x.select_piece(&peers, &uploads, &have);
    x.select_piece(&peers, &uploads, &have);
    assert_eq!(x.remaining(), 2);
    let request = message(PeerMessage::Request { index: 1, begin: 0, length: 1 });
    assert_eq!(x.on_peer_event(addr(2), &request), SuperSeedEvent::Block(1));
    let request = message(PeerMessage::Request { index: 1, begin: 0, length: 1 });
    assert_eq!(x.on_peer_event(addr(1), &request), SuperSeedEvent::Ignored);
    let mut bf = vec![0b1110_0000];
    x.mask_bitfield(&mut bf);
    assert_eq!(bf, vec![0b1000_0000]);
    assert_eq!(
        x.on_peer_event(addr(1), &message(PeerMessage::Have(1))),
        SuperSeedEvent::Reveal(1)
    );
    assert_eq!(x.remaining(), 1);
    x.on_peer_event(addr(2), &PeerEvent::Disconnected);
    assert_eq!(x.remaining(), 0);
}

#[test]
fn extensions_are_collected_in_order() {
    let none = SwarmBuilder::new()
        .maybe_pex(false, SECOND)
        .maybe_super_seed(false)
        .maybe_webseed(true, Vec::new(), WebSeedConfig::default(), 2)
        .build();
    assert!(none.is_empty());
    let all = SwarmBuilder::new()
        .maybe_pex(true, SECOND)
        .maybe_super_seed(true)
        .maybe_webseed(true, vec!["http://a/".to_string()], WebSeedConfig::default(), 2)
        .build();
    assert_eq!(all.len(), 3);
    assert!(matches!(all[0], SwarmExtension::Pex(_)));
    assert!(matches!(all[1], SwarmExtension::SuperSeed(_)));
    match &all[2] {
        SwarmExtension::WebSeed(w) => assert_eq!(w.concurrency, 2),
        _ => panic!("no web seeds"),
    }
}

#[test]
fn web_seed_urls_are_filtered() {
    let mut l = swarm(SessionConfig::default());
    l.web_seeds = vec!["http://A.example.com".to_string(), "nope".to_string()];
    assert_eq!(l.parsed_web_seeds(), vec!["http://a.example.com/".to_string()]);
}

#[test]
fn swarm_drops_corrupt_pieces() {
    let mut l = swarm(SessionConfig { corrupt_ban_threshold: 1, ..SessionConfig::default() });
    l.register_new_peer(addr(1), &[0; 8], Vec::new());
    l.register_new_peer(addr(2), &[0; 8], Vec::new());
    {
        let p = l.peers.get_mut(&addr(1)).unwrap();
        p.am_choked = false;
        p.bitfield = vec![true; 3];
    }
    l.piece_pipeline.begin_fill(&l.peers, &l.have, 3);
    assert!(l.piece_pipeline.is_endgame());
    loop {
        let c = l
            .piece_pipeline
            .choose_block(&l.peers, &addr(1), Some(2), &l.metainfo.info)
            .unwrap();
        l.piece_pipeline.record_request(&mut l.peers, addr(1), c.index, c.begin, 0);
        let block = vec![0u8; c.length as usize];
        if l.piece_pipeline.active_downloads_mut().mark_received(2, c.begin, &block) {
            break;
        }
    }
    assert!(matches!(l.check_piece(2), PieceCheck::Corrupt));
    assert!(matches!(l.check_piece(1), PieceCheck::Unknown));
    let (banned, event) = l.piece_corrupt(2);
    assert_eq!(banned, vec![addr(1)]);
    assert!(matches!(event, TorrentEvent::PieceFailed { index: 2 }));
    assert_eq!(l.counters.total_wasted, 20_000);
    assert_eq!(l.have, vec![false; 3]);
    assert!(matches!(l.check_piece(2), PieceCheck::Unknown));
}

#[test]
fn swarm_ticks_follow_its_settings() {
    let mut l = swarm(SessionConfig { pex_enabled: false, ..SessionConfig::default() });
    assert!(l.should_fill());
    assert!(l.on_tick(Tick::Pex).is_empty());
    assert_eq!(l.on_tick(Tick::Status).len(), 3);
    assert_eq!(l.on_tick(Tick::Choke), vec![LoopTask::ChokeRound]);
    l.have = vec![true; 3];
    assert!(!l.should_fill());
    l.settings.super_seed = true;
    assert_eq!(l.on_tick(Tick::Status)[2], LoopTask::SelectSuperSeedPiece);
}

#[test]
fn swarm_selects_pieces_for_super_seeding() {
    let mut l = swarm(SessionConfig::default());
    l.have = vec![true; 3];
    l.peers.insert(addr(1), interested(vec![false; 3]));
    l.super_seed_select_piece();
    assert_eq!(l.super_seeding.remaining(), 0);
    l.settings.super_seed = true;
    l.uploads.unchoke(addr(1));
    l.super_seed_select_piece();
    assert_eq!(l.super_seeding.remaining(), 1);
}

#[test]
fn have_messages_go_to_every_peer() {
    let r = DownloadLoop::broadcast_have(4, &vec![addr(1), addr(2)]);
    assert_eq!(r.len(), 2);
    assert_eq!(r[1].0, addr(2));
    assert!(matches!(r[1].1, PeerMessage::Have(4)));
}

#[test]
fn peer_exchange_times_are_kept() {
    let mut peers = Peers::new();
    peers.insert(addr(1), PeerInfo::new());
    pex_sent(&mut peers, &addr(1), 3);
    pex_received(&mut peers, &addr(1), 4);
    pex_received(&mut peers, &addr(2), 5);
    let p = peers.get(&addr(1)).unwrap();
    assert_eq!(p.last_pex_sent, Some(3));
    assert_eq!(p.last_pex_received, Some(4));
    assert!(peers.get(&addr(2)).is_none());
}

#[test]
fn finish_is_reported_once() {
    let mut l = swarm(SessionConfig::default());
    l.start();
    assert!(l.update_status(0, SECOND).events.is_empty());
    l.have = vec![true; 3];
    let update = l.update_status(0, 2 * SECOND);
    assert_eq!(update.events.len(), 2);
    assert!(matches!(update.events[1], TorrentEvent::TorrentFinished));
    assert!(update.announce_completed);
    let update = l.update_status(0, 3 * SECOND);
    assert!(update.events.is_empty());
    assert!(!update.announce_completed);
}

#[test]
fn held_pieces_stay_held() {
    let data = content();
    let mut l = DownloadLoop::new(info(), vec![true, false, false], 4, 60 * SECOND);
    l.register_peer(addr(1), &[0; 8], false);
    l.handle_peer_message(addr(1), PeerMessage::Bitfield(vec![0b1110_0000]));
    l.handle_peer_message(addr(1), PeerMessage::Unchoke);
    while let Some(c) = l.choose_block(&addr(1), false, Some(2)) {
        l.record_request(addr(1), c.index, c.begin, 0);
        let from = 80_000 + c.begin as usize;
        let block = &data[from..from + c.length as usize];
        match l.block_received(&addr(1), 2, c.begin, block, 0) {
            BlockOutcome::Completed => break,
            BlockOutcome::Partial => assert!(!l.have[2]),
            BlockOutcome::Corrupt(_) => panic!("piece not valid"),
        }
    }
    assert_eq!(l.have, vec![true, false, true]);
    assert_eq!(digest(&l.piece_cache[0].1), l.info.pieces[2]);
}

#[test]
fn choke_round_gives_the_slots_of_losers_away() {
    let mut l = DownloadLoop::new(info(), vec![true; 3], 2, 60 * SECOND);
    for n in 1..=4 {
        l.register_peer(addr(n), &[0; 8], false);
    }
    l.uploads.unchoke(addr(1));
    l.uploads.unchoke(addr(2));
    l.handle_peer_message(addr(3), PeerMessage::Interested);
    l.handle_peer_message(addr(4), PeerMessage::Interested);
    l.block_sent(&addr(3), 500);
    l.block_sent(&addr(4), 100);
    let messages = l.run_choke_unchoke(SECOND);
    assert_eq!(l.uploads.num_unchoked(), 2);
    assert!(l.uploads.is_unchoked(&addr(3)));
    assert!(l.uploads.is_unchoked(&addr(4)));
    let told: Vec<(PeerAddr, bool)> = messages
        .iter()
        .map(|(a, m)| (*a, matches!(m, PeerMessage::Unchoke)))
        .collect();
    assert_eq!(
        told,
        vec![(addr(1), false), (addr(2), false), (addr(3), true), (addr(4), true)]
    );
}

#[test]
fn held_bytes_count_the_short_last_piece() {
    let mut m = metainfo();
    m.info.piece_length = 100;
    m.info.length = 250;
    let mut session: Session<u32> = Session::new(SessionConfig::default());
    let b = session
        .add_torrent(TorrentSpec::Metainfo(m), Vec::new(), Vec::new(), [1; 20])
        .ok()
        .unwrap();
    let mut l = session.activate(&b.info_hash, [1; 20], 0).ok().unwrap();
    l.have = vec![true, false, true];
    l.update_status(0, SECOND);
    assert_eq!(l.status.pieces_completed, 2);
    assert_eq!(l.status.total_downloaded, 150);
    assert_eq!(l.status.download_rate, 150);
    l.have[1] = true;
    l.update_status(0, 2 * SECOND);
    assert_eq!(l.status.total_downloaded, 250);
    assert_eq!(l.status.download_rate, 100);
}

#[test]
fn peer_rates_are_those_since_the_last_update() {
    let mut l = swarm(SessionConfig::default());
    l.register_new_peer(addr(1), &[0; 8], Vec::new());
    l.peers.get_mut(&addr(1)).unwrap().downloaded_bytes = 700;
    l.peers.get_mut(&addr(1)).unwrap().uploaded_bytes = 30;
    let update = l.update_status(1, SECOND);
    assert_eq!(update.peer_statuses[0].download_rate, 700);
    assert_eq!(update.peer_statuses[0].upload_rate, 30);
    l.peers.get_mut(&addr(1)).unwrap().downloaded_bytes = 750;
    let update = l.update_status(1, 2 * SECOND);
    assert_eq!(update.peer_statuses[0].download_rate, 50);
    assert_eq!(update.peer_statuses[0].upload_rate, 0);
}

#[test]
fn duplicate_blocks_are_wasted() {
    let data = content();
    let mut l = swarm(SessionConfig::default());
    l.register_new_peer(addr(1), &[0; 8], Vec::new());
    {
        let p = l.peers.get_mut(&addr(1)).unwrap();
        p.am_choked = false;
        p.bitfield = vec![true; 3];
    }
    l.piece_pipeline.begin_fill(&l.peers, &l.have, 3);
    l.piece_pipeline.choose_block(&l.peers, &addr(1), Some(2), &l.metainfo.info);
    assert!(!l.block_received(2, 0, &data[80_000..96_384]));
    assert_eq!(l.counters.total_wasted, 0);
    assert!(!l.block_received(2, 0, &data[80_000..96_384]));
    assert_eq!(l.counters.total_wasted, 16_384);
    assert!(l.block_received(2, 16_384, &data[96_384..]));
    l.have[0] = true;
    assert!(!l.block_received(0, 0, &[1, 2, 3]));
    assert!(!l.block_received(1, 0, &[1, 2, 3]));
    assert_eq!(l.counters.total_wasted, 16_387);
    l.web_seed_wasted(13);
    l.update_status(1, SECOND);
    assert_eq!(l.status.total_wasted, 16_400);
}

#[test]
fn download_limits_are_kept() {
    let limits = Limits {
        max_concurrent_pieces: 1,
        endgame_threshold: 2,
        request_timeout: 5 * SECOND,
        ..Limits::default()
    };
    let mut l = DownloadLoop::with_limits(info(), vec![false; 3], 4, 60 * SECOND, limits);
    l.register_peer(addr(1), &[0; 8], false);
    l.handle_peer_message(addr(1), PeerMessage::Bitfield(vec![0b1110_0000]));
    l.handle_peer_message(addr(1), PeerMessage::Unchoke);
    assert!(!l.begin_fill().1);
    for _ in 0..2 {
        let c = l.choose_block(&addr(1), false, Some(2)).unwrap();
        l.record_request(addr(1), c.index, c.begin, 0);
    }
    assert!(l.choose_block(&addr(1), false, Some(1)).is_none());
    assert!(l.expire_stale_requests(5 * SECOND).is_empty());
    assert_eq!(l.expire_stale_requests(6 * SECOND), vec![addr(1)]);
    assert_eq!(Limits::of_session(&SessionConfig::default()).piece_cache_size, 256);
}

#[test]
fn corrupt_and_duplicate_blocks_count_as_waste() {
    let data = content();
    let mut l = DownloadLoop::new(info(), vec![true, false, false], 4, 60 * SECOND);
    l.register_peer(addr(1), &[0; 8], false);
    l.handle_peer_message(addr(1), PeerMessage::Bitfield(vec![0b1110_0000]));
    l.handle_peer_message(addr(1), PeerMessage::Unchoke);
    l.block_received(&addr(1), 0, 0, &data[..100], 0);
    assert_eq!(l.traffic.total_wasted, 100);
    l.choose_block(&addr(1), false, Some(2));
    l.block_received(&addr(1), 2, 0, &data[80_000..96_384], 0);
    assert_eq!(l.traffic.total_wasted, 100);
    let wrong = vec![0u8; 3_616];
    assert!(matches!(
        l.block_received(&addr(1), 2, 16_384, &wrong, 0),
        BlockOutcome::Corrupt(_)
    ));
    assert_eq!(l.traffic.total_wasted, 20_100);
}
