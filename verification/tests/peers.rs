use torrent::addr::PeerAddr;
use torrent::error::{Error, ErrorKind};
use torrent::session::peer_manager;
use torrent::session::peer_mgr::PeerManager;
use torrent::session::uni_deque::UniDeque;
use torrent::session::upload_mgr::UploadManager;
use torrent::time::{MILLISECOND, SECOND};

fn test_addr(n: u8) -> PeerAddr {
    PeerAddr::V4 { ip: 0x7f00_0000 + n as u32, port: 6881 }
}

fn test_pm(max_connections: u32) -> PeerManager<u32> {
    PeerManager::new([0u8; 20], [7u8; 20], max_connections, 500 * MILLISECOND, 3, 30 * SECOND)
}

fn test_fixed(max_connections: u32) -> peer_manager::PeerManager<u32> {
    peer_manager::PeerManager::new([0u8; 20], [7u8; 20], max_connections)
}

fn refused() -> Result<u32, Error> {
    Err(Error::new(ErrorKind::PeerConnectionClosed))
}

#[test]
fn uni_deque_new_creates_empty() {
    let d: UniDeque<i32> = UniDeque::new();
    assert_eq!(d.len(), 0);
    assert!(!d.contains(&1));
}

#[test]
fn push_unique_and_contains() {
    let mut d: UniDeque<i32> = UniDeque::new();
    d.push_unique(1);
    d.push_unique(2);
    d.push_unique(3);

    assert_eq!(d.len(), 3);
    assert!(d.contains(&1));
    assert!(d.contains(&2));
    assert!(d.contains(&3));
    assert!(!d.contains(&0));
    assert!(!d.contains(&4));
}

#[test]
fn push_unique_duplicate() {
    let mut d: UniDeque<i32> = UniDeque::new();
    assert_eq!(d.push_unique(42), true);
    assert_eq!(d.push_unique(42), false);
    assert_eq!(d.push_unique(42), false);

    assert!(d.contains(&42));
    assert_eq!(d.len(), 1);
}

#[test]
fn drain_removes_all_items() {
    let mut d: UniDeque<i32> = UniDeque::new();
    d.push_unique(10);
    d.push_unique(20);
    d.push_unique(30);

    let drained = d.drain_first_n(3);
    assert_eq!(drained, vec![10, 20, 30]);
    assert_eq!(d.len(), 0);
    assert!(!d.contains(&10));
    assert!(!d.contains(&20));
    assert!(!d.contains(&30));
}

#[test]
fn drain_partial_consumption() {
    let mut d: UniDeque<i32> = UniDeque::new();
    d.push_unique(1);
    d.push_unique(2);
    d.push_unique(3);

    let drained = d.drain_first_n(3);
    assert_eq!(drained, vec![1, 2, 3]);
    assert_eq!(d.len(), 0);
    assert!(!d.contains(&1));
    assert!(!d.contains(&2));
    assert!(!d.contains(&3));
}

#[test]
fn drain_more_than_available() {
    let mut d: UniDeque<i32> = UniDeque::new();
    d.push_unique(7);

    let drained = d.drain_first_n(100);
    assert_eq!(drained, vec![7]);
    assert_eq!(d.len(), 0);
}

#[test]
fn drain_re_enqueue() {
    let mut d: UniDeque<i32> = UniDeque::new();
    d.push_unique(1);
    d.push_unique(2);
    d.push_unique(3);

    let drained = d.drain_first_n(3);
    assert_eq!(drained, vec![1, 2, 3]);

    d.push_unique(1);
    assert_eq!(d.len(), 1);
    assert!(d.contains(&1));
}

#[test]
fn len_after_mutations() {
    let mut d: UniDeque<i32> = UniDeque::new();
    assert_eq!(d.len(), 0);

    d.push_unique(10);
    assert_eq!(d.len(), 1);

    d.push_unique(20);
    assert_eq!(d.len(), 2);

    d.drain_first_n(1);
    assert_eq!(d.len(), 1);
}

#[test]
fn peer_mgr_new_creates_empty() {
    let pm = test_pm(10);
    assert_eq!(pm.num_connections(), 0);
    assert!(pm.connection_addrs().is_empty());
}

#[test]
fn peer_mgr_add_peers_to_pending() {
    let mut pm = test_pm(10);
    pm.add_peers(vec![test_addr(1), test_addr(2)]);
    assert_eq!(pm.num_connections(), 0);
}

#[test]
fn peer_mgr_at_capacity_precondition() {
    let mut pm = test_pm(0);
    pm.add_peers(vec![test_addr(1)]);
    assert_eq!(pm.max_connections(), 0);
    assert!(pm.drain_pending_batch(0).is_empty());
}

#[test]
fn peer_mgr_remove_peer_nonexistent() {
    let mut pm = test_pm(10);
    pm.remove_peer(&test_addr(99));
    assert_eq!(pm.num_connections(), 0);
}

#[test]
fn peer_mgr_connection_addrs_empty() {
    let pm = test_pm(10);
    assert!(pm.connection_addrs().is_empty());
}

#[test]
fn batch_respects_free_slots_and_cooldown() {
    let mut pm = test_pm(2);
    pm.add_peers(vec![test_addr(1), test_addr(2), test_addr(1), test_addr(3)]);
    let batch = pm.drain_pending_batch(0);
    assert_eq!(batch, vec![test_addr(1), test_addr(2)]);
    let outcomes = vec![(test_addr(1), Ok(11)), (test_addr(2), refused())];
    assert_eq!(pm.apply_connect_results(outcomes, &batch, SECOND), vec![test_addr(1)]);
    assert_eq!(pm.connection(&test_addr(1)), Some(&11));
    assert_eq!(pm.drain_pending_batch(2 * SECOND), vec![test_addr(3)]);
    assert!(pm.drain_pending_batch(30 * SECOND).is_empty());
    assert_eq!(pm.drain_pending_batch(31 * SECOND), vec![test_addr(2)]);
}

#[test]
fn unanswered_attempts_are_queued_again() {
    let mut pm = test_pm(5);
    pm.add_peers(vec![test_addr(1), test_addr(2)]);
    let batch = pm.drain_pending_batch(0);
    let none: Vec<(PeerAddr, Result<u32, Error>)> = Vec::new();
    assert!(pm.apply_connect_results(none, &batch, 0).is_empty());
    assert_eq!(pm.drain_pending_batch(0), vec![test_addr(1), test_addr(2)]);
}

#[test]
fn peer_manager_new_creates_empty() {
    let pm = test_fixed(10);
    assert_eq!(pm.num_connections(), 0);
    assert_eq!(pm.info_hash(), [0u8; 20]);
    assert_eq!(pm.peer_id(), [7u8; 20]);
    assert!(pm.connection_addrs().is_empty());
}

#[test]
fn peer_manager_add_peers_to_pending() {
    let mut pm = test_fixed(10);
    pm.add_peers(vec![test_addr(1), test_addr(2)]);
    assert_eq!(pm.num_connections(), 0);
}

#[test]
fn peer_manager_at_capacity_precondition() {
    let mut pm = test_fixed(0);
    pm.add_peers(vec![test_addr(1)]);
    assert_eq!(pm.max_connections(), 0);
    assert!(pm.connect_pending(0).is_empty());
}

#[test]
fn peer_manager_remove_peer_nonexistent() {
    let mut pm = test_fixed(10);
    pm.remove_peer(&test_addr(99));
    assert_eq!(pm.num_connections(), 0);
}

#[test]
fn peer_manager_connection_addrs_empty() {
    let pm = test_fixed(10);
    assert!(pm.connection_addrs().is_empty());
}

#[test]
fn fourth_failure_discards_a_peer() {
    let mut pm = test_fixed(5);
    pm.add_peers(vec![test_addr(1)]);
    for attempt in 0..4 {
        let now = attempt * 40 * SECOND;
        assert_eq!(pm.connect_pending(now), vec![test_addr(1)]);
        assert!(pm.connected(vec![(test_addr(1), refused())], now).is_empty());
    }
    assert!(pm.connect_pending(1_000 * SECOND).is_empty());
}

#[test]
fn new_has_no_unchoked() {
    let um = UploadManager::new(5);
    assert_eq!(um.num_unchoked(), 0);
}

#[test]
fn unchoke_peer() {
    let mut um = UploadManager::new(5);
    let addr = test_addr(1);
    assert!(!um.is_unchoked(&addr));
    um.unchoke(addr);
    assert!(um.is_unchoked(&addr));
}

#[test]
fn choke_peer() {
    let mut um = UploadManager::new(5);
    let addr = test_addr(1);
    um.unchoke(addr);
    assert!(um.is_unchoked(&addr));
    um.choke(&addr);
    assert!(!um.is_unchoked(&addr));
}

#[test]
fn unchoke_respects_max_uploads() {
    let mut um = UploadManager::new(2);
    let a1 = test_addr(1);
    let a2 = test_addr(2);
    let a3 = test_addr(3);
    um.unchoke(a1);
    um.unchoke(a2);
    um.unchoke(a3);
    assert_eq!(um.num_unchoked(), 2);
    assert!(um.is_unchoked(&a1));
    assert!(um.is_unchoked(&a2));
    assert!(!um.is_unchoked(&a3));
}

#[test]
fn unchoked_peers_iterator() {
    let mut um = UploadManager::new(5);
    let a1 = test_addr(1);
    let a2 = test_addr(2);
    um.unchoke(a1);
    um.unchoke(a2);
    let peers = um.unchoked_peers();
    assert_eq!(peers.len(), 2);
    assert!(peers.contains(&a1));
    assert!(peers.contains(&a2));
}

#[test]
fn max_uploads_accessor() {
    let um = UploadManager::new(8);
    assert_eq!(um.max_uploads(), 8);
}

#[test]
fn choke_nonexistent_peer() {
    let mut um = UploadManager::new(5);
    let addr = test_addr(99);
    um.choke(&addr);
    assert_eq!(um.num_unchoked(), 0);
}

#[test]
fn a_failing_peer_is_dropped_among_others() {
    let mut pm = test_fixed(5);
    pm.add_peers(vec![test_addr(1), test_addr(2), test_addr(3)]);
    for attempt in 0..4 {
        let now = attempt * 40 * SECOND;
        let batch = pm.connect_pending(now);
        assert!(batch.contains(&test_addr(2)));
        let outcomes = batch
            .iter()
            .map(|a| (*a, if *a == test_addr(2) { refused() } else { Ok(7) }))
            .collect();
        assert!(!pm.connected(outcomes, now).contains(&test_addr(2)));
    }
    assert_eq!(pm.num_connections(), 2);
    assert!(pm.connect_pending(1_000 * SECOND).is_empty());
}
