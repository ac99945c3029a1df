use sha1::{Digest, Sha1};
use torrent::addr::PeerAddr;
use torrent::hash::verify_piece_hash;
use torrent::session::download::bitfield::to_bitfield;
use torrent::session::download::choke::{is_active, rank, refill, retain_eligible, select_unchoked};
use torrent::session::download::types::{parse_bitfield, ActiveDownload, PeerInfo};
use torrent::time::SECOND;

fn digest(data: &[u8]) -> [u8; 20] {
    let mut h = Sha1::new();
    h.update(data);
    h.finalize().into()
}


#[test]
fn download_peer_info_default_state() {
    let pi = PeerInfo::new();
    assert!(pi.am_choked);
    assert!(!pi.am_interested);
    assert!(!pi.peer_interested);
    assert!(pi.bitfield.is_empty());
    assert_eq!(pi.uploaded_bytes, 0);
    assert_eq!(pi.downloaded_bytes, 0);
}

#[test]
fn types_peer_info_default_state() {
    let pi = PeerInfo::new();
    assert!(pi.am_choked);
    assert!(!pi.am_interested);
    assert!(!pi.peer_interested);
    assert!(pi.bitfield.is_empty());
    assert_eq!(pi.uploaded_bytes, 0);
    assert_eq!(pi.downloaded_bytes, 0);
}

#[test]
fn download_active_download_has_expected_fields() {
    let dl = ActiveDownload {
        index: 42,
        data: vec![0u8; 16000],
        received: vec![false; 1],
        requested: vec![None; 1],
        block_size: 16384,
        num_blocks: 1,
    };
    assert_eq!(dl.index, 42);
    assert_eq!(dl.num_blocks, 1);
    assert_eq!(dl.block_size, 16384);
    assert_eq!(dl.data.len(), 16000);
    assert_eq!(dl.received.len(), 1);
    assert_eq!(dl.requested.len(), 1);
    assert!(dl.requested[0].is_none());
}

#[test]
fn types_active_download_has_expected_fields() {
    let dl = ActiveDownload::new(42, 16000, 16384);
    assert_eq!(dl.index, 42);
    assert_eq!(dl.num_blocks, 1);
    assert_eq!(dl.block_size, 16384);
    assert_eq!(dl.data.len(), 16000);
    assert_eq!(dl.received.len(), 1);
    assert_eq!(dl.requested.len(), 1);
    assert!(dl.requested[0].is_none());
}

#[test]
fn download_verify_piece_hash_match() {
    let data = b"hello world test piece data";
    assert!(verify_piece_hash(data, digest(data)));
}

#[test]
fn download_verify_piece_hash_mismatch() {
    let data = b"hello world";
    let expected = [0xFFu8; 20];
    assert!(!verify_piece_hash(data, expected));
}

#[test]
fn download_verify_piece_hash_empty() {
    let data = b"";
    assert!(verify_piece_hash(data, digest(b"")));
}

#[test]
fn download_verify_piece_hash_binary_data() {
    let data = [0x00u8, 0xFF, 0x42, 0x7F, 0x80];
    assert!(verify_piece_hash(&data, digest(&data)));
}

#[test]
fn download_verify_piece_hash_wrong_hash() {
    let data = b"correct data";
    let wrong_data = b"wrong data";
    assert!(!verify_piece_hash(data, digest(wrong_data)));
}

#[test]
fn pieces_verify_piece_hash_match() {
    let data = b"hello world test piece data";
    let expected = digest(data);
    assert!(verify_piece_hash(data, expected));
}

#[test]
fn pieces_verify_piece_hash_mismatch() {
    let data = b"hello world";
    assert!(!verify_piece_hash(data, [0xFFu8; 20]));
}

#[test]
fn pieces_verify_piece_hash_empty() {
    let expected = digest(b"");
    assert!(verify_piece_hash(b"", expected));
}

#[test]
fn pieces_verify_piece_hash_binary_data() {
    let data = [0x00u8, 0xFF, 0x42, 0x7F, 0x80];
    let expected = digest(&data);
    assert!(verify_piece_hash(&data, expected));
}

#[test]
fn pieces_verify_piece_hash_wrong_hash() {
    let wrong_hash = digest(b"wrong data");
    assert!(!verify_piece_hash(b"correct data", wrong_hash));
}

#[test]
fn download_parse_bitfield_all_set() {
    let bytes = vec![0xFF, 0xFF];
    let bf = parse_bitfield(&bytes, 16);
    assert_eq!(bf.len(), 16);
    assert!(bf.iter().all(|&b| b));
}

#[test]
fn download_parse_bitfield_none_set() {
    let bytes = vec![0x00, 0x00];
    let bf = parse_bitfield(&bytes, 16);
    assert_eq!(bf.len(), 16);
    assert!(bf.iter().all(|&b| !b));
}

#[test]
fn download_parse_bitfield_partial() {
    let bytes = vec![0x80, 0x00];
    let bf = parse_bitfield(&bytes, 16);
    assert_eq!(bf.len(), 16);
    assert!(bf[0]);
    assert!(!bf[1]);
    assert!(!bf[7]);
    assert!(!bf[8]);
}

#[test]
fn download_parse_bitfield_shorter_than_requested() {
    let bytes = vec![0xFF];
    let bf = parse_bitfield(&bytes, 16);
    assert_eq!(bf.len(), 16);
    assert!(bf[0..8].iter().all(|&b| b));
    assert!(bf[8..16].iter().all(|&b| !b));
}

#[test]
fn types_parse_bitfield_all_set() {
    let bytes = vec![0xFF, 0xFF];
    let bf = parse_bitfield(&bytes, 16);
    assert_eq!(bf.len(), 16);
    assert!(bf.iter().all(|&b| b));
}

#[test]
fn types_parse_bitfield_none_set() {
    let bytes = vec![0x00, 0x00];
    let bf = parse_bitfield(&bytes, 16);
    assert_eq!(bf.len(), 16);
    assert!(bf.iter().all(|&b| !b));
}

#[test]
fn types_parse_bitfield_partial() {
    let bytes = vec![0x80, 0x00];
    let bf = parse_bitfield(&bytes, 16);
    assert_eq!(bf.len(), 16);
    assert!(bf[0]);
    assert!(!bf[1]);
    assert!(!bf[7]);
    assert!(!bf[8]);
}

#[test]
fn types_parse_bitfield_shorter_than_requested() {
    let bytes = vec![0xFF];
    let bf = parse_bitfield(&bytes, 16);
    assert_eq!(bf.len(), 16);
    assert!(bf[0..8].iter().all(|&b| b));
    assert!(bf[8..16].iter().all(|&b| !b));
}

#[test]
fn bitfield_is_read_back() {
    let have: Vec<bool> = (0..19).map(|i| i % 3 == 0).collect();
    let bytes = to_bitfield(&have);
    assert_eq!(bytes, vec![0b1001_0010, 0b0100_1001, 0b0010_0000]);
    assert_eq!(parse_bitfield(&bytes, 19), have);
    assert!(to_bitfield(&Vec::new()).is_empty());
}

/// Whether a peer that sent data so many seconds ago is kept.
fn snub_check(last_data_secs_ago: Option<u64>, timeout_secs: u64) -> bool {
    let now = 1_000 * SECOND;
    is_active(last_data_secs_ago.map(|s| now - s * SECOND), now, timeout_secs * SECOND)
}

#[test]
fn snub_filters_idle_peer() {
    assert!(!snub_check(Some(70), 60));
}

#[test]
fn snub_keeps_active_peer() {
    assert!(snub_check(Some(30), 60));
}

#[test]
fn snub_filters_never_sent_peer() {
    assert!(!snub_check(None, 60));
}

#[test]
fn refill_cannot_re_add_snubbed_peer() {
    let peer_stats: Vec<(u32, u64)> = vec![(1, 100), (2, 50), (3, 10)];
    let not_snubbed: Vec<u32> = vec![1, 3];
    let mut to_unchoke: Vec<u32> = vec![1, 3];
    let max_uploads = 3;
    refill(&mut to_unchoke, &peer_stats, &not_snubbed, max_uploads);
    assert!(to_unchoke.contains(&1));
    assert!(to_unchoke.contains(&3));
    assert!(!to_unchoke.contains(&2));
}

#[test]
fn seeding_sorts_by_uploaded_to_peer() {
    let peers: Vec<(u32, bool, u64)> = vec![(1, true, 100), (2, true, 500), (3, true, 50)];
    let stats = rank(&peers, true);
    assert_eq!(stats, vec![(2, 500), (1, 100), (3, 50)]);
}

#[test]
fn seeding_excludes_disinterested_peers() {
    let peers: Vec<(u32, bool, u64)> = vec![(1, true, 100), (2, false, 500), (3, true, 50)];
    let stats = rank(&peers, true);
    assert_eq!(stats, vec![(1, 100), (3, 50)]);
    assert!(!stats.iter().any(|(a, _)| *a == 2));
}

#[test]
fn seeding_retain_filters_disinterested() {
    let to_unchoke: Vec<u32> = vec![1, 2, 3];
    let interested: Vec<u32> = vec![1, 3];
    let kept = retain_eligible(&to_unchoke, &interested);
    assert!(kept.contains(&1));
    assert!(!kept.contains(&2));
    assert!(kept.contains(&3));
}

#[test]
fn seeding_empty_peer_stats_when_none_interested() {
    let peers: Vec<(u32, bool, u64)> = vec![(1, false, 100), (2, false, 500)];
    let stats = rank(&peers, true);
    assert!(stats.is_empty());
}

#[test]
fn ranking_keeps_the_order_of_equals() {
    let peers: Vec<(u32, bool, u64)> = vec![(1, true, 5), (2, false, 9), (3, true, 5)];
    assert_eq!(rank(&peers, false), vec![(2, 9), (1, 5), (3, 5)]);
}

#[test]
fn selection_takes_the_best_and_one_by_chance() {
    let ranked: Vec<(u32, u64)> = vec![(1, 50), (2, 40), (3, 30), (4, 20), (5, 10)];
    let all: Vec<u32> = vec![1, 2, 3, 4, 5];
    assert_eq!(select_unchoked(&ranked, &all, 3, 2), vec![1, 2, 5]);
    let without: Vec<u32> = vec![1, 3, 4];
    assert_eq!(select_unchoked(&ranked, &without, 3, 2), vec![1, 3, 4]);
}

#[test]
fn cancel_removes_from_pipeline() {
    let mut pi = PeerInfo::new();
    pi.am_choked = false;
    pi.push_request(7, 16384, 0);
    assert!(pi.pipeline[0].is_some());

    pi.remove_request(7, 16384);
    assert!(pi.pipeline[0].is_none());
}

#[test]
fn cancel_non_existent_is_noop() {
    let mut pi = PeerInfo::new();
    pi.am_choked = false;
    pi.push_request(7, 0, 0);
    pi.remove_request(99, 999);
    assert!(pi.pipeline[0].is_some());
}

#[test]
fn peer_starts_choked() {
    let pi = PeerInfo::new();
    assert!(pi.am_choked);
    assert!(!pi.can_request());
}

#[test]
fn pipeline_is_full_after_five_requests() {
    let mut pi = PeerInfo::new();
    pi.am_choked = false;
    for i in 0..5 {
        assert!(pi.can_request());
        pi.push_request(i, 0, 0);
    }
    assert!(!pi.can_request());
}

#[test]
fn pieces_block_len_for_short_last_block() {
    let dl = ActiveDownload::new(0, 50000, 16384);
    assert_eq!(dl.block_len(49152), 848);
}

#[test]
fn block_len_for_short_last_block() {
    let dl = ActiveDownload::new(0, 50000, 16384);
    assert_eq!(dl.block_len(49152), 848);
    assert_eq!(dl.block_len(32768), 16384);
}

#[test]
fn piece_is_assembled_from_blocks_in_any_order() {
    let piece: Vec<u8> = (0..40u32).map(|v| v as u8).collect();
    let addr = PeerAddr::V4 { ip: 0x7f00_0001, port: 6881 };
    let mut dl = ActiveDownload::new(3, 40, 16);
    assert_eq!(dl.num_blocks, 3);
    assert_eq!(dl.next_unrequested(), Some(0));
    dl.mark_requested(0, addr);
    assert_eq!(dl.next_unrequested(), Some(16));
    assert!(!dl.mark_received(32, &piece[32..40]));
    assert!(!dl.mark_received(0, &piece[0..16]));
    assert!(!dl.mark_received(0, &[9; 16]));
    assert!(dl.mark_received(16, &piece[16..32]));
    assert_eq!(dl.data, piece);
}
