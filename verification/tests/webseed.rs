use sha1::{Digest, Sha1};
use torrent::error::{Error, ErrorKind};
use torrent::metainfo::Info;
use torrent::net::into_url::Url;
use torrent::session::config::SessionConfig;
use torrent::session::webseed::{
    claim_gap, find_largest_gap, names_directory, probes, range_header, Probe, UrlHealth,
    WebSeedAction, WebSeedConfig, WebSeedTask,
};
use torrent::time::{MILLISECOND, SECOND};

fn digest(data: &[u8]) -> [u8; 20] {
    let mut h = Sha1::new();
    h.update(data);
    h.finalize().into()
}

fn build_info(data: &[u8], piece_length: usize) -> Info {
    Info {
        name: "test.bin".to_string(),
        piece_length: piece_length as u64,
        pieces: data.chunks(piece_length).map(digest).collect(),
        length: data.len() as u64,
    }
}

fn test_config() -> WebSeedConfig {
    WebSeedConfig {
        min_gap_pieces: 1,
        max_range_bytes: 5 * 1024 * 1024,
        timeout: 5 * SECOND,
        retry_delay: 100 * MILLISECOND,
        max_concurrent: 1,
        park_threshold: 5,
        park_retry_interval: 60 * SECOND,
    }
}

fn task_for(url: &str, info: Info) -> WebSeedTask {
    WebSeedTask::new(Url::parse(url).ok().unwrap(), info, true, test_config())
}

fn gap(bf: &[bool], min: u32) -> Option<(u32, u32)> {
    let mut cursor = 0;
    claim_gap(&mut cursor, bf, min)
}

#[test]
fn find_largest_gap_empty() {
    let bf = vec![true; 10];
    assert_eq!(find_largest_gap(&bf), None);
}

#[test]
fn find_largest_gap_full() {
    let bf = vec![false; 10];
    assert_eq!(find_largest_gap(&bf), Some((0, 10)));
}

#[test]
fn find_largest_gap_multiple() {
    let bf = vec![
        true, true, false, false, false, false, true, false, false, true,
    ];
    assert_eq!(find_largest_gap(&bf), Some((2, 4)));
}

#[test]
fn find_largest_gap_trailing() {
    let bf = vec![true, false, false, true, false, false, false];
    assert_eq!(find_largest_gap(&bf), Some((4, 3)));
}

#[test]
fn find_largest_gap_leading() {
    let bf = vec![false, false, false, true, true, false];
    assert_eq!(find_largest_gap(&bf), Some((0, 3)));
}

#[test]
fn find_largest_gap_single_piece() {
    let bf = vec![false];
    assert_eq!(find_largest_gap(&bf), Some((0, 1)));
}

#[test]
fn find_largest_gap_zero_length() {
    let bf: Vec<bool> = vec![];
    assert_eq!(find_largest_gap(&bf), None);
}

#[test]
fn claim_gap_finds_first_qualifying() {
    let bf = vec![false; 100];
    let result = gap(&bf, 4);
    assert!(result.is_some());
    let (start, size) = result.unwrap();
    assert!(size >= 4);
    assert!((start as usize) < 100);
}

#[test]
fn claim_gap_respects_min_size() {
    let mut bf = vec![true; 20];
    bf[3] = false;
    bf[4] = false;
    bf[9] = false;
    bf[10] = false;
    bf[11] = false;
    bf[12] = false;
    bf[13] = false;
    for first in 0..20 {
        let mut cursor = first;
        let result = claim_gap(&mut cursor, &bf, 4);
        assert!(result.is_some());
        let (start, size) = result.unwrap();
        assert!(size >= 4);
        assert!(
            start >= 9,
            "should skip the small gap at 3-4, got start={start}"
        );
    }
}

#[test]
fn claim_gap_none_when_no_qualifying_gap() {
    let mut bf = vec![true; 10];
    bf[5] = false;
    assert_eq!(gap(&bf, 4), None);
}

#[test]
fn claim_gap_empty_bitfield() {
    assert_eq!(gap(&[], 4), None);
}

#[test]
fn claims_start_where_the_cursor_stands_and_wrap() {
    let bf = vec![false, true, false, false, true, false];
    let mut cursor = u64::MAX - 15;
    assert_eq!(claim_gap(&mut cursor, &bf, 2), Some((2, 2)));
    assert_eq!(cursor, 0);
    cursor = 5;
    assert_eq!(claim_gap(&mut cursor, &bf, 2), Some((5, 2)));
    assert_eq!(cursor, 21);
}

#[test]
fn health_starts_clean() {
    let h = UrlHealth::default();
    assert_eq!(h.consecutive_failures, 0);
    assert_eq!(h.success_count, 0);
    assert!(h.last_success.is_none());
    assert!(!h.should_park(5));
    assert!(h.ready_for_retry(60 * SECOND, 0));
}

#[test]
fn success_resets_failures() {
    let mut h = UrlHealth::default();
    h.record_failure();
    h.record_failure();
    assert_eq!(h.consecutive_failures, 2);
    h.record_success(7 * SECOND);
    assert_eq!(h.consecutive_failures, 0);
    assert_eq!(h.success_count, 1);
    assert!(!h.ready_for_retry(60 * SECOND, 66 * SECOND));
    assert!(h.ready_for_retry(60 * SECOND, 67 * SECOND));
}

#[test]
fn url_health_should_park() {
    let mut h = UrlHealth::default();
    for _ in 0..4 {
        h.record_failure();
    }
    assert!(!h.should_park(5));
    h.record_failure();
    assert!(h.should_park(5));
}

#[test]
fn downloads_full_file_single_piece() {
    let data = vec![0xABu8; 256];
    let task = task_for("http://127.0.0.1/", build_info(&data, 256));
    let have = vec![false];
    let (chunks, wasted, result) = task.download_range(0, &data, &have);
    assert!(result.is_ok());
    assert_eq!(chunks.iter().map(|c| c.index).collect::<Vec<_>>(), vec![0]);
    assert_eq!((chunks[0].from, chunks[0].to), (0, 256));
    assert_eq!(wasted, 0);
}

#[test]
fn downloads_multiple_pieces() {
    let data: Vec<u8> = (0u32..384).map(|v| v as u8).collect();
    let task = task_for("http://127.0.0.1/", build_info(&data, 128));
    let have = vec![false; 3];
    let (chunks, wasted, result) = task.download_range(0, &data, &have);
    assert!(result.is_ok());
    assert_eq!(chunks.iter().map(|c| c.index).collect::<Vec<_>>(), vec![0, 1, 2]);
    assert_eq!(&data[chunks[1].from..chunks[1].to], &data[128..256]);
    assert_eq!(wasted, 0);
}

#[test]
fn sha1_mismatch_does_not_mark_complete() {
    let correct_data = vec![0xABu8; 256];
    let wrong_data = vec![0xCDu8; 256];
    let task = task_for("http://127.0.0.1/", build_info(&correct_data, 256));
    let (chunks, wasted, result) = task.download_range(0, &wrong_data, &vec![false]);
    assert!(chunks.is_empty());
    assert_eq!(wasted, 256);
    assert_eq!(result.err().map(|e| e.kind()), Some(ErrorKind::WebSeedHashMismatch));
}

#[test]
fn present_pieces_are_skipped_and_a_partial_piece_is_left_over() {
    let data: Vec<u8> = (0u32..300).map(|v| (v * 7) as u8).collect();
    let task = task_for("http://127.0.0.1/", build_info(&data, 100));
    let (chunks, wasted, result) = task.download_range(0, &data[..250].to_vec(), &vec![true, false, false]);
    assert!(result.is_ok());
    assert_eq!(chunks.len(), 1);
    assert_eq!((chunks[0].index, chunks[0].from, chunks[0].to), (1, 100, 200));
    assert_eq!(wasted, 100);
    let (unaligned, _, result) = task.download_range(50, &data[50..].to_vec(), &vec![false; 3]);
    assert!(result.is_ok());
    assert!(unaligned.is_empty());
}

#[test]
fn short_last_piece_completes_and_surplus_is_ignored() {
    let data: Vec<u8> = (0u32..250).map(|v| (v * 3) as u8).collect();
    let task = task_for("http://127.0.0.1/", build_info(&data, 100));
    let mut served = data[200..].to_vec();
    served.extend_from_slice(&[1, 2, 3]);
    let (chunks, wasted, result) = task.download_range(200, &served, &vec![false; 3]);
    assert!(result.is_ok());
    assert_eq!(chunks.len(), 1);
    assert_eq!((chunks[0].index, chunks[0].from, chunks[0].to), (2, 0, 50));
    assert_eq!(wasted, 0);
    assert_eq!((task.piece_len(1), task.piece_len(2), task.piece_len(3)), (100, 50, 0));
}

#[test]
fn directory_urls_take_the_name() {
    let data = vec![1u8; 10];
    let task = task_for("http://mirror.example.com/pub/", build_info(&data, 10));
    assert_eq!(
        task.build_request_url().ok().unwrap().as_str(),
        "http://mirror.example.com/pub/test.bin"
    );
    let file = task_for("http://mirror.example.com/pub/other.iso", build_info(&data, 10));
    assert_eq!(
        file.build_request_url().ok().unwrap().as_str(),
        "http://mirror.example.com/pub/other.iso"
    );
    let url = Url::parse("http://mirror.example.com/pub/").ok().unwrap();
    let tree = WebSeedTask::new(url, build_info(&data, 10), false, test_config());
    assert_eq!(
        tree.build_request_url().ok().unwrap().as_str(),
        "http://mirror.example.com/pub/"
    );
    assert!(names_directory("/pub/"));
    assert!(!names_directory("/pub"));
    assert!(!names_directory(""));
}

#[test]
fn impossible_name_is_an_error() {
    let mut info = build_info(&[1u8; 10], 10);
    info.name = "http://[".to_string();
    let task = task_for("http://mirror.example.com/pub/", info);
    assert_eq!(
        task.build_request_url().err().map(|e| e.kind()),
        Some(ErrorKind::InvalidInput)
    );
}

#[test]
fn ranges_and_probes() {
    assert_eq!(range_header(0, 1048575), "bytes=0-1048575");
    assert_eq!(
        probes(100),
        vec![
            Probe::Head,
            Probe::Range { start: 0, end: 0 },
            Probe::Range { start: 0, end: 99 },
        ]
    );
    assert_eq!(probes(5000)[2], Probe::Range { start: 0, end: 4095 });
    assert_eq!(probes(0)[2], Probe::Range { start: 0, end: 0 });
}

#[test]
fn loop_asks_for_gaps_until_complete() {
    let data = vec![3u8; 1000];
    let mut task = task_for("http://127.0.0.1/", build_info(&data, 100));
    task.config.max_range_bytes = 250;
    let mut cursor = 0;
    assert_eq!(
        task.next_download(&mut cursor, &vec![false; 10]),
        WebSeedAction::Download { start: 0, end: 249 }
    );
    assert_eq!(
        task.next_download(&mut cursor, &vec![false; 10]),
        WebSeedAction::Download { start: 600, end: 849 }
    );
    let mut bf = vec![true; 10];
    bf[9] = false;
    assert_eq!(
        task.next_download(&mut cursor, &bf),
        WebSeedAction::Download { start: 900, end: 999 }
    );
    task.config.min_gap_pieces = 2;
    assert_eq!(task.next_download(&mut cursor, &bf), WebSeedAction::AwaitPiece);
    assert_eq!(task.next_download(&mut cursor, &vec![true; 10]), WebSeedAction::Finish);
    assert_eq!(task.probed(true), WebSeedAction::Continue);
    assert_eq!(task.probed(false), WebSeedAction::Park { delay: 60 * SECOND });
    assert_eq!(task.response_cap(), 250 + 1024 * 1024);
}

#[test]
fn failures_back_off_then_park() {
    let mut task = task_for("http://127.0.0.1/", build_info(&[1u8; 10], 10));
    task.config.park_threshold = 3;
    let error = Error::new(ErrorKind::Io);
    assert_eq!(task.range_failed(error), WebSeedAction::Retry { delay: 100 * MILLISECOND });
    assert_eq!(task.range_failed(error), WebSeedAction::Retry { delay: 200 * MILLISECOND });
    assert_eq!(task.range_failed(error), WebSeedAction::Park { delay: 60 * SECOND });
    assert_eq!(task.health, UrlHealth::default());
    assert_eq!(task.retry_delay, 100 * MILLISECOND);
    assert_eq!(task.range_failed(error), WebSeedAction::Retry { delay: 100 * MILLISECOND });
    assert_eq!(task.range_succeeded(5), WebSeedAction::Continue);
    assert_eq!(task.retry_delay, 100 * MILLISECOND);
    assert_eq!(
        task.range_failed(Error::new(ErrorKind::WebSeedHashMismatch)),
        WebSeedAction::Finish
    );
    task.retry_delay = 40 * SECOND;
    assert_eq!(task.range_failed(error), WebSeedAction::Retry { delay: 40 * SECOND });
    assert_eq!(task.retry_delay, 60 * SECOND);
}

#[test]
fn configurations() {
    let c = WebSeedConfig::default();
    assert_eq!(c.min_gap_pieces, 4);
    assert_eq!(c.max_range_bytes, 5 * 1024 * 1024);
    assert_eq!(c.timeout, 30 * SECOND);
    assert_eq!(c.retry_delay, 2 * SECOND);
    assert_eq!(c.max_concurrent, 16);
    assert_eq!(c.park_threshold, 5);
    assert_eq!(c.park_retry_interval, 60 * SECOND);
    let s = WebSeedConfig::of_session(&SessionConfig::default());
    assert_eq!(s.max_concurrent, 8);
    assert_eq!(s.min_gap_pieces, 4);
}
