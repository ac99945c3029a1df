use sha1::{Digest, Sha1};
use torrent::error::{Error, ErrorKind};
use torrent::metainfo::{Info, MetainfoBuilder};
use torrent::session::seed::builder::SeedBuilder;
use torrent::session::seed::hash::{hash_source, infer_piece_length, resolve_piece_length};
use torrent::session::seed::source::DataSource;
use torrent::session::seed::storage::DataSourceStorage;
use torrent::session::seed::verify::verify_existing;

fn digest(data: &[u8]) -> [u8; 20] {
    let mut h = Sha1::new();
    h.update(data);
    h.finalize().into()
}

fn sample(n: usize) -> Vec<u8> {
    (0..n).map(|i| (i * 31 + i / 7) as u8).collect()
}

#[test]
fn memory_source_read_full() {
    let source = b"hello world".to_vec();
    let data = source.read_at(0, 11).ok().unwrap();
    assert_eq!(data.len(), 11);
    assert_eq!(&data[..], b"hello world");
}

#[test]
fn memory_source_read_partial() {
    let source = b"hello".to_vec();
    let data = source.read_at(0, 10).ok().unwrap();
    assert_eq!(data.len(), 5);
    assert_eq!(&data[..], b"hello");
}

#[test]
fn memory_source_read_at_offset() {
    let source = b"abcdefghij".to_vec();
    let data = source.read_at(3, 4).ok().unwrap();
    assert_eq!(data.len(), 4);
    assert_eq!(&data[..], b"defg");
}

#[test]
fn memory_source_read_beyond_eof() {
    let source = b"abc".to_vec();
    let data = source.read_at(2, 5).ok().unwrap();
    assert_eq!(data.len(), 1);
    assert_eq!(data[0], b'c');
}

#[test]
fn memory_source_read_past_end() {
    let source = b"abc".to_vec();
    let data = source.read_at(5, 3).ok().unwrap();
    assert_eq!(data.len(), 0);
}

#[test]
fn memory_source_total_size() {
    let source = vec![0u8; 42];
    assert_eq!(source.total_size().ok(), Some(42));
}

#[test]
fn memory_source_name() {
    let source = vec![0u8; 10];
    assert_eq!(source.name(), "memory");
}

#[test]
fn write_piece_is_noop_for_read_only() {
    let info = Info {
        name: "test".to_string(),
        piece_length: 64,
        pieces: vec![[0u8; 20]; 1],
        length: 64,
    };
    let storage = DataSourceStorage::new(vec![0u8; 64], &info);
    assert!(storage.write_piece(0, &[0xFFu8; 64]).is_ok());
    assert!(storage.write_block(0, 0, &[0xFFu8; 16]).is_ok());
    let mut buf = vec![0xFFu8; 64];
    assert!(storage.read_piece(0, &mut buf).is_ok());
    assert_eq!(&buf[..], &[0u8; 64]);
}

#[test]
fn storage_reads_blocks_and_fills_up_with_zeros() {
    let data = sample(150);
    let info = Info {
        name: "test".to_string(),
        piece_length: 64,
        pieces: vec![[0u8; 20]; 3],
        length: 150,
    };
    let storage = DataSourceStorage::new(data.clone(), &info);
    assert_eq!(storage.num_pieces(), 3);
    assert_eq!(storage.total_size(), 150);
    assert_eq!(storage.piece_offset(2), 128);
    assert_eq!(storage.piece_len_for_index(2), 22);
    assert_eq!(storage.piece_len_for_index(3), 0);
    let mut block = vec![9u8; 10];
    assert!(storage.read_block(1, 5, &mut block).is_ok());
    assert_eq!(block, data[69..79].to_vec());
    let mut tail = vec![9u8; 10];
    assert!(storage.read_block(2, 18, &mut tail).is_ok());
    assert_eq!(&tail[..4], &data[146..150]);
    assert_eq!(&tail[4..], &[0u8; 6]);
    let mut piece = vec![9u8; 30];
    assert!(storage.read_piece(2, &mut piece).is_ok());
    assert_eq!(&piece[..22], &data[128..150]);
    assert_eq!(&piece[22..], &[9u8; 8]);
}

#[test]
fn piece_length_follows_the_size() {
    assert_eq!(infer_piece_length(0), 32 * 1024);
    assert_eq!(infer_piece_length(67_108_864), 32 * 1024);
    assert_eq!(infer_piece_length(67_108_865), 64 * 1024);
    assert_eq!(infer_piece_length(536_870_912), 64 * 1024);
    assert_eq!(infer_piece_length(536_870_913), 128 * 1024);
    assert_eq!(infer_piece_length(1_073_741_824), 128 * 1024);
    assert_eq!(infer_piece_length(1_073_741_825), 256 * 1024);
    assert_eq!(infer_piece_length(8_589_934_592), 256 * 1024);
    assert_eq!(infer_piece_length(8_589_934_593), 512 * 1024);
    assert_eq!(resolve_piece_length(100, Some(7)), 7);
    assert_eq!(resolve_piece_length(100, None), 32 * 1024);
}

#[test]
fn builder_hashes_data_as_it_comes() {
    let data = sample(1000);
    let mut whole = MetainfoBuilder::new(64);
    whole.add_data(&data);
    let mut parts = MetainfoBuilder::new(64);
    for chunk in data.chunks(7) {
        parts.add_data(chunk);
    }
    assert_eq!(parts.total_length(), 1000);
    let a = whole.finish("a".to_string());
    let b = parts.finish("a".to_string());
    let expected: Vec<[u8; 20]> = data.chunks(64).map(digest).collect();
    assert_eq!(a.pieces, expected);
    assert_eq!(b.pieces, expected);
    assert_eq!(a.length, 1000);
}

#[test]
fn hashed_data_verifies() {
    let data = sample(1000);
    let info = hash_source(&data, 64).ok().unwrap().finish("x".to_string());
    assert_eq!(info.pieces.len(), 16);
    let storage = DataSourceStorage::new(data.clone(), &info);
    let mut have = vec![false; 16];
    assert_eq!(verify_existing(&storage, &info, &mut have).ok(), Some(16));
    assert!(have.iter().all(|&b| b));

    let mut damaged = data;
    damaged[70] ^= 1;
    let storage = DataSourceStorage::new(damaged, &info);
    let mut have = vec![false; 16];
    assert_eq!(verify_existing(&storage, &info, &mut have).ok(), Some(15));
    assert!(!have[1]);
    assert!(have[0] && have[15]);
}

#[test]
fn empty_pieces_are_an_error() {
    let data = sample(10);
    assert_eq!(
        hash_source(&data, 0).err().map(|e| e.kind()),
        Some(ErrorKind::InvalidInput)
    );
    let nothing: Vec<u8> = Vec::new();
    assert_eq!(hash_source(&nothing, 0).ok().unwrap().total_length(), 0);
}

#[test]
fn torrent_is_built_from_data() {
    let data = sample(100);
    let hashed = SeedBuilder::new(data.clone())
        .piece_length(40)
        .announce("http://tracker.example.com/announce".to_string())
        .announce_list(vec![vec!["http://a".to_string()]])
        .name("my file".to_string())
        .comment("c".to_string())
        .created_by("me".to_string())
        .private()
        .hash()
        .ok()
        .unwrap();
    assert!(hashed.is_private);
    assert_eq!(hashed.info.pieces, data.chunks(40).map(digest).collect::<Vec<_>>());
    let mut info_hash = [0u8; 20];
    info_hash[0] = 0xab;
    info_hash[19] = 0x0c;
    let prepared = hashed.encoded(info_hash, Some(vec![1, 2, 3])).ok().unwrap();
    assert_eq!(prepared.torrent_bytes(), &[1, 2, 3]);
    assert_eq!(prepared.info_hash(), info_hash);
    assert_eq!(
        prepared.magnet_uri(),
        "magnet:?xt=urn:btih:ab0000000000000000000000000000000000000c&dn=my file"
    );
    assert_eq!(prepared.metainfo().announce, "http://tracker.example.com/announce");
    assert_eq!(prepared.metainfo().comment, Some("c".to_string()));
    assert_eq!(prepared.metainfo().created_by, Some("me".to_string()));
    assert_eq!(prepared.metainfo().announce_list, vec![vec!["http://a".to_string()]]);
    assert_eq!(prepared.into_source(), data);
}

#[test]
fn torrent_that_cannot_be_encoded_is_an_error() {
    let hashed = SeedBuilder::new(sample(10)).hash().ok().unwrap();
    assert_eq!(hashed.info.name, "memory");
    assert_eq!(hashed.announce, "");
    assert_eq!(hashed.info.piece_length, 32 * 1024);
    assert_eq!(
        hashed.encoded([0; 20], None).err().map(|e| e.kind()),
        Some(ErrorKind::InvalidInput)
    );
}

struct Broken;

impl DataSource for Broken {
    fn name(&self) -> &str {
        "broken"
    }

    fn total_size(&self) -> Result<u64, Error> {
        Ok(10)
    }

    fn read_at(&self, _offset: u64, _len: usize) -> Result<Vec<u8>, Error> {
        Err(Error::new(ErrorKind::Io))
    }
}

#[test]
fn failing_source_fails_the_hash() {
    assert_eq!(
        SeedBuilder::new(Broken).hash().err().map(|e| e.kind()),
        Some(ErrorKind::Io)
    );
}
