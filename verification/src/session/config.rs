//! Session configuration and status types.

use crate::addr::PeerAddr;
use crate::metainfo::InfoHash;
use crate::seqs::copy_bits;
use crate::text::copy_name;
use crate::time::Nanos;
use vstd::prelude::*;

verus! {

/// A node that introduces us to the DHT.
pub struct BootstrapNode {
    /// Host name or address.
    pub host: String,
    /// UDP port.
    pub port: u16,
}

/// Configuration of a session. Durations are in nanoseconds.
pub struct SessionConfig {
    /// TCP listen port.
    pub listen_port: u16,
    /// IPv4 address to announce.
    pub announce_ip: Option<u32>,
    /// IPv6 address to announce.
    pub announce_ipv6: Option<u128>,
    /// Maximum connections per torrent.
    pub max_connections: u32,
    /// Upload slots per torrent.
    pub max_uploads: u32,
    /// Download limit in bytes per second.
    pub download_rate_limit: Option<u64>,
    /// Upload limit in bytes per second.
    pub upload_rate_limit: Option<u64>,
    /// Maximum active torrents; zero is no limit.
    pub max_active_torrents: usize,
    /// Maximum pieces in flight per torrent.
    pub max_concurrent_pieces: usize,
    /// Completed pieces kept for serving uploads.
    pub piece_cache_size: usize,
    /// The end game begins when fewer pieces are missing.
    pub endgame_threshold: usize,
    /// Timeout of a block request.
    pub request_timeout: Nanos,
    /// Timeout of a connection attempt.
    pub peer_connect_timeout: Nanos,
    /// Failures after which a peer is dropped.
    pub peer_max_retries: u32,
    /// Time a failed peer is left alone.
    pub peer_cooldown: Nanos,
    /// Time between choke rounds.
    pub choke_interval: Nanos,
    /// Time after which a silent peer is snubbed.
    pub snub_timeout: Nanos,
    /// Strikes after which a peer is banned.
    pub corrupt_ban_threshold: u32,
    /// Time to the next announce after a failed one.
    pub announce_fallback_interval: Nanos,
    /// Timeout of an announce.
    pub tracker_timeout: Nanos,
    /// Time between DHT lookups.
    pub dht_poll_interval: Nanos,
    /// Whether to exchange peers.
    pub pex_enabled: bool,
    /// Time between peer exchange messages.
    pub pex_interval: Nanos,
    /// Whether to look for peers on the local network.
    pub lsd_enabled: bool,
    /// Time between local announcements.
    pub lsd_interval: Nanos,
    /// Capacity of the queue of peer messages.
    pub peer_msg_buffer_size: usize,
    /// Whether to use uTP.
    pub enable_utp: bool,
    /// Whether to use web seeds.
    pub webseed_enabled: bool,
    /// Missing pieces in a row that make a gap worth fetching.
    pub webseed_min_gap_pieces: u32,
    /// Largest range to fetch at once.
    pub webseed_max_range_bytes: u64,
    /// Concurrent web seed downloads.
    pub webseed_concurrency: usize,
    /// IPv4 bootstrap nodes.
    pub bootstrap_nodes: Option<Vec<BootstrapNode>>,
    /// IPv6 bootstrap nodes.
    pub bootstrap_nodes_v6: Option<Vec<BootstrapNode>>,
    /// Our node identity; random if not given.
    pub node_id: Option<InfoHash>,
}

impl Default for SessionConfig {
    fn default() -> (c: SessionConfig)
        ensures
            c.listen_port == 6881,
            c.announce_ip is None,
            c.announce_ipv6 is None,
            c.max_connections == 50,
            c.max_uploads == 8,
            c.download_rate_limit is None,
            c.upload_rate_limit is None,
            c.max_active_torrents == 0,
            c.max_concurrent_pieces == 5,
            c.piece_cache_size == 256,
            c.endgame_threshold == 10,
            c.request_timeout == 60_000_000_000,
            c.peer_connect_timeout == 500_000_000,
            c.peer_max_retries == 3,
            c.peer_cooldown == 30_000_000_000,
            c.choke_interval == 10_000_000_000,
            c.snub_timeout == 60_000_000_000,
            c.corrupt_ban_threshold == 10,
            c.announce_fallback_interval == 30_000_000_000,
            c.tracker_timeout == 15_000_000_000,
            c.dht_poll_interval == 30_000_000_000,
            c.pex_enabled,
            c.pex_interval == 60_000_000_000,
            c.lsd_enabled,
            c.lsd_interval == 300_000_000_000,
            c.peer_msg_buffer_size == 256,
            c.enable_utp,
            c.webseed_enabled,
            c.webseed_min_gap_pieces == 4,
            c.webseed_max_range_bytes == 5 * 1024 * 1024,
            c.webseed_concurrency == 8,
            c.bootstrap_nodes matches Some(v) && v@.len() == 2 && v@[0].host@
                == "router.bittorrent.com"@ && v@[0].port == 6881 && v@[1].host@
                == "dht.transmissionbt.com"@ && v@[1].port == 6881,
            c.bootstrap_nodes_v6 is None,
            c.node_id is None,
    {
        let mut nodes: Vec<BootstrapNode> = Vec::new();
        nodes.push(BootstrapNode { host: "router.bittorrent.com".to_string(), port: 6881 });
        nodes.push(BootstrapNode { host: "dht.transmissionbt.com".to_string(), port: 6881 });
        SessionConfig {
            listen_port: 6881,
            announce_ip: None,
            announce_ipv6: None,
            max_connections: 50,
            max_uploads: 8,
            download_rate_limit: None,
            upload_rate_limit: None,
            max_active_torrents: 0,
            max_concurrent_pieces: 5,
            piece_cache_size: 256,
            endgame_threshold: 10,
            request_timeout: 60_000_000_000,
            peer_connect_timeout: 500_000_000,
            peer_max_retries: 3,
            peer_cooldown: 30_000_000_000,
            choke_interval: 10_000_000_000,
            snub_timeout: 60_000_000_000,
            corrupt_ban_threshold: 10,
            announce_fallback_interval: 30_000_000_000,
            tracker_timeout: 15_000_000_000,
            dht_poll_interval: 30_000_000_000,
            pex_enabled: true,
            pex_interval: 60_000_000_000,
            lsd_enabled: true,
            lsd_interval: 300_000_000_000,
            peer_msg_buffer_size: 256,
            enable_utp: true,
            webseed_enabled: true,
            webseed_min_gap_pieces: 4,
            webseed_max_range_bytes: 5 * 1024 * 1024,
            webseed_concurrency: 8,
            bootstrap_nodes: Some(nodes),
            bootstrap_nodes_v6: None,
            node_id: None,
        }
    }
}

/// Lifecycle state of a torrent.
#[derive(Clone, Copy, Debug, PartialEq, Eq, Structural)]
pub enum TorrentState {
    /// Known, but not started.
    Registered,
    /// Downloading.
    Downloading,
    /// Every piece is there.
    Seeding,
    /// Stopped by the user.
    Paused,
    /// Existing data is being checked.
    Checking,
    /// Stopped by an error.
    Error,
}

/// Progress and statistics of a torrent.
///
/// The fraction that is done is `pieces_completed` of `num_pieces`.
pub struct TorrentStatus {
    /// Identity of the torrent.
    pub info_hash: InfoHash,
    /// Name of the torrent.
    pub name: String,
    /// Bytes downloaded between the last two updates.
    pub download_rate: u64,
    /// Bytes uploaded between the last two updates.
    pub upload_rate: u64,
    /// Connected peers.
    pub num_peers: usize,
    /// Connected peers that hold every piece.
    pub num_seeds: usize,
    /// Lifecycle state.
    pub state: TorrentState,
    /// Length of all files together.
    pub total_size: u64,
    /// Verified bytes downloaded.
    pub total_downloaded: u64,
    /// Bytes uploaded.
    pub total_uploaded: u64,
    /// Number of pieces.
    pub num_pieces: u32,
    /// Pieces that we hold.
    pub pieces_completed: u32,
    /// Which pieces we hold.
    pub bitfield: Vec<bool>,
    /// Time since the torrent was started.
    pub elapsed: Nanos,
    /// Why the torrent stopped.
    pub error_message: Option<String>,
    /// Bytes that turned out corrupt or were there already, from peers and from
    /// web seeds.
    pub total_wasted: u64,
    /// Whether super seeding is on.
    pub super_seed_active: bool,
    /// Pieces that super seeding still hides.
    pub super_seed_remaining: u32,
}

impl TorrentStatus {
    /// Everything is as in `other`.
    pub open spec fn same_as(self, other: TorrentStatus) -> bool {
        self == (TorrentStatus { name: self.name, bitfield: self.bitfield, ..other })
            && self.name@ == other.name@ && self.bitfield@ == other.bitfield@
    }

    /// A copy.
    pub fn duplicate(&self) -> (r: TorrentStatus)
        ensures
            r.same_as(*self),
    {
        TorrentStatus {
            info_hash: self.info_hash,
            name: self.name.clone(),
            download_rate: self.download_rate,
            upload_rate: self.upload_rate,
            num_peers: self.num_peers,
            num_seeds: self.num_seeds,
            state: self.state,
            total_size: self.total_size,
            total_downloaded: self.total_downloaded,
            total_uploaded: self.total_uploaded,
            num_pieces: self.num_pieces,
            pieces_completed: self.pieces_completed,
            bitfield: copy_bits(&self.bitfield),
            elapsed: self.elapsed,
            error_message: copy_name(&self.error_message),
            total_wasted: self.total_wasted,
            super_seed_active: self.super_seed_active,
            super_seed_remaining: self.super_seed_remaining,
        }
    }
}

/// Something that happened to a torrent.
pub enum TorrentEvent {
    /// The lifecycle state changed.
    StateChanged { from: TorrentState, to: TorrentState },
    /// A piece was downloaded and its hash matches.
    PieceCompleted { index: u32 },
    /// A piece was downloaded and its hash does not match.
    PieceFailed { index: u32 },
    /// Every piece is there.
    TorrentFinished,
    /// A peer connected.
    PeerConnected { addr: PeerAddr, client_name: Option<String> },
    /// A peer disconnected.
    PeerDisconnected { addr: PeerAddr },
    /// A tracker answered.
    TrackerAnnounced { peers_found: usize },
    /// A tracker failed.
    TrackerError { message: String },
    /// A file is complete.
    FileCompleted { path: Vec<String> },
}

/// Statistics of a session.
#[derive(Clone, Copy, Debug, PartialEq, Eq, Structural)]
pub struct SessionStatus {
    /// Bytes downloaded between the last two updates, over all torrents.
    pub total_download_rate: u64,
    /// Bytes uploaded between the last two updates, over all torrents.
    pub total_upload_rate: u64,
    /// Bytes downloaded.
    pub total_downloaded: u64,
    /// Bytes uploaded.
    pub total_uploaded: u64,
    /// Number of torrents.
    pub num_torrents: usize,
    /// Number of connections.
    pub num_connections: usize,
    /// Number of DHT nodes known.
    pub dht_nodes: usize,
}

impl Default for SessionStatus {
    fn default() -> (s: SessionStatus)
        ensures
            s == (SessionStatus {
                total_download_rate: 0,
                total_upload_rate: 0,
                total_downloaded: 0,
                total_uploaded: 0,
                num_torrents: 0,
                num_connections: 0,
                dht_nodes: 0,
            }),
    {
        SessionStatus {
            total_download_rate: 0,
            total_upload_rate: 0,
            total_downloaded: 0,
            total_uploaded: 0,
            num_torrents: 0,
            num_connections: 0,
            dht_nodes: 0,
        }
    }
}

/// What we know of a tracker.
pub struct TrackerStatus {
    /// URL of the tracker.
    pub url: String,
    /// Time to the next announce.
    pub next_announce_in: Option<Nanos>,
    /// Time between announces.
    pub announce_interval: Nanos,
    /// Seeds, as the tracker reports them.
    pub seeds_reported: u32,
    /// Leechers, as the tracker reports them.
    pub leechers_reported: u32,
    /// The last error.
    pub last_error: Option<String>,
}

/// What we know of a peer.
///
/// The fraction that the peer holds is `pieces_held` of the number of pieces.
pub struct PeerStatus {
    /// Address of the peer.
    pub addr: PeerAddr,
    /// What the peer calls itself.
    pub client_name: Option<String>,
    /// Pieces that the peer holds; zero before its bitfield is complete.
    pub pieces_held: usize,
    /// Bytes downloaded from the peer since the last status update.
    pub download_rate: u64,
    /// Bytes uploaded to the peer since the last status update.
    pub upload_rate: u64,
    /// The peer chokes us.
    pub am_choked: bool,
    /// The peer is interested in us.
    pub peer_interested: bool,
}

} // verus!
