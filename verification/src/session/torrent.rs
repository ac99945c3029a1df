//! One torrent of a session: what is known of it before and while its loop runs.

use crate::addr::PeerAddr;
use crate::metainfo::{lemma_held_bound, InfoHash, Metainfo};
use crate::seqs::{all_set, all_true, copy_bits, count_set, count_true};
use crate::session::announce::{due, AnnounceEvent, AnnounceState};
use crate::session::config::{SessionConfig, TorrentState, TorrentStatus, TrackerStatus};
use crate::session::download::tables::Peers;
use crate::session::download::types::{DownloadView, PeerView};
use crate::session::peer_mgr::{PeerId, PeerManager, PeerTable};
use crate::session::swarm::engine::{Counters, SwarmLoop, SwarmSettings, TorrentCommand};
use crate::session::swarm::piece_pipeline::PiecePipeline;
use crate::session::swarm::super_seed::SuperSeedExtension;
use crate::session::upload_mgr::UploadManager;
use crate::text::{copy_texts, hex_encode, hex_of, texts};
use crate::time::Nanos;
use vstd::prelude::*;

verus! {

/// A magnet link, as far as registering a torrent depends on it.
pub struct MagnetUri {
    /// Identity of the torrent.
    pub info_hash: InfoHash,
    /// Name to be shown.
    pub display_name: Option<String>,
}

/// What a torrent is added from.
pub enum TorrentSpec {
    /// Its metadata.
    Metainfo(Metainfo),
    /// A magnet link: the metadata has to come from peers.
    Magnet(MagnetUri),
}

/// The identity of the torrent that is added.
pub open spec fn spec_info_hash(spec: TorrentSpec) -> InfoHash {
    match spec {
        TorrentSpec::Metainfo(m) => m.info_hash,
        TorrentSpec::Magnet(u) => u.info_hash,
    }
}

/// The name of the torrent that is added: a magnet link without a name is shown
/// by its hash.
pub open spec fn spec_title(spec: TorrentSpec) -> Seq<char> {
    match spec {
        TorrentSpec::Metainfo(m) => m.info.name@,
        TorrentSpec::Magnet(u) => match u.display_name {
            Some(n) => n@,
            None => hex_of(u.info_hash@),
        },
    }
}

/// The number of pieces of the torrent that is added; none before the metadata
/// is known.
pub open spec fn spec_piece_count(spec: TorrentSpec) -> nat {
    match spec {
        TorrentSpec::Metainfo(m) => m.info.pieces@.len(),
        TorrentSpec::Magnet(_) => 0,
    }
}

/// The metadata of the torrent that is added.
pub open spec fn spec_metadata(spec: TorrentSpec) -> Option<Metainfo> {
    match spec {
        TorrentSpec::Metainfo(m) => Some(m),
        TorrentSpec::Magnet(_) => None,
    }
}

/// The total size of the torrent that is added; zero before the metadata is
/// known.
pub open spec fn spec_size(spec: TorrentSpec) -> u64 {
    match spec {
        TorrentSpec::Metainfo(m) => m.info.length,
        TorrentSpec::Magnet(_) => 0,
    }
}

/// A torrent of a session. `C` is the handle of a live connection.
pub struct TorrentHandle<C> {
    /// Identity of the torrent.
    pub info_hash: InfoHash,
    /// Its metadata; unknown for a magnet link at first.
    pub metainfo: Option<Metainfo>,
    /// Its peers.
    pub peer_mgr: PeerManager<C>,
    /// Which pieces are there.
    pub have: Vec<bool>,
    /// Progress and statistics.
    pub status: TorrentStatus,
    /// What is known of its tracker.
    pub tracker_status: TrackerStatus,
    /// Web seed URLs.
    pub web_seeds: Vec<String>,
    /// Whether peers may be looked up in the DHT.
    pub dht_enabled: bool,
    /// Whether its loop runs.
    pub active: bool,
}

/// Whether a handle is that of a torrent just registered: nothing is downloaded,
/// no peer is known, and the loop does not run.
pub open spec fn is_registered<C>(
    h: TorrentHandle<C>,
    spec: TorrentSpec,
    config: SessionConfig,
    peer_id: PeerId,
) -> bool {
    &&& h.wf()
    &&& h.info_hash == spec_info_hash(spec)
    &&& h.metainfo == spec_metadata(spec)
    &&& h.have@ == Seq::new(spec_piece_count(spec), |i: int| false)
    &&& !h.active
    &&& h.dht_enabled
    &&& h.status.name@ == spec_title(spec)
    &&& h.status.bitfield@ == h.have@
    &&& h.status == (TorrentStatus {
        info_hash: spec_info_hash(spec),
        name: h.status.name,
        bitfield: h.status.bitfield,
        download_rate: 0,
        upload_rate: 0,
        num_peers: 0,
        num_seeds: 0,
        state: TorrentState::Registered,
        total_size: spec_size(spec),
        total_downloaded: 0,
        total_uploaded: 0,
        num_pieces: spec_piece_count(spec) as u32,
        pieces_completed: 0,
        elapsed: 0,
        error_message: None,
        total_wasted: 0,
        super_seed_active: false,
        super_seed_remaining: 0,
    })
    &&& h.tracker_status.url@ == match spec {
        TorrentSpec::Metainfo(m) => m.announce@,
        TorrentSpec::Magnet(_) => Seq::empty(),
    }
    &&& never_announced(h.tracker_status)
    &&& without_peers(h.peer_mgr, spec_info_hash(spec), config, peer_id)
}

/// Whether a tracker was not asked yet.
pub open spec fn never_announced(s: TrackerStatus) -> bool {
    s == (TrackerStatus {
        url: s.url,
        next_announce_in: None,
        announce_interval: 0,
        seeds_reported: 0,
        leechers_reported: 0,
        last_error: None,
    })
}

/// Whether a peer manager is that of a torrent without peers, with the limits of
/// the configuration.
pub open spec fn without_peers<C>(
    pm: PeerManager<C>,
    info_hash: InfoHash,
    config: SessionConfig,
    peer_id: PeerId,
) -> bool {
    &&& pm@ == (PeerTable::<C> {
        connections: Map::empty(),
        pending: Seq::empty(),
        backoff: Map::empty(),
    })
    &&& pm.spec_info_hash() == info_hash
    &&& pm.spec_peer_id() == peer_id
    &&& pm.spec_max_connections() == config.max_connections
    &&& pm.spec_connect_timeout() == config.peer_connect_timeout
    &&& pm.spec_max_retries() == config.peer_max_retries
    &&& pm.spec_cooldown() == config.peer_cooldown
}

/// Whether a handle is that of a torrent just started with the pieces that were
/// verified: it is seeding if none is missing, and downloading otherwise. No peer
/// is known, and a private torrent stays out of the DHT.
pub open spec fn is_seeded<C>(
    h: TorrentHandle<C>,
    metainfo: Metainfo,
    have: Seq<bool>,
    config: SessionConfig,
    peer_id: PeerId,
) -> bool {
    &&& h.wf()
    &&& h.active
    &&& h.info_hash == metainfo.info_hash
    &&& h.metainfo == Some(metainfo)
    &&& h.have@ == have
    &&& h.dht_enabled == !metainfo.private
    &&& h.web_seeds@.len() == 0
    &&& h.status.name@ == metainfo.info.name@
    &&& h.status.bitfield@ == have
    &&& h.status == (TorrentStatus {
        info_hash: metainfo.info_hash,
        name: h.status.name,
        bitfield: h.status.bitfield,
        download_rate: 0,
        upload_rate: 0,
        num_peers: 0,
        num_seeds: 0,
        state: if all_true(have) {
            TorrentState::Seeding
        } else {
            TorrentState::Downloading
        },
        total_size: metainfo.info.length,
        total_downloaded: 0,
        total_uploaded: 0,
        num_pieces: metainfo.info.pieces@.len() as u32,
        pieces_completed: count_true(have) as u32,
        elapsed: 0,
        error_message: None,
        total_wasted: 0,
        super_seed_active: false,
        super_seed_remaining: 0,
    })
    &&& h.tracker_status.url@ == metainfo.announce@
    &&& never_announced(h.tracker_status)
    &&& without_peers(h.peer_mgr, metainfo.info_hash, config, peer_id)
}

/// Whether a loop is that of a torrent just started: no peer, nothing in flight,
/// nobody unchoked, nothing announced, and the settings of the configuration.
pub open spec fn is_fresh_loop<C>(
    h: TorrentHandle<C>,
    metainfo: Metainfo,
    l: SwarmLoop,
    config: SessionConfig,
    super_seed: bool,
    pex_enabled: bool,
    peer_id: PeerId,
    now: Nanos,
) -> bool {
    &&& l.wf()
    &&& l.metainfo.same_as(metainfo)
    &&& l.settings == (SwarmSettings {
        peer_id,
        listen_port: config.listen_port,
        announce_ip: config.announce_ip,
        announce_ipv6: config.announce_ipv6,
        piece_cache_size: config.piece_cache_size,
        corrupt_ban_threshold: config.corrupt_ban_threshold,
        announce_fallback_interval: config.announce_fallback_interval,
        pex_enabled,
        super_seed,
        started_at: now,
    })
    &&& l.have@ == h.have@
    &&& l.status.same_as(h.status)
    &&& l.tracker_status == h.tracker_status
    &&& l.announce == (AnnounceState {
        next_announce: None,
        has_announced: false,
        announced_completed: false,
    })
    &&& l.peers@ == Map::<PeerAddr, PeerView>::empty()
    &&& l.piece_pipeline.downloads() == Map::<u32, DownloadView>::empty()
    &&& !l.piece_pipeline.in_endgame()
    &&& l.piece_pipeline.spec_max_concurrent_pieces() == config.max_concurrent_pieces
    &&& l.piece_pipeline.spec_endgame_threshold() == config.endgame_threshold
    &&& l.piece_pipeline.spec_request_timeout() == config.request_timeout
    &&& l.uploads@ == Set::<PeerAddr>::empty()
    &&& l.uploads.spec_max_uploads() == config.max_uploads
    &&& l.counters == (Counters {
        total_downloaded: 0,
        total_uploaded: 0,
        total_wasted: 0,
        last_downloaded: 0,
        last_uploaded: 0,
    })
    &&& l.piece_cache@.len() == 0
    &&& l.super_seeding@ == Map::<u32, PeerAddr>::empty()
    &&& l.completed_files@.len() == 0
    &&& texts(l.web_seeds@) == texts(h.web_seeds@)
}

/// As many entries that are not set.
fn none_set(n: usize) -> (r: Vec<bool>)
    ensures
        r@ == Seq::new(n as nat, |i: int| false),
{
    let r: Vec<bool> = vec![false; n];
    assert(r@ =~= Seq::new(n as nat, |i: int| false));
    r
}

impl<C> TorrentHandle<C> {
    /// The peers are well-formed, and metadata that is known is that of this
    /// torrent, with an entry for each piece.
    pub open spec fn wf(&self) -> bool {
        &&& self.peer_mgr.wf()
        &&& self.metainfo matches Some(m) ==> self.have@.len() == m.info.pieces@.len()
            && m.info_hash == self.info_hash
    }

    /// Register a torrent without starting its loop. Nothing is downloaded yet
    /// and no peer is known.
    pub fn register(
        spec: TorrentSpec,
        web_seeds: Vec<String>,
        config: &SessionConfig,
        peer_id: PeerId,
    ) -> (h: TorrentHandle<C>)
        requires
            spec_piece_count(spec) <= u32::MAX,
        ensures
            is_registered(h, spec, *config, peer_id),
            h.web_seeds == web_seeds,
    {
        let url = match &spec {
            TorrentSpec::Metainfo(m) => m.announce.clone(),
            TorrentSpec::Magnet(_) => String::new(),
        };
        let (metainfo, info_hash, name, count, size) = match spec {
            TorrentSpec::Metainfo(m) => {
                let info_hash: InfoHash = m.info_hash;
                let count: usize = m.info.num_pieces();
                let size: u64 = m.info.total_size();
                let name = m.info.name.clone();
                (Some(m), info_hash, name, count, size)
            },
            TorrentSpec::Magnet(u) => {
                let info_hash: InfoHash = u.info_hash;
                let name = match u.display_name {
                    Some(n) => n,
                    None => hex_encode(info_hash.as_slice()),
                };
                let none: usize = 0;
                let size: u64 = 0;
                (None, info_hash, name, none, size)
            },
        };
        let peer_mgr = PeerManager::new(
            info_hash,
            peer_id,
            config.max_connections,
            config.peer_connect_timeout,
            config.peer_max_retries,
            config.peer_cooldown,
        );
        let status = TorrentStatus {
            info_hash,
            name,
            download_rate: 0,
            upload_rate: 0,
            num_peers: 0,
            num_seeds: 0,
            state: TorrentState::Registered,
            total_size: size,
            total_downloaded: 0,
            total_uploaded: 0,
            num_pieces: count as u32,
            pieces_completed: 0,
            bitfield: none_set(count),
            elapsed: 0,
            error_message: None,
            total_wasted: 0,
            super_seed_active: false,
            super_seed_remaining: 0,
        };
        TorrentHandle {
            info_hash,
            metainfo,
            peer_mgr,
            have: none_set(count),
            status,
            tracker_status: TrackerStatus {
                url,
                next_announce_in: None,
                announce_interval: 0,
                seeds_reported: 0,
                leechers_reported: 0,
                last_error: None,
            },
            web_seeds,
            dht_enabled: true,
            active: false,
        }
    }

    /// Take in the metadata of the torrent, which peers delivered. What is known
    /// already stays.
    pub fn learn_metadata(&mut self, metainfo: Metainfo)
        requires
            old(self).wf(),
            metainfo.info_hash == old(self).info_hash,
            metainfo.info.pieces@.len() <= u32::MAX,
        ensures
            final(self).wf(),
            old(self).metainfo is Some ==> *final(self) == *old(self),
            old(self).metainfo is None ==> {
                let n = metainfo.info.pieces@.len();
                &&& final(self).have@ == Seq::new(n, |i: int| false)
                &&& final(self).status.bitfield@ == final(self).have@
                &&& *final(self) == (TorrentHandle {
                    metainfo: Some(metainfo),
                    have: final(self).have,
                    status: TorrentStatus {
                        total_size: metainfo.info.length,
                        num_pieces: n as u32,
                        bitfield: final(self).status.bitfield,
                        ..old(self).status
                    },
                    ..*old(self)
                })
            },
    {
        if self.metainfo.is_some() {
            return ;
        }
        let count: usize = metainfo.info.num_pieces();
        self.status.total_size = metainfo.info.total_size();
        self.status.num_pieces = count as u32;
        self.status.bitfield = none_set(count);
        self.have = none_set(count);
        self.metainfo = Some(metainfo);
    }

    /// Start the loop of the torrent: it is downloading. The metadata must be
    /// known; the status learns of it.
    pub fn activate(&mut self, config: &SessionConfig, peer_id: PeerId, now: Nanos) -> (l: SwarmLoop)
        requires
            old(self).wf(),
            old(self).metainfo matches Some(m) && m.info.wf() && m.info.pieces@.len() <= u32::MAX,
        ensures
            final(self).wf(),
            ({
                let m = old(self).metainfo->Some_0;
                &&& *final(self) == (TorrentHandle {
                    active: true,
                    status: TorrentStatus {
                        state: TorrentState::Downloading,
                        total_size: m.info.length,
                        num_pieces: m.info.pieces@.len() as u32,
                        ..old(self).status
                    },
                    ..*old(self)
                })
                &&& is_fresh_loop(
                    *final(self),
                    m,
                    l,
                    *config,
                    false,
                    config.pex_enabled,
                    peer_id,
                    now,
                )
            }),
    {
        let metainfo = self.metainfo.as_ref().unwrap().duplicate();
        self.status.state = TorrentState::Downloading;
        self.status.total_size = metainfo.info.total_size();
        self.status.num_pieces = metainfo.info.num_pieces() as u32;
        self.spawn_swarm_loop(metainfo, config, false, config.pex_enabled, peer_id, now)
    }

    /// Start seeding with the pieces that were verified. The torrent is seeding
    /// if none is missing, and downloading otherwise.
    pub fn activate_seed(
        &mut self,
        metainfo: Metainfo,
        have: Vec<bool>,
        config: &SessionConfig,
        super_seed: bool,
        peer_id: PeerId,
        now: Nanos,
    ) -> (l: SwarmLoop)
        requires
            old(self).wf(),
            metainfo.info_hash == old(self).info_hash,
            metainfo.info.wf(),
            metainfo.info.pieces@.len() <= u32::MAX,
            have@.len() == metainfo.info.pieces@.len(),
        ensures
            final(self).wf(),
            final(self).active,
            final(self).dht_enabled == !metainfo.private,
            final(self).metainfo == Some(metainfo),
            final(self).have == have,
            final(self).info_hash == old(self).info_hash,
            final(self).peer_mgr == old(self).peer_mgr,
            final(self).web_seeds == old(self).web_seeds,
            final(self).tracker_status == old(self).tracker_status,
            final(self).status.bitfield@ == have@,
            final(self).status == (TorrentStatus {
                total_size: metainfo.info.length,
                num_pieces: metainfo.info.pieces@.len() as u32,
                pieces_completed: count_true(have@) as u32,
                bitfield: final(self).status.bitfield,
                state: if all_true(have@) {
                    TorrentState::Seeding
                } else {
                    TorrentState::Downloading
                },
                ..old(self).status
            }),
            is_fresh_loop(
                *final(self),
                metainfo,
                l,
                *config,
                super_seed,
                config.pex_enabled && !metainfo.private,
                peer_id,
                now,
            ),
    {
        let copy = metainfo.duplicate();
        self.status.total_size = metainfo.info.total_size();
        self.status.num_pieces = metainfo.info.num_pieces() as u32;
        self.status.pieces_completed = count_set(&have) as u32;
        self.status.bitfield = copy_bits(&have);
        self.status.state = if all_set(&have) {
            TorrentState::Seeding
        } else {
            TorrentState::Downloading
        };
        self.metainfo = Some(metainfo);
        self.have = have;
        self.dht_enabled = !copy.private;
        let pex_enabled = config.pex_enabled && !copy.private;
        self.spawn_swarm_loop(copy, config, super_seed, pex_enabled, peer_id, now)
    }

    fn spawn_swarm_loop(
        &mut self,
        metainfo: Metainfo,
        config: &SessionConfig,
        super_seed: bool,
        pex_enabled: bool,
        peer_id: PeerId,
        now: Nanos,
    ) -> (l: SwarmLoop)
        requires
            old(self).wf(),
            metainfo.info.wf(),
            old(self).have@.len() == metainfo.info.pieces@.len() <= u32::MAX,
        ensures
            final(self).wf(),
            *final(self) == (TorrentHandle { active: true, ..*old(self) }),
            is_fresh_loop(
                *final(self),
                metainfo,
                l,
                *config,
                super_seed,
                pex_enabled,
                peer_id,
                now,
            ),
    {
        let have = copy_bits(&self.have);
        let l = SwarmLoop {
            metainfo,
            settings: SwarmSettings {
                peer_id,
                listen_port: config.listen_port,
                announce_ip: config.announce_ip,
                announce_ipv6: config.announce_ipv6,
                piece_cache_size: config.piece_cache_size,
                corrupt_ban_threshold: config.corrupt_ban_threshold,
                announce_fallback_interval: config.announce_fallback_interval,
                pex_enabled,
                super_seed,
                started_at: now,
            },
            have,
            status: self.status.duplicate(),
            tracker_status: TrackerStatus {
                url: self.tracker_status.url.clone(),
                next_announce_in: self.tracker_status.next_announce_in,
                announce_interval: self.tracker_status.announce_interval,
                seeds_reported: self.tracker_status.seeds_reported,
                leechers_reported: self.tracker_status.leechers_reported,
                last_error: crate::text::copy_name(&self.tracker_status.last_error),
            },
            announce: AnnounceState::new(),
            peers: Peers::new(),
            piece_pipeline: PiecePipeline::new(
                config.max_concurrent_pieces,
                config.endgame_threshold,
                config.request_timeout,
            ),
            uploads: UploadManager::new(config.max_uploads),
            counters: Counters {
                total_downloaded: 0,
                total_uploaded: 0,
                total_wasted: 0,
                last_downloaded: 0,
                last_uploaded: 0,
            },
            piece_cache: Vec::new(),
            super_seeding: SuperSeedExtension::new(),
            completed_files: Vec::new(),
            web_seeds: copy_texts(&self.web_seeds),
        };
        self.active = true;
        proof {
            lemma_held_bound(l.have@, l.metainfo.info);
        }
        l
    }

    /// The command that pauses the loop; none if it does not run.
    pub fn pause(&self) -> (c: Option<TorrentCommand<C>>)
        ensures
            c == if self.active {
                Some(TorrentCommand::<C>::Pause)
            } else {
                None
            },
    {
        if self.active {
            Some(TorrentCommand::Pause)
        } else {
            None
        }
    }

    /// The command that resumes the loop; none if it does not run.
    pub fn resume(&self) -> (c: Option<TorrentCommand<C>>)
        ensures
            c == if self.active {
                Some(TorrentCommand::<C>::Resume)
            } else {
                None
            },
    {
        if self.active {
            Some(TorrentCommand::Resume)
        } else {
            None
        }
    }

    /// The command that ends the loop; none if it does not run. It does not run
    /// any more.
    pub fn cancel(&mut self) -> (c: Option<TorrentCommand<C>>)
        requires
            old(self).wf(),
        ensures
            final(self).wf(),
            c == if old(self).active {
                Some(TorrentCommand::<C>::Cancel)
            } else {
                None
            },
            *final(self) == (TorrentHandle { active: false, ..*old(self) }),
    {
        if self.active {
            self.active = false;
            Some(TorrentCommand::Cancel)
        } else {
            None
        }
    }

    /// The name of the torrent, or a placeholder before its metadata is known.
    pub fn title(&self) -> (r: String)
        ensures
            r@ == match self.metainfo {
                Some(m) => m.info.name@,
                None => "<unknown>"@,
            },
    {
        match &self.metainfo {
            Some(m) => m.info.name.clone(),
            None => "<unknown>".to_string(),
        }
    }
}

/// A torrent that was just registered holds nothing, knows nobody and does not
/// run. It goes by the hash and the name of the metadata, or of the magnet link,
/// which is shown by its hash if it has no name.
pub proof fn law_registered<C>(
    h: TorrentHandle<C>,
    spec: TorrentSpec,
    config: SessionConfig,
    peer_id: PeerId,
)
    requires
        is_registered(h, spec, config, peer_id),
    ensures
        !h.active,
        h.status.state == TorrentState::Registered,
        h.status.pieces_completed == 0,
        forall|i: int| 0 <= i < h.have@.len() ==> !#[trigger] h.have@[i],
        h.peer_mgr@.connections.dom() == Set::<PeerAddr>::empty(),
        h.peer_mgr@.pending.len() == 0,
        h.peer_mgr.spec_max_connections() == config.max_connections,
        h.peer_mgr.spec_max_retries() == config.peer_max_retries,
        h.peer_mgr.spec_cooldown() == config.peer_cooldown,
        h.tracker_status.next_announce_in is None,
        h.tracker_status.announce_interval == 0,
        h.tracker_status.seeds_reported == 0 && h.tracker_status.leechers_reported == 0,
        h.tracker_status.last_error is None,
        h.status.info_hash == h.info_hash,
        h.peer_mgr.spec_info_hash() == h.info_hash,
        spec matches TorrentSpec::Metainfo(m) ==> {
            &&& h.info_hash == m.info_hash
            &&& h.metainfo == Some(m)
            &&& h.have@.len() == m.info.pieces@.len()
            &&& h.status.total_size == m.info.length
            &&& h.status.name@ == m.info.name@
            &&& h.tracker_status.url@ == m.announce@
        },
        spec matches TorrentSpec::Magnet(u) ==> {
            &&& h.info_hash == u.info_hash
            &&& h.metainfo is None
            &&& h.have@.len() == 0
            &&& h.status.total_size == 0
            &&& h.tracker_status.url@.len() == 0
            &&& match u.display_name {
                Some(n) => h.status.name@ == n@,
                None => h.status.name@ == hex_of(u.info_hash@),
            }
        },
{
    assert(Map::<PeerAddr, C>::empty().dom() =~= Set::<PeerAddr>::empty());
}

/// A torrent that was started with verified pieces runs. It seeds exactly when no
/// piece is missing, counts the pieces that are there, and is looked up in the DHT
/// unless it is private.
pub proof fn law_seeded<C>(
    h: TorrentHandle<C>,
    metainfo: Metainfo,
    have: Seq<bool>,
    config: SessionConfig,
    peer_id: PeerId,
)
    requires
        is_seeded(h, metainfo, have, config, peer_id),
        have.len() <= u32::MAX,
    ensures
        h.active,
        h.have@ == have,
        h.status.bitfield@ == have,
        h.info_hash == metainfo.info_hash,
        h.status.state == TorrentState::Seeding <==> forall|i: int|
            0 <= i < have.len() ==> #[trigger] have[i],
        h.status.state == TorrentState::Downloading <==> exists|i: int|
            0 <= i < have.len() && !#[trigger] have[i],
        h.status.pieces_completed == count_true(have),
        h.status.pieces_completed <= have.len(),
        h.dht_enabled <==> !metainfo.private,
        h.peer_mgr@.pending.len() == 0,
        h.peer_mgr@.connections.dom() == Set::<PeerAddr>::empty(),
        h.status.name@ == metainfo.info.name@,
        h.status.total_size == metainfo.info.length,
        h.status.total_downloaded == 0 && h.status.total_uploaded == 0,
        h.tracker_status.url@ == metainfo.announce@,
        h.tracker_status.next_announce_in is None,
        h.tracker_status.last_error is None,
        h.peer_mgr.spec_max_connections() == config.max_connections,
        h.peer_mgr.spec_max_retries() == config.peer_max_retries,
        h.peer_mgr.spec_cooldown() == config.peer_cooldown,
        h.peer_mgr.spec_peer_id() == peer_id,
{
    crate::seqs::law_count_true(have, true);
    assert(Map::<PeerAddr, C>::empty().dom() =~= Set::<PeerAddr>::empty());
}

/// A loop that was just started tells the tracker at once that it started. It
/// holds the pieces of its torrent, has asked nobody for anything, lets nobody in,
/// and goes by the settings of the session.
pub proof fn law_fresh_loop<C>(
    h: TorrentHandle<C>,
    metainfo: Metainfo,
    l: SwarmLoop,
    config: SessionConfig,
    super_seed: bool,
    pex_enabled: bool,
    peer_id: PeerId,
    now: Nanos,
)
    requires
        is_fresh_loop(h, metainfo, l, config, super_seed, pex_enabled, peer_id, now),
    ensures
        due(l.announce, true, now) == Some(AnnounceEvent::Started),
        !l.announce.announced_completed,
        l.have@ == h.have@,
        l.status.state == h.status.state,
        l.peers@.dom() == Set::<PeerAddr>::empty(),
        l.piece_pipeline.downloads().dom() == Set::<u32>::empty(),
        !l.piece_pipeline.in_endgame(),
        l.uploads@.len() == 0,
        l.uploads.spec_max_uploads() == config.max_uploads,
        l.piece_pipeline.spec_max_concurrent_pieces() == config.max_concurrent_pieces,
        l.piece_pipeline.spec_endgame_threshold() == config.endgame_threshold,
        l.piece_pipeline.spec_request_timeout() == config.request_timeout,
        l.settings.listen_port == config.listen_port,
        l.settings.peer_id == peer_id,
        l.settings.announce_ip == config.announce_ip,
        l.settings.announce_ipv6 == config.announce_ipv6,
        l.settings.corrupt_ban_threshold == config.corrupt_ban_threshold,
        l.settings.piece_cache_size == config.piece_cache_size,
        l.settings.super_seed == super_seed,
        l.settings.pex_enabled == pex_enabled,
        l.settings.started_at == now,
        l.counters.total_uploaded == 0 && l.counters.total_downloaded == 0
            && l.counters.total_wasted == 0,
        texts(l.web_seeds@) == texts(h.web_seeds@),
{
    assert(l.peers@.dom() =~= Set::<PeerAddr>::empty());
    assert(l.piece_pipeline.downloads().dom() =~= Set::<u32>::empty());
}

} // verus!
