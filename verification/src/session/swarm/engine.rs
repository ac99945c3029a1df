//! The swarm loop: what each event does to the state of a torrent.

use super::piece_pipeline::PiecePipeline;
use super::super_seed::{after_select, served_peers, SuperSeedExtension};
use crate::addr::PeerAddr;
use crate::error::{Error, ErrorKind};
use crate::metainfo::{held_bytes, law_held_bytes_grow, Metainfo};
use crate::net::into_url::{parse_text, url_parse};
use crate::peer::message::PeerMessage;
use crate::peer::stream::{has_bit, has_extension, remote_speaks_ltep, speaks_ltep};
use crate::seqs::{all_set, all_true, copy_bits, count_set, count_true, count_where};
use crate::session::announce::{
    bytes_left, interval_secs, left, AnnounceEvent, AnnounceRequest, AnnounceResponse,
    AnnounceState,
};
use crate::session::config::{
    PeerStatus, TorrentEvent, TorrentState, TorrentStatus, TrackerStatus,
};
use crate::session::download::engine::{already_there, downloads_after_block, is_duplicate};
use crate::session::download::pieces::{
    cache_piece, cache_view, check_piece, hash_matches, set_piece, sized_for, strike_contributors,
    strikes, strikes_fit, struck_peers, with_cached, with_piece, PieceCache, PieceCheck,
};
use crate::session::download::tables::Peers;
use crate::session::download::types::{DownloadView, PeerInfo, PeerView};
use crate::session::peer_mgr::{PeerId, PeerManager};
use crate::session::swarm::pex::{UT_PEX, UT_PEX_ID};
use crate::session::upload_mgr::UploadManager;
use crate::text::{all_texts, copy_name, copy_texts, texts};
use crate::time::{elapsed, elapsed_at, Nanos, SECOND};
use vstd::prelude::*;

verus! {

/// Commands sent to a swarm loop. `C` is the handle of a connection.
pub enum TorrentCommand<C> {
    Pause,
    Resume,
    Cancel,
    /// An inbound peer connection.
    InboundPeer(PeerAddr, C),
}

/// What the caller has to do about a command.
pub enum CommandStep<C> {
    /// Nothing.
    Continue,
    /// Register the peer.
    Register(PeerAddr, C),
    /// Announce that the torrent stopped, stop the web seeds and leave the loop.
    Stop,
}

/// A timer of the loop.
#[derive(Clone, Copy, Debug, PartialEq, Eq, Structural)]
pub enum Tick {
    Status,
    Choke,
    Stale,
    Pex,
}

/// A task of the loop.
#[derive(Clone, Copy, Debug, PartialEq, Eq, Structural)]
pub enum LoopTask {
    UpdateStatus,
    AnnounceIfNeeded,
    SelectSuperSeedPiece,
    ConnectPending,
    ChokeRound,
    ExpireStale,
    BroadcastPex,
}

/// Byte counters of a swarm.
#[derive(Clone, Copy, Debug, PartialEq, Eq, Structural)]
pub struct Counters {
    /// Verified bytes downloaded, as of the last update.
    pub total_downloaded: u64,
    /// Bytes uploaded.
    pub total_uploaded: u64,
    /// Bytes that turned out corrupt or were there already, from peers and from
    /// web seeds.
    pub total_wasted: u64,
    /// Verified bytes downloaded, as of the last update.
    pub last_downloaded: u64,
    /// Bytes uploaded, as of the last update.
    pub last_uploaded: u64,
}

/// Settings of a swarm.
#[derive(Clone, Copy)]
pub struct SwarmSettings {
    pub peer_id: PeerId,
    pub listen_port: u16,
    pub announce_ip: Option<u32>,
    pub announce_ipv6: Option<u128>,
    pub piece_cache_size: usize,
    pub corrupt_ban_threshold: u32,
    pub announce_fallback_interval: Nanos,
    pub pex_enabled: bool,
    pub super_seed: bool,
    pub started_at: Nanos,
}

/// The state of the swarm of a single torrent.
pub struct SwarmLoop {
    pub metainfo: Metainfo,
    pub settings: SwarmSettings,
    /// Which pieces we hold.
    pub have: Vec<bool>,
    pub status: TorrentStatus,
    pub tracker_status: TrackerStatus,
    pub announce: AnnounceState,
    pub peers: Peers,
    pub piece_pipeline: PiecePipeline,
    pub uploads: UploadManager,
    pub counters: Counters,
    pub piece_cache: PieceCache,
    pub super_seeding: SuperSeedExtension,
    /// Paths of files that were reported complete.
    pub completed_files: Vec<Vec<String>>,
    /// Web seed URLs.
    pub web_seeds: Vec<String>,
}

/// What a status update asks of the caller.
pub struct StatusUpdate {
    /// Events to publish, in order.
    pub events: Vec<TorrentEvent>,
    /// The state of every peer.
    pub peer_statuses: Vec<PeerStatus>,
    /// Whether to announce that the download is complete.
    pub announce_completed: bool,
}

/// Whether a new connection is taken.
#[derive(Clone, Copy, Debug, PartialEq, Eq, Structural)]
pub enum Admission {
    /// The peer is connected already.
    Duplicate,
    /// There are no connections left.
    Full,
    /// Take it.
    Accept,
}

/// The state after a torrent is resumed: only a paused one changes.
pub open spec fn resumed(state: TorrentState) -> TorrentState {
    if state is Paused {
        TorrentState::Downloading
    } else {
        state
    }
}

/// The state after a command.
pub open spec fn commanded<C>(state: TorrentState, cmd: Option<TorrentCommand<C>>) -> TorrentState {
    match cmd {
        Some(TorrentCommand::Pause) => TorrentState::Paused,
        Some(TorrentCommand::Resume) => resumed(state),
        _ => state,
    }
}

/// What a command asks of the loop.
pub open spec fn step_of<C>(cmd: Option<TorrentCommand<C>>) -> CommandStep<C> {
    match cmd {
        Some(TorrentCommand::InboundPeer(addr, conn)) => CommandStep::Register(addr, conn),
        Some(TorrentCommand::Cancel) => CommandStep::Stop,
        None => CommandStep::Stop,
        _ => CommandStep::Continue,
    }
}

/// Whether a new connection is taken: not from a peer that is connected, and not
/// past the limit.
pub open spec fn admission_of(connected: bool, live: nat, max: u32) -> Admission {
    if connected {
        Admission::Duplicate
    } else if live >= max {
        Admission::Full
    } else {
        Admission::Accept
    }
}

/// The messages that a new peer gets first.
pub open spec fn opening_of(bitfield: Vec<u8>) -> Seq<PeerMessage> {
    if exists|i: int| 0 <= i < bitfield@.len() && #[trigger] bitfield@[i] != 0 {
        seq![PeerMessage::Bitfield(bitfield), PeerMessage::Interested]
    } else {
        seq![PeerMessage::Interested]
    }
}

/// The tasks of a tick, in order.
pub open spec fn tasks_of(
    tick: Tick,
    super_seed: bool,
    complete: bool,
    pex_enabled: bool,
) -> Seq<LoopTask> {
    match tick {
        Tick::Status => if super_seed && complete {
            seq![
                LoopTask::UpdateStatus,
                LoopTask::AnnounceIfNeeded,
                LoopTask::SelectSuperSeedPiece,
                LoopTask::ConnectPending,
            ]
        } else {
            seq![LoopTask::UpdateStatus, LoopTask::AnnounceIfNeeded, LoopTask::ConnectPending]
        },
        Tick::Choke => seq![LoopTask::ChokeRound],
        Tick::Stale => seq![LoopTask::ExpireStale],
        Tick::Pex => if pex_enabled {
            seq![LoopTask::BroadcastPex]
        } else {
            Seq::empty()
        },
    }
}

/// The tasks of a tick, in order.
pub fn plan_tick(tick: Tick, super_seed: bool, complete: bool, pex_enabled: bool) -> (r: Vec<
    LoopTask,
>)
    ensures
        r@ == tasks_of(tick, super_seed, complete, pex_enabled),
{
    let mut r: Vec<LoopTask> = Vec::new();
    match tick {
        Tick::Status => {
            r.push(LoopTask::UpdateStatus);
            r.push(LoopTask::AnnounceIfNeeded);
            if super_seed && complete {
                r.push(LoopTask::SelectSuperSeedPiece);
            }
            r.push(LoopTask::ConnectPending);
        },
        Tick::Choke => {
            r.push(LoopTask::ChokeRound);
        },
        Tick::Stale => {
            r.push(LoopTask::ExpireStale);
        },
        Tick::Pex => {
            if pex_enabled {
                r.push(LoopTask::BroadcastPex);
            }
        },
    }
    assert(r@ =~= tasks_of(tick, super_seed, complete, pex_enabled));
    r
}

/// Whether a peer holds every piece.
pub open spec fn is_seed(p: PeerView, num_pieces: nat) -> bool {
    p.bitfield.len() > 0 && p.bitfield.len() >= num_pieces && all_true(p.bitfield)
}

/// The number of pieces that a peer is known to hold.
pub open spec fn pieces_held(p: PeerView, num_pieces: nat) -> nat {
    if p.bitfield.len() >= num_pieces && num_pieces > 0 {
        count_true(p.bitfield)
    } else {
        0
    }
}

/// What a total gained since it was last reported.
pub open spec fn since(total: u64, reported: u64) -> int {
    if reported <= total {
        total - reported
    } else {
        0
    }
}

/// The peers after their totals were reported.
pub open spec fn reported_peers(peers: Map<PeerAddr, PeerView>) -> Map<PeerAddr, PeerView> {
    peers.map_values(
        |p: PeerView| PeerView {
            reported_up: p.uploaded_bytes,
            reported_down: p.downloaded_bytes,
            ..p
        },
    )
}

/// Whether a status describes a peer: its rates are the bytes since the last
/// status update.
pub open spec fn describes(s: PeerStatus, addr: PeerAddr, p: PeerView, num_pieces: nat) -> bool {
    &&& s.addr == addr
    &&& s.client_name == p.client_version
    &&& s.pieces_held == pieces_held(p, num_pieces)
    &&& s.download_rate == since(p.downloaded_bytes, p.reported_down)
    &&& s.upload_rate == since(p.uploaded_bytes, p.reported_up)
    &&& s.am_choked == p.am_choked
    &&& s.peer_interested == p.peer_interested
}

/// The counters after a status update that found `down` verified bytes.
pub open spec fn counted(c: Counters, down: u64) -> Counters {
    Counters {
        total_downloaded: down,
        last_downloaded: down,
        last_uploaded: c.total_uploaded,
        ..c
    }
}

/// The announce state after a status update, and whether the completion is
/// announced with it.
pub open spec fn completion(a: AnnounceState, complete: bool) -> (AnnounceState, bool) {
    (
        AnnounceState { announced_completed: a.announced_completed || complete, ..a },
        complete && !a.announced_completed,
    )
}

/// The events of a status update: completion is reported once.
pub open spec fn status_events(before: TorrentState, complete: bool) -> Seq<TorrentEvent> {
    if complete && before != TorrentState::Seeding {
        seq![
            TorrentEvent::StateChanged { from: before, to: TorrentState::Seeding },
            TorrentEvent::TorrentFinished,
        ]
    } else {
        Seq::empty()
    }
}

/// The end of a download is reported once: an update that follows one which
/// reported it reports nothing, unless a command changed the state in between.
pub proof fn law_finish_reported_once(before: TorrentState, complete: bool, later: bool)
    requires
        status_events(before, complete).contains(TorrentEvent::TorrentFinished),
    ensures
        complete,
        status_events(TorrentState::Seeding, later) == Seq::<TorrentEvent>::empty(),
{
}

/// The files that are complete now and were not reported before, in order.
pub open spec fn newly_completed(
    known: Seq<Seq<Seq<char>>>,
    finished: Seq<Seq<Seq<char>>>,
) -> Seq<Seq<Seq<char>>>
    decreases finished.len(),
{
    if finished.len() == 0 {
        Seq::empty()
    } else {
        let before = newly_completed(known, finished.drop_last());
        let f = finished.last();
        if known.contains(f) || before.contains(f) {
            before
        } else {
            before.push(f)
        }
    }
}

/// Whether an event reports the file complete.
pub open spec fn reports_file(e: TorrentEvent, f: Seq<Seq<char>>) -> bool {
    e matches TorrentEvent::FileCompleted { path } && texts(path@) == f
}

/// Whether two paths are the same.
fn same_path(a: &Vec<String>, b: &Vec<String>) -> (r: bool)
    ensures
        r == (texts(a@) == texts(b@)),
{
    if a.len() != b.len() {
        return false;
    }
    let mut i: usize = 0;
    while i < a.len()
        invariant
            i <= a@.len() == b@.len(),
            forall|j: int| 0 <= j < i ==> a@[j]@ == #[trigger] b@[j]@,
        decreases a@.len() - i,
    {
        if a[i] != b[i] {
            assert(texts(a@)[i as int] != texts(b@)[i as int]);
            return false;
        }
        i += 1;
    }
    assert(texts(a@) =~= texts(b@));
    true
}

fn contains_path(paths: &Vec<Vec<String>>, p: &Vec<String>) -> (r: bool)
    ensures
        r == all_texts(paths@).contains(texts(p@)),
{
    let mut i: usize = 0;
    while i < paths.len()
        invariant
            i <= paths@.len(),
            forall|j: int| 0 <= j < i ==> #[trigger] all_texts(paths@)[j] != texts(p@),
        decreases paths@.len() - i,
    {
        if same_path(&paths[i], p) {
            assert(all_texts(paths@)[i as int] == texts(p@));
            return true;
        }
        i += 1;
    }
    false
}

/// Decide whether to take a new connection.
pub fn screen_peer<C>(pm: &PeerManager<C>, addr: &PeerAddr) -> (r: Admission)
    requires
        pm.wf(),
    ensures
        r == if pm@.connections.contains_key(*addr) {
            Admission::Duplicate
        } else if pm@.connections.dom().len() >= pm.spec_max_connections() {
            Admission::Full
        } else {
            Admission::Accept
        },
        r == admission_of(
            pm@.connections.contains_key(*addr),
            pm@.connections.dom().len(),
            pm.spec_max_connections(),
        ),
{
    if pm.connection(addr).is_some() {
        Admission::Duplicate
    } else if pm.num_connections() as u64 >= pm.max_connections() as u64 {
        Admission::Full
    } else {
        Admission::Accept
    }
}

/// The messages that a new peer gets first: our pieces, unless we have none,
/// and that we are interested. `bitfield` holds our pieces, one bit each.
pub fn opening_messages(bitfield: Vec<u8>) -> (r: Vec<PeerMessage>)
    ensures
        r@ == if exists|i: int| 0 <= i < bitfield@.len() && #[trigger] bitfield@[i] != 0 {
            seq![PeerMessage::Bitfield(bitfield), PeerMessage::Interested]
        } else {
            seq![PeerMessage::Interested]
        },
        r@ == opening_of(bitfield),
{
    let mut any = false;
    let mut i: usize = 0;
    while i < bitfield.len()
        invariant
            i <= bitfield@.len(),
            any == exists|j: int| 0 <= j < i && #[trigger] bitfield@[j] != 0,
        decreases bitfield@.len() - i,
    {
        if bitfield[i] != 0 {
            any = true;
        }
        i += 1;
    }
    let mut r: Vec<PeerMessage> = Vec::new();
    if any {
        r.push(PeerMessage::Bitfield(bitfield));
    }
    r.push(PeerMessage::Interested);
    assert(r@ =~= if any {
        seq![PeerMessage::Bitfield(bitfield), PeerMessage::Interested]
    } else {
        seq![PeerMessage::Interested]
    });
    r
}

/// What registering a peer asks of the caller.
pub struct Registration {
    /// Whether to send our extension handshake.
    pub send_ltep: bool,
    /// The pieces that the peer may request while choked: tell it each.
    pub allowed_fast: Vec<PeerMessage>,
    /// Event to publish.
    pub event: TorrentEvent,
}

impl SwarmLoop {
    /// The tables are well formed, the pieces in flight belong to the torrent,
    /// and the counters of the last update lie behind the current ones.
    pub open spec fn wf(&self) -> bool {
        &&& self.metainfo.info.wf()
        &&& self.have@.len() == self.metainfo.info.pieces@.len()
        &&& self.have@.len() <= u32::MAX
        &&& self.peers.wf()
        &&& self.piece_pipeline.wf()
        &&& sized_for(self.piece_pipeline.downloads(), self.metainfo.info)
        &&& self.uploads.wf()
        &&& self.super_seeding.wf()
        &&& strikes_fit(self.peers@)
        &&& self.counters.last_uploaded <= self.counters.total_uploaded
        &&& self.counters.last_downloaded <= held_bytes(self.have@, self.metainfo.info)
    }

    /// Everything but the status, the counters and the announce state is the same.
    pub open spec fn same_swarm(&self, o: &SwarmLoop) -> bool {
        &&& self.same_but_peers(o)
        &&& self.peers == o.peers
    }

    /// Everything but the peers, the status, the counters and the announce state
    /// is the same.
    pub open spec fn same_but_peers(&self, o: &SwarmLoop) -> bool {
        &&& self.metainfo == o.metainfo
        &&& self.settings == o.settings
        &&& self.have == o.have
        &&& self.piece_pipeline == o.piece_pipeline
        &&& self.uploads == o.uploads
        &&& self.piece_cache == o.piece_cache
        &&& self.super_seeding == o.super_seeding
        &&& self.completed_files == o.completed_files
        &&& self.web_seeds == o.web_seeds
    }

    /// Start the loop: the torrent is downloading.
    pub fn start(&mut self)
        requires
            old(self).wf(),
        ensures
            final(self).wf(),
            final(self).same_swarm(old(self)),
            final(self).counters == old(self).counters,
            final(self).announce == old(self).announce,
            final(self).tracker_status == old(self).tracker_status,
            final(self).status == (TorrentStatus {
                state: TorrentState::Downloading,
                ..old(self).status
            }),
    {
        self.status.state = TorrentState::Downloading;
    }

    /// Act on a command; a closed channel counts as a cancel. To resume what is
    /// not paused changes nothing.
    pub fn on_command<C>(&mut self, cmd: Option<TorrentCommand<C>>) -> (step: CommandStep<C>)
        requires
            old(self).wf(),
        ensures
            final(self).wf(),
            final(self).same_swarm(old(self)),
            final(self).counters == old(self).counters,
            final(self).announce == old(self).announce,
            final(self).tracker_status == old(self).tracker_status,
            final(self).status == (TorrentStatus {
                state: match cmd {
                    Some(TorrentCommand::Pause) => TorrentState::Paused,
                    Some(TorrentCommand::Resume) => resumed(old(self).status.state),
                    _ => old(self).status.state,
                },
                ..old(self).status
            }),
            step == match cmd {
                Some(TorrentCommand::Pause) => CommandStep::Continue,
                Some(TorrentCommand::Resume) => CommandStep::Continue,
                Some(TorrentCommand::InboundPeer(addr, conn)) => CommandStep::Register(addr, conn),
                Some(TorrentCommand::Cancel) => CommandStep::Stop,
                None => CommandStep::Stop,
            },
            final(self).status.state == commanded(old(self).status.state, cmd),
            step == step_of(cmd),
    {
        match cmd {
            Some(TorrentCommand::Pause) => {
                self.status.state = TorrentState::Paused;
                CommandStep::Continue
            },
            Some(TorrentCommand::Resume) => {
                if self.status.state == TorrentState::Paused {
                    self.status.state = TorrentState::Downloading;
                }
                CommandStep::Continue
            },
            Some(TorrentCommand::InboundPeer(addr, conn)) => CommandStep::Register(addr, conn),
            Some(TorrentCommand::Cancel) => CommandStep::Stop,
            None => CommandStep::Stop,
        }
    }

    /// Whether request pipelines are to be filled after a peer event: while
    /// pieces are missing.
    pub fn should_fill(&self) -> (r: bool)
        ensures
            r == !all_true(self.have@),
    {
        !all_set(&self.have)
    }

    /// The tasks of a tick, in order.
    pub fn on_tick(&self, tick: Tick) -> (r: Vec<LoopTask>)
        ensures
            r@ == tasks_of(
                tick,
                self.settings.super_seed,
                all_true(self.have@),
                self.settings.pex_enabled,
            ),
    {
        plan_tick(
            tick,
            self.settings.super_seed,
            all_set(&self.have),
            self.settings.pex_enabled,
        )
    }

    /// The web seed URLs that can be parsed, in order.
    pub fn parsed_web_seeds(&self) -> (r: Vec<String>)
        ensures
            texts(r@) == parsed_urls(texts(self.web_seeds@)),
    {
        let mut r: Vec<String> = Vec::new();
        let mut i: usize = 0;
        assert(texts(self.web_seeds@).take(0) =~= Seq::<Seq<char>>::empty());
        assert(texts(r@) =~= Seq::<Seq<char>>::empty());
        while i < self.web_seeds.len()
            invariant
                i <= self.web_seeds@.len(),
                texts(r@) == parsed_urls(texts(self.web_seeds@).take(i as int)),
            decreases self.web_seeds@.len() - i,
        {
            proof {
                let t = texts(self.web_seeds@).take(i + 1);
                assert(t.drop_last() =~= texts(self.web_seeds@).take(i as int));
            }
            let ghost before = r@;
            if let Some(url) = parse_text(self.web_seeds[i].as_str()) {
                r.push(url);
                assert(texts(r@) =~= texts(before).push(url@));
            }
            i += 1;
        }
        assert(texts(self.web_seeds@).take(i as int) =~= texts(self.web_seeds@));
        r
    }

    /// Update the status: rates, progress, peers and lifecycle state. Rates are
    /// the bytes since the last update.
    pub fn update_status(&mut self, num_peers: usize, now: Nanos) -> (r: StatusUpdate)
        requires
            old(self).wf(),
        ensures
            final(self).wf(),
            final(self).same_but_peers(old(self)),
            final(self).peers.order() == old(self).peers.order(),
            final(self).peers@ == reported_peers(old(self).peers@),
            final(self).tracker_status == old(self).tracker_status,
            final(self).counters == counted(
                old(self).counters,
                held_bytes(old(self).have@, old(self).metainfo.info) as u64,
            ),
            (final(self).announce, r.announce_completed) == completion(
                old(self).announce,
                all_true(old(self).have@),
            ),
            ({
                let before = old(self).counters;
                let after = final(self).counters;
                &&& before.last_downloaded + final(self).status.download_rate
                    == after.last_downloaded
                &&& before.last_uploaded + final(self).status.upload_rate == after.last_uploaded
            }),
            ({
                let info = old(self).metainfo.info;
                let complete = all_true(old(self).have@);
                let down = held_bytes(old(self).have@, info) as u64;
                let s = final(self).status;
                let t = old(self).status;
                &&& final(self).counters == (Counters {
                    total_downloaded: down,
                    last_downloaded: down,
                    last_uploaded: old(self).counters.total_uploaded,
                    ..old(self).counters
                })
                &&& final(self).announce == (AnnounceState {
                    announced_completed: old(self).announce.announced_completed || complete,
                    ..old(self).announce
                })
                &&& s.info_hash == t.info_hash
                &&& s.name == t.name
                &&& s.total_size == t.total_size
                &&& s.error_message == t.error_message
                &&& s.download_rate == down - old(self).counters.last_downloaded
                &&& s.upload_rate == old(self).counters.total_uploaded - old(
                    self,
                ).counters.last_uploaded
                &&& s.num_peers == num_peers
                &&& s.num_seeds == count_where(
                    old(self).peers.order(),
                    seeds_among(old(self).peers@, info.spec_num_pieces()),
                )
                &&& s.state == if complete {
                    TorrentState::Seeding
                } else {
                    t.state
                }
                &&& s.total_downloaded == down
                &&& s.total_uploaded == old(self).counters.total_uploaded
                &&& s.num_pieces == old(self).have@.len()
                &&& s.pieces_completed == count_true(old(self).have@)
                &&& s.bitfield@ == old(self).have@
                &&& s.elapsed == elapsed_at(old(self).settings.started_at, now)
                &&& s.total_wasted == old(self).counters.total_wasted
                &&& s.super_seed_active == old(self).settings.super_seed
                &&& s.super_seed_remaining == old(self).super_seeding@.dom().len() as u32
                &&& r.events@ == status_events(t.state, complete)
                &&& r.announce_completed == (complete && !old(self).announce.announced_completed)
                &&& r.peer_statuses@.len() == old(self).peers.order().len()
                &&& forall|i: int|
                    0 <= i < r.peer_statuses@.len() ==> describes(
                        #[trigger] r.peer_statuses@[i],
                        old(self).peers.order()[i],
                        old(self).peers@[old(self).peers.order()[i]],
                        info.spec_num_pieces(),
                    )
            }),
    {
        let num_pieces: usize = self.metainfo.info.num_pieces();
        proof {
            crate::seqs::lemma_count_where(self.have@, |b: bool| b);
        }
        let pieces_completed: usize = count_set(&self.have);
        let complete = all_set(&self.have);
        let bitfield = copy_bits(&self.have);
        let down: u64 = self.metainfo.info.held_bytes(&self.have);
        self.status.download_rate = down - self.counters.last_downloaded;
        self.counters.last_downloaded = down;
        self.counters.total_downloaded = down;
        self.status.upload_rate = self.counters.total_uploaded - self.counters.last_uploaded;
        self.counters.last_uploaded = self.counters.total_uploaded;
        let (num_seeds, peer_statuses) = survey(&self.peers, num_pieces);
        mark_reported(&mut self.peers);
        let mut events: Vec<TorrentEvent> = Vec::new();
        let before = self.status.state;
        self.status.num_peers = num_peers;
        self.status.num_seeds = num_seeds;
        self.status.num_pieces = self.have.len() as u32;
        self.status.pieces_completed = pieces_completed as u32;
        self.status.total_downloaded = down;
        self.status.total_uploaded = self.counters.total_uploaded;
        self.status.bitfield = bitfield;
        self.status.elapsed = elapsed(self.settings.started_at, now);
        self.status.total_wasted = self.counters.total_wasted;
        self.status.super_seed_active = self.settings.super_seed;
        self.status.super_seed_remaining = self.super_seeding.remaining() as u32;
        if complete && before != TorrentState::Seeding {
            self.status.state = TorrentState::Seeding;
            events.push(TorrentEvent::StateChanged { from: before, to: TorrentState::Seeding });
            events.push(TorrentEvent::TorrentFinished);
        }
        assert(events@ =~= status_events(before, complete));
        let announce_completed = complete && !self.announce.announced_completed;
        if announce_completed {
            self.announce.announced_completed = true;
        }
        StatusUpdate { events, peer_statuses, announce_completed }
    }

    /// Put together an announce. `complete_bytes` is how much of the torrent is
    /// there.
    pub fn announce_request(&self, event: AnnounceEvent, complete_bytes: u64) -> (r:
        AnnounceRequest)
        ensures
            r == (AnnounceRequest {
                info_hash: self.metainfo.info_hash,
                peer_id: self.settings.peer_id,
                port: self.settings.listen_port,
                downloaded: self.counters.total_downloaded,
                uploaded: self.counters.total_uploaded,
                left: bytes_left(self.metainfo.info.length, complete_bytes),
                event,
                ip: self.settings.announce_ip,
                ipv6: self.settings.announce_ipv6,
            }),
    {
        AnnounceRequest {
            info_hash: self.metainfo.info_hash,
            peer_id: self.settings.peer_id,
            port: self.settings.listen_port,
            downloaded: self.counters.total_downloaded,
            uploaded: self.counters.total_uploaded,
            left: left(self.metainfo.info.length, complete_bytes),
            event,
            ip: self.settings.announce_ip,
            ipv6: self.settings.announce_ipv6,
        }
    }

    /// Take in the answer of the tracker: returns the event to publish and the
    /// peers to add.
    pub fn announce_succeeded(&mut self, resp: AnnounceResponse, now: Nanos) -> (r: (
        TorrentEvent,
        Vec<PeerAddr>,
    ))
        requires
            old(self).wf(),
            now + interval_secs(resp) * SECOND <= u64::MAX,
        ensures
            final(self).wf(),
            final(self).same_swarm(old(self)),
            final(self).counters == old(self).counters,
            final(self).status == old(self).status,
            final(self).announce == (AnnounceState {
                next_announce: Some((now + interval_secs(resp) * SECOND) as u64),
                ..old(self).announce
            }),
            final(self).tracker_status == (TrackerStatus {
                announce_interval: (interval_secs(resp) * SECOND) as u64,
                next_announce_in: Some((interval_secs(resp) * SECOND) as u64),
                seeds_reported: resp.complete,
                leechers_reported: resp.incomplete,
                last_error: None,
                ..old(self).tracker_status
            }),
            r.0 == (TorrentEvent::TrackerAnnounced { peers_found: resp.peers@.len() as usize }),
            r.1 == resp.peers,
    {
        let wait: Nanos = self.announce.succeeded(&resp, now);
        self.tracker_status.announce_interval = wait;
        self.tracker_status.next_announce_in = Some(wait);
        self.tracker_status.seeds_reported = resp.complete;
        self.tracker_status.leechers_reported = resp.incomplete;
        self.tracker_status.last_error = None;
        let peers_found: usize = resp.peers.len();
        (TorrentEvent::TrackerAnnounced { peers_found }, resp.peers)
    }

    /// Take note that an announce failed or timed out: returns the event to
    /// publish and the error of the announce.
    pub fn announce_failed(&mut self, message: String, now: Nanos) -> (r: (TorrentEvent, Error))
        requires
            old(self).wf(),
            now + old(self).settings.announce_fallback_interval <= u64::MAX,
        ensures
            final(self).wf(),
            final(self).same_swarm(old(self)),
            final(self).counters == old(self).counters,
            final(self).status == old(self).status,
            final(self).announce == (AnnounceState {
                next_announce: Some((now + old(self).settings.announce_fallback_interval) as u64),
                ..old(self).announce
            }),
            final(self).tracker_status == (TrackerStatus {
                next_announce_in: Some(old(self).settings.announce_fallback_interval),
                last_error: Some(message),
                ..old(self).tracker_status
            }),
            r.0 == (TorrentEvent::TrackerError { message }),
            r.1.spec_kind() == ErrorKind::TrackerRequestFailed,
    {
        let fallback: Nanos = self.settings.announce_fallback_interval;
        self.announce.failed(fallback, now);
        self.tracker_status.next_announce_in = Some(fallback);
        self.tracker_status.last_error = Some(message.clone());
        (TorrentEvent::TrackerError { message }, Error::new(ErrorKind::TrackerRequestFailed))
    }

    /// Everything but the pieces in flight and the counters is the same.
    pub open spec fn same_but_blocks(&self, o: &SwarmLoop) -> bool {
        &&& self.metainfo == o.metainfo
        &&& self.settings == o.settings
        &&& self.have == o.have
        &&& self.status == o.status
        &&& self.tracker_status == o.tracker_status
        &&& self.announce == o.announce
        &&& self.peers == o.peers
        &&& self.uploads == o.uploads
        &&& self.piece_cache == o.piece_cache
        &&& self.super_seeding == o.super_seeding
        &&& self.completed_files == o.completed_files
        &&& self.web_seeds == o.web_seeds
    }

    /// Take in a block: its bytes go into the piece in flight. Bytes that are
    /// there already count as wasted. Returns whether the piece is complete.
    pub fn block_received(&mut self, index: u32, begin: u32, data: &[u8]) -> (complete: bool)
        requires
            old(self).wf(),
            old(self).counters.total_wasted + data@.len() <= u64::MAX,
        ensures
            final(self).wf(),
            final(self).same_but_blocks(old(self)),
            final(self).piece_pipeline.same_limits(&old(self).piece_pipeline),
            final(self).piece_pipeline.in_endgame() == old(self).piece_pipeline.in_endgame(),
            ({
                let before = old(self).piece_pipeline.downloads();
                let after = downloads_after_block(before, index, begin, data@);
                &&& final(self).piece_pipeline.downloads() == after
                &&& complete == (after.contains_key(index) && all_true(after[index].received))
                &&& final(self).counters == (Counters {
                    total_wasted: (old(self).counters.total_wasted + if is_duplicate(
                        before,
                        old(self).have@,
                        index,
                        begin,
                    ) {
                        data@.len() as int
                    } else {
                        0
                    }) as u64,
                    ..old(self).counters
                })
            }),
    {
        let len: u64 = data.len() as u64;
        if already_there(self.piece_pipeline.active_downloads(), &self.have, index, begin) {
            self.counters.total_wasted = self.counters.total_wasted + len;
        }
        let complete = self.piece_pipeline.active_downloads_mut().mark_received(index, begin, data);
        assert(self.piece_pipeline.downloads() =~= downloads_after_block(
            old(self).piece_pipeline.downloads(),
            index,
            begin,
            data@,
        ));
        assert(sized_for(self.piece_pipeline.downloads(), self.metainfo.info));
        complete
    }

    /// Take note of bytes of a web seed that turned out corrupt or were there
    /// already.
    pub fn web_seed_wasted(&mut self, bytes: u64)
        requires
            old(self).wf(),
            old(self).counters.total_wasted + bytes <= u64::MAX,
        ensures
            final(self).wf(),
            final(self).same_but_blocks(old(self)),
            final(self).piece_pipeline == old(self).piece_pipeline,
            final(self).counters == (Counters {
                total_wasted: (old(self).counters.total_wasted + bytes) as u64,
                ..old(self).counters
            }),
    {
        self.counters.total_wasted = self.counters.total_wasted + bytes;
    }

    /// Check an assembled piece against its hash.
    pub fn check_piece(&self, index: u32) -> (r: PieceCheck)
        requires
            self.wf(),
        ensures
            match r {
                PieceCheck::Unknown => !self.piece_pipeline.downloads().contains_key(index),
                PieceCheck::Valid(data) => self.piece_pipeline.downloads().contains_key(index)
                    && hash_matches(self.piece_pipeline.downloads(), self.metainfo.info, index)
                    && data@ == self.piece_pipeline.downloads()[index].data,
                PieceCheck::Corrupt => self.piece_pipeline.downloads().contains_key(index)
                    && !hash_matches(self.piece_pipeline.downloads(), self.metainfo.info, index),
            },
    {
        check_piece(self.piece_pipeline.active_downloads(), &self.metainfo.info, index)
    }

    /// Take note that a valid piece was written to storage. `finished` lists
    /// the files that are complete with it, `num_files` is how many there are.
    /// Returns the events to publish, in order.
    pub fn piece_written(
        &mut self,
        index: u32,
        data: Vec<u8>,
        finished: Vec<Vec<String>>,
        num_files: usize,
    ) -> (events: Vec<TorrentEvent>)
        requires
            old(self).wf(),
            old(self).settings.piece_cache_size > 0,
        ensures
            final(self).wf(),
            final(self).metainfo == old(self).metainfo,
            final(self).settings == old(self).settings,
            final(self).status == old(self).status,
            final(self).tracker_status == old(self).tracker_status,
            final(self).announce == old(self).announce,
            final(self).peers == old(self).peers,
            final(self).uploads == old(self).uploads,
            final(self).counters == old(self).counters,
            final(self).super_seeding == old(self).super_seeding,
            final(self).web_seeds == old(self).web_seeds,
            final(self).have@ == with_piece(old(self).have@, index),
            cache_view(final(self).piece_cache@) == with_cached(
                cache_view(old(self).piece_cache@),
                index,
                data@,
                old(self).settings.piece_cache_size,
            ),
            final(self).piece_pipeline.downloads() == old(self).piece_pipeline.downloads().remove(
                index,
            ),
            final(self).piece_pipeline.same_limits(&old(self).piece_pipeline),
            final(self).piece_pipeline.in_endgame() == old(self).piece_pipeline.in_endgame(),
            ({
                let known = all_texts(old(self).completed_files@);
                let files = if known.len() < num_files {
                    newly_completed(known, all_texts(finished@))
                } else {
                    Seq::empty()
                };
                &&& all_texts(final(self).completed_files@) == known + files
                &&& events@.len() == 1 + files.len()
                &&& events@[0] == (TorrentEvent::PieceCompleted { index })
                &&& forall|i: int|
                    1 <= i < events@.len() ==> reports_file(#[trigger] events@[i], files[i - 1])
            }),
    {
        proof {
            if index < self.have@.len() {
                law_held_bytes_grow(self.have@, self.metainfo.info, index as int);
            }
        }
        set_piece(&mut self.have, index);
        let mut events: Vec<TorrentEvent> = Vec::new();
        events.push(TorrentEvent::PieceCompleted { index });
        let ghost known = all_texts(self.completed_files@);
        let ghost all = all_texts(finished@);
        if self.completed_files.len() < num_files {
            let mut i: usize = 0;
            proof {
                assert(all.take(0) =~= Seq::<Seq<Seq<char>>>::empty());
                assert(known + newly_completed(known, all.take(0)) =~= known);
            }
            while i < finished.len()
                invariant
                    i <= finished@.len(),
                    all == all_texts(finished@),
                    known == all_texts(old(self).completed_files@),
                    self.metainfo == old(self).metainfo,
                    self.settings == old(self).settings,
                    self.status == old(self).status,
                    self.tracker_status == old(self).tracker_status,
                    self.announce == old(self).announce,
                    self.peers == old(self).peers,
                    self.uploads == old(self).uploads,
                    self.counters == old(self).counters,
                    self.super_seeding == old(self).super_seeding,
                    self.web_seeds == old(self).web_seeds,
                    self.piece_cache == old(self).piece_cache,
                    self.piece_pipeline == old(self).piece_pipeline,
                    self.have@ == with_piece(old(self).have@, index),
                    all_texts(self.completed_files@) == known + newly_completed(
                        known,
                        all.take(i as int),
                    ),
                    events@.len() == 1 + newly_completed(known, all.take(i as int)).len(),
                    events@[0] == (TorrentEvent::PieceCompleted { index }),
                    forall|k: int|
                        1 <= k < events@.len() ==> reports_file(
                            #[trigger] events@[k],
                            newly_completed(known, all.take(i as int))[k - 1],
                        ),
                decreases finished@.len() - i,
            {
                let ghost files = newly_completed(known, all.take(i as int));
                let ghost f = texts(finished@[i as int]@);
                let ghost done = self.completed_files@;
                proof {
                    assert(all.take(i + 1).drop_last() =~= all.take(i as int));
                    assert((known + files).contains(f) <==> known.contains(f) || files.contains(f)) by {
                        lemma_add_contains(known, files, f);
                    }
                }
                if !contains_path(&self.completed_files, &finished[i]) {
                    let path = copy_texts(&finished[i]);
                    events.push(TorrentEvent::FileCompleted { path });
                    self.completed_files.push(copy_texts(&finished[i]));
                    proof {
                        assert(all_texts(self.completed_files@) =~= all_texts(done).push(f));
                        assert(known + files.push(f) =~= (known + files).push(f));
                        assert forall|k: int| 1 <= k < events@.len() implies reports_file(
                            #[trigger] events@[k],
                            newly_completed(known, all.take(i + 1))[k - 1],
                        ) by {}
                    }
                }
                i += 1;
            }
            assert(all.take(i as int) =~= all);
        } else {
            assert(known + Seq::<Seq<Seq<char>>>::empty() =~= known);
        }
        cache_piece(&mut self.piece_cache, index, data, self.settings.piece_cache_size);
        self.piece_pipeline.active_downloads_mut().remove(index);
        assert(sized_for(self.piece_pipeline.downloads(), self.metainfo.info));
        events
    }

    /// Drop a corrupt piece: its contributors are struck, and peers with
    /// repeated corrupt data are banned. Returns the banned peers and the event
    /// to publish.
    pub fn piece_corrupt(&mut self, index: u32) -> (r: (Vec<PeerAddr>, TorrentEvent))
        requires
            old(self).wf(),
            old(self).piece_pipeline.downloads().contains_key(index),
            old(self).counters.total_wasted + old(self).metainfo.info.spec_piece_len(index as int)
                <= u64::MAX,
        ensures
            final(self).wf(),
            final(self).metainfo == old(self).metainfo,
            final(self).settings == old(self).settings,
            final(self).have == old(self).have,
            final(self).status == old(self).status,
            final(self).tracker_status == old(self).tracker_status,
            final(self).announce == old(self).announce,
            final(self).uploads == old(self).uploads,
            final(self).piece_cache == old(self).piece_cache,
            final(self).super_seeding == old(self).super_seeding,
            final(self).completed_files == old(self).completed_files,
            final(self).web_seeds == old(self).web_seeds,
            final(self).counters == (Counters {
                total_wasted: (old(self).counters.total_wasted
                    + old(self).metainfo.info.spec_piece_len(index as int)) as u64,
                ..old(self).counters
            }),
            final(self).peers@ == struck_peers(
                old(self).peers@,
                old(self).piece_pipeline.downloads()[index],
                old(self).settings.corrupt_ban_threshold,
            ),
            final(self).piece_pipeline.downloads() == old(self).piece_pipeline.downloads().remove(
                index,
            ),
            final(self).piece_pipeline.same_limits(&old(self).piece_pipeline),
            final(self).piece_pipeline.in_endgame() == old(self).piece_pipeline.in_endgame(),
            r.0@ == old(self).peers.order().filter(
                banned_by(
                    old(self).peers@,
                    old(self).piece_pipeline.downloads()[index],
                    old(self).settings.corrupt_ban_threshold,
                ),
            ),
            r.1 == (TorrentEvent::PieceFailed { index }),
    {
        let wasted: u64 = self.metainfo.info.piece_len_for_index(index);
        self.counters.total_wasted = self.counters.total_wasted + wasted;
        let threshold: u32 = self.settings.corrupt_ban_threshold;
        let ghost d = self.piece_pipeline.downloads()[index];
        let banned = strike_contributors(
            &mut self.peers,
            self.piece_pipeline.active_downloads(),
            index,
            threshold,
        );
        proof {
            assert(banned_by(old(self).peers@, d, threshold) =~= (|a: PeerAddr|
                strikes(old(self).peers@[a], d, a) >= threshold));
        }
        self.piece_pipeline.active_downloads_mut().remove(index);
        assert(sized_for(self.piece_pipeline.downloads(), self.metainfo.info));
        (banned, TorrentEvent::PieceFailed { index })
    }

    /// Register a newly connected peer that was admitted.
    ///
    /// `reserved` are the extension bits of its handshake, `fast_set` the
    /// pieces that it may request while choked, computed from its address.
    pub fn register_new_peer(
        &mut self,
        addr: PeerAddr,
        reserved: &[u8; 8],
        fast_set: Vec<u32>,
    ) -> (r: Registration)
        requires
            old(self).wf(),
        ensures
            final(self).wf(),
            final(self).metainfo == old(self).metainfo,
            final(self).settings == old(self).settings,
            final(self).have == old(self).have,
            final(self).status == old(self).status,
            final(self).tracker_status == old(self).tracker_status,
            final(self).announce == old(self).announce,
            final(self).piece_pipeline == old(self).piece_pipeline,
            final(self).uploads == old(self).uploads,
            final(self).counters == old(self).counters,
            final(self).piece_cache == old(self).piece_cache,
            final(self).super_seeding == old(self).super_seeding,
            final(self).completed_files == old(self).completed_files,
            final(self).web_seeds == old(self).web_seeds,
            ({
                let fast = has_bit(reserved@, 44);
                let p = final(self).peers@[addr];
                &&& final(self).peers@ == old(self).peers@.insert(addr, p)
                &&& p == (PeerView {
                    our_extension_ids: p.our_extension_ids,
                    our_allowed_fast: if fast {
                        fast_set@
                    } else {
                        Seq::empty()
                    },
                    ..PeerView::fresh()
                })
                &&& if old(self).settings.pex_enabled {
                    p.our_extension_ids.len() == 1 && p.our_extension_ids[0].0@ == UT_PEX@
                        && p.our_extension_ids[0].1 == UT_PEX_ID
                } else {
                    p.our_extension_ids.len() == 0
                }
                &&& r.send_ltep == (old(self).settings.pex_enabled && speaks_ltep(reserved@))
                &&& r.allowed_fast@ == if fast {
                    fast_set@.map_values(|i: u32| PeerMessage::AllowedFast(i))
                } else {
                    Seq::empty()
                }
                &&& r.event == (TorrentEvent::PeerConnected { addr, client_name: None })
            }),
    {
        let mut pi = PeerInfo::new();
        if self.settings.pex_enabled {
            pi.our_extension_ids.push((UT_PEX.to_string(), UT_PEX_ID));
        }
        let send_ltep = self.settings.pex_enabled && remote_speaks_ltep(reserved);
        let mut allowed_fast: Vec<PeerMessage> = Vec::new();
        let ghost told = |i: u32| PeerMessage::AllowedFast(i);
        if has_extension(reserved, 44) {
            let mut k: usize = 0;
            while k < fast_set.len()
                invariant
                    k <= fast_set@.len(),
                    told == (|i: u32| PeerMessage::AllowedFast(i)),
                    allowed_fast@ == fast_set@.take(k as int).map_values(told),
                decreases fast_set@.len() - k,
            {
                allowed_fast.push(PeerMessage::AllowedFast(fast_set[k]));
                k += 1;
                assert(allowed_fast@ =~= fast_set@.take(k as int).map_values(told));
            }
            assert(fast_set@.take(k as int) =~= fast_set@);
            pi.our_allowed_fast = fast_set;
        }
        let ghost v = pi@;
        self.peers.insert(addr, pi);
        assert(v =~= (PeerView {
            our_extension_ids: v.our_extension_ids,
            our_allowed_fast: v.our_allowed_fast,
            ..PeerView::fresh()
        }));
        assert(self.peers@ =~= old(self).peers@.insert(addr, self.peers@[addr]));
        Registration {
            send_ltep,
            allowed_fast,
            event: TorrentEvent::PeerConnected { addr, client_name: None },
        }
    }

    /// Select a piece for super seeding, if it is on.
    pub fn super_seed_select_piece(&mut self)
        requires
            old(self).wf(),
        ensures
            final(self).wf(),
            final(self).metainfo == old(self).metainfo,
            final(self).settings == old(self).settings,
            final(self).have == old(self).have,
            final(self).status == old(self).status,
            final(self).tracker_status == old(self).tracker_status,
            final(self).announce == old(self).announce,
            final(self).peers == old(self).peers,
            final(self).piece_pipeline == old(self).piece_pipeline,
            final(self).uploads == old(self).uploads,
            final(self).counters == old(self).counters,
            final(self).piece_cache == old(self).piece_cache,
            final(self).completed_files == old(self).completed_files,
            final(self).web_seeds == old(self).web_seeds,
            final(self).super_seeding@ == if old(self).settings.super_seed {
                after_select(
                    old(self).super_seeding@,
                    old(self).have@,
                    old(self).peers@,
                    old(self).peers.order(),
                    old(self).peers.order().filter(
                        served_peers(old(self).peers@, old(self).uploads@),
                    ),
                )
            } else {
                old(self).super_seeding@
            },
    {
        if self.settings.super_seed {
            self.super_seeding.select_piece(&self.peers, &self.uploads, &self.have);
        }
    }
}

/// Whether a peer has too many strikes after a corrupt piece.
pub open spec fn banned_by(
    peers: Map<PeerAddr, PeerView>,
    d: DownloadView,
    threshold: u32,
) -> spec_fn(PeerAddr) -> bool {
    |a: PeerAddr| strikes(peers[a], d, a) >= threshold
}

/// Whether a peer holds every piece.
pub open spec fn seeds_among(
    peers: Map<PeerAddr, PeerView>,
    num_pieces: nat,
) -> spec_fn(PeerAddr) -> bool {
    |a: PeerAddr| is_seed(peers[a], num_pieces)
}

/// The URLs among these strings, in normal form.
pub open spec fn parsed_urls(s: Seq<Seq<char>>) -> Seq<Seq<char>>
    decreases s.len(),
{
    if s.len() == 0 {
        Seq::empty()
    } else {
        let before = parsed_urls(s.drop_last());
        match url_parse(s.last()) {
            Some(u) => before.push(u),
            None => before,
        }
    }
}

/// Counts the seeds and describes every peer.
pub fn survey(peers: &Peers, num_pieces: usize) -> (r: (usize, Vec<PeerStatus>))
    requires
        peers.wf(),
    ensures
        r.0 == count_where(peers.order(), seeds_among(peers@, num_pieces as nat)),
        r.1@.len() == peers.order().len(),
        forall|i: int|
            0 <= i < r.1@.len() ==> describes(
                #[trigger] r.1@[i],
                peers.order()[i],
                peers@[peers.order()[i]],
                num_pieces as nat,
            ),
{
    let addrs = peers.addrs();
    let ghost order = peers.order();
    let ghost f = seeds_among(peers@, num_pieces as nat);
    let mut seeds: usize = 0;
    let mut list: Vec<PeerStatus> = Vec::new();
    proof {
        peers.lemma_wf();
        assert(order.take(0) =~= Seq::<PeerAddr>::empty());
    }
    let mut k: usize = 0;
    while k < addrs.len()
        invariant
            k <= addrs@.len(),
            peers.wf(),
            addrs@ == order,
            order == peers.order(),
            f == seeds_among(peers@, num_pieces as nat),
            forall|a: PeerAddr| #[trigger] peers@.contains_key(a) <==> order.contains(a),
            seeds <= k,
            seeds == count_where(order.take(k as int), f),
            list@.len() == k,
            forall|i: int|
                0 <= i < k ==> describes(
                    #[trigger] list@[i],
                    order[i],
                    peers@[order[i]],
                    num_pieces as nat,
                ),
        decreases addrs@.len() - k,
    {
        let addr = addrs[k];
        proof {
            assert(order.take(k + 1).drop_last() =~= order.take(k as int));
        }
        if let Some(p) = peers.get(&addr) {
            if p.bitfield.len() > 0 && p.bitfield.len() >= num_pieces && all_set(&p.bitfield) {
                seeds += 1;
            }
            let held: usize = if p.bitfield.len() >= num_pieces && num_pieces > 0 {
                count_set(&p.bitfield)
            } else {
                0
            };
            list.push(
                PeerStatus {
                    addr,
                    client_name: copy_name(&p.client_version),
                    pieces_held: held,
                    download_rate: gained(p.downloaded_bytes, p.reported_down),
                    upload_rate: gained(p.uploaded_bytes, p.reported_up),
                    am_choked: p.am_choked,
                    peer_interested: p.peer_interested,
                },
            );
        }
        k += 1;
    }
    assert(order.take(k as int) =~= order);
    (seeds, list)
}

/// What a total gained since it was last reported.
fn gained(total: u64, reported: u64) -> (n: u64)
    ensures
        n == since(total, reported),
{
    if reported <= total {
        total - reported
    } else {
        0
    }
}

/// Take note that the totals of all peers were reported.
fn mark_reported(peers: &mut Peers)
    requires
        old(peers).wf(),
    ensures
        final(peers).wf(),
        final(peers).order() == old(peers).order(),
        final(peers)@ == reported_peers(old(peers)@),
{
    let addrs = peers.addrs();
    let ghost ps = peers@;
    let ghost order = peers.order();
    let ghost target = reported_peers(ps);
    proof {
        peers.lemma_wf();
    }
    let mut k: usize = 0;
    while k < addrs.len()
        invariant
            k <= addrs@.len(),
            addrs@ == order,
            order == old(peers).order(),
            order.no_duplicates(),
            peers.wf(),
            peers.order() == order,
            target == reported_peers(ps),
            forall|a: PeerAddr| #[trigger] ps.contains_key(a) <==> order.contains(a),
            forall|a: PeerAddr| #[trigger] peers@.contains_key(a) <==> ps.contains_key(a),
            forall|m: int| 0 <= m < k ==> peers@[#[trigger] order[m]] == target[order[m]],
            forall|m: int| k <= m < order.len() ==> peers@[#[trigger] order[m]] == ps[order[m]],
        decreases addrs@.len() - k,
    {
        let addr = addrs[k];
        let ghost before = peers@;
        if let Some(p) = peers.get_mut(&addr) {
            p.reported_up = p.uploaded_bytes;
            p.reported_down = p.downloaded_bytes;
        }
        proof {
            assert(order.contains(addr));
            assert(peers@[addr] =~= target[addr]);
            assert forall|m: int| 0 <= m < order.len() && m != k implies peers@[#[trigger] order[m]]
                == before[order[m]] by {}
        }
        k += 1;
    }
    proof {
        assert forall|a: PeerAddr| #[trigger] ps.contains_key(a) implies peers@[a] == target[a] by {
            let m = choose|m: int| 0 <= m < order.len() && order[m] == a;
            assert(peers@[order[m]] == peers@[a]);
        }
        assert(peers@ =~= target);
    }
}

proof fn lemma_add_contains<T>(a: Seq<T>, b: Seq<T>, x: T)
    ensures
        (a + b).contains(x) <==> a.contains(x) || b.contains(x),
{
    let c = a + b;
    if a.contains(x) {
        let i = choose|i: int| 0 <= i < a.len() && a[i] == x;
        assert(c[i] == x);
    }
    if b.contains(x) {
        let i = choose|i: int| 0 <= i < b.len() && b[i] == x;
        assert(c[a.len() + i] == x);
    }
    if c.contains(x) {
        let i = choose|i: int| 0 <= i < c.len() && c[i] == x;
        if i >= a.len() {
            assert(b[i - a.len()] == x);
        }
    }
}

/// A file is reported complete at most once: what is new was not known, and is
/// listed once.
pub proof fn law_files_once(known: Seq<Seq<Seq<char>>>, finished: Seq<Seq<Seq<char>>>)
    ensures
        ({
            let n = newly_completed(known, finished);
            &&& n.no_duplicates()
            &&& forall|i: int| 0 <= i < n.len() ==> !known.contains(#[trigger] n[i])
            &&& forall|i: int|
                0 <= i < finished.len() ==> known.contains(#[trigger] finished[i]) || n.contains(
                    finished[i],
                )
        }),
    decreases finished.len(),
{
    if finished.len() > 0 {
        let rest = finished.drop_last();
        let before = newly_completed(known, rest);
        let n = newly_completed(known, finished);
        law_files_once(known, rest);
        assert forall|i: int| 0 <= i < finished.len() implies known.contains(#[trigger] finished[i])
            || n.contains(finished[i]) by {
            if i < rest.len() {
                assert(rest[i] == finished[i]);
                if before.contains(finished[i]) {
                    let j = choose|j: int| 0 <= j < before.len() && before[j] == finished[i];
                    assert(n[j] == finished[i]);
                }
            } else if n.len() > before.len() {
                assert(n[before.len() as int] == finished[i]);
            }
        }
    }
}

/// Resuming takes a torrent out of its pause and leaves every other state alone.
pub proof fn law_resumed(state: TorrentState)
    ensures
        state == TorrentState::Paused ==> resumed(state) == TorrentState::Downloading,
        state != TorrentState::Paused ==> resumed(state) == state,
        resumed(resumed(state)) == resumed(state),
{
}

/// What a tick does: a status tick updates the status first, then announces, and
/// connects last; in between a piece is selected for super seeding, if that is on
/// and every piece is there. The other ticks do one thing each, and peers are
/// exchanged only where that is enabled.
pub proof fn law_tasks(tick: Tick, super_seed: bool, complete: bool, pex_enabled: bool)
    ensures
        ({
            let tasks = tasks_of(tick, super_seed, complete, pex_enabled);
            &&& tick is Status ==> {
                &&& tasks.len() == if super_seed && complete {
                    4int
                } else {
                    3int
                }
                &&& tasks[0] == LoopTask::UpdateStatus
                &&& tasks[1] == LoopTask::AnnounceIfNeeded
                &&& tasks[tasks.len() - 1] == LoopTask::ConnectPending
                &&& tasks.len() == 4 ==> tasks[2] == LoopTask::SelectSuperSeedPiece
            }
            &&& tick is Choke ==> tasks == seq![LoopTask::ChokeRound]
            &&& tick is Stale ==> tasks == seq![LoopTask::ExpireStale]
            &&& tick is Pex && pex_enabled ==> tasks == seq![LoopTask::BroadcastPex]
            &&& tick is Pex && !pex_enabled ==> tasks.len() == 0
        }),
{
}

/// A peer is a seed when it told us of every piece that it holds it; one that told
/// us nothing is none. A seed is known to hold all pieces, and a peer whose
/// bitfield is too short to hold none.
pub proof fn law_seed(p: PeerView, num_pieces: nat)
    ensures
        is_seed(p, num_pieces) <==> {
            &&& p.bitfield.len() > 0
            &&& p.bitfield.len() >= num_pieces
            &&& forall|i: int| 0 <= i < p.bitfield.len() ==> #[trigger] p.bitfield[i]
        },
        p.bitfield.len() == num_pieces ==> (is_seed(p, num_pieces) <==> num_pieces > 0
            && pieces_held(p, num_pieces) == num_pieces),
        p.bitfield.len() < num_pieces || num_pieces == 0 ==> pieces_held(p, num_pieces) == 0,
        p.bitfield.len() >= num_pieces && num_pieces > 0 ==> pieces_held(p, num_pieces)
            == count_true(p.bitfield),
{
    crate::seqs::law_count_true(p.bitfield, true);
}

/// One more peer adds one seed if it holds every piece.
pub proof fn law_seeds_counted(
    peers: Map<PeerAddr, PeerView>,
    order: Seq<PeerAddr>,
    a: PeerAddr,
    num_pieces: nat,
)
    ensures
        count_where(order.push(a), seeds_among(peers, num_pieces)) == count_where(
            order,
            seeds_among(peers, num_pieces),
        ) + if is_seed(peers[a], num_pieces) {
            1nat
        } else {
            0nat
        },
{
    assert(order.push(a).drop_last() =~= order);
}

/// A status tells of a peer what went each way since the last report, under its
/// own address; right after a report there is nothing to tell, and what is told
/// later is what came in between.
pub proof fn law_rates(
    s: PeerStatus,
    peers: Map<PeerAddr, PeerView>,
    addr: PeerAddr,
    num_pieces: nat,
    down: u64,
    up: u64,
)
    requires
        peers.contains_key(addr),
        describes(s, addr, peers[addr], num_pieces),
    ensures
        s.addr == addr,
        s.am_choked == peers[addr].am_choked,
        s.peer_interested == peers[addr].peer_interested,
        s.client_name == peers[addr].client_version,
        peers[addr].reported_down <= peers[addr].downloaded_bytes ==> s.download_rate
            + peers[addr].reported_down == peers[addr].downloaded_bytes,
        peers[addr].reported_up <= peers[addr].uploaded_bytes ==> s.upload_rate
            + peers[addr].reported_up == peers[addr].uploaded_bytes,
        ({
            let p = peers[addr];
            let q = reported_peers(peers)[addr];
            &&& reported_peers(peers).dom() == peers.dom()
            &&& since(q.downloaded_bytes, q.reported_down) == 0
            &&& since(q.uploaded_bytes, q.reported_up) == 0
            &&& down >= p.downloaded_bytes ==> since(down, q.reported_down) == down
                - p.downloaded_bytes
            &&& up >= p.uploaded_bytes ==> since(up, q.reported_up) == up - p.uploaded_bytes
            &&& q == (PeerView { reported_up: q.reported_up, reported_down: q.reported_down, ..p })
        }),
{
    assert(reported_peers(peers).dom() =~= peers.dom());
}

/// When the last piece is there, both the change of state and the end of the
/// download are reported, unless the torrent is seeding already; while a piece is
/// missing nothing is.
pub proof fn law_status_events(before: TorrentState, complete: bool)
    ensures
        ({
            let events = status_events(before, complete);
            &&& complete && before != TorrentState::Seeding ==> {
                &&& events.len() == 2
                &&& events[0] == (TorrentEvent::StateChanged {
                    from: before,
                    to: TorrentState::Seeding,
                })
                &&& events[1] == TorrentEvent::TorrentFinished
            }
            &&& !complete || before == TorrentState::Seeding ==> events.len() == 0
        }),
{
}

/// Only files that are complete are reported.
pub proof fn law_files_complete(
    known: Seq<Seq<Seq<char>>>,
    finished: Seq<Seq<Seq<char>>>,
    f: Seq<Seq<char>>,
)
    ensures
        newly_completed(known, finished).contains(f) <==> finished.contains(f)
            && !known.contains(f),
    decreases finished.len(),
{
    if finished.len() > 0 {
        let rest = finished.drop_last();
        let before = newly_completed(known, rest);
        law_files_complete(known, rest, f);
        crate::seqs::lemma_contains_last(finished, f);
        crate::seqs::lemma_push_contains(before, finished.last(), f);
        law_files_complete(known, rest, finished.last());
    }
}

/// A peer is banned for a corrupt piece when its strikes, with one more if a block
/// of the piece was asked of it, reach the threshold.
pub proof fn law_banned(
    peers: Map<PeerAddr, PeerView>,
    d: DownloadView,
    threshold: u32,
    a: PeerAddr,
)
    ensures
        (exists|b: int| 0 <= b < d.requested.len() && #[trigger] d.requested[b] == Some(a)) ==> (
        banned_by(peers, d, threshold)(a) <==> peers[a].corrupt_blocks + 1 >= threshold),
        (forall|b: int| 0 <= b < d.requested.len() ==> #[trigger] d.requested[b] != Some(a)) ==> (
        banned_by(peers, d, threshold)(a) <==> peers[a].corrupt_blocks >= threshold),
{
    if d.requested.contains(Some(a)) {
        let b = choose|b: int| 0 <= b < d.requested.len() && d.requested[b] == Some(a);
        assert(d.requested[b] == Some(a));
    }
}

/// Of each string that is a URL there is one, in normal form and in order; the
/// others are left out.
pub proof fn law_parsed_urls(s: Seq<Seq<char>>, x: Seq<char>)
    ensures
        parsed_urls(Seq::empty()).len() == 0,
        url_parse(x) matches Some(u) ==> parsed_urls(s.push(x)) == parsed_urls(s).push(u),
        url_parse(x) is None ==> parsed_urls(s.push(x)) == parsed_urls(s),
{
    assert(s.push(x).drop_last() =~= s);
}

/// An event reports a file complete if it says so of the very path.
pub proof fn law_reports_file(path: Vec<String>, e: TorrentEvent, f: Seq<Seq<char>>)
    ensures
        reports_file(TorrentEvent::FileCompleted { path }, f) <==> texts(path@) == f,
        !(e is FileCompleted) ==> !reports_file(e, f),
{
}

/// What stays the same of a swarm under commands, announces and status updates: the
/// torrent and its settings, the pieces held and in flight, the slots, the cache,
/// super seeding, the files reported and the web seeds; and the peers, unless they
/// are said to change.
pub proof fn law_same_swarm(l: SwarmLoop, o: SwarmLoop)
    ensures
        l.same_but_peers(&o) <==> {
            &&& l.metainfo == o.metainfo
            &&& l.settings == o.settings
            &&& l.have == o.have
            &&& l.piece_pipeline == o.piece_pipeline
            &&& l.uploads == o.uploads
            &&& l.piece_cache == o.piece_cache
            &&& l.super_seeding == o.super_seeding
            &&& l.completed_files == o.completed_files
            &&& l.web_seeds == o.web_seeds
        },
        l.same_swarm(&o) <==> l.same_but_peers(&o) && l.peers == o.peers,
{
}

/// What stays the same of a swarm when a block arrives: everything but the pieces
/// in flight and the counters.
pub proof fn law_same_but_blocks(l: SwarmLoop, o: SwarmLoop)
    ensures
        l.same_but_blocks(&o) <==> l == (SwarmLoop {
            piece_pipeline: l.piece_pipeline,
            counters: l.counters,
            ..o
        }),
{
}

/// A paused torrent is paused whatever it was, and goes on when it is resumed; a
/// torrent that is not paused is left alone by that. Cancelling stops the loop, as a
/// closed channel does, and a peer that comes in is registered as it is.
pub proof fn law_command<C>(state: TorrentState, addr: PeerAddr, conn: C)
    ensures
        commanded(state, Some(TorrentCommand::<C>::Pause)) == TorrentState::Paused,
        commanded(
            commanded(state, Some(TorrentCommand::<C>::Pause)),
            Some(TorrentCommand::<C>::Resume),
        ) == TorrentState::Downloading,
        state != TorrentState::Paused ==> commanded(state, Some(TorrentCommand::<C>::Resume))
            == state,
        commanded(state, Some(TorrentCommand::<C>::Cancel)) == state,
        commanded(state, Some(TorrentCommand::InboundPeer(addr, conn))) == state,
        commanded(state, None::<TorrentCommand<C>>) == state,
        step_of(Some(TorrentCommand::<C>::Cancel)) == CommandStep::<C>::Stop,
        step_of(None::<TorrentCommand<C>>) == CommandStep::<C>::Stop,
        step_of(Some(TorrentCommand::InboundPeer(addr, conn))) == CommandStep::Register(addr, conn),
        step_of(Some(TorrentCommand::<C>::Pause)) == CommandStep::<C>::Continue,
        step_of(Some(TorrentCommand::<C>::Resume)) == CommandStep::<C>::Continue,
{
}

/// A connection that is taken leaves the limit intact, and is with a peer that had
/// none; while there is room no other peer is turned away.
pub proof fn law_admission(connected: bool, live: nat, max: u32)
    ensures
        admission_of(connected, live, max) == Admission::Accept <==> !connected && live + 1 <= max,
        admission_of(connected, live, max) == Admission::Duplicate <==> connected,
        admission_of(connected, live, max) == Admission::Full <==> !connected && live + 1 > max,
{
}

/// A new peer always hears that we are interested, and before that, and only then,
/// which pieces we have, if we have any.
pub proof fn law_opening(bitfield: Vec<u8>)
    ensures
        ({
            let m = opening_of(bitfield);
            let nothing = forall|i: int|
                0 <= i < bitfield@.len() ==> #[trigger] bitfield@[i] == 0;
            &&& m[m.len() - 1] == PeerMessage::Interested
            &&& nothing ==> m.len() == 1
            &&& !nothing ==> m.len() == 2 && m[0] == PeerMessage::Bitfield(bitfield)
        }),
{
}

/// An update remembers what was downloaded and uploaded, so that one right after it
/// finds nothing new, and leaves the bytes uploaded and wasted as they are. The
/// completion is announced with the first update that sees every piece, and never
/// again; the schedule of announces is not touched.
pub proof fn law_counted(c: Counters, down: u64, a: AnnounceState, complete: bool, later: bool)
    ensures
        counted(c, down).total_downloaded == down,
        counted(c, down).last_downloaded == down,
        counted(c, down).last_uploaded == c.total_uploaded,
        counted(c, down).total_uploaded == c.total_uploaded,
        counted(c, down).total_wasted == c.total_wasted,
        ({
            let (b, first) = completion(a, complete);
            let (d, second) = completion(b, later);
            &&& first <==> complete && !a.announced_completed
            &&& !(first && second)
            &&& a.announced_completed ==> !first && !second
            &&& !a.announced_completed && later ==> first || second
            &&& d.next_announce == a.next_announce
            &&& d.has_announced == a.has_announced
        }),
{
}

/// A total gained what leads from the reported one to it; one that fell behind
/// gained nothing.
pub proof fn law_since(total: u64, reported: u64)
    ensures
        reported <= total ==> reported + since(total, reported) == total,
        reported >= total ==> since(total, reported) == 0,
{
}

} // verus!
