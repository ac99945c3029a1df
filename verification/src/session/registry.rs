//! The torrents of a session.

use crate::addr::PeerAddr;
use crate::collections::VecMap;
use crate::error::{Error, ErrorKind};
use crate::hash::same_hash;
use crate::metainfo::{exact_layout, hashes_match, InfoHash, Metainfo};
use crate::seqs::{all_set, all_true, lemma_count_where};
use crate::session::builder::TorrentBuilder;
use crate::session::config::{SessionConfig, TorrentState, TorrentStatus};
use crate::session::peer_mgr::{after_batch, enqueue_all, is_batch, successes, PeerId, PeerTable};
use crate::session::seed::builder::{magnet_for, magnet_text, PreparedTorrent};
use crate::session::seed::source::DataSource;
use crate::session::seed::storage::DataSourceStorage;
use crate::session::seed::verify::{law_seed_is_complete, verified_pieces, verify_existing};
use crate::session::swarm::engine::{SwarmLoop, TorrentCommand};
use crate::session::torrent::{
    is_fresh_loop, is_registered, is_seeded, spec_info_hash, spec_piece_count, TorrentHandle,
    TorrentSpec,
};
use crate::time::Nanos;
use vstd::prelude::*;

verus! {

/// The torrents of a session, by info hash. `C` is the handle of a live
/// connection.
pub struct Session<C> {
    config: SessionConfig,
    torrents: VecMap<InfoHash, TorrentHandle<C>>,
}

impl<C> View for Session<C> {
    type V = Map<InfoHash, TorrentHandle<C>>;

    closed spec fn view(&self) -> Map<InfoHash, TorrentHandle<C>> {
        self.torrents@
    }
}

/// What a command on a torrent leads to: not found, nothing to send, or a
/// command for its loop.
pub open spec fn command_result<C>(
    m: Map<InfoHash, TorrentHandle<C>>,
    info_hash: InfoHash,
    cmd: TorrentCommand<C>,
    r: Result<Option<TorrentCommand<C>>, Error>,
) -> bool {
    match r {
        Ok(c) => m.contains_key(info_hash) && c == if m[info_hash].active {
            Some(cmd)
        } else {
            None
        },
        Err(e) => !m.contains_key(info_hash) && e.spec_kind() == ErrorKind::InvalidInput,
    }
}

/// A handle after peers were found for it.
pub open spec fn found_peers<C>(
    before: TorrentHandle<C>,
    after: TorrentHandle<C>,
    addrs: Seq<PeerAddr>,
) -> bool {
    &&& after.wf()
    &&& after.peer_mgr.same_settings(&before.peer_mgr)
    &&& after.peer_mgr@ == (PeerTable {
        pending: enqueue_all(
            before.peer_mgr@.pending,
            addrs,
            before.peer_mgr@.connections.dom(),
        ),
        ..before.peer_mgr@
    })
    &&& after == (TorrentHandle { peer_mgr: after.peer_mgr, ..before })
}

/// The number of torrents whose loop runs, among the first ones.
pub open spec fn active_among<C>(
    m: Map<InfoHash, TorrentHandle<C>>,
    order: Seq<InfoHash>,
) -> nat
    decreases order.len(),
{
    if order.len() == 0 {
        0
    } else {
        active_among(m, order.drop_last()) + if m[order.last()].active {
            1nat
        } else {
            0nat
        }
    }
}

/// Whether the peers of a torrent may be looked up in the DHT.
pub open spec fn in_dht<C>(m: Map<InfoHash, TorrentHandle<C>>) -> spec_fn(InfoHash) -> bool {
    |h: InfoHash| m[h].dht_enabled
}

impl<C> Session<C> {
    /// The configuration, as contracts speak of it.
    pub closed spec fn spec_config(&self) -> SessionConfig {
        self.config
    }

    /// The info hashes in the order in which the torrents were added.
    pub closed spec fn order(&self) -> Seq<InfoHash> {
        self.torrents.order()
    }

    /// No torrent is there twice, and every torrent is well-formed and filed
    /// under its info hash.
    pub closed spec fn wf(&self) -> bool {
        &&& self.torrents.wf()
        &&& forall|h: InfoHash| #[trigger]
            self.torrents@.contains_key(h) ==> self.torrents@[h].wf() && self.torrents@[h].info_hash
                == h
    }

    /// What a well-formed session guarantees.
    pub proof fn lemma_wf(&self)
        requires
            self.wf(),
        ensures
            self.order().no_duplicates(),
            self@.dom() == self.order().to_set(),
            forall|h: InfoHash| #[trigger]
                self@.contains_key(h) ==> self@[h].wf() && self@[h].info_hash == h,
            forall|h: InfoHash| #[trigger] self@.contains_key(h) <==> self.order().contains(h),
    {
        self.torrents.lemma_order();
    }

    /// Create a session without torrents.
    pub fn new(config: SessionConfig) -> (s: Session<C>)
        ensures
            s.wf(),
            s.spec_config() == config,
            s@ == Map::<InfoHash, TorrentHandle<C>>::empty(),
            s.order() == Seq::<InfoHash>::empty(),
    {
        Session { config, torrents: VecMap::new() }
    }

    /// The UDP ports of the DHT node, for IPv4 and IPv6: the two after the
    /// listen port. There is no DHT node unless bootstrap nodes are configured.
    pub fn dht_ports(&self) -> (r: Option<(u16, u16)>)
        requires
            self.spec_config().listen_port <= 0xfffd,
        ensures
            r == if self.spec_config().bootstrap_nodes is None {
                None
            } else {
                Some(
                    (
                        (self.spec_config().listen_port + 1) as u16,
                        (self.spec_config().listen_port + 2) as u16,
                    ),
                )
            },
    {
        if self.config.bootstrap_nodes.is_none() {
            None
        } else {
            Some((self.config.listen_port + 1, self.config.listen_port + 2))
        }
    }

    /// Register a torrent. It takes the place of one with the same info hash.
    pub fn register_spec(
        &mut self,
        spec: TorrentSpec,
        web_seeds: Vec<String>,
        peer_id: PeerId,
    ) -> (h: InfoHash)
        requires
            old(self).wf(),
            spec_piece_count(spec) <= u32::MAX,
        ensures
            final(self).wf(),
            final(self).spec_config() == old(self).spec_config(),
            h == spec_info_hash(spec),
            final(self)@.contains_key(h),
            is_registered(final(self)@[h], spec, old(self).spec_config(), peer_id),
            final(self)@[h].web_seeds == web_seeds,
            final(self)@ == old(self)@.insert(h, final(self)@[h]),
    {
        let handle = TorrentHandle::register(spec, web_seeds, &self.config, peer_id);
        let h: InfoHash = handle.info_hash;
        self.torrents.insert(h, handle);
        h
    }

    /// Register a torrent and return a builder by which it is started. The
    /// metadata of a magnet link is not there yet. `magnet_peers` are the peers
    /// that a magnet link names. Fails with `InvalidInput` while the limit on
    /// active torrents is reached.
    pub fn add_torrent(
        &mut self,
        spec: TorrentSpec,
        web_seeds: Vec<String>,
        magnet_peers: Vec<PeerAddr>,
        peer_id: PeerId,
    ) -> (r: Result<TorrentBuilder, Error>)
        requires
            old(self).wf(),
            spec_piece_count(spec) <= u32::MAX,
        ensures
            final(self).wf(),
            final(self).spec_config() == old(self).spec_config(),
            match r {
                Ok(b) => {
                    &&& old(self).has_capacity()
                    &&& b.info_hash == spec_info_hash(spec)
                    &&& b.metadata_resolved == (spec is Metainfo)
                    &&& b.magnet_peers@ == if spec is Magnet {
                        magnet_peers@
                    } else {
                        Seq::empty()
                    }
                    &&& !b.has_storage
                    &&& final(self)@.contains_key(b.info_hash)
                    &&& is_registered(
                        final(self)@[b.info_hash],
                        spec,
                        old(self).spec_config(),
                        peer_id,
                    )
                    &&& final(self)@[b.info_hash].web_seeds == web_seeds
                    &&& final(self)@ == old(self)@.insert(b.info_hash, final(self)@[b.info_hash])
                },
                Err(e) => {
                    &&& !old(self).has_capacity()
                    &&& e.spec_kind() == ErrorKind::InvalidInput
                    &&& final(self)@ == old(self)@
                },
            },
    {
        if self.is_full() {
            return Err(Error::new(ErrorKind::InvalidInput));
        }
        let (resolved, peers) = match &spec {
            TorrentSpec::Metainfo(_) => {
                let none: Vec<PeerAddr> = Vec::new();
                (true, none)
            },
            TorrentSpec::Magnet(_) => (false, magnet_peers),
        };
        let h = self.register_spec(spec, web_seeds, peer_id);
        Ok(TorrentBuilder::new(h, resolved, peers))
    }

    /// Add peers that were found for a torrent. A torrent that is not there is
    /// passed over.
    pub fn add_peers(&mut self, info_hash: &InfoHash, addrs: Vec<PeerAddr>)
        requires
            old(self).wf(),
        ensures
            final(self).wf(),
            final(self).spec_config() == old(self).spec_config(),
            final(self).order() == old(self).order(),
            if old(self)@.contains_key(*info_hash) {
                &&& final(self)@ == old(self)@.insert(*info_hash, final(self)@[*info_hash])
                &&& found_peers(old(self)@[*info_hash], final(self)@[*info_hash], addrs@)
            } else {
                final(self)@ == old(self)@
            },
    {
        if let Some(h) = self.torrents.get_mut(info_hash) {
            h.peer_mgr.add_peers(addrs);
        }
    }

    /// Take the peers of a torrent to which connections are to be opened now. A
    /// torrent that is not there has none.
    pub fn connect_pending(&mut self, info_hash: &InfoHash, now: Nanos) -> (batch: Vec<PeerAddr>)
        requires
            old(self).wf(),
        ensures
            final(self).wf(),
            final(self).spec_config() == old(self).spec_config(),
            final(self).order() == old(self).order(),
            if old(self)@.contains_key(*info_hash) {
                let before = old(self)@[*info_hash];
                let after = final(self)@[*info_hash];
                &&& final(self)@ == old(self)@.insert(*info_hash, after)
                &&& after == (TorrentHandle { peer_mgr: after.peer_mgr, ..before })
                &&& after.peer_mgr.same_settings(&before.peer_mgr)
                &&& is_batch(before.peer_mgr, after.peer_mgr@, now, batch@)
            } else {
                final(self)@ == old(self)@ && batch@.len() == 0
            },
    {
        match self.torrents.get_mut(info_hash) {
            Some(h) => h.peer_mgr.drain_pending_batch(now),
            None => Vec::new(),
        }
    }

    /// Apply the results of the attempts to connect to a batch of peers. Returns
    /// the peers that are connected now. A torrent that is not there takes none.
    pub fn connected(
        &mut self,
        info_hash: &InfoHash,
        outcomes: Vec<(PeerAddr, Result<C, Error>)>,
        batch: &[PeerAddr],
        now: Nanos,
    ) -> (r: Vec<PeerAddr>)
        requires
            old(self).wf(),
            old(self)@.contains_key(*info_hash) ==> now
                + old(self)@[*info_hash].peer_mgr.spec_cooldown() <= u64::MAX,
        ensures
            final(self).wf(),
            final(self).spec_config() == old(self).spec_config(),
            final(self).order() == old(self).order(),
            if old(self)@.contains_key(*info_hash) {
                let before = old(self)@[*info_hash];
                let after = final(self)@[*info_hash];
                &&& final(self)@ == old(self)@.insert(*info_hash, after)
                &&& after == (TorrentHandle { peer_mgr: after.peer_mgr, ..before })
                &&& after.peer_mgr.same_settings(&before.peer_mgr)
                &&& after.peer_mgr@ == after_batch(before.peer_mgr, outcomes@, batch@, now)
                &&& r@ == successes(outcomes@)
            } else {
                final(self)@ == old(self)@ && r@.len() == 0
            },
    {
        match self.torrents.get_mut(info_hash) {
            Some(h) => h.peer_mgr.apply_connect_results(outcomes, batch, now),
            None => Vec::new(),
        }
    }

    /// Close the connection to a peer of a torrent and forget its failures.
    pub fn disconnected(&mut self, info_hash: &InfoHash, addr: &PeerAddr)
        requires
            old(self).wf(),
        ensures
            final(self).wf(),
            final(self).spec_config() == old(self).spec_config(),
            final(self).order() == old(self).order(),
            if old(self)@.contains_key(*info_hash) {
                let before = old(self)@[*info_hash];
                let after = final(self)@[*info_hash];
                &&& final(self)@ == old(self)@.insert(*info_hash, after)
                &&& after == (TorrentHandle { peer_mgr: after.peer_mgr, ..before })
                &&& after.peer_mgr.same_settings(&before.peer_mgr)
                &&& after.peer_mgr@ == (PeerTable {
                    connections: before.peer_mgr@.connections.remove(*addr),
                    backoff: before.peer_mgr@.backoff.remove(*addr),
                    ..before.peer_mgr@
                })
            } else {
                final(self)@ == old(self)@
            },
    {
        if let Some(h) = self.torrents.get_mut(info_hash) {
            h.peer_mgr.remove_peer(addr);
        }
    }

    /// The number of torrents whose loop runs.
    pub fn active_count(&self) -> (n: usize)
        requires
            self.wf(),
        ensures
            n == active_among(self@, self.order()),
    {
        let keys = self.torrents.keys();
        proof {
            self.lemma_wf();
            assert(keys@.take(0) =~= Seq::<InfoHash>::empty());
        }
        let mut n: usize = 0;
        let mut i: usize = 0;
        while i < keys.len()
            invariant
                i <= keys@.len(),
                self.wf(),
                keys@ == self.order(),
                forall|h: InfoHash| #[trigger]
                    self@.contains_key(h) <==> self.order().contains(h),
                n == active_among(self@, keys@.take(i as int)),
                n <= i,
            decreases keys@.len() - i,
        {
            proof {
                assert(keys@.take(i + 1).drop_last() =~= keys@.take(i as int));
            }
            if let Some(h) = self.torrents.get(&keys[i]) {
                if h.active {
                    n += 1;
                }
            }
            i += 1;
        }
        assert(keys@.take(i as int) =~= keys@);
        n
    }

    /// Whether one more torrent may be started; a limit of zero is no limit.
    pub open spec fn has_capacity(&self) -> bool {
        let limit = self.spec_config().max_active_torrents;
        limit == 0 || active_among(self@, self.order()) < limit
    }

    /// Whether the limit on active torrents is reached.
    pub fn is_full(&self) -> (r: bool)
        requires
            self.wf(),
        ensures
            r == !self.has_capacity(),
    {
        let limit: usize = self.config.max_active_torrents;
        limit > 0 && self.active_count() >= limit
    }

    /// Whether the metadata of a torrent is there.
    pub open spec fn has_metadata(&self, info_hash: InfoHash) -> bool {
        self@.contains_key(info_hash) && self@[info_hash].metainfo is Some
    }

    /// Take in the metadata of a torrent, which peers delivered. What is known
    /// already stays. Fails with `InvalidInput` if the torrent is not there or the
    /// metadata is that of another.
    pub fn metadata_received(&mut self, info_hash: &InfoHash, metainfo: Metainfo) -> (r: Result<
        (),
        Error,
    >)
        requires
            old(self).wf(),
            metainfo.info.pieces@.len() <= u32::MAX,
        ensures
            final(self).wf(),
            final(self).spec_config() == old(self).spec_config(),
            final(self).order() == old(self).order(),
            match r {
                Ok(()) => {
                    let before = old(self)@[*info_hash];
                    let after = final(self)@[*info_hash];
                    let n = metainfo.info.pieces@.len();
                    &&& old(self)@.contains_key(*info_hash)
                    &&& metainfo.info_hash == *info_hash
                    &&& final(self)@ == old(self)@.insert(*info_hash, after)
                    &&& before.metainfo is Some ==> after == before
                    &&& before.metainfo is None ==> {
                        &&& after.have@ == Seq::new(n, |i: int| false)
                        &&& after.status.bitfield@ == after.have@
                        &&& after == (TorrentHandle {
                            metainfo: Some(metainfo),
                            have: after.have,
                            status: TorrentStatus {
                                total_size: metainfo.info.length,
                                num_pieces: n as u32,
                                bitfield: after.status.bitfield,
                                ..before.status
                            },
                            ..before
                        })
                    }
                },
                Err(e) => {
                    &&& !old(self)@.contains_key(*info_hash) || metainfo.info_hash != *info_hash
                    &&& e.spec_kind() == ErrorKind::InvalidInput
                    &&& final(self)@ == old(self)@
                },
            },
    {
        if !same_hash(&metainfo.info_hash, info_hash) {
            return Err(Error::new(ErrorKind::InvalidInput));
        }
        match self.torrents.get_mut(info_hash) {
            Some(h) => {
                h.learn_metadata(metainfo);
                Ok(())
            },
            None => Err(Error::new(ErrorKind::InvalidInput)),
        }
    }

    /// Make sure that the metadata of a torrent is there. Fails with
    /// `InvalidInput` if it is not, or if the torrent is not there.
    pub fn resolve_metadata(&self, b: TorrentBuilder) -> (r: Result<TorrentBuilder, Error>)
        requires
            self.wf(),
        ensures
            match r {
                Ok(t) => {
                    &&& self.has_metadata(b.info_hash)
                    &&& self@[b.info_hash].metainfo->Some_0.info_hash == b.info_hash
                    &&& t == (TorrentBuilder { metadata_resolved: true, ..b })
                },
                Err(e) => !self.has_metadata(b.info_hash) && e.spec_kind()
                    == ErrorKind::InvalidInput,
            },
    {
        proof {
            self.lemma_wf();
        }
        if self.metainfo(&b.info_hash).is_none() {
            return Err(Error::new(ErrorKind::InvalidInput));
        }
        Ok(TorrentBuilder { metadata_resolved: true, ..b })
    }

    /// Get ready to start a torrent: its magnet peers are handed over.
    ///
    /// Fails with `InvalidInput` if the metadata is neither resolved nor there, if
    /// too many torrents run already, or if the torrent is not there. Returns whether a storage has to be created: without one the
    /// torrent stays registered.
    pub fn prepare_start(&mut self, b: &TorrentBuilder) -> (r: Result<bool, Error>)
        requires
            old(self).wf(),
        ensures
            final(self).wf(),
            final(self).spec_config() == old(self).spec_config(),
            final(self).order() == old(self).order(),
            ({
                let known = old(self)@.contains_key(b.info_hash);
                let unresolved = !b.metadata_resolved && !old(self).has_metadata(b.info_hash);
                &&& if unresolved || !known || b.magnet_peers@.len() == 0 {
                    final(self)@ == old(self)@
                } else {
                    &&& final(self)@ == old(self)@.insert(
                        b.info_hash,
                        final(self)@[b.info_hash],
                    )
                    &&& found_peers(
                        old(self)@[b.info_hash],
                        final(self)@[b.info_hash],
                        b.magnet_peers@,
                    )
                }
                &&& match r {
                    Ok(create) => {
                        &&& !unresolved
                        &&& final(self).has_capacity()
                        &&& create == b.has_storage
                        &&& create ==> known
                    },
                    Err(e) => {
                        &&& unresolved || !final(self).has_capacity() || (b.has_storage && !known)
                        &&& e.spec_kind() == ErrorKind::InvalidInput
                    },
                }
            }),
    {
        let known = self.torrents.contains_key(&b.info_hash);
        if !b.metadata_resolved && self.metainfo(&b.info_hash).is_none() {
            return Err(Error::new(ErrorKind::InvalidInput));
        }
        if b.magnet_peers.len() > 0 {
            let mut peers: Vec<PeerAddr> = Vec::new();
            peers.extend_from_slice(b.magnet_peers.as_slice());
            assert(peers@ =~= b.magnet_peers@);
            self.add_peers(&b.info_hash, peers);
        }
        if self.is_full() {
            return Err(Error::new(ErrorKind::InvalidInput));
        }
        if !b.has_storage {
            return Ok(false);
        }
        if !known {
            return Err(Error::new(ErrorKind::InvalidInput));
        }
        Ok(true)
    }

    /// Start the loop of a torrent whose storage is ready. Fails with
    /// `InvalidInput` if the torrent is not there or its metadata is not known.
    pub fn activate(&mut self, info_hash: &InfoHash, peer_id: PeerId, now: Nanos) -> (r: Result<
        SwarmLoop,
        Error,
    >)
        requires
            old(self).wf(),
            old(self)@.contains_key(*info_hash) ==> (old(self)@[*info_hash].metainfo matches Some(m)
                ==> m.info.wf() && m.info.pieces@.len() <= u32::MAX),
        ensures
            final(self).wf(),
            final(self).spec_config() == old(self).spec_config(),
            final(self).order() == old(self).order(),
            match r {
                Ok(l) => {
                    let before = old(self)@[*info_hash];
                    &&& old(self)@.contains_key(*info_hash)
                    &&& before.metainfo is Some
                    &&& final(self)@ == old(self)@.insert(*info_hash, final(self)@[*info_hash])
                    &&& final(self)@[*info_hash] == (TorrentHandle {
                        active: true,
                        status: TorrentStatus {
                            state: TorrentState::Downloading,
                            total_size: before.metainfo->Some_0.info.length,
                            num_pieces: before.metainfo->Some_0.info.pieces@.len() as u32,
                            ..before.status
                        },
                        ..before
                    })
                    &&& is_fresh_loop(
                        final(self)@[*info_hash],
                        before.metainfo->Some_0,
                        l,
                        old(self).spec_config(),
                        false,
                        old(self).spec_config().pex_enabled,
                        peer_id,
                        now,
                    )
                },
                Err(e) => {
                    &&& !old(self)@.contains_key(*info_hash)
                        || old(self)@[*info_hash].metainfo is None
                    &&& e.spec_kind() == ErrorKind::InvalidInput
                    &&& final(self)@ == old(self)@
                },
            },
    {
        let resolved = match self.torrents.get(info_hash) {
            Some(h) => h.metainfo.is_some(),
            None => false,
        };
        if !resolved {
            return Err(Error::new(ErrorKind::InvalidInput));
        }
        match self.torrents.get_mut(info_hash) {
            Some(h) => Ok(h.activate(&self.config, peer_id, now)),
            None => Err(Error::new(ErrorKind::InvalidInput)),
        }
    }

    /// Verify the data of a prepared torrent, register it and start seeding.
    ///
    /// Fails if the data source fails, and with `InvalidInput` if the data does
    /// not match the piece hashes; nothing is seeded then. Returns the info hash,
    /// the storage that serves the data, and the loop.
    pub fn start_seeding<S: DataSource>(
        &mut self,
        prepared: PreparedTorrent<S>,
        super_seed: bool,
        peer_id: PeerId,
        now: Nanos,
    ) -> (r: Result<(InfoHash, DataSourceStorage<S>, SwarmLoop), Error>)
        requires
            old(self).wf(),
            exact_layout(prepared.spec_metainfo().info),
            prepared.spec_metainfo().info.wf(),
            prepared.spec_metainfo().info.pieces@.len() <= u32::MAX,
            prepared.spec_metainfo().info.piece_length <= usize::MAX,
        ensures
            final(self).wf(),
            final(self).spec_config() == old(self).spec_config(),
            match r {
                Ok((h, storage, l)) => {
                    let m = prepared.spec_metainfo();
                    &&& h == m.info_hash
                    &&& storage.spec_source() == prepared.spec_source()
                    &&& storage.lays_out(m.info)
                    &&& final(self)@.contains_key(h)
                    &&& all_true(verified_pieces(m.info, prepared.spec_source().content()))
                    &&& is_seeded(
                        final(self)@[h],
                        m,
                        verified_pieces(m.info, prepared.spec_source().content()),
                        old(self).spec_config(),
                        peer_id,
                    )
                    &&& final(self)@ == old(self)@.insert(h, final(self)@[h])
                    &&& is_fresh_loop(
                        final(self)@[h],
                        m,
                        l,
                        old(self).spec_config(),
                        super_seed,
                        old(self).spec_config().pex_enabled && !m.private,
                        peer_id,
                        now,
                    )
                },
                Err(e) => {
                    let m = prepared.spec_metainfo();
                    &&& final(self)@ == old(self)@
                    &&& final(self).order() == old(self).order()
                    &&& {
                        ||| !prepared.spec_source().is_readable()
                        ||| !all_true(verified_pieces(m.info, prepared.spec_source().content()))
                            && e.spec_kind() == ErrorKind::InvalidInput
                    }
                },
            },
    {
        let h: InfoHash = prepared.info_hash();
        let (source, metainfo) = prepared.into_parts();
        let storage = DataSourceStorage::new(source, &metainfo.info);
        let mut have: Vec<bool> = vec![false; metainfo.info.num_pieces()];
        if let Err(e) = verify_existing(&storage, &metainfo.info, &mut have) {
            return Err(e);
        }
        let ghost ok = verified_pieces(metainfo.info, storage.spec_source().content());
        assert(have@ =~= ok);
        if !all_set(&have) {
            return Err(Error::new(ErrorKind::InvalidInput));
        }
        proof {
            lemma_count_where(ok, |b: bool| b);
        }
        let config = &self.config;
        let mut handle: TorrentHandle<C> = TorrentHandle::register(
            TorrentSpec::Metainfo(metainfo.duplicate()),
            Vec::new(),
            config,
            peer_id,
        );
        let l = handle.activate_seed(metainfo, have, config, super_seed, peer_id, now);
        self.torrents.insert(h, handle);
        Ok((h, storage, l))
    }

    /// Pause a torrent: the command for its loop, if it runs. Fails with
    /// `InvalidInput` if the torrent is not there.
    pub fn pause_torrent(&self, info_hash: &InfoHash) -> (r: Result<
        Option<TorrentCommand<C>>,
        Error,
    >)
        requires
            self.wf(),
        ensures
            command_result(self@, *info_hash, TorrentCommand::Pause, r),
    {
        match self.torrents.get(info_hash) {
            Some(h) => Ok(h.pause()),
            None => Err(Error::new(ErrorKind::InvalidInput)),
        }
    }

    /// Resume a torrent: the command for its loop, if it runs. Fails with
    /// `InvalidInput` if the torrent is not there.
    pub fn resume_torrent(&self, info_hash: &InfoHash) -> (r: Result<
        Option<TorrentCommand<C>>,
        Error,
    >)
        requires
            self.wf(),
        ensures
            command_result(self@, *info_hash, TorrentCommand::Resume, r),
    {
        match self.torrents.get(info_hash) {
            Some(h) => Ok(h.resume()),
            None => Err(Error::new(ErrorKind::InvalidInput)),
        }
    }

    /// Remove a torrent: the command that ends its loop, if it runs. Fails with
    /// `InvalidInput` if the torrent is not there.
    pub fn remove_torrent(&mut self, info_hash: &InfoHash) -> (r: Result<
        Option<TorrentCommand<C>>,
        Error,
    >)
        requires
            old(self).wf(),
        ensures
            final(self).wf(),
            final(self).spec_config() == old(self).spec_config(),
            final(self)@ == old(self)@.remove(*info_hash),
            command_result(old(self)@, *info_hash, TorrentCommand::Cancel, r),
    {
        match self.torrents.remove(info_hash) {
            Some(handle) => {
                let mut h = handle;
                Ok(h.cancel())
            },
            None => Err(Error::new(ErrorKind::InvalidInput)),
        }
    }

    /// A torrent of the session. Fails with `InvalidInput` if it is not there.
    pub fn torrent(&self, info_hash: &InfoHash) -> (r: Result<&TorrentHandle<C>, Error>)
        requires
            self.wf(),
        ensures
            match r {
                Ok(h) => self@.contains_key(*info_hash) && *h == self@[*info_hash],
                Err(e) => !self@.contains_key(*info_hash) && e.spec_kind()
                    == ErrorKind::InvalidInput,
            },
    {
        match self.torrents.get(info_hash) {
            Some(h) => Ok(h),
            None => Err(Error::new(ErrorKind::InvalidInput)),
        }
    }

    /// The status of a torrent. Fails with `InvalidInput` if the torrent is not
    /// there.
    pub fn torrent_status(&self, info_hash: &InfoHash) -> (r: Result<&TorrentStatus, Error>)
        requires
            self.wf(),
        ensures
            match r {
                Ok(s) => self@.contains_key(*info_hash) && *s == self@[*info_hash].status,
                Err(e) => !self@.contains_key(*info_hash) && e.spec_kind()
                    == ErrorKind::InvalidInput,
            },
    {
        match self.torrents.get(info_hash) {
            Some(h) => Ok(&h.status),
            None => Err(Error::new(ErrorKind::InvalidInput)),
        }
    }

    /// List the info hashes of all torrents.
    pub fn active_torrents(&self) -> (r: Vec<InfoHash>)
        requires
            self.wf(),
        ensures
            r@ == self.order(),
            r@.to_set() == self@.dom(),
            r@.no_duplicates(),
    {
        proof {
            self.lemma_wf();
        }
        self.torrents.keys()
    }

    /// List the info hashes of the torrents whose peers may be looked up in the
    /// DHT, in the order in which they were added.
    pub fn dht_torrents(&self) -> (r: Vec<InfoHash>)
        requires
            self.wf(),
        ensures
            r@ == self.order().filter(in_dht(self@)),
    {
        let keys = self.torrents.keys();
        let ghost f = in_dht(self@);
        let mut r: Vec<InfoHash> = Vec::new();
        let mut i: usize = 0;
        proof {
            self.lemma_wf();
            reveal(Seq::filter);
            assert(keys@.take(0).filter(f) =~= Seq::<InfoHash>::empty());
        }
        while i < keys.len()
            invariant
                i <= keys@.len(),
                self.wf(),
                keys@ == self.order(),
                f == in_dht(self@),
                forall|h: InfoHash| #[trigger]
                    self@.contains_key(h) <==> self.order().contains(h),
                r@ == keys@.take(i as int).filter(f),
            decreases keys@.len() - i,
        {
            proof {
                reveal(Seq::filter);
                assert(keys@.take(i + 1).drop_last() =~= keys@.take(i as int));
                assert(keys@.take(i + 1).last() == keys@[i as int]);
                assert(self.order().contains(keys@[i as int]));
            }
            if let Some(h) = self.torrents.get(&keys[i]) {
                if h.dht_enabled {
                    r.push(keys[i]);
                }
            }
            i += 1;
        }
        assert(keys@.take(i as int) =~= keys@);
        r
    }

    /// The metadata of a torrent, if the torrent is there and its metadata is
    /// known.
    pub fn metainfo(&self, info_hash: &InfoHash) -> (r: Option<&Metainfo>)
        requires
            self.wf(),
        ensures
            match r {
                Some(m) => self@.contains_key(*info_hash) && self@[*info_hash].metainfo == Some(*m),
                None => !self@.contains_key(*info_hash) || self@[*info_hash].metainfo is None,
            },
    {
        match self.torrents.get(info_hash) {
            Some(h) => match &h.metainfo {
                Some(m) => Some(m),
                None => None,
            },
            None => None,
        }
    }

    /// Generate a magnet URI for a torrent, if the torrent is there and its
    /// metadata is known.
    pub fn magnet_uri(&self, info_hash: &InfoHash) -> (r: Option<String>)
        requires
            self.wf(),
        ensures
            match r {
                Some(u) => self@.contains_key(*info_hash) && (self@[*info_hash].metainfo matches Some(
                    m,
                ) && u@ == magnet_text(m.info_hash@, m.info.name@)),
                None => !self@.contains_key(*info_hash) || self@[*info_hash].metainfo is None,
            },
    {
        match self.metainfo(info_hash) {
            Some(m) => Some(magnet_for(&m.info_hash, m.info.name.as_str())),
            None => None,
        }
    }

    /// Whether an inbound connection for a torrent is taken: its loop runs.
    pub fn takes_inbound(&self, info_hash: &InfoHash) -> (r: bool)
        requires
            self.wf(),
        ensures
            r == (self@.contains_key(*info_hash) && self@[*info_hash].active),
    {
        match self.torrents.get(info_hash) {
            Some(h) => h.active,
            None => false,
        }
    }
}

/// A torrent that was removed is gone: every command on it fails, and the other
/// torrents are as they were.
pub proof fn law_removed_torrent_is_gone<C>(
    m: Map<InfoHash, TorrentHandle<C>>,
    h: InfoHash,
    other: InfoHash,
    cmd: TorrentCommand<C>,
    r: Result<Option<TorrentCommand<C>>, Error>,
)
    requires
        command_result(m.remove(h), h, cmd, r),
        other != h,
    ensures
        r matches Err(e) && e.spec_kind() == ErrorKind::InvalidInput,
        m.remove(h).contains_key(other) == m.contains_key(other),
        m.contains_key(other) ==> m.remove(h)[other] == m[other],
{
}

/// A torrent that was hashed from its data is seeded complete: started with the
/// pieces that verify, it holds every piece and is seeding.
pub proof fn law_seeding_is_complete<C>(
    h: TorrentHandle<C>,
    metainfo: Metainfo,
    content: Seq<u8>,
    config: SessionConfig,
    peer_id: PeerId,
)
    requires
        exact_layout(metainfo.info),
        hashes_match(metainfo.info, content),
        is_seeded(h, metainfo, verified_pieces(metainfo.info, content), config, peer_id),
        metainfo.info.pieces@.len() <= u32::MAX,
    ensures
        h.status.state == TorrentState::Seeding,
        h.status.pieces_completed == metainfo.info.pieces@.len(),
        all_true(h.have@),
{
    law_seed_is_complete(metainfo.info, content);
    lemma_count_where(verified_pieces(metainfo.info, content), |b: bool| b);
}

/// Starting one torrent keeps to the limit: where fewer loops run than allowed,
/// no more than allowed run afterwards, whatever became of that torrent.
pub proof fn law_active_limit<C>(
    m: Map<InfoHash, TorrentHandle<C>>,
    order: Seq<InfoHash>,
    h: InfoHash,
    started: TorrentHandle<C>,
    limit: nat,
)
    requires
        order.no_duplicates(),
        active_among(m, order) < limit,
    ensures
        active_among(m.insert(h, started), order) <= limit,
{
    lemma_active_insert(m, order, h, started);
}

proof fn lemma_active_insert<C>(
    m: Map<InfoHash, TorrentHandle<C>>,
    order: Seq<InfoHash>,
    h: InfoHash,
    started: TorrentHandle<C>,
)
    requires
        order.no_duplicates(),
    ensures
        active_among(m.insert(h, started), order) <= active_among(m, order) + 1,
        !order.contains(h) ==> active_among(m.insert(h, started), order) == active_among(m, order),
    decreases order.len(),
{
    if order.len() > 0 {
        let rest = order.drop_last();
        lemma_active_insert(m, rest, h, started);
        assert(rest.contains(h) ==> order.last() != h) by {
            if rest.contains(h) {
                let i = choose|i: int| 0 <= i < rest.len() && rest[i] == h;
                assert(order[i] == h);
            }
        }
        crate::seqs::lemma_contains_last(order, h);
    }
}

/// A command reaches the loop of a torrent as it was given, exactly when the loop
/// runs. A torrent that is there but does not run takes it in silence, and one
/// that is not there is an error.
pub proof fn law_commands<C>(
    m: Map<InfoHash, TorrentHandle<C>>,
    h: InfoHash,
    cmd: TorrentCommand<C>,
    r: Result<Option<TorrentCommand<C>>, Error>,
)
    requires
        command_result(m, h, cmd, r),
    ensures
        m.contains_key(h) && m[h].active ==> r == Ok::<_, Error>(Some(cmd)),
        m.contains_key(h) && !m[h].active ==> r == Ok::<_, Error>(None::<TorrentCommand<C>>),
        !m.contains_key(h) ==> (r matches Err(e) && e.spec_kind() == ErrorKind::InvalidInput),
{
}

/// Every torrent whose loop runs counts once, and no other.
pub proof fn law_active_counted<C>(
    m: Map<InfoHash, TorrentHandle<C>>,
    order: Seq<InfoHash>,
    h: InfoHash,
)
    ensures
        active_among(m, Seq::empty()) == 0,
        m[h].active ==> active_among(m, order.push(h)) == active_among(m, order) + 1,
        !m[h].active ==> active_among(m, order.push(h)) == active_among(m, order),
{
    assert(order.push(h).drop_last() =~= order);
}

/// A session takes one more torrent while fewer run than it may have, and always
/// where it has no limit.
pub proof fn law_has_capacity<C>(s: Session<C>)
    ensures
        s.spec_config().max_active_torrents == 0 ==> s.has_capacity(),
        s.spec_config().max_active_torrents > 0 ==> (s.has_capacity() <==> active_among(
            s@,
            s.order(),
        ) + 1 <= s.spec_config().max_active_torrents),
{
}

/// The metadata of a torrent is there once the torrent is and its metadata is
/// known.
pub proof fn law_has_metadata<C>(s: Session<C>, h: InfoHash)
    ensures
        s@.contains_key(h) ==> (s.has_metadata(h) <==> s@[h].metainfo is Some),
        !s@.contains_key(h) ==> !s.has_metadata(h),
{
}

/// The torrents that are looked up in the DHT are those for which that is allowed.
pub proof fn law_in_dht<C>(m: Map<InfoHash, TorrentHandle<C>>, order: Seq<InfoHash>, h: InfoHash)
    ensures
        order.filter(in_dht(m)).contains(h) <==> order.contains(h) && m[h].dht_enabled,
{
    crate::seqs::lemma_filtered(order, in_dht(m));
}

/// Peers that are found for a torrent are queued, each once, unless they are
/// connected; what was queued stays queued, and nothing else changes.
pub proof fn law_found_peers<C>(
    before: TorrentHandle<C>,
    after: TorrentHandle<C>,
    addrs: Seq<PeerAddr>,
    a: PeerAddr,
)
    requires
        before.wf(),
        found_peers(before, after, addrs),
    ensures
        after.peer_mgr@.pending.contains(a) <==> before.peer_mgr@.pending.contains(a) || (
        addrs.contains(a) && !before.peer_mgr@.connections.contains_key(a)),
        after.peer_mgr@.pending.no_duplicates(),
        after.peer_mgr@.connections == before.peer_mgr@.connections,
        after.peer_mgr@.backoff == before.peer_mgr@.backoff,
        after.have == before.have,
        after.status == before.status,
        after.active == before.active,
        after.metainfo == before.metainfo,
{
    after.peer_mgr.lemma_wf();
    crate::session::peer_mgr::law_enqueue_all(
        before.peer_mgr@.pending,
        addrs,
        before.peer_mgr@.connections.dom(),
    );
}

} // verus!
