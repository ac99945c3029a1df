//! What is configured of a torrent before it is started.

use crate::addr::PeerAddr;
use crate::metainfo::InfoHash;
use vstd::prelude::*;

verus! {

/// A registered torrent that is to be started.
pub struct TorrentBuilder {
    /// Identity of the torrent.
    pub info_hash: InfoHash,
    /// Whether a storage is configured.
    pub has_storage: bool,
    /// Whether the metadata is known.
    pub metadata_resolved: bool,
    /// Peers that a magnet link names.
    pub magnet_peers: Vec<PeerAddr>,
}

impl TorrentBuilder {
    /// Create a new builder without a storage.
    pub fn new(info_hash: InfoHash, metadata_resolved: bool, magnet_peers: Vec<PeerAddr>) -> (b:
        TorrentBuilder)
        ensures
            b == (TorrentBuilder { info_hash, has_storage: false, metadata_resolved, magnet_peers }),
    {
        TorrentBuilder { info_hash, has_storage: false, metadata_resolved, magnet_peers }
    }

    /// The info hash of this torrent.
    pub fn info_hash(&self) -> (h: InfoHash)
        ensures
            h == self.info_hash,
    {
        self.info_hash
    }

    /// Configure a storage.
    pub fn storage(self) -> (b: TorrentBuilder)
        ensures
            b == (TorrentBuilder { has_storage: true, ..self }),
    {
        TorrentBuilder { has_storage: true, ..self }
    }
}

} // verus!
