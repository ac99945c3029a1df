//! Status, announces and new peers of a download loop.

use super::engine::{DownloadLoop, Traffic};
use super::types::{PeerInfo, PeerView};
use crate::addr::PeerAddr;
use crate::metainfo::InfoHash;
use crate::peer::stream::{remote_speaks_ltep, speaks_ltep};
use crate::seqs::{all_set, all_true, count_where};
use crate::session::announce::{bytes_left, left, AnnounceEvent, AnnounceRequest};
use crate::session::config::{TorrentState, TorrentStatus};
use crate::session::peer_mgr::PeerId;
use crate::session::swarm::engine::{seeds_among, survey};
use crate::session::swarm::pex::{UT_PEX, UT_PEX_ID};
use vstd::prelude::*;

verus! {

/// What a loop remembers between two status updates.
#[derive(Clone, Copy, Debug, PartialEq, Eq, Structural)]
pub struct Progress {
    /// Bytes downloaded, as of the last update.
    pub last_downloaded: u64,
    /// Bytes uploaded, as of the last update.
    pub last_uploaded: u64,
    /// Whether the completion was announced.
    pub announced_completed: bool,
}

/// What a status update finds: the bytes that came and went since the last one,
/// what is remembered for the next one, and whether the completion is announced.
pub open spec fn progress_made(p: Progress, t: Traffic, complete: bool) -> (
    u64,
    u64,
    Progress,
    bool,
) {
    (
        (t.total_downloaded - p.last_downloaded) as u64,
        (t.total_uploaded - p.last_uploaded) as u64,
        Progress {
            last_downloaded: t.total_downloaded,
            last_uploaded: t.total_uploaded,
            announced_completed: p.announced_completed || complete,
        },
        complete && !p.announced_completed,
    )
}

impl DownloadLoop {
    /// Update the status: the rates since the last update, the peers and the
    /// seeds among them, and the state once every piece is there. Returns
    /// whether to announce that the download is complete.
    pub fn update_status(
        &self,
        status: &mut TorrentStatus,
        progress: &mut Progress,
        num_peers: usize,
    ) -> (announce_completed: bool)
        requires
            self.wf(),
            old(progress).last_downloaded <= self.traffic.total_downloaded,
            old(progress).last_uploaded <= self.traffic.total_uploaded,
        ensures
            ({
                let complete = all_true(self.have@);
                &&& *final(status) == (TorrentStatus {
                    download_rate: (self.traffic.total_downloaded - old(
                        progress,
                    ).last_downloaded) as u64,
                    upload_rate: (self.traffic.total_uploaded - old(
                        progress,
                    ).last_uploaded) as u64,
                    num_peers,
                    num_seeds: count_where(
                        self.peers.order(),
                        seeds_among(self.peers@, self.info.spec_num_pieces()),
                    ) as usize,
                    state: if complete {
                        TorrentState::Seeding
                    } else {
                        old(status).state
                    },
                    total_wasted: self.traffic.total_wasted,
                    ..*old(status)
                })
                &&& *final(progress) == (Progress {
                    last_downloaded: self.traffic.total_downloaded,
                    last_uploaded: self.traffic.total_uploaded,
                    announced_completed: old(progress).announced_completed || complete,
                })
                &&& announce_completed == (complete && !old(progress).announced_completed)
            }),
            (
                final(status).download_rate,
                final(status).upload_rate,
                *final(progress),
                announce_completed,
            ) == progress_made(*old(progress), self.traffic, all_true(self.have@)),
    {
        let complete = all_set(&self.have);
        let (num_seeds, _) = survey(&self.peers, self.info.num_pieces());
        status.download_rate = self.traffic.total_downloaded - progress.last_downloaded;
        status.upload_rate = self.traffic.total_uploaded - progress.last_uploaded;
        status.num_peers = num_peers;
        status.num_seeds = num_seeds;
        status.total_wasted = self.traffic.total_wasted;
        if complete {
            status.state = TorrentState::Seeding;
        }
        progress.last_downloaded = self.traffic.total_downloaded;
        progress.last_uploaded = self.traffic.total_uploaded;
        let announce_completed = complete && !progress.announced_completed;
        if complete {
            progress.announced_completed = true;
        }
        announce_completed
    }

    /// Put together an announce: what is left is counted by the bytes
    /// downloaded.
    pub fn announce_request(
        &self,
        info_hash: InfoHash,
        peer_id: PeerId,
        port: u16,
        event: AnnounceEvent,
    ) -> (r: AnnounceRequest)
        ensures
            r == (AnnounceRequest {
                info_hash,
                peer_id,
                port,
                downloaded: self.traffic.total_downloaded,
                uploaded: self.traffic.total_uploaded,
                left: bytes_left(self.info.length, self.traffic.total_downloaded),
                event,
                ip: None,
                ipv6: None,
            }),
    {
        AnnounceRequest {
            info_hash,
            peer_id,
            port,
            downloaded: self.traffic.total_downloaded,
            uploaded: self.traffic.total_uploaded,
            left: left(self.info.length, self.traffic.total_downloaded),
            event,
            ip: None,
            ipv6: None,
        }
    }

    /// Take a newly connected peer in. Returns whether to send it our extension
    /// handshake: if we have extensions to offer and it speaks the protocol.
    pub fn register_peer(&mut self, addr: PeerAddr, reserved: &[u8; 8], pex_enabled: bool) -> (
        send_ltep: bool)
        requires
            old(self).wf(),
        ensures
            final(self).wf(),
            final(self).same_torrent(old(self)),
            final(self).have == old(self).have,
            final(self).active_downloads == old(self).active_downloads,
            final(self).uploads == old(self).uploads,
            final(self).piece_cache == old(self).piece_cache,
            final(self).traffic == old(self).traffic,
            final(self).endgame == old(self).endgame,
            ({
                let p = final(self).peers@[addr];
                &&& final(self).peers@ == old(self).peers@.insert(addr, p)
                &&& p == (PeerView {
                    our_extension_ids: p.our_extension_ids,
                    ..PeerView::fresh()
                })
                &&& if pex_enabled {
                    p.our_extension_ids.len() == 1 && p.our_extension_ids[0].0@ == UT_PEX@
                        && p.our_extension_ids[0].1 == UT_PEX_ID
                } else {
                    p.our_extension_ids.len() == 0
                }
            }),
            send_ltep == (pex_enabled && speaks_ltep(reserved@)),
    {
        let mut pi = PeerInfo::new();
        if pex_enabled {
            pi.our_extension_ids.push((UT_PEX.to_string(), UT_PEX_ID));
        }
        let ghost v = pi@;
        self.peers.insert(addr, pi);
        proof {
            assert(v =~= (PeerView {
                our_extension_ids: v.our_extension_ids,
                ..PeerView::fresh()
            }));
            assert(self.peers@ =~= old(self).peers@.insert(addr, self.peers@[addr]));
        }
        pex_enabled && remote_speaks_ltep(reserved)
    }
}

/// The rates of two updates in a row add up to what was transferred over both, each
/// way for itself; an update right after another finds nothing. The completion is
/// announced with the first update that sees every piece, and never again.
pub proof fn law_progress(p: Progress, t: Traffic, u: Traffic, complete: bool, later: bool)
    requires
        p.last_downloaded <= t.total_downloaded <= u.total_downloaded,
        p.last_uploaded <= t.total_uploaded <= u.total_uploaded,
    ensures
        ({
            let (down, up, q, first) = progress_made(p, t, complete);
            let (down2, up2, r, second) = progress_made(q, u, later);
            &&& p.last_downloaded + down + down2 == u.total_downloaded
            &&& p.last_uploaded + up + up2 == u.total_uploaded
            &&& p.last_downloaded + down == t.total_downloaded
            &&& p.last_uploaded + up == t.total_uploaded
            &&& u == t ==> down2 == 0 && up2 == 0
            &&& !(first && second)
            &&& p.announced_completed ==> !first && !second
            &&& first <==> complete && !p.announced_completed
            &&& !p.announced_completed && later ==> first || second
        }),
{
}

} // verus!
