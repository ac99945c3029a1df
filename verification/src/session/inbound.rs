//! Inbound connections.

use crate::addr::PeerAddr;
use crate::metainfo::InfoHash;
use crate::session::registry::Session;
use crate::session::swarm::engine::TorrentCommand;
use crate::time::Nanos;
use vstd::prelude::*;

verus! {

/// Timeout of the handshake of an inbound connection.
pub const INBOUND_HANDSHAKE_TIMEOUT: Nanos = 30_000_000_000;

/// The command by which an inbound connection reaches the loop of its torrent.
/// There is none, and the connection is dropped, if no loop runs for the info
/// hash of the handshake.
pub fn dispatch_inbound<C>(
    session: &Session<C>,
    info_hash: &InfoHash,
    addr: PeerAddr,
    conn: C,
) -> (r: Option<TorrentCommand<C>>)
    requires
        session.wf(),
    ensures
        r == if session@.contains_key(*info_hash) && session@[*info_hash].active {
            Some(TorrentCommand::InboundPeer(addr, conn))
        } else {
            None
        },
{
    if session.takes_inbound(info_hash) {
        Some(TorrentCommand::InboundPeer(addr, conn))
    } else {
        None
    }
}

} // verus!
