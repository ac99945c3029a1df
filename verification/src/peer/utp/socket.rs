//! Which connection a datagram belongs to.

use super::connection::{UtpHeader, UtpType, HEADER_LEN};
use crate::collections::VecMap;
use vstd::prelude::*;

verus! {

/// Size of the buffer that datagrams are received into.
pub const SOCKET_RECV_BUF: usize = 4096;

/// What to do with a datagram.
#[derive(Clone, Copy, Debug, PartialEq, Eq, Structural)]
pub enum Dispatch {
    /// Drop it.
    Ignore,
    /// Hand it to the connection with this ID.
    Deliver { conn_id: u16 },
    /// Accept a new connection.
    Accept,
    /// Answer with this RESET packet.
    Reset { header: UtpHeader },
}

/// The RESET packet that answers a packet of an unknown connection.
pub open spec fn reset_of(header: UtpHeader) -> UtpHeader {
    UtpHeader {
        utp_type: UtpType::StReset,
        version: 1,
        extension: 0,
        connection_id: header.connection_id,
        timestamp_microseconds: 0,
        timestamp_difference_microseconds: 0,
        wnd_size: 0,
        seq_nr: header.ack_nr,
        ack_nr: header.seq_nr,
    }
}

/// What to do with a packet. `known` are the IDs of the active connections.
pub open spec fn dispatch_of(known: Set<u16>, header: Option<UtpHeader>) -> Dispatch {
    match header {
        None => Dispatch::Ignore,
        Some(h) => if known.contains(h.connection_id) {
            Dispatch::Deliver { conn_id: h.connection_id }
        } else if h.utp_type is StSyn {
            Dispatch::Accept
        } else if h.utp_type is StReset {
            Dispatch::Ignore
        } else {
            Dispatch::Reset { header: reset_of(h) }
        },
    }
}

/// The active connections of a socket, by the ID that incoming packets carry.
pub struct UtpSocket<C> {
    connections: VecMap<u16, C>,
}

impl<C> View for UtpSocket<C> {
    type V = Map<u16, C>;

    closed spec fn view(&self) -> Map<u16, C> {
        self.connections@
    }
}

impl<C> UtpSocket<C> {
    /// No ID is registered twice.
    pub closed spec fn wf(&self) -> bool {
        self.connections.wf()
    }

    /// A socket without connections.
    pub fn new() -> (s: UtpSocket<C>)
        ensures
            s.wf(),
            s@ == Map::<u16, C>::empty(),
    {
        UtpSocket { connections: VecMap::new() }
    }

    /// Register a connection. It takes the place of one with the same ID.
    pub fn register(&mut self, conn_id: u16, connection: C)
        requires
            old(self).wf(),
        ensures
            final(self).wf(),
            final(self)@ == old(self)@.insert(conn_id, connection),
    {
        self.connections.insert(conn_id, connection);
    }

    /// Remove a connection that ended.
    pub fn unregister(&mut self, conn_id: u16)
        requires
            old(self).wf(),
        ensures
            final(self).wf(),
            final(self)@ == old(self)@.remove(conn_id),
    {
        self.connections.remove(&conn_id);
    }

    /// The connection with the given ID.
    pub fn connection(&self, conn_id: u16) -> (r: Option<&C>)
        requires
            self.wf(),
        ensures
            match r {
                Some(c) => self@.contains_key(conn_id) && *c == self@[conn_id],
                None => !self@.contains_key(conn_id),
            },
    {
        self.connections.get(&conn_id)
    }

    /// What to do with a packet whose header was read; there is none if the
    /// header is invalid. A packet of a known connection goes to it. Otherwise a
    /// SYN packet opens a connection, a RESET packet is dropped, and any other
    /// packet is answered with a RESET packet.
    pub fn dispatch(&self, header: Option<UtpHeader>) -> (d: Dispatch)
        requires
            self.wf(),
        ensures
            d == dispatch_of(self@.dom(), header),
    {
        match header {
            None => Dispatch::Ignore,
            Some(h) => {
                if self.connections.contains_key(&h.connection_id) {
                    Dispatch::Deliver { conn_id: h.connection_id }
                } else if h.utp_type == UtpType::StSyn {
                    Dispatch::Accept
                } else if h.utp_type == UtpType::StReset {
                    Dispatch::Ignore
                } else {
                    Dispatch::Reset { header: reset_header(&h) }
                }
            },
        }
    }
}

/// The RESET packet that answers a packet of an unknown connection.
pub fn reset_header(header: &UtpHeader) -> (r: UtpHeader)
    ensures
        r == reset_of(*header),
{
    UtpHeader {
        utp_type: UtpType::StReset,
        version: 1,
        extension: 0,
        connection_id: header.connection_id,
        timestamp_microseconds: 0,
        timestamp_difference_microseconds: 0,
        wnd_size: 0,
        seq_nr: header.ack_nr,
        ack_nr: header.seq_nr,
    }
}

/// Split a datagram into the bytes of the header and the payload; there is
/// nothing in one that is too short for a header.
pub fn split_datagram(data: &[u8]) -> (r: Option<([u8; 20], Vec<u8>)>)
    ensures
        match r {
            Some((h, p)) => data@.len() >= HEADER_LEN && h@ == data@.take(HEADER_LEN as int) && p@
                == data@.skip(HEADER_LEN as int),
            None => data@.len() < HEADER_LEN,
        },
{
    if data.len() < HEADER_LEN {
        return None;
    }
    let mut h: [u8; 20] = [0u8; 20];
    let mut i: usize = 0;
    while i < HEADER_LEN
        invariant
            i <= HEADER_LEN <= data@.len(),
            h@.len() == HEADER_LEN,
            forall|j: int| 0 <= j < i ==> h@[j] == data@[j],
        decreases HEADER_LEN - i,
    {
        h[i] = data[i];
        i += 1;
    }
    assert(h@ =~= data@.take(HEADER_LEN as int));
    let rest = vstd::slice::slice_subrange(data, HEADER_LEN, data.len());
    let p = crate::seqs::copy_bytes(rest);
    assert(p@ =~= data@.skip(HEADER_LEN as int));
    Some((h, p))
}

/// A packet of an active connection reaches it and no other; a RESET packet of
/// an unknown connection is never answered, so that two sides cannot reset each
/// other for ever.
pub proof fn law_dispatch(known: Set<u16>, header: UtpHeader)
    ensures
        known.contains(header.connection_id) ==> dispatch_of(known, Some(header))
            == (Dispatch::Deliver { conn_id: header.connection_id }),
        !known.contains(header.connection_id) ==> dispatch_of(
            known,
            Some(reset_of(header)),
        ) == Dispatch::Ignore,
{
}

} // verus!
