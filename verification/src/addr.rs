//! Socket addresses as plain values.

use crate::collections::Key;
use vstd::prelude::*;

verus! {

/// The address of a peer, a tracker or a DHT node.
#[allow(inconsistent_fields)]
#[derive(Clone, Copy, Debug, PartialEq, Eq, Structural, Hash)]
pub enum PeerAddr {
    /// An IPv4 address and port.
    V4 { ip: u32, port: u16 },
    /// An IPv6 address and port, with the flow label and the scope of the socket.
    V6 { ip: u128, port: u16, flowinfo: u32, scope_id: u32 },
}

impl PeerAddr {
    /// Whether the address is an IPv4 address, as contracts speak of it.
    pub open spec fn spec_is_ipv4(self) -> bool {
        self is V4
    }

    /// The port, as contracts speak of it.
    pub open spec fn spec_port(self) -> u16 {
        match self {
            PeerAddr::V4 { port, .. } => port,
            PeerAddr::V6 { port, .. } => port,
        }
    }

    /// The same host with another port; the flow label and the scope are dropped.
    pub open spec fn spec_on_port(self, port: u16) -> PeerAddr {
        match self {
            PeerAddr::V4 { ip, .. } => PeerAddr::V4 { ip, port },
            PeerAddr::V6 { ip, .. } => PeerAddr::V6 { ip, port, flowinfo: 0, scope_id: 0 },
        }
    }

    /// Whether the address is an IPv4 address.
    pub fn is_ipv4(&self) -> (r: bool)
        ensures
            r == self.spec_is_ipv4(),
    {
        match self {
            PeerAddr::V4 { .. } => true,
            PeerAddr::V6 { .. } => false,
        }
    }

    /// The port of the address.
    pub fn port(&self) -> (r: u16)
        ensures
            r == self.spec_port(),
    {
        match self {
            PeerAddr::V4 { port, .. } => *port,
            PeerAddr::V6 { port, .. } => *port,
        }
    }

    /// The same host on another port.
    pub fn on_port(&self, port: u16) -> (r: PeerAddr)
        ensures
            r == self.spec_on_port(port),
    {
        match self {
            PeerAddr::V4 { ip, .. } => PeerAddr::V4 { ip: *ip, port },
            PeerAddr::V6 { ip, .. } => PeerAddr::V6 { ip: *ip, port, flowinfo: 0, scope_id: 0 },
        }
    }
}

impl Key for PeerAddr {
    fn same(&self, other: &PeerAddr) -> (r: bool) {
        *self == *other
    }
}

/// Moving an address to a port gives an address of the same family and host with
/// that port, whatever port it had; a flow label or a scope does not come along.
pub proof fn law_on_port(a: PeerAddr, port: u16, other: u16)
    ensures
        a.spec_on_port(port).spec_port() == port,
        a.spec_on_port(port).spec_is_ipv4() == a.spec_is_ipv4(),
        a.spec_on_port(other).spec_on_port(port) == a.spec_on_port(port),
        a matches PeerAddr::V4 { ip, port: p } ==> a.spec_port() == p && a.spec_on_port(port) == (
        PeerAddr::V4 { ip, port }),
        a matches PeerAddr::V6 { ip, port: p, .. } ==> a.spec_port() == p && a.spec_on_port(port)
            == (PeerAddr::V6 { ip, port, flowinfo: 0, scope_id: 0 }),
{
}

} // verus!
