//! The error type shared by every module.

use vstd::prelude::*;

verus! {

/// What went wrong.
#[derive(Clone, Copy, Debug, PartialEq, Eq, Structural)]
pub enum ErrorKind {
    /// An argument or a stored value is out of its domain.
    InvalidInput,
    /// Reading or writing failed.
    Io,
    /// A remote end broke its protocol.
    Protocol,
    /// The connection to a peer is gone.
    PeerConnectionClosed,
    /// A uTP connection could not be set up.
    PeerUtpConnectionFailed,
    /// The BitTorrent handshake did not match.
    PeerInvalidHandshake,
    /// An extended message could not be understood.
    PeerInvalidExtendedMessage,
    /// A peer exchange message could not be understood.
    PeerInvalidPexMessage,
    /// A tracker answered with something that is not a tracker answer.
    TrackerProtocolError,
    /// A tracker could not be reached.
    TrackerRequestFailed,
    /// A web seed served bytes that do not hash to the expected value.
    WebSeedHashMismatch,
}

/// An error: its kind.
#[derive(Clone, Copy, Debug, PartialEq, Eq, Structural)]
pub struct Error {
    kind: ErrorKind,
}

impl Error {
    /// The kind of this error, as contracts speak of it.
    pub closed spec fn spec_kind(self) -> ErrorKind {
        self.kind
    }

    /// Makes an error of the given kind.
    pub fn new(kind: ErrorKind) -> (e: Error)
        ensures
            e.spec_kind() == kind,
    {
        Error { kind }
    }

    /// The kind of this error.
    pub fn kind(&self) -> (k: ErrorKind)
        ensures
            k == self.spec_kind(),
    {
        self.kind
    }
}

} // verus!
