//! What a query returns for the message that answered it.

use super::node::Node;
use crate::error::{Error, ErrorKind};
use vstd::prelude::*;

verus! {

/// A message that answered a query.
pub enum Reply {
    /// An answer, with the nodes in it, if there are any.
    Response { nodes: Option<Vec<Node>> },
    /// Anything else.
    Other,
}

/// The nodes that a `find_node` query returns. An answer without nodes, and
/// anything that is no answer, is an error.
pub fn find_node(reply: Reply) -> (r: Result<Vec<Node>, Error>)
    ensures
        match r {
            Ok(nodes) => reply == (Reply::Response { nodes: Some(nodes) }),
            Err(e) => e.spec_kind() == ErrorKind::Protocol && (reply is Other || reply == (
            Reply::Response { nodes: None })),
        },
{
    match reply {
        Reply::Response { nodes: Some(nodes) } => Ok(nodes),
        Reply::Response { nodes: None } => Err(Error::new(ErrorKind::Protocol)),
        Reply::Other => Err(Error::new(ErrorKind::Protocol)),
    }
}

} // verus!
