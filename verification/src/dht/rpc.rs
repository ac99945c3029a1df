//! The queries in flight, by transaction.

use crate::collections::VecMap;
use vstd::prelude::*;

verus! {

/// The number of a transaction.
pub type TransactionId = u16;

/// What kind of message arrived.
#[derive(Clone, Copy, Debug, PartialEq, Eq, Structural)]
pub enum MessageKind {
    /// The answer to a query.
    Response { transaction_id: TransactionId },
    /// The refusal of a query.
    Error { transaction_id: TransactionId },
    /// A query.
    Query,
}

/// What to do with a message.
pub enum RpcAction<C> {
    /// Hand it to the one who waits for it.
    Deliver { waiting: C },
    /// Answer it.
    Answer,
    /// Drop it: nobody waits for it.
    Ignore,
}

/// The queries in flight: who waits for the answer to each.
pub struct DhtRpc<C> {
    pending: VecMap<TransactionId, C>,
}

impl<C> View for DhtRpc<C> {
    type V = Map<TransactionId, C>;

    closed spec fn view(&self) -> Map<TransactionId, C> {
        self.pending@
    }
}

/// The transaction that a message belongs to.
pub open spec fn transaction_of(kind: MessageKind) -> Option<TransactionId> {
    match kind {
        MessageKind::Response { transaction_id } => Some(transaction_id),
        MessageKind::Error { transaction_id } => Some(transaction_id),
        MessageKind::Query => None,
    }
}

impl<C> DhtRpc<C> {
    /// No transaction is pending twice.
    pub closed spec fn wf(&self) -> bool {
        self.pending.wf()
    }

    /// No queries in flight.
    pub fn new() -> (r: DhtRpc<C>)
        ensures
            r.wf(),
            r@ == Map::<TransactionId, C>::empty(),
    {
        DhtRpc { pending: VecMap::new() }
    }

    /// A query is about to be sent. Whoever waited under the same transaction
    /// waits no longer.
    pub fn begin(&mut self, transaction_id: TransactionId, waiting: C)
        requires
            old(self).wf(),
        ensures
            final(self).wf(),
            final(self)@ == old(self)@.insert(transaction_id, waiting),
    {
        self.pending.insert(transaction_id, waiting);
    }

    /// A query could not be sent, or nobody waits for it any more.
    pub fn abandon(&mut self, transaction_id: TransactionId)
        requires
            old(self).wf(),
        ensures
            final(self).wf(),
            final(self)@ == old(self)@.remove(transaction_id),
    {
        self.pending.remove(&transaction_id);
    }

    /// A message arrived: an answer goes to the one who waits for it, once.
    pub fn on_message(&mut self, kind: MessageKind) -> (a: RpcAction<C>)
        requires
            old(self).wf(),
        ensures
            final(self).wf(),
            match transaction_of(kind) {
                Some(t) => {
                    &&& final(self)@ == old(self)@.remove(t)
                    &&& match a {
                        RpcAction::Deliver { waiting } => old(self)@.contains_key(t) && waiting
                            == old(self)@[t],
                        RpcAction::Answer => false,
                        RpcAction::Ignore => !old(self)@.contains_key(t),
                    }
                },
                None => a is Answer && final(self)@ == old(self)@,
            },
    {
        let t: TransactionId = match kind {
            MessageKind::Response { transaction_id } => transaction_id,
            MessageKind::Error { transaction_id } => transaction_id,
            MessageKind::Query => {
                return RpcAction::Answer;
            },
        };
        match self.pending.remove(&t) {
            Some(waiting) => RpcAction::Deliver { waiting },
            None => RpcAction::Ignore,
        }
    }
}

/// A message belongs to the transaction that it names; a query of another node
/// belongs to none of ours.
pub proof fn law_transaction(kind: MessageKind, t: TransactionId)
    ensures
        transaction_of(kind) == Some(t) <==> kind == (MessageKind::Response { transaction_id: t })
            || kind == (MessageKind::Error { transaction_id: t }),
        transaction_of(kind) is None <==> kind is Query,
{
}

} // verus!
