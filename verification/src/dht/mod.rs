//! The distributed hash table: lookups, answers to queries, and the table of
//! queries in flight.

pub mod node;
pub mod query;
pub mod rpc;
