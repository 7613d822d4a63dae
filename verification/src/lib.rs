//! Connection analysis between ledger account addresses.
//!
//! The crate turns a collection of retrieved transaction records into an
//! undirected co-occurrence graph over account addresses and searches that
//! graph for a connecting path between two addresses, bounded in depth.
//! Retrieval itself (network calls, pagination, address validation) is left
//! to the surrounding program; the pagination bookkeeping it needs is the
//! state machine in [`history`].

pub mod graph;
pub mod history;
pub mod paths;
pub mod record;
