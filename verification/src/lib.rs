//! A content-addressed, hash-linked directed acyclic graph of immutable nodes.
//!
//! Every node is identified by a digest of its payload and of the identifiers
//! of its children. Nodes live in an append-only store; a graph is the set of
//! root identifiers through which the store is entered. The crate offers
//! insertion, collection of every value that can be reached from the roots,
//! and the merge of two graphs over one store.

pub mod cid;
pub mod cid_set;
pub mod codec;
pub mod dag_syncer;
pub mod error;
pub mod graph;
pub mod merkle_dag;
pub mod node;
pub mod reach;
pub mod visited;
