//! A versioned, partitioned key-value storage layer over a pluggable
//! single-version key-value backend.
//!
//! Keys are sharded into fixed-size partitions by a content hash; each
//! partition's live entries are bundled into a `Pack` persisted at the
//! version that last wrote it; an `Index` maps partitions to those
//! versions; a `CommitStateInner` tracks the version lineage; a `Tree`
//! is a transaction bound to one version; `VStore` orchestrates the
//! lifecycle and cross-version diffs.

pub mod codec;
pub mod commit;
pub mod diff;
pub mod error;
pub mod fsnode;
pub mod hash;
pub mod index;
pub mod kv;
pub mod pack;
pub mod tree;
pub mod vstore;

pub use error::{Error, KvError};
pub use kv::{KeyValue, MemKV};
pub use tree::{ImmutableTree, Tree};
pub use vstore::VStore;
