//! An in-memory key-value store spoken to over a framed binary protocol.
//!
//! `protocol` holds the incremental frame decoder and the response encoder,
//! `db` the verified key-value map and the per-command transition it makes,
//! `shard_router` the key-to-shard assignment, and `simple` a minimal
//! unframed request format. All byte-level parsing and the store transitions
//! are verified; the surrounding socket and task plumbing lives outside the
//! library and hands it plain byte vectors.

pub mod db;
pub mod protocol;
pub mod shard_router;
pub mod simple;
