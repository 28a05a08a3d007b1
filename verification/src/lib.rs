//! An asynchronous key-value store core: an in-memory authoritative map,
//! a write-coalescing operation merger, and the pure planning half of a
//! background persistence worker.
//!
//! Keys are strings, values are byte blobs.  Reads are served from memory;
//! mutations are mirrored to memory synchronously and folded into a minimal
//! net-effect operation set that a background worker applies to a durable
//! backend (one stored unit per key).  The surrounding plumbing (locks,
//! channels, the worker thread, file I/O) lives outside this crate; this
//! crate holds the data model and every decision the plumbing acts on.

pub mod memdb;
pub mod ops;
pub mod persist;
pub mod smap;

pub use memdb::MenoryDb;
pub use ops::DbOp;
pub use ops::DbOpMerger;
pub use ops::DbOps;
pub use smap::StrMap;
