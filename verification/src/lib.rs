//! A verified key-value persistence engine: an in-memory index backed by an
//! append-only log of `key SEP value NL` records, with startup replay and
//! shutdown compaction. The unverified shell owns the actual file and the
//! HTTP transport; it hands this library plain bytes and appends what the
//! engine returns.

pub mod bytes;
pub mod codec;
pub mod engine;
pub mod errors;
pub mod index;
pub mod laws;
pub mod log;
