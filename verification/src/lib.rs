//! A minimal embedded key/value store backed by a single append-only log.
//!
//! The store keeps an in-memory index from keys to byte locations inside the
//! log, and can rebuild that index by replaying the log from its header.
//! The log itself is held as a plain byte vector; an embedder that wants the
//! store on disk reads the file into bytes before `reopen` and writes the
//! bytes back after mutating.

pub mod codec;
pub mod model;
pub mod store;
pub mod laws;

pub use crate::store::Error;
pub use crate::store::KVStore;
pub use crate::store::Store;
