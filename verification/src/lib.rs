//! A two-party file-synchronization engine: content-addressed snapshots of a
//! directory tree, a deterministic diff between snapshots, per-path transfer
//! decisions, and a chunked streaming transfer protocol.
pub mod config;
pub mod pathcmp;
pub mod protocol;
pub mod session;
pub mod snapshot;
pub mod chunk;
pub mod diff;
