//! An embedded, hash-indexed, log-structured key-value store.
//!
//! [`cask::Cask`] follows the classic Bitcask design: an append-only log of
//! records on a pluggable file system, an in-memory index (the keydir) that
//! maps each live key to the location of its most recent record, and a
//! sans-I/O compaction state machine that reclaims space from superseded
//! records. The store is generic over [`fs::FileSystem`], so a deterministic
//! in-memory file system ([`test::TestFileSystem`]) can stand in for a disk.

pub mod cask;
pub mod compactor;
pub mod fs;
pub mod keydir;
pub mod laws;
pub mod replay;
pub mod repr;
pub mod test;

pub use cask::Cask;
pub use cask::CaskError;
pub use cask::ClockSource;
pub use cask::Config;
pub use cask::System;
pub use fs::FileSystem;
