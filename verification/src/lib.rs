//! A content-addressed, deduplicating file archiver core.
//!
//! File contents are split into variable-length chunks at content-defined
//! boundaries, each chunk is addressed by a cryptographic digest of its
//! bytes, and distinct chunks are stored once, compressed, in a chunk
//! store.  A file record maps an archive name to its size and the ordered
//! list of chunk addresses; concatenating the addressed chunks in order
//! reproduces the original bytes exactly.

pub mod errors;
pub mod bytes;
pub mod encoding;
pub mod hasher;
pub mod chunker;
pub mod compress;
pub mod assoc;
pub mod sqlite;
pub mod store;
pub mod paths;
pub mod archive;

pub use errors::ArchiveError;
