//! A single-writer, persistent key/value store in the Bitcask style: an
//! append-only on-disk log of records plus an in-memory index (the keydir)
//! that maps each live key to the location of its most recent value.
//!
//! This crate holds the verified core: the record codec with its integrity
//! hash, the keydir, the segment file naming, the mathematical model of the
//! on-disk log, and the engine state machine that decides rotation,
//! resolves reads and rebuilds the index from disk contents. The
//! surrounding process performs the file system work and feeds the results
//! back in as plain byte vectors.

pub mod bytes;
pub mod engine;
pub mod errors;
pub mod keydir;
pub mod log;
pub mod record;
pub mod segment;
