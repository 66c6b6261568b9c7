//! An embedded, single-process, persistent key-value store.
//!
//! Every mutation is appended as one record to a log; an in-memory index maps
//! each live key to the byte range of the record that last set it. The engine
//! here works on the log *contents* (a byte vector) and reports, after each
//! mutation, what must be written to the backing file; the thin front end
//! around the library performs the file reads and writes.

use vstd::prelude::*;

pub mod codec;
pub mod index;
pub mod engine;

pub use engine::KvStore;
pub use engine::LogEffect;

verus! {

/// Errors surfaced by the store.
#[derive(Debug, Clone, Copy, PartialEq, Eq, Structural)]
pub enum KvError {
    /// An underlying file or I/O failure (raised by the front end, never by
    /// the in-memory engine itself).
    Io,
    /// The log holds bytes that cannot be parsed as a record, or a record
    /// reached through the index is not a set-record, or a stored value is
    /// not valid UTF-8.
    Corruption,
    /// `remove` was called on a key that is not present.
    KeyNotFound,
}

/// The three operations a command-line front end can request.
#[derive(Debug)]
pub enum Commands {
    Put { key: String, value: String },
    Get { key: String },
    Rm { key: String },
}

/// Once more than this many stale bytes accumulate in the log, the next
/// mutation triggers compaction. Deliberately small, so compaction is
/// exercised often.
pub const THRESHOLD: u64 = 100;

} // verus!
