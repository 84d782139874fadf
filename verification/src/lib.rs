//! An append-only, block-compressed timeseries store.
//!
//! Records are `(key, timestamp, format, value)` tuples.  They are packed,
//! one key run at a time, into compressed blocks; blocks are concatenated
//! into immutable segment files; a database directory holds an optional
//! `main` segment plus any number of transaction segments, and reads merge
//! all of them into one ordered stream.
//!
//! The library works on in-memory byte images of segment files.  Directory
//! listing, file reading and writing, locking, and the external filter
//! process live outside it; they hand byte images in and take byte images
//! out.

use vstd::prelude::*;

pub mod codec;
pub mod compress;
pub mod database;
pub mod laws;
pub mod merge;
pub mod order;
pub mod range;
pub mod record;
pub mod segment;
pub mod wire;

verus! {

/// Everything that the store can report instead of a result.
#[derive(Clone, Copy, PartialEq, Eq, Structural, Debug)]
pub enum Error {
    /// A segment image's trailer, index or a block failed to decode.
    CorruptSegment,
    /// A record was appended whose `(key, timestamp)` sorts before an
    /// earlier record of the same writer.
    OutOfOrder,
    /// A record was appended with the same `(key, timestamp)` as an earlier
    /// record of the same writer.
    DuplicateTimestamp,
    /// A record was appended under a key that the database already holds
    /// with a different format string.
    FormatMismatch,
    /// A value was handed in that is too short to carry its timestamp.
    ParseError,
}

} // verus!
