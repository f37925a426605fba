//! The write-ahead log: an append-only file of checksummed records that is
//! replayed when a database is opened.

pub mod reader;
pub mod record;
pub mod recovery;
pub mod writer;

use crate::error::IoError;
use vstd::prelude::*;

verus! {

/// Errors produced by log operations.
#[derive(Debug, Clone, Copy, PartialEq, Eq, Structural)]
pub enum WalError {
    /// An access to the log file failed.
    Io(IoError),
    /// A record with a good checksum makes no sense.
    CorruptRecord,
    /// The log ends too early.
    UnexpectedEof,
}

} // verus!
