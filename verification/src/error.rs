//! The errors of the storage layers.

use vstd::prelude::*;

verus! {

/// Why an access to a file failed.
#[derive(Debug, Clone, Copy, PartialEq, Eq, Structural)]
pub enum IoError {
    /// The file ends before the bytes that were asked for.
    UnexpectedEof,
    /// The operating system refused, with its error number.
    Os(i32),
}

/// Errors of the pager.
#[derive(Debug, Clone, Copy, PartialEq, Eq, Structural)]
pub enum PagerError {
    /// An access to the data file failed.
    Io(IoError),
    /// Neither meta page has a valid checksum.
    CorruptMeta,
    /// No such page.
    InvalidPageId(u32),
    /// A checksum does not match.
    ChecksumMismatch,
}

/// Errors of the B+tree.
#[derive(Debug, Clone, Copy, PartialEq, Eq, Structural)]
pub enum BTreeError {
    Pager(PagerError),
    /// The key is too long: its length, and the longest allowed.
    KeyTooLarge(usize, usize),
    /// The value is too long: its length, and the longest allowed.
    ValueTooLarge(usize, usize),
    /// A page does not hold a readable tree node.
    CorruptNode,
}

} // verus!
