//! Transactions over several named trees in one data file.

pub mod audit;
pub mod catalog;
pub mod crash;
pub mod database;
pub mod laws;
pub mod store;
pub mod txn;

use crate::error::{BTreeError, IoError, PagerError};
use crate::wal::WalError;
use vstd::prelude::*;

verus! {

/// Identifies a user-created B+tree within the database.
#[derive(Debug, Clone, Copy, PartialEq, Eq, Hash, Structural)]
pub struct TreeId(pub u32);

/// Errors of databases and transactions.
#[derive(Debug, Clone, Copy, PartialEq, Eq, Structural)]
pub enum MvccError {
    Pager(PagerError),
    BTree(BTreeError),
    Wal(WalError),
    /// An access to a file failed.
    Io(IoError),
    /// There is no such tree.
    TreeNotFound(TreeId),
    /// There is a database at this path already.
    AlreadyExists,
    /// There is no database at this path.
    NotFound,
}

} // verus!
