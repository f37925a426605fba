//! The layers below the graph, under one name.

pub use crate::error::{BTreeError, PagerError};
pub use crate::meta::Meta;
pub use crate::mvcc::database::Database;
pub use crate::mvcc::txn::{ReadTxn, WriteTxn};
pub use crate::mvcc::{MvccError, TreeId};
pub use crate::page::{PageId, PageType, PAGE_SIZE};
pub use crate::pager::Pager;
pub use crate::tree::BTree;
pub use crate::wal::reader::WalReader;
pub use crate::wal::record::WalRecord;
pub use crate::wal::recovery::{recover, RecoveryAction};
pub use crate::wal::writer::WalWriter;
pub use crate::wal::WalError;
