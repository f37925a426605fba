//! An embedded property graph database: pages in one data file, a log beside
//! it, B+trees on the pages, transactions over the trees, a graph in the
//! transactions, and a subset of Cypher to query it.
//!
//! The library computes on values: the pages of the data file and the bytes of
//! the log are handed in and out, and the program around it stores them.

pub mod bignum;
pub mod bytes;
pub mod cache;
pub mod check;
pub mod checksum;
pub mod cypher;
pub mod datafile;
pub mod error;
pub mod float;
pub mod freelist;
pub mod graph;
pub mod meta;
pub mod model;
pub mod mvcc;
pub mod node;
pub mod numtext;
pub mod page;
pub mod pager;
pub mod shell;
pub mod storage;
pub mod text;
pub mod tree;
pub mod wal;
pub mod workload;

pub use crate::cypher::executor::{
    execute_read, execute_write, try_execute_write, QueryResult, QueryStats,
};
pub use crate::cypher::CypherError;
pub use crate::graph::db::GraphDb;
pub use crate::graph::read_txn::GraphReadTxn;
pub use crate::graph::types::{Direction, Edge, EdgeId, Node, NodeId, Properties, Value};
pub use crate::graph::write_txn::GraphWriteTxn;
pub use crate::graph::GraphError;
