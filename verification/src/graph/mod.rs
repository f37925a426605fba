//! The property graph on top of transactions.

pub mod codec;
pub mod db;
pub mod keys;
pub mod laws;
pub mod read_txn;
pub mod state;
pub mod types;
pub mod view;
pub mod write_txn;

use crate::graph::types::{EdgeId, NodeId};
use crate::mvcc::MvccError;
use vstd::prelude::*;

verus! {

/// Errors of the graph.
#[derive(Debug, PartialEq, Eq)]
pub enum GraphError {
    Mvcc(MvccError),
    /// A stored record cannot be read, or one cannot be written.
    Serialization(String),
    NodeNotFound(NodeId),
    EdgeNotFound(EdgeId),
    /// The file is no graph database.
    InvalidDatabase(String),
}

/// An error of the graph, as a value; the wording of a record error is left open.
pub enum GraphErr {
    Mvcc(MvccError),
    Serialization,
    NodeNotFound(u64),
    EdgeNotFound(u64),
    InvalidDatabase(Seq<char>),
}

impl View for GraphError {
    type V = GraphErr;

    open spec fn view(&self) -> GraphErr {
        match self {
            GraphError::Mvcc(e) => GraphErr::Mvcc(*e),
            GraphError::Serialization(_) => GraphErr::Serialization,
            GraphError::NodeNotFound(id) => GraphErr::NodeNotFound(*id),
            GraphError::EdgeNotFound(id) => GraphErr::EdgeNotFound(*id),
            GraphError::InvalidDatabase(s) => GraphErr::InvalidDatabase(s@),
        }
    }
}

} // verus!
