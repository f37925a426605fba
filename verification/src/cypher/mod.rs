//! A subset of the query language Cypher.

pub mod ast;
pub mod changes;
pub mod chars;
pub mod conditions;
pub mod env;
pub mod executor;
pub mod grammar;
pub mod laws;
pub mod lexer;
pub mod limits;
pub mod notation;
pub mod parser;
pub mod query;
pub mod results;
pub mod spelling;
pub mod texts;
pub mod values;
pub mod walks;

use crate::graph::{GraphErr, GraphError};
use vstd::prelude::*;

verus! {

/// Errors of queries.
#[derive(Debug, PartialEq, Eq)]
pub enum CypherError {
    /// The text is no sequence of tokens.
    Lex(String),
    /// The tokens are no statement.
    Parse(String),
    /// The statement cannot be executed.
    Execution(String),
    /// The graph gave an error.
    Graph(GraphError),
}

/// An error of a query, as a value.
pub enum CypherErr {
    Lex(Seq<char>),
    Parse(Seq<char>),
    Execution(Seq<char>),
    Graph(GraphErr),
}

impl View for CypherError {
    type V = CypherErr;

    open spec fn view(&self) -> CypherErr {
        match self {
            CypherError::Lex(s) => CypherErr::Lex(s@),
            CypherError::Parse(s) => CypherErr::Parse(s@),
            CypherError::Execution(s) => CypherErr::Execution(s@),
            CypherError::Graph(e) => CypherErr::Graph(e@),
        }
    }
}

} // verus!
