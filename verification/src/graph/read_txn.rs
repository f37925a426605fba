//! Read-only transactions on a graph.

use crate::graph::{GraphErr, GraphError};
use crate::graph::state::{edge_at, graph_of, labelled, neighbors_of, node_at, GraphState};
use crate::graph::types::{
    prop_get, Direction, Edge, EdgeId, Node, NodeId, Val, Value,
};
use crate::graph::view::{
    edge_result, holds_graph, node_result, opt_text, read_edge, read_neighbors, read_node,
    read_nodes_by_label,
};
use crate::mvcc::txn::ReadTxn;
use vstd::prelude::*;

verus! {

/// A read-only transaction on a graph.
pub struct GraphReadTxn<'db> {
    pub txn: ReadTxn<'db>,
}

/// A property of the node with a number, if both are there.
pub open spec fn property_at(g: GraphState, id: u64, key: Seq<char>) -> Result<
    Option<Val>,
    GraphErr,
> {
    match node_at(g, id) {
        Err(e) => Err(e),
        Ok(None) => Ok(None),
        Ok(Some(n)) => Ok(prop_get(n.props, key)),
    }
}

/// A value that may be missing, as a mathematical value.
pub open spec fn value_result(r: Result<Option<Value>, GraphError>) -> Result<
    Option<Val>,
    GraphErr,
> {
    match r {
        Ok(Some(v)) => Ok(Some(v@)),
        Ok(None) => Ok(None),
        Err(e) => Err(e@),
    }
}

impl<'db> GraphReadTxn<'db> {
    /// Whether the transaction holds a graph.
    pub open spec fn wf(&self) -> bool {
        holds_graph(self.txn)
    }

    /// The graph that this transaction sees.
    pub open spec fn graph(&self) -> GraphState {
        graph_of(self.txn.tables())
    }

    /// Reads a node.
    pub fn get_node(&self, id: NodeId) -> (r: Result<Option<Node>, GraphError>)
        requires
            self.wf(),
        ensures
            node_result(r) == node_at(self.graph(), id),
    {
        read_node(&self.txn, id)
    }

    /// Reads an edge.
    pub fn get_edge(&self, id: EdgeId) -> (r: Result<Option<Edge>, GraphError>)
        requires
            self.wf(),
        ensures
            edge_result(r) == edge_at(self.graph(), id),
    {
        read_edge(&self.txn, id)
    }

    /// Lists the edges of a node in a direction with the nodes at their other
    /// ends.
    pub fn neighbors(&self, node_id: NodeId, direction: Direction, edge_type: Option<&str>) -> (r:
        Result<Vec<(EdgeId, NodeId)>, GraphError>)
        requires
            self.wf(),
        ensures
            r matches Ok(v) && v@ == neighbors_of(
                self.graph(),
                node_id,
                direction,
                opt_text(edge_type),
            ),
    {
        read_neighbors(&self.txn, node_id, direction, edge_type)
    }

    /// Lists the nodes with a label.
    pub fn nodes_by_label(&self, label: &str) -> (r: Result<Vec<NodeId>, GraphError>)
        requires
            self.wf(),
        ensures
            r matches Ok(v) && v@ == labelled(self.graph(), label@),
    {
        read_nodes_by_label(&self.txn, label)
    }

    /// Reads a property of a node.
    pub fn get_node_property(&self, id: NodeId, key: &str) -> (r: Result<Option<Value>, GraphError>)
        requires
            self.wf(),
        ensures
            value_result(r) == property_at(self.graph(), id, key@),
    {
        match self.get_node(id) {
            Ok(Some(node)) => match node.properties.get(key) {
                Some(v) => Ok(Some(v.clone())),
                None => Ok(None),
            },
            Ok(None) => Ok(None),
            Err(e) => Err(e),
        }
    }
}

} // verus!
