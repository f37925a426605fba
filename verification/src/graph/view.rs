//! Reading a graph through any kind of transaction.

use crate::bytes::lemma_be64_round_trip;
use crate::graph::{GraphErr, GraphError};
use crate::graph::codec::{decode_edge, decode_node};
use crate::graph::keys::{
    adj_dir_end, adj_dir_start, adj_prefix_end, adj_prefix_start, decode_adjacency_key,
    decode_label_key, hash_str, label_prefix_end, label_prefix_start, number_key,
};
use crate::graph::state::{
    adj_target, edge_at, graph_of, graph_ok, has_graph, labelled, lemma_range_of, neighbors_of,
    node_at, ADJACENCY_TREE, EDGES_TREE, LABEL_INDEX_TREE, NODES_TREE,
};
use crate::graph::types::{Direction, Edge, EdgeId, EdgeVal, Node, NodeId, NodeVal};
use crate::model::is_range;
use crate::mvcc::{MvccError, TreeId};
use crate::mvcc::store::Tables;
use crate::mvcc::txn::{get_outcome, range_outcome, ReadTxn, WriteTxn};
use crate::tree::{pairs, result_view};
use vstd::prelude::*;

verus! {

broadcast use crate::bytes::group_byte_lengths;

/// Anything that the trees of a database can be read from.
pub trait TableSource {
    /// The contents of the trees.
    spec fn source_tables(&self) -> Tables;

    /// Whether the trees can be read.
    spec fn source_ready(&self) -> bool;

    /// Point lookup in a tree.
    fn lookup(&self, tree_id: TreeId, key: &[u8]) -> (r: Result<Option<Vec<u8>>, MvccError>)
        requires
            self.source_ready(),
        ensures
            result_view(r) == get_outcome(self.source_tables(), tree_id, key@),
    ;

    /// Inclusive range scan over a tree.
    fn scan(&self, tree_id: TreeId, start: &[u8], end: &[u8]) -> (r: Result<
        Vec<(Vec<u8>, Vec<u8>)>,
        MvccError,
    >)
        requires
            self.source_ready(),
        ensures
            range_outcome(self.source_tables(), tree_id, start@, end@, r),
    ;
}

impl<'db> TableSource for ReadTxn<'db> {
    open spec fn source_tables(&self) -> Tables {
        self.tables()
    }

    open spec fn source_ready(&self) -> bool {
        self.wf()
    }

    fn lookup(&self, tree_id: TreeId, key: &[u8]) -> (r: Result<Option<Vec<u8>>, MvccError>) {
        self.get(tree_id, key)
    }

    fn scan(&self, tree_id: TreeId, start: &[u8], end: &[u8]) -> (r: Result<
        Vec<(Vec<u8>, Vec<u8>)>,
        MvccError,
    >) {
        self.range(tree_id, start, end)
    }
}

impl<'db> TableSource for WriteTxn<'db> {
    open spec fn source_tables(&self) -> Tables {
        self.tables()
    }

    open spec fn source_ready(&self) -> bool {
        self.wf()
    }

    fn lookup(&self, tree_id: TreeId, key: &[u8]) -> (r: Result<Option<Vec<u8>>, MvccError>) {
        self.get(tree_id, key)
    }

    fn scan(&self, tree_id: TreeId, start: &[u8], end: &[u8]) -> (r: Result<
        Vec<(Vec<u8>, Vec<u8>)>,
        MvccError,
    >) {
        self.range(tree_id, start, end)
    }
}

/// A node that may be missing, as a value.
pub open spec fn node_result(r: Result<Option<Node>, GraphError>) -> Result<
    Option<NodeVal>,
    GraphErr,
> {
    match r {
        Ok(Some(n)) => Ok(Some(n@)),
        Ok(None) => Ok(None),
        Err(e) => Err(e@),
    }
}

/// An edge that may be missing, as a value.
pub open spec fn edge_result(r: Result<Option<Edge>, GraphError>) -> Result<
    Option<EdgeVal>,
    GraphErr,
> {
    match r {
        Ok(Some(n)) => Ok(Some(n@)),
        Ok(None) => Ok(None),
        Err(e) => Err(e@),
    }
}

/// Whether a source holds a graph.
pub open spec fn holds_graph<T: TableSource>(src: T) -> bool {
    &&& src.source_ready()
    &&& has_graph(src.source_tables())
    &&& graph_ok(graph_of(src.source_tables()))
}

/// Reads a node.
pub fn read_node<T: TableSource>(src: &T, id: NodeId) -> (r: Result<Option<Node>, GraphError>)
    requires
        holds_graph(*src),
    ensures
        node_result(r) == node_at(graph_of(src.source_tables()), id),
{
    let key = number_key(id);
    proof {
        lemma_be64_round_trip(id);
    }
    match src.lookup(TreeId(NODES_TREE), key.as_slice()) {
        Ok(Some(data)) => match decode_node(data.as_slice()) {
            Ok(rec) => Ok(Some(Node { id, label: rec.label, properties: rec.props })),
            Err(e) => Err(e),
        },
        Ok(None) => Ok(None),
        Err(e) => Err(GraphError::Mvcc(e)),
    }
}

/// Reads an edge.
pub fn read_edge<T: TableSource>(src: &T, id: EdgeId) -> (r: Result<Option<Edge>, GraphError>)
    requires
        holds_graph(*src),
    ensures
        edge_result(r) == edge_at(graph_of(src.source_tables()), id),
{
    let key = number_key(id);
    proof {
        lemma_be64_round_trip(id);
    }
    match src.lookup(TreeId(EDGES_TREE), key.as_slice()) {
        Ok(Some(data)) => match decode_edge(data.as_slice()) {
            Ok(rec) => Ok(
                Some(
                    Edge {
                        id,
                        src: rec.src,
                        dst: rec.dst,
                        edge_type: rec.edge_type,
                        properties: rec.props,
                    },
                ),
            ),
            Err(e) => Err(e),
        },
        Ok(None) => Ok(None),
        Err(e) => Err(GraphError::Mvcc(e)),
    }
}

/// A text that may be missing, as a value.
pub open spec fn opt_text(t: Option<&str>) -> Option<Seq<char>> {
    match t {
        Some(s) => Some(s@),
        None => None,
    }
}

/// Lists the edges of a node in a direction with the nodes at their other ends.
pub fn read_neighbors<T: TableSource>(
    src: &T,
    node_id: NodeId,
    direction: Direction,
    edge_type: Option<&str>,
) -> (r: Result<Vec<(EdgeId, NodeId)>, GraphError>)
    requires
        holds_graph(*src),
    ensures
        r matches Ok(v) && v@ == neighbors_of(
            graph_of(src.source_tables()),
            node_id,
            direction,
            opt_text(edge_type),
        ),
{
    let (start, end) = match edge_type {
        Some(t) => {
            let h: u32 = hash_str(t);
            (adj_prefix_start(node_id, direction, h), adj_prefix_end(node_id, direction, h))
        },
        None => (adj_dir_start(node_id, direction), adj_dir_end(node_id, direction)),
    };
    let ghost g = graph_of(src.source_tables());
    let entries = match src.scan(TreeId(ADJACENCY_TREE), start.as_slice(), end.as_slice()) {
        Ok(e) => e,
        Err(e) => {
            return Err(GraphError::Mvcc(e));
        },
    };
    let ghost s = pairs(entries@);
    proof {
        lemma_range_of(s, g.adj, start@, end@);
    }
    let mut results: Vec<(EdgeId, NodeId)> = Vec::new();
    let mut i: usize = 0;
    while i < entries.len()
        invariant
            s == pairs(entries@),
            graph_ok(g),
            is_range(s, g.adj, start@, end@),
            i <= entries@.len(),
            results@.len() == i,
            forall|j: int| 0 <= j < i ==> #[trigger] results@[j] == adj_target(s[j].0),
        decreases entries@.len() - i,
    {
        proof {
            assert(s[i as int] == (entries@[i as int].0@, entries@[i as int].1@));
            assert(s.contains((s[i as int].0, s[i as int].1)));
            assert(g.adj.contains_key(s[i as int].0));
        }
        let (_, _, _, dst, edge_id) = decode_adjacency_key(entries[i].0.as_slice());
        results.push((edge_id, dst));
        i = i + 1;
    }
    assert(results@ =~= neighbors_of(g, node_id, direction, opt_text(edge_type)));
    Ok(results)
}

/// Lists the nodes with a label.
pub fn read_nodes_by_label<T: TableSource>(src: &T, label: &str) -> (r: Result<
    Vec<NodeId>,
    GraphError,
>)
    requires
        holds_graph(*src),
    ensures
        r matches Ok(v) && v@ == labelled(graph_of(src.source_tables()), label@),
{
    let h: u32 = hash_str(label);
    let start = label_prefix_start(h);
    let end = label_prefix_end(h);
    let ghost g = graph_of(src.source_tables());
    let entries = match src.scan(TreeId(LABEL_INDEX_TREE), start.as_slice(), end.as_slice()) {
        Ok(e) => e,
        Err(e) => {
            return Err(GraphError::Mvcc(e));
        },
    };
    let ghost s = pairs(entries@);
    proof {
        lemma_range_of(s, g.labels, start@, end@);
    }
    let mut results: Vec<NodeId> = Vec::new();
    let mut i: usize = 0;
    while i < entries.len()
        invariant
            s == pairs(entries@),
            graph_ok(g),
            is_range(s, g.labels, start@, end@),
            i <= entries@.len(),
            results@.len() == i,
            forall|j: int|
                0 <= j < i ==> #[trigger] results@[j] == crate::bytes::be64(s[j].0, 4) as u64,
        decreases entries@.len() - i,
    {
        proof {
            assert(s[i as int] == (entries@[i as int].0@, entries@[i as int].1@));
            assert(s.contains((s[i as int].0, s[i as int].1)));
            assert(g.labels.contains_key(s[i as int].0));
        }
        let (_, node_id) = decode_label_key(entries[i].0.as_slice());
        results.push(node_id);
        i = i + 1;
    }
    assert(results@ =~= labelled(g, label@));
    Ok(results)
}

} // verus!
