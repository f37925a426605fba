//! The mathematical model of a graph: five tables, and what each operation
//! reads from them and does to them.

use crate::bytes::{
    be32, be64, be64_bytes, key_lt, le64, le64_bytes, lemma_key_asymmetric, lemma_key_irreflexive,
};
use crate::error::BTreeError;
use crate::graph::codec::{dec_edge, dec_node, enc_edge, enc_node};
use crate::graph::GraphErr;
use crate::graph::keys::{adj_key, hash_of, label_key, opposite, ADJ_KEY_LEN, LABEL_KEY_LEN};
use crate::graph::types::{
    prop_set, Direction, EdgeRec, EdgeVal, NodeRec, NodeVal, Props, Val,
};
use crate::model::{is_range, MAX_VALUE_SIZE};
use crate::mvcc::MvccError;
use crate::mvcc::store::{Table, Tables};
use crate::node::keys_of;
use vstd::prelude::*;

verus! {

broadcast use crate::bytes::group_byte_lengths;

/// The tree of counters and of the marker.
pub const META_TREE: u32 = 1;

/// The tree of node records.
pub const NODES_TREE: u32 = 2;

/// The tree of edge records.
pub const EDGES_TREE: u32 = 3;

/// The tree of adjacency keys.
pub const ADJACENCY_TREE: u32 = 4;

/// The tree of label keys.
pub const LABEL_INDEX_TREE: u32 = 5;

/// The key `magic`.
pub const MAGIC_KEY: [u8; 5] = [109, 97, 103, 105, 99];

/// The marker `gemgraph_v1`.
pub const MAGIC: [u8; 11] = [103, 101, 109, 103, 114, 97, 112, 104, 95, 118, 49];

/// The key `next_node_id`.
pub const NEXT_NODE_KEY: [u8; 12] = [110, 101, 120, 116, 95, 110, 111, 100, 101, 95, 105, 100];

/// The key `next_edge_id`.
pub const NEXT_EDGE_KEY: [u8; 12] = [110, 101, 120, 116, 95, 101, 100, 103, 101, 95, 105, 100];

/// The tables of a graph.
#[verifier::ext_equal]
pub struct GraphState {
    pub meta: Table,
    pub nodes: Table,
    pub edges: Table,
    pub adj: Table,
    pub labels: Table,
}

/// Whether the trees of a graph are there.
pub open spec fn has_graph(t: Tables) -> bool {
    &&& t.contains_key(META_TREE)
    &&& t.contains_key(NODES_TREE)
    &&& t.contains_key(EDGES_TREE)
    &&& t.contains_key(ADJACENCY_TREE)
    &&& t.contains_key(LABEL_INDEX_TREE)
}

/// The graph in the trees of a database.
pub open spec fn graph_of(t: Tables) -> GraphState {
    GraphState {
        meta: t[META_TREE],
        nodes: t[NODES_TREE],
        edges: t[EDGES_TREE],
        adj: t[ADJACENCY_TREE],
        labels: t[LABEL_INDEX_TREE],
    }
}

/// Whether the counters are there and the index keys have their lengths.
pub open spec fn graph_ok(g: GraphState) -> bool {
    &&& g.meta.contains_key(NEXT_NODE_KEY@) && g.meta[NEXT_NODE_KEY@].len() == 8
    &&& g.meta.contains_key(NEXT_EDGE_KEY@) && g.meta[NEXT_EDGE_KEY@].len() == 8
    &&& forall|k: Seq<u8>| #[trigger] g.adj.contains_key(k) ==> k.len() == ADJ_KEY_LEN
    &&& forall|k: Seq<u8>| #[trigger] g.labels.contains_key(k) ==> k.len() == LABEL_KEY_LEN
}

/// The entries of a table between two keys, in ascending order.
pub open spec fn range_of(m: Table, start: Seq<u8>, end: Seq<u8>) -> Seq<(Seq<u8>, Seq<u8>)> {
    choose|s: Seq<(Seq<u8>, Seq<u8>)>| #[trigger] is_range(s, m, start, end)
}

/// The scan of a table between two keys has one result.
pub proof fn lemma_range_unique(
    m: Table,
    start: Seq<u8>,
    end: Seq<u8>,
    a: Seq<(Seq<u8>, Seq<u8>)>,
    b: Seq<(Seq<u8>, Seq<u8>)>,
)
    requires
        is_range(a, m, start, end),
        is_range(b, m, start, end),
    ensures
        a == b,
{
    assert forall|i: int| 0 <= i < a.len() && i < b.len() implies a[i] == b[i] by {
        lemma_range_prefix(m, start, end, a, b, i);
    }
    lemma_range_longer(m, start, end, a, b);
    lemma_range_longer(m, start, end, b, a);
    assert(a =~= b);
}

proof fn lemma_range_member(
    m: Table,
    start: Seq<u8>,
    end: Seq<u8>,
    a: Seq<(Seq<u8>, Seq<u8>)>,
    b: Seq<(Seq<u8>, Seq<u8>)>,
    i: int,
) -> (j: int)
    requires
        is_range(a, m, start, end),
        is_range(b, m, start, end),
        0 <= i < a.len(),
    ensures
        0 <= j < b.len(),
        b[j] == a[i],
{
    let e = a[i];
    assert(a.contains((e.0, e.1)));
    assert(b.contains((e.0, e.1)));
    b.index_of((e.0, e.1))
}

proof fn lemma_range_prefix(
    m: Table,
    start: Seq<u8>,
    end: Seq<u8>,
    a: Seq<(Seq<u8>, Seq<u8>)>,
    b: Seq<(Seq<u8>, Seq<u8>)>,
    i: int,
)
    requires
        is_range(a, m, start, end),
        is_range(b, m, start, end),
        0 <= i < a.len(),
        i < b.len(),
    ensures
        a[i] == b[i],
    decreases i,
{
    let ka = keys_of(a);
    let kb = keys_of(b);
    let j = lemma_range_member(m, start, end, a, b, i);
    let k = lemma_range_member(m, start, end, b, a, i);
    if j < i {
        lemma_range_prefix(m, start, end, a, b, j);
        assert(key_lt(ka[j], ka[i]));
        lemma_key_irreflexive(ka[i]);
    }
    if k < i {
        lemma_range_prefix(m, start, end, a, b, k);
        assert(key_lt(kb[k], kb[i]));
        lemma_key_irreflexive(kb[i]);
    }
    if j > i && k > i {
        assert(key_lt(kb[i], kb[j]));
        assert(key_lt(ka[i], ka[k]));
        lemma_key_asymmetric(kb[i], ka[i]);
    }
}

proof fn lemma_range_longer(
    m: Table,
    start: Seq<u8>,
    end: Seq<u8>,
    a: Seq<(Seq<u8>, Seq<u8>)>,
    b: Seq<(Seq<u8>, Seq<u8>)>,
)
    requires
        is_range(a, m, start, end),
        is_range(b, m, start, end),
    ensures
        a.len() >= b.len(),
{
    if a.len() < b.len() {
    let i = a.len() as int;
    let j = lemma_range_member(m, start, end, b, a, i);
    lemma_range_prefix(m, start, end, a, b, j);
    assert(key_lt(keys_of(b)[j], keys_of(b)[i]));
    lemma_key_irreflexive(keys_of(b)[i]);
    }
}

/// A scan result is the one that the table has.
pub proof fn lemma_range_of(
    s: Seq<(Seq<u8>, Seq<u8>)>,
    m: Table,
    start: Seq<u8>,
    end: Seq<u8>,
)
    requires
        is_range(s, m, start, end),
    ensures
        range_of(m, start, end) == s,
        is_range(range_of(m, start, end), m, start, end),
{
    lemma_range_unique(m, start, end, range_of(m, start, end), s);
}

// ---------------------------------------------------------------------------
// Reading
// ---------------------------------------------------------------------------

/// The node with a number.
pub open spec fn node_at(g: GraphState, id: u64) -> Result<Option<NodeVal>, GraphErr> {
    if !g.nodes.contains_key(be64_bytes(id)) {
        Ok(None)
    } else {
        match dec_node(g.nodes[be64_bytes(id)]) {
            None => Err(GraphErr::Serialization),
            Some(r) => Ok(Some(NodeVal { id, label: r.label, props: r.props })),
        }
    }
}

/// The edge with a number.
pub open spec fn edge_at(g: GraphState, id: u64) -> Result<Option<EdgeVal>, GraphErr> {
    if !g.edges.contains_key(be64_bytes(id)) {
        Ok(None)
    } else {
        match dec_edge(g.edges[be64_bytes(id)]) {
            None => Err(GraphErr::Serialization),
            Some(r) => Ok(
                Some(
                    EdgeVal { id, src: r.src, dst: r.dst, edge_type: r.edge_type, props: r.props },
                ),
            ),
        }
    }
}

/// The adjacency entries of a node in a direction, of one type or of all.
pub open spec fn adj_entries(
    adj: Table,
    node: u64,
    dir: Direction,
    edge_type: Option<Seq<char>>,
) -> Seq<(Seq<u8>, Seq<u8>)> {
    match edge_type {
        Some(t) => range_of(
            adj,
            adj_key(node, dir, hash_of(t), 0, 0),
            adj_key(node, dir, hash_of(t), u64::MAX, u64::MAX),
        ),
        None => range_of(
            adj,
            adj_key(node, dir, 0, 0, 0),
            adj_key(node, dir, u32::MAX, u64::MAX, u64::MAX),
        ),
    }
}

/// The edge and the node at its other end that an adjacency key names.
pub open spec fn adj_target(k: Seq<u8>) -> (u64, u64) {
    (be64(k, 21) as u64, be64(k, 13) as u64)
}

/// The edges of a node in a direction with the nodes at their other ends, in
/// the order of the adjacency keys. Types are told apart by their hash.
pub open spec fn neighbors_of(
    g: GraphState,
    node: u64,
    dir: Direction,
    edge_type: Option<Seq<char>>,
) -> Seq<(u64, u64)> {
    let s = adj_entries(g.adj, node, dir, edge_type);
    Seq::new(s.len(), |i: int| adj_target(s[i].0))
}

/// The nodes with a label in ascending order. Labels are told apart by their
/// hash.
pub open spec fn labelled(g: GraphState, label: Seq<char>) -> Seq<u64> {
    let s = range_of(
        g.labels,
        label_key(hash_of(label), 0),
        label_key(hash_of(label), u64::MAX),
    );
    Seq::new(s.len(), |i: int| be64(s[i].0, 4) as u64)
}

// ---------------------------------------------------------------------------
// Writing
// ---------------------------------------------------------------------------

/// The number of the next node.
pub open spec fn next_node(g: GraphState) -> u64 {
    le64(g.meta[NEXT_NODE_KEY@], 0) as u64
}

/// The number of the next edge.
pub open spec fn next_edge(g: GraphState) -> u64 {
    le64(g.meta[NEXT_EDGE_KEY@], 0) as u64
}

/// The error for a record that is too long to store.
pub open spec fn too_large(n: nat) -> GraphErr {
    GraphErr::Mvcc(MvccError::BTree(BTreeError::ValueTooLarge(n as usize, MAX_VALUE_SIZE)))
}

/// The graph after a node number was handed out.
pub open spec fn node_numbered(g: GraphState) -> GraphState {
    GraphState {
        meta: g.meta.insert(NEXT_NODE_KEY@, le64_bytes((next_node(g) + 1) as u64)),
        ..g
    }
}

/// The graph after an edge number was handed out.
pub open spec fn edge_numbered(g: GraphState) -> GraphState {
    GraphState {
        meta: g.meta.insert(NEXT_EDGE_KEY@, le64_bytes((next_edge(g) + 1) as u64)),
        ..g
    }
}

/// Creating a node: it takes the next number, its record is stored under that
/// number, and the label index gets an entry. A record that is too long is
/// refused after the number was taken.
pub open spec fn created_node(g: GraphState, label: Seq<char>, props: Props) -> (
    Result<u64, GraphErr>,
    GraphState,
) {
    let id = next_node(g);
    let g1 = node_numbered(g);
    let data = enc_node(NodeRec { label, props });
    if data.len() > MAX_VALUE_SIZE {
        (Err(too_large(data.len())), g1)
    } else {
        (
            Ok(id),
            GraphState {
                nodes: g1.nodes.insert(be64_bytes(id), data),
                labels: g1.labels.insert(label_key(hash_of(label), id), Seq::empty()),
                ..g1
            },
        )
    }
}

/// Creating an edge: both nodes must be there; it takes the next number, its
/// record is stored under that number, and both nodes get an adjacency entry.
pub open spec fn created_edge(
    g: GraphState,
    src: u64,
    dst: u64,
    edge_type: Seq<char>,
    props: Props,
) -> (Result<u64, GraphErr>, GraphState) {
    let id = next_edge(g);
    let g1 = edge_numbered(g);
    let data = enc_edge(EdgeRec { src, dst, edge_type, props });
    let h = hash_of(edge_type);
    if !g.nodes.contains_key(be64_bytes(src)) {
        (Err(GraphErr::NodeNotFound(src)), g)
    } else if !g.nodes.contains_key(be64_bytes(dst)) {
        (Err(GraphErr::NodeNotFound(dst)), g)
    } else if data.len() > MAX_VALUE_SIZE {
        (Err(too_large(data.len())), g1)
    } else {
        (
            Ok(id),
            GraphState {
                edges: g1.edges.insert(be64_bytes(id), data),
                adj: g1.adj.insert(adj_key(src, Direction::Out, h, dst, id), Seq::empty()).insert(
                    adj_key(dst, Direction::In, h, src, id),
                    Seq::empty(),
                ),
                ..g1
            },
        )
    }
}

/// The entry that stands at the other end for adjacency entry `k` of a node.
pub open spec fn mirror(k: Seq<u8>, node: u64, dir: Direction) -> Seq<u8> {
    adj_key(
        be64(k, 13) as u64,
        opposite(dir),
        be32(k, 9) as u32,
        node,
        be64(k, 21) as u64,
    )
}

/// The graph without the edges of some adjacency entries of a node: without
/// the entries, those at the other ends, and the edge records.
pub open spec fn unlinked(
    g: GraphState,
    s: Seq<(Seq<u8>, Seq<u8>)>,
    node: u64,
    dir: Direction,
) -> GraphState
    decreases s.len(),
{
    if s.len() == 0 {
        g
    } else {
        let g1 = unlinked(g, s.drop_last(), node, dir);
        let k = s.last().0;
        GraphState {
            adj: g1.adj.remove(mirror(k, node, dir)).remove(k),
            edges: g1.edges.remove(be64_bytes(be64(k, 21) as u64)),
            ..g1
        }
    }
}

/// Deleting a node: its label entry, its edges in both directions with all
/// their entries, and its record go.
pub open spec fn deleted_node(g: GraphState, id: u64) -> (Result<bool, GraphErr>, GraphState) {
    if !g.nodes.contains_key(be64_bytes(id)) {
        (Ok(false), g)
    } else {
        match dec_node(g.nodes[be64_bytes(id)]) {
            None => (Err(GraphErr::Serialization), g),
            Some(rec) => {
                let g1 = GraphState {
                    labels: g.labels.remove(label_key(hash_of(rec.label), id)),
                    ..g
                };
                let g2 = unlinked(
                    g1,
                    adj_entries(g1.adj, id, Direction::Out, None),
                    id,
                    Direction::Out,
                );
                let g3 = unlinked(
                    g2,
                    adj_entries(g2.adj, id, Direction::In, None),
                    id,
                    Direction::In,
                );
                (Ok(true), GraphState { nodes: g3.nodes.remove(be64_bytes(id)), ..g3 })
            },
        }
    }
}

/// Deleting an edge: its entries at both nodes and its record go.
pub open spec fn deleted_edge(g: GraphState, id: u64) -> (Result<bool, GraphErr>, GraphState) {
    if !g.edges.contains_key(be64_bytes(id)) {
        (Ok(false), g)
    } else {
        match dec_edge(g.edges[be64_bytes(id)]) {
            None => (Err(GraphErr::Serialization), g),
            Some(rec) => {
                let h = hash_of(rec.edge_type);
                (
                    Ok(true),
                    GraphState {
                        adj: g.adj.remove(
                            adj_key(rec.src, Direction::Out, h, rec.dst, id),
                        ).remove(adj_key(rec.dst, Direction::In, h, rec.src, id)),
                        edges: g.edges.remove(be64_bytes(id)),
                        ..g
                    },
                )
            },
        }
    }
}

/// Setting a property of a node.
pub open spec fn property_set(g: GraphState, id: u64, key: Seq<char>, v: Val) -> (
    Result<(), GraphErr>,
    GraphState,
) {
    if !g.nodes.contains_key(be64_bytes(id)) {
        (Err(GraphErr::NodeNotFound(id)), g)
    } else {
        match dec_node(g.nodes[be64_bytes(id)]) {
            None => (Err(GraphErr::Serialization), g),
            Some(rec) => {
                let data = enc_node(NodeRec { label: rec.label, props: prop_set(rec.props, key, v) });
                if data.len() > MAX_VALUE_SIZE {
                    (Err(too_large(data.len())), g)
                } else {
                    (
                        Ok(()),
                        GraphState { nodes: g.nodes.insert(be64_bytes(id), data), ..g },
                    )
                }
            },
        }
    }
}

} // verus!
