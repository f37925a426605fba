//! Read-write transactions on a graph.

use crate::bytes::{le64_bytes, lemma_le64_round_trip, push_le64, read_le64};
use crate::error::PagerError;
use crate::graph::{GraphErr, GraphError};
use crate::graph::codec::{decode_edge, decode_node, encode_edge, encode_node};
use crate::graph::keys::{
    adj_dir_end, adj_dir_start, decode_adjacency_key, encode_adjacency_key, encode_label_key,
    hash_str, lemma_adj_key, lemma_label_key, number_key, opposite,
};
use crate::graph::state::{
    adj_entries, created_edge, created_node, deleted_edge, deleted_node, edge_at, edge_numbered,
    graph_of, graph_ok, labelled, lemma_range_of, neighbors_of, next_edge, next_node, node_at,
    node_numbered, property_set, unlinked, GraphState, ADJACENCY_TREE, EDGES_TREE,
    LABEL_INDEX_TREE, META_TREE, NEXT_EDGE_KEY, NEXT_NODE_KEY, NODES_TREE,
};
use crate::graph::types::{
    Direction, Edge, EdgeId, EdgeRecord, Node, NodeId, NodeRecord, Properties, Value,
};
use crate::graph::view::{
    edge_result, holds_graph, node_result, opt_text, read_edge, read_neighbors, read_node,
    read_nodes_by_label,
};
use crate::meta::Meta;
use crate::model::is_range;
use crate::mvcc::crash::logged;
use crate::mvcc::TreeId;
use crate::mvcc::txn::{commit_fits, same_base, WriteTxn, PAGES_PER_CHANGE};
use crate::pager::{committed, opened, PagerView};
use crate::text::copy_str;
use crate::tree::pairs;
use vstd::prelude::*;

verus! {

broadcast use crate::bytes::group_byte_lengths;

/// The most pages that creating a node takes.
pub const PAGES_PER_NODE: u32 = 204;

/// The most pages that creating an edge takes.
pub const PAGES_PER_EDGE: u32 = 272;

/// A read-write transaction on a graph. It sees its own changes.
pub struct GraphWriteTxn<'db> {
    pub txn: WriteTxn<'db>,
}

/// A result of the graph, as a value.
pub open spec fn outcome<T>(r: Result<T, GraphError>) -> Result<T, GraphErr> {
    match r {
        Ok(x) => Ok(x),
        Err(e) => Err(e@),
    }
}

/// A change inside a transaction: a number of pages at most, and nothing of
/// what the last commit fixed.
pub open spec fn step<'a, 'b>(a: GraphWriteTxn<'a>, b: GraphWriteTxn<'b>, pages: int) -> bool {
    &&& same_base(*a.txn.db, *b.txn.db)
    &&& b.txn.next_page() <= a.txn.next_page() + pages
}

impl<'db> GraphWriteTxn<'db> {
    /// Whether the transaction holds a graph.
    pub open spec fn wf(&self) -> bool {
        holds_graph(self.txn)
    }

    /// The graph as this transaction sees it.
    pub open spec fn graph(&self) -> GraphState {
        graph_of(self.txn.tables())
    }

    /// The number of the next new page.
    pub open spec fn next_page(&self) -> int {
        self.txn.next_page()
    }

    /// The number that the next node gets.
    pub fn next_node_id(&self) -> (r: u64)
        requires
            self.wf(),
        ensures
            r == next_node(self.graph()),
    {
        let key = NEXT_NODE_KEY;
        match self.txn.get(TreeId(META_TREE), key.as_slice()) {
            Ok(Some(v)) => read_le64(v.as_slice(), 0),
            _ => 0,
        }
    }

    /// The number that the next edge gets.
    pub fn next_edge_id(&self) -> (r: u64)
        requires
            self.wf(),
        ensures
            r == next_edge(self.graph()),
    {
        let key = NEXT_EDGE_KEY;
        match self.txn.get(TreeId(META_TREE), key.as_slice()) {
            Ok(Some(v)) => read_le64(v.as_slice(), 0),
            _ => 0,
        }
    }

    fn alloc_node_id(&mut self) -> (r: Result<NodeId, GraphError>)
        requires
            old(self).wf(),
            old(self).next_page() + PAGES_PER_CHANGE <= u32::MAX,
            next_node(old(self).graph()) < u64::MAX,
        ensures
            *final(final(self).txn.db) == *final(old(self).txn.db),
            final(self).wf(),
            step(*old(self), *final(self), PAGES_PER_CHANGE as int),
            r == Ok::<NodeId, GraphError>(next_node(old(self).graph())),
            final(self).graph() == node_numbered(old(self).graph()),
    {
        let key = NEXT_NODE_KEY;
        let raw = match self.txn.get(TreeId(META_TREE), key.as_slice()) {
            Ok(Some(v)) => v,
            Ok(None) => {
                return Err(GraphError::NodeNotFound(0));
            },
            Err(e) => {
                return Err(GraphError::Mvcc(e));
            },
        };
        let id: u64 = read_le64(raw.as_slice(), 0);
        let mut next: Vec<u8> = Vec::new();
        push_le64(&mut next, id + 1);
        proof {
            assert(next@ =~= le64_bytes((id + 1) as u64));
            lemma_le64_round_trip((id + 1) as u64);
        }
        match self.txn.insert(TreeId(META_TREE), key.as_slice(), next.as_slice()) {
            Ok(_) => {},
            Err(e) => {
                return Err(GraphError::Mvcc(e));
            },
        }
        assert(NEXT_NODE_KEY@[5] != NEXT_EDGE_KEY@[5]);
        assert(self.graph() =~= node_numbered(old(self).graph()));
        Ok(id)
    }

    fn alloc_edge_id(&mut self) -> (r: Result<EdgeId, GraphError>)
        requires
            old(self).wf(),
            old(self).next_page() + PAGES_PER_CHANGE <= u32::MAX,
            next_edge(old(self).graph()) < u64::MAX,
        ensures
            *final(final(self).txn.db) == *final(old(self).txn.db),
            final(self).wf(),
            step(*old(self), *final(self), PAGES_PER_CHANGE as int),
            r == Ok::<EdgeId, GraphError>(next_edge(old(self).graph())),
            final(self).graph() == edge_numbered(old(self).graph()),
    {
        let key = NEXT_EDGE_KEY;
        let raw = match self.txn.get(TreeId(META_TREE), key.as_slice()) {
            Ok(Some(v)) => v,
            Ok(None) => {
                return Err(GraphError::EdgeNotFound(0));
            },
            Err(e) => {
                return Err(GraphError::Mvcc(e));
            },
        };
        let id: u64 = read_le64(raw.as_slice(), 0);
        let mut next: Vec<u8> = Vec::new();
        push_le64(&mut next, id + 1);
        proof {
            assert(next@ =~= le64_bytes((id + 1) as u64));
            lemma_le64_round_trip((id + 1) as u64);
        }
        match self.txn.insert(TreeId(META_TREE), key.as_slice(), next.as_slice()) {
            Ok(_) => {},
            Err(e) => {
                return Err(GraphError::Mvcc(e));
            },
        }
        assert(NEXT_NODE_KEY@[5] != NEXT_EDGE_KEY@[5]);
        assert(self.graph() =~= edge_numbered(old(self).graph()));
        Ok(id)
    }

    /// Creates a node. Returns its number.
    pub fn create_node(&mut self, label: &str, props: Properties) -> (r: Result<
        NodeId,
        GraphError,
    >)
        requires
            old(self).wf(),
            old(self).next_page() + PAGES_PER_NODE <= u32::MAX,
            next_node(old(self).graph()) < u64::MAX,
        ensures
            *final(final(self).txn.db) == *final(old(self).txn.db),
            final(self).wf(),
            step(*old(self), *final(self), PAGES_PER_NODE as int),
            (outcome(r), final(self).graph()) == created_node(old(self).graph(), label@, props@),
    {
        let id: u64 = match self.alloc_node_id() {
            Ok(id) => id,
            Err(e) => {
                return Err(e);
            },
        };
        let ghost g1 = self.graph();
        let rec = NodeRecord { label: copy_str(label), props };
        let data = match encode_node(&rec) {
            Ok(d) => d,
            Err(e) => {
                return Err(e);
            },
        };
        let key = number_key(id);
        match self.txn.insert(TreeId(NODES_TREE), key.as_slice(), data.as_slice()) {
            Ok(_) => {},
            Err(e) => {
                assert(self.graph() =~= g1);
                return Err(GraphError::Mvcc(e));
            },
        }
        let label_hash: u32 = hash_str(label);
        let label_key = encode_label_key(label_hash, id);
        proof {
            lemma_label_key(label_hash, id);
        }
        let none: Vec<u8> = Vec::new();
        match self.txn.insert(TreeId(LABEL_INDEX_TREE), label_key.as_slice(), none.as_slice()) {
            Ok(_) => {},
            Err(e) => {
                return Err(GraphError::Mvcc(e));
            },
        }
        proof {
            assert(none@ =~= Seq::<u8>::empty());
            assert(self.graph() =~= created_node(old(self).graph(), label@, rec.props@).1);
        }
        Ok(id)
    }

    /// Creates an edge between two nodes. Returns its number.
    pub fn create_edge(
        &mut self,
        src: NodeId,
        dst: NodeId,
        edge_type: &str,
        props: Properties,
    ) -> (r: Result<EdgeId, GraphError>)
        requires
            old(self).wf(),
            old(self).next_page() + PAGES_PER_EDGE <= u32::MAX,
            next_edge(old(self).graph()) < u64::MAX,
        ensures
            *final(final(self).txn.db) == *final(old(self).txn.db),
            final(self).wf(),
            step(*old(self), *final(self), PAGES_PER_EDGE as int),
            (outcome(r), final(self).graph()) == created_edge(
                old(self).graph(),
                src,
                dst,
                edge_type@,
                props@,
            ),
    {
        let src_key = number_key(src);
        match self.txn.get(TreeId(NODES_TREE), src_key.as_slice()) {
            Ok(Some(_)) => {},
            Ok(None) => {
                return Err(GraphError::NodeNotFound(src));
            },
            Err(e) => {
                return Err(GraphError::Mvcc(e));
            },
        }
        let dst_key = number_key(dst);
        match self.txn.get(TreeId(NODES_TREE), dst_key.as_slice()) {
            Ok(Some(_)) => {},
            Ok(None) => {
                return Err(GraphError::NodeNotFound(dst));
            },
            Err(e) => {
                return Err(GraphError::Mvcc(e));
            },
        }
        let id: u64 = match self.alloc_edge_id() {
            Ok(id) => id,
            Err(e) => {
                return Err(e);
            },
        };
        let ghost g1 = self.graph();
        let rec = EdgeRecord { src, dst, edge_type: copy_str(edge_type), props };
        let data = match encode_edge(&rec) {
            Ok(d) => d,
            Err(e) => {
                return Err(e);
            },
        };
        let key = number_key(id);
        match self.txn.insert(TreeId(EDGES_TREE), key.as_slice(), data.as_slice()) {
            Ok(_) => {},
            Err(e) => {
                assert(self.graph() =~= g1);
                return Err(GraphError::Mvcc(e));
            },
        }
        let type_hash: u32 = hash_str(edge_type);
        let out_key = encode_adjacency_key(src, Direction::Out, type_hash, dst, id);
        let in_key = encode_adjacency_key(dst, Direction::In, type_hash, src, id);
        proof {
            lemma_adj_key(src, Direction::Out, type_hash, dst, id);
            lemma_adj_key(dst, Direction::In, type_hash, src, id);
        }
        let none: Vec<u8> = Vec::new();
        assert(none@ =~= Seq::<u8>::empty());
        match self.txn.insert(TreeId(ADJACENCY_TREE), out_key.as_slice(), none.as_slice()) {
            Ok(_) => {},
            Err(e) => {
                return Err(GraphError::Mvcc(e));
            },
        }
        match self.txn.insert(TreeId(ADJACENCY_TREE), in_key.as_slice(), none.as_slice()) {
            Ok(_) => {},
            Err(e) => {
                return Err(GraphError::Mvcc(e));
            },
        }
        proof {
            assert(self.graph() =~= created_edge(
                old(self).graph(),
                src,
                dst,
                edge_type@,
                rec.props@,
            ).1);
        }
        Ok(id)
    }

    /// Deletes a key that is known to fit from one of the graph's trees.
    fn remove(&mut self, tree: u32, key: &[u8]) -> (r: Result<(), GraphError>)
        requires
            old(self).wf(),
            NODES_TREE <= tree <= LABEL_INDEX_TREE,
            key@.len() <= 29,
        ensures
            *final(final(self).txn.db) == *final(old(self).txn.db),
            final(self).wf(),
            step(*old(self), *final(self), 0),
            r is Ok,
            final(self).graph() == (match tree {
                2 => GraphState {
                    nodes: old(self).graph().nodes.remove(key@),
                    ..old(self).graph()
                },
                3 => GraphState {
                    edges: old(self).graph().edges.remove(key@),
                    ..old(self).graph()
                },
                4 => GraphState { adj: old(self).graph().adj.remove(key@), ..old(self).graph() },
                _ => GraphState {
                    labels: old(self).graph().labels.remove(key@),
                    ..old(self).graph()
                },
            }),
    {
        let ghost g = self.graph();
        match self.txn.delete(TreeId(tree), key) {
            Ok(_) => {
                proof {
                    let g1 = self.graph();
                    assert(g1.meta == g.meta);
                    assert(g1.adj == g.adj || g1.adj == g.adj.remove(key@));
                    assert(g1.labels == g.labels || g1.labels == g.labels.remove(key@));
                    assert(graph_ok(g1));
                }
                Ok(())
            },
            Err(e) => Err(GraphError::Mvcc(e)),
        }
    }

    /// Removes the edges of a node in one direction.
    fn unlink(&mut self, id: NodeId, dir: Direction) -> (r: Result<(), GraphError>)
        requires
            old(self).wf(),
        ensures
            *final(final(self).txn.db) == *final(old(self).txn.db),
            final(self).wf(),
            step(*old(self), *final(self), 0),
            r is Ok,
            final(self).graph() == unlinked(
                old(self).graph(),
                adj_entries(old(self).graph().adj, id, dir, None),
                id,
                dir,
            ),
    {
        let start = adj_dir_start(id, dir);
        let end = adj_dir_end(id, dir);
        let ghost g = self.graph();
        let entries = match self.txn.range(TreeId(ADJACENCY_TREE), start.as_slice(), end.as_slice()) {
            Ok(e) => e,
            Err(e) => {
                return Err(GraphError::Mvcc(e));
            },
        };
        let ghost s = pairs(entries@);
        proof {
            lemma_range_of(s, g.adj, start@, end@);
        }
        let back = match dir {
            Direction::Out => Direction::In,
            Direction::In => Direction::Out,
        };
        let mut i: usize = 0;
        assert(s.take(0) =~= Seq::empty());
        while i < entries.len()
            invariant
                *final(self.txn.db) == *final(old(self).txn.db),
                self.wf(),
                step(*old(self), *self, 0),
                s == pairs(entries@),
                graph_ok(g),
                is_range(s, g.adj, start@, end@),
                back == opposite(dir),
                i <= entries@.len(),
                self.graph() == unlinked(g, s.take(i as int), id, dir),
            decreases entries@.len() - i,
        {
            proof {
                assert(s[i as int] == (entries@[i as int].0@, entries@[i as int].1@));
                assert(s.contains((s[i as int].0, s[i as int].1)));
                assert(g.adj.contains_key(s[i as int].0));
                assert(s.take(i + 1).drop_last() =~= s.take(i as int));
                assert(s.take(i + 1).last() == s[i as int]);
            }
            let (_, _, type_hash, other, edge_id) = decode_adjacency_key(entries[i].0.as_slice());
            let back_key = encode_adjacency_key(other, back, type_hash, id, edge_id);
            proof {
                lemma_adj_key(other, back, type_hash, id, edge_id);
            }
            let _ = self.remove(ADJACENCY_TREE, back_key.as_slice());
            let edge_key = number_key(edge_id);
            let _ = self.remove(EDGES_TREE, edge_key.as_slice());
            let _ = self.remove(ADJACENCY_TREE, entries[i].0.as_slice());
            i = i + 1;
        }
        assert(s.take(i as int) =~= s);
        Ok(())
    }

    /// Deletes a node with all its edges. Returns whether the node was there.
    pub fn delete_node(&mut self, id: NodeId) -> (r: Result<bool, GraphError>)
        requires
            old(self).wf(),
        ensures
            *final(final(self).txn.db) == *final(old(self).txn.db),
            final(self).wf(),
            step(*old(self), *final(self), 0),
            (outcome(r), final(self).graph()) == deleted_node(old(self).graph(), id),
    {
        let key = number_key(id);
        let data = match self.txn.get(TreeId(NODES_TREE), key.as_slice()) {
            Ok(Some(d)) => d,
            Ok(None) => {
                return Ok(false);
            },
            Err(e) => {
                return Err(GraphError::Mvcc(e));
            },
        };
        let rec = match decode_node(data.as_slice()) {
            Ok(rec) => rec,
            Err(e) => {
                return Err(e);
            },
        };
        let label_hash: u32 = hash_str(rec.label.as_str());
        let label_key = encode_label_key(label_hash, id);
        proof {
            lemma_label_key(label_hash, id);
        }
        let _ = self.remove(LABEL_INDEX_TREE, label_key.as_slice());
        let _ = self.unlink(id, Direction::Out);
        let _ = self.unlink(id, Direction::In);
        let _ = self.remove(NODES_TREE, key.as_slice());
        Ok(true)
    }

    /// Deletes an edge. Returns whether it was there.
    pub fn delete_edge(&mut self, id: EdgeId) -> (r: Result<bool, GraphError>)
        requires
            old(self).wf(),
        ensures
            *final(final(self).txn.db) == *final(old(self).txn.db),
            final(self).wf(),
            step(*old(self), *final(self), 0),
            (outcome(r), final(self).graph()) == deleted_edge(old(self).graph(), id),
    {
        let key = number_key(id);
        let data = match self.txn.get(TreeId(EDGES_TREE), key.as_slice()) {
            Ok(Some(d)) => d,
            Ok(None) => {
                return Ok(false);
            },
            Err(e) => {
                return Err(GraphError::Mvcc(e));
            },
        };
        let rec = match decode_edge(data.as_slice()) {
            Ok(rec) => rec,
            Err(e) => {
                return Err(e);
            },
        };
        let type_hash: u32 = hash_str(rec.edge_type.as_str());
        let out_key = encode_adjacency_key(rec.src, Direction::Out, type_hash, rec.dst, id);
        let in_key = encode_adjacency_key(rec.dst, Direction::In, type_hash, rec.src, id);
        proof {
            lemma_adj_key(rec.src, Direction::Out, type_hash, rec.dst, id);
            lemma_adj_key(rec.dst, Direction::In, type_hash, rec.src, id);
        }
        let _ = self.remove(ADJACENCY_TREE, out_key.as_slice());
        let _ = self.remove(ADJACENCY_TREE, in_key.as_slice());
        let _ = self.remove(EDGES_TREE, key.as_slice());
        Ok(true)
    }

    /// Sets a property of a node.
    pub fn set_node_property(&mut self, id: NodeId, key: &str, value: Value) -> (r: Result<
        (),
        GraphError,
    >)
        requires
            old(self).wf(),
            old(self).next_page() + PAGES_PER_CHANGE <= u32::MAX,
        ensures
            *final(final(self).txn.db) == *final(old(self).txn.db),
            final(self).wf(),
            step(*old(self), *final(self), PAGES_PER_CHANGE as int),
            (outcome(r), final(self).graph()) == property_set(
                old(self).graph(),
                id,
                key@,
                value@,
            ),
    {
        let node_key = number_key(id);
        let data = match self.txn.get(TreeId(NODES_TREE), node_key.as_slice()) {
            Ok(Some(d)) => d,
            Ok(None) => {
                return Err(GraphError::NodeNotFound(id));
            },
            Err(e) => {
                return Err(GraphError::Mvcc(e));
            },
        };
        let mut rec = match decode_node(data.as_slice()) {
            Ok(rec) => rec,
            Err(e) => {
                return Err(e);
            },
        };
        rec.props.insert(copy_str(key), value);
        let new_data = match encode_node(&rec) {
            Ok(d) => d,
            Err(e) => {
                return Err(e);
            },
        };
        match self.txn.insert(TreeId(NODES_TREE), node_key.as_slice(), new_data.as_slice()) {
            Ok(_) => {
                assert(self.graph() =~= property_set(old(self).graph(), id, key@, value@).1);
                Ok(())
            },
            Err(e) => {
                assert(self.graph() =~= old(self).graph());
                Err(GraphError::Mvcc(e))
            },
        }
    }

    /// Reads a node.
    pub fn get_node(&self, id: NodeId) -> (r: Result<Option<Node>, GraphError>)
        requires
            self.wf(),
        ensures
            node_result(r) == node_at(self.graph(), id),
    {
        read_node(&self.txn, id)
    }

    /// Reads an edge.
    pub fn get_edge(&self, id: EdgeId) -> (r: Result<Option<Edge>, GraphError>)
        requires
            self.wf(),
        ensures
            edge_result(r) == edge_at(self.graph(), id),
    {
        read_edge(&self.txn, id)
    }

    /// Lists the edges of a node in a direction with the nodes at their other
    /// ends.
    pub fn neighbors(&self, node_id: NodeId, direction: Direction, edge_type: Option<&str>) -> (r:
        Result<Vec<(EdgeId, NodeId)>, GraphError>)
        requires
            self.wf(),
        ensures
            r matches Ok(v) && v@ == neighbors_of(
                self.graph(),
                node_id,
                direction,
                opt_text(edge_type),
            ),
    {
        read_neighbors(&self.txn, node_id, direction, edge_type)
    }

    /// Lists the nodes with a label.
    pub fn nodes_by_label(&self, label: &str) -> (r: Result<Vec<NodeId>, GraphError>)
        requires
            self.wf(),
        ensures
            r matches Ok(v) && v@ == labelled(self.graph(), label@),
    {
        read_nodes_by_label(&self.txn, label)
    }

    /// Whether numbers are left for a commit.
    pub fn can_commit(&self) -> (r: bool)
        ensures
            r == commit_fits(*old(self.txn.db)),
    {
        self.txn.can_commit()
    }

    /// Commits all changes made in this transaction.
    pub fn commit(self) -> (r: Result<(), GraphError>)
        requires
            self.wf(),
            commit_fits(*self.txn.db),
        ensures
            r is Ok,
            final(self.txn.db).wf(),
            final(self.txn.db).stored(),
            final(self.txn.db).tables() == self.txn.tables(),
            final(self.txn.db).current_root == self.txn.catalog_root,
            final(self.txn.db).current_txn_id == old(self.txn.db).current_txn_id + 1,
            logged(*old(self.txn.db), *final(self.txn.db)),
            committed(
                old(self.txn.db).pager@,
                Meta {
                    root_page_id: self.txn.catalog_root.0,
                    txn_id: (old(self.txn.db).current_txn_id + 1) as u64,
                    wal_offset: final(self.txn.db).wal@.len() as u64,
                    ..old(self.txn.db).pager@.meta
                },
                final(self.txn.db).pager@,
            ),
            final(self.txn.db).pager@.meta.wal_offset == final(self.txn.db).wal@.len(),
            opened(final(self.txn.db).pager@.file) == Ok::<PagerView, PagerError>(
                final(self.txn.db).pager@,
            ),
    {
        match self.txn.commit() {
            Ok(_) => Ok(()),
            Err(e) => Err(GraphError::Mvcc(e)),
        }
    }

    /// Abandons this transaction: the graph of the last commit remains visible.
    pub fn abort(self)
        requires
            self.wf(),
        ensures
            final(self.txn.db).wf(),
            final(self.txn.db).tables() == old(self.txn.db).tables(),
            final(self.txn.db).pager@ == old(self.txn.db).pager@.kept(),
            same_base(*old(self.txn.db), *final(self.txn.db)),
    {
        self.txn.abort();
    }
}

} // verus!
