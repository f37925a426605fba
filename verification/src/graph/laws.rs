//! What holds of every graph, and what operations do to what is read.

use crate::bytes::{
    be32, be64, be64_bytes, key_le, key_lt, lemma_be64_inverse, lemma_be64_round_trip,
    lemma_key_irreflexive, lemma_key_total, lemma_le64_round_trip,
};
use crate::graph::codec::{
    dec_edge, dec_node, dec_number, dec_text, enc_edge, enc_entries, enc_node, enc_text, enc_value,
    lemma_decoded_props_ok, lemma_edge_round_trip, lemma_node_round_trip, storable, storable_props,
};
use crate::graph::db::{empty_graph, sound_files, GraphDb};
use crate::graph::keys::{
    adj_dir_prefix, adj_key, adj_type_prefix, hash_of, label_key, lemma_adj_key,
    lemma_adj_order, lemma_adj_parts, lemma_dir_range, lemma_label_key, lemma_label_order,
    lemma_label_range, lemma_type_range, link_before, opposite, starts_with, ADJ_KEY_LEN,
    LABEL_KEY_LEN,
};
use crate::graph::read_txn::property_at;
use crate::graph::state::{
    adj_entries, adj_target, created_edge, created_node, deleted_edge, deleted_node, edge_at,
    edge_numbered, graph_ok, labelled, mirror, neighbors_of, next_edge, next_node, node_at,
    node_numbered, property_set, range_of, unlinked, GraphState, NEXT_EDGE_KEY, NEXT_NODE_KEY,
};
use crate::graph::types::{
    lemma_prop_set, prop_set, props_ok, Direction, EdgeRec, EdgeVal, NodeRec, NodeVal, Props, Val,
};
use crate::model::{is_range, MAX_VALUE_SIZE};
use crate::mvcc::crash::{
    half_stored, kept_log, lemma_crash_while_logging, lemma_crash_while_storing, logged,
};
use crate::mvcc::database::{
    lemma_nothing_to_replay, lemma_restart, open_error, reopened, Database,
};
use crate::mvcc::laws::lemma_uncommitted_is_invisible;
use crate::mvcc::store::Table;
use crate::mvcc::txn::same_base;
use crate::node::{keys_of, lemma_lower_bound, lower_bound, sorted_keys};
use vstd::prelude::*;
use vstd::utf8::encode_utf8;

verus! {

broadcast use crate::bytes::group_byte_lengths;

// ---------------------------------------------------------------------------
// Scans
// ---------------------------------------------------------------------------

proof fn lemma_insert_in_range(
    s: Seq<(Seq<u8>, Seq<u8>)>,
    m: Table,
    start: Seq<u8>,
    end: Seq<u8>,
    k: Seq<u8>,
    v: Seq<u8>,
) -> (t: Seq<(Seq<u8>, Seq<u8>)>)
    requires
        is_range(s, m, start, end),
        !m.contains_key(k),
        key_le(start, k),
        key_le(k, end),
    ensures
        is_range(t, m.insert(k, v), start, end),
{
    let ks = keys_of(s);
    let b = lower_bound(ks, k);
    lemma_lower_bound(ks, k);
    let t = s.insert(b, (k, v));
    if b < s.len() {
        assert(s.contains((s[b].0, s[b].1)));
        assert(ks[b] != k);
        lemma_key_total(ks[b], k);
    }
    assert forall|i: int, j: int| 0 <= i < j < t.len() implies #[trigger] key_lt(
        keys_of(t)[i],
        keys_of(t)[j],
    ) by {
        let a = if i < b {
            i
        } else {
            i - 1
        };
        let c = if j < b {
            j
        } else {
            j - 1
        };
        if i == b {
            if j - 1 > b {
                assert(key_lt(k, ks[j - 1]));
            } else {
                assert(key_lt(k, ks[b]));
            }
        } else if j == b {
            assert(key_lt(ks[i], k));
        } else {
            assert(key_lt(ks[a], ks[c]));
        }
    }
    let m2 = m.insert(k, v);
    assert forall|x: Seq<u8>, y: Seq<u8>| #[trigger] t.contains((x, y)) <==> m2.contains_key(x)
        && m2[x] == y && key_le(start, x) && key_le(x, end) by {
        if t.contains((x, y)) {
            let i = t.index_of((x, y));
            if i != b {
                let a = if i < b {
                    i
                } else {
                    i - 1
                };
                assert(s[a] == (x, y));
                assert(s.contains((x, y)));
            }
        }
        if m2.contains_key(x) && m2[x] == y && key_le(start, x) && key_le(x, end) {
            if x == k {
                assert(t[b] == (k, v));
            } else {
                assert(s.contains((x, y)));
                let a = s.index_of((x, y));
                if a < b {
                    assert(t[a] == (x, y));
                } else {
                    assert(t[a + 1] == (x, y));
                }
            }
        }
    }
    t
}

/// Every table with finitely many keys can be scanned.
pub proof fn lemma_range_exists(m: Table, start: Seq<u8>, end: Seq<u8>)
    requires
        m.dom().finite(),
    ensures
        is_range(range_of(m, start, end), m, start, end),
    decreases m.dom().len(),
{
    if m.dom().len() == 0 {
        let s = Seq::<(Seq<u8>, Seq<u8>)>::empty();
        assert(m.dom() =~= Set::empty());
        assert forall|x: Seq<u8>, y: Seq<u8>| #[trigger] s.contains((x, y)) <==> m.contains_key(x)
            && m[x] == y && key_le(start, x) && key_le(x, end) by {
            assert(!m.dom().contains(x));
        }
        assert(is_range(s, m, start, end));
    } else {
        let k = m.dom().choose();
        let rest = m.remove(k);
        assert(rest.dom() =~= m.dom().remove(k));
        lemma_range_exists(rest, start, end);
        let s = range_of(rest, start, end);
        assert(rest.insert(k, m[k]) =~= m);
        if key_le(start, k) && key_le(k, end) {
            let t = lemma_insert_in_range(s, rest, start, end, k, m[k]);
            assert(is_range(t, m, start, end));
        } else {
            assert forall|x: Seq<u8>, y: Seq<u8>| #[trigger] s.contains((x, y))
                <==> m.contains_key(x) && m[x] == y && key_le(start, x) && key_le(x, end) by {}
            assert(is_range(s, m, start, end));
        }
    }
}

// ---------------------------------------------------------------------------
// The invariant of a graph
// ---------------------------------------------------------------------------

/// Whether a node is there.
pub open spec fn has_node(g: GraphState, id: u64) -> bool {
    g.nodes.contains_key(be64_bytes(id))
}

/// Whether an edge is there.
pub open spec fn has_edge(g: GraphState, id: u64) -> bool {
    g.edges.contains_key(be64_bytes(id))
}

/// The record of a node.
pub open spec fn node_rec(g: GraphState, id: u64) -> Option<NodeRec> {
    dec_node(g.nodes[be64_bytes(id)])
}

/// The record of an edge.
pub open spec fn edge_rec(g: GraphState, id: u64) -> Option<EdgeRec> {
    dec_edge(g.edges[be64_bytes(id)])
}

/// Whether a node has an adjacency entry.
pub open spec fn has_link(
    g: GraphState,
    node: u64,
    dir: Direction,
    hash: u32,
    other: u64,
    edge: u64,
) -> bool {
    g.adj.contains_key(adj_key(node, dir, hash, other, edge))
}

/// Whether the label index has an entry.
pub open spec fn has_label(g: GraphState, hash: u32, id: u64) -> bool {
    g.labels.contains_key(label_key(hash, id))
}

/// Whether an adjacency entry is one of an edge with this record.
pub open spec fn link_fits(
    rec: EdgeRec,
    node: u64,
    dir: Direction,
    hash: u32,
    other: u64,
) -> bool {
    &&& hash == hash_of(rec.edge_type)
    &&& match dir {
        Direction::Out => rec.src == node && rec.dst == other,
        Direction::In => rec.dst == node && rec.src == other,
    }
}

/// Whether a node's record can be read, its number was handed out, and the
/// label index has it.
pub open spec fn node_sound(g: GraphState, id: u64) -> bool {
    &&& node_rec(g, id) is Some
    &&& id < next_node(g)
    &&& has_label(g, hash_of(node_rec(g, id)->0.label), id)
}

/// Whether an edge's record can be read, its number was handed out, both its
/// nodes are there, and both have an adjacency entry for it.
pub open spec fn edge_sound(g: GraphState, id: u64) -> bool {
    &&& edge_rec(g, id) is Some
    &&& id < next_edge(g)
    &&& ({
        let rec = edge_rec(g, id)->0;
        let h = hash_of(rec.edge_type);
        &&& has_node(g, rec.src)
        &&& has_node(g, rec.dst)
        &&& has_link(g, rec.src, Direction::Out, h, rec.dst, id)
        &&& has_link(g, rec.dst, Direction::In, h, rec.src, id)
    })
}

/// Whether an adjacency entry belongs to an edge that is there.
pub open spec fn link_sound(
    g: GraphState,
    node: u64,
    dir: Direction,
    hash: u32,
    other: u64,
    edge: u64,
) -> bool {
    &&& has_edge(g, edge)
    &&& edge_rec(g, edge) is Some
    &&& link_fits(edge_rec(g, edge)->0, node, dir, hash, other)
}

/// Whether an entry of the label index belongs to a node that is there.
pub open spec fn label_sound(g: GraphState, hash: u32, id: u64) -> bool {
    &&& has_node(g, id)
    &&& node_rec(g, id) is Some
    &&& hash == hash_of(node_rec(g, id)->0.label)
}

/// The invariant of a graph: records and indexes say the same.
#[verifier::opaque]
pub open spec fn consistent(g: GraphState) -> bool {
    &&& graph_ok(g)
    &&& g.adj.dom().finite()
    &&& g.labels.dom().finite()
    &&& forall|id: u64| #[trigger] has_node(g, id) ==> node_sound(g, id)
    &&& forall|id: u64| #[trigger] has_edge(g, id) ==> edge_sound(g, id)
    &&& forall|n: u64, d: Direction, h: u32, o: u64, e: u64| #[trigger]
        has_link(g, n, d, h, o, e) ==> link_sound(g, n, d, h, o, e)
    &&& forall|h: u32, id: u64| #[trigger] has_label(g, h, id) ==> label_sound(g, h, id)
}

/// What the invariant says of a node.
pub proof fn lemma_sound_node(g: GraphState, id: u64)
    requires
        consistent(g),
    ensures
        has_node(g, id) ==> node_sound(g, id),
{
    reveal(consistent);
}

/// What the invariant says of an edge.
pub proof fn lemma_sound_edge(g: GraphState, id: u64)
    requires
        consistent(g),
    ensures
        has_edge(g, id) ==> edge_sound(g, id),
{
    reveal(consistent);
}

/// The properties of a stored node have each name once.
pub proof fn lemma_node_props_ok(g: GraphState, id: u64)
    ensures
        node_at(g, id) matches Ok(Some(n)) ==> props_ok(n.props) && n.id == id,
{
    if has_node(g, id) && node_rec(g, id) is Some {
        lemma_stored_props_ok(g.nodes[be64_bytes(id)]);
    }
}

proof fn lemma_number_key(a: u64, b: u64)
    ensures
        be64_bytes(a) == be64_bytes(b) ==> a == b,
{
    lemma_be64_round_trip(a);
    lemma_be64_round_trip(b);
}

proof fn lemma_link_key(
    n: u64,
    d: Direction,
    h: u32,
    o: u64,
    e: u64,
    n2: u64,
    d2: Direction,
    h2: u32,
    o2: u64,
    e2: u64,
)
    ensures
        adj_key(n, d, h, o, e) == adj_key(n2, d2, h2, o2, e2) ==> n == n2 && d == d2 && h == h2
            && o == o2 && e == e2,
{
    lemma_adj_key(n, d, h, o, e);
    lemma_adj_key(n2, d2, h2, o2, e2);
}

proof fn lemma_label_entry(h: u32, a: u64, h2: u32, b: u64)
    ensures
        label_key(h, a) == label_key(h2, b) ==> h == h2 && a == b,
{
    lemma_label_key(h, a);
    lemma_label_key(h2, b);
}

/// A graph without nodes and edges keeps the invariant.
pub proof fn lemma_empty_consistent()
    ensures
        consistent(empty_graph()),
{
    reveal(consistent);
    lemma_le64_round_trip(1);
    assert(NEXT_NODE_KEY@[5] != NEXT_EDGE_KEY@[5]);
    assert(crate::graph::state::MAGIC_KEY@.len() != NEXT_NODE_KEY@.len());
    let g = empty_graph();
    assert forall|id: u64| #[trigger] has_node(g, id) implies node_sound(g, id) by {}
    assert forall|id: u64| #[trigger] has_edge(g, id) implies edge_sound(g, id) by {}
    assert forall|n: u64, d: Direction, h: u32, o: u64, e: u64| #[trigger]
        has_link(g, n, d, h, o, e) implies link_sound(g, n, d, h, o, e) by {}
    assert forall|h: u32, id: u64| #[trigger] has_label(g, h, id) implies label_sound(
        g,
        h,
        id,
    ) by {}
}

// ---------------------------------------------------------------------------
// Records
// ---------------------------------------------------------------------------

proof fn lemma_entries_bound(ps: Props, i: int)
    requires
        0 <= i < ps.len(),
    ensures
        enc_text(ps[i].0).len() + enc_value(ps[i].1).len() <= enc_entries(ps).len(),
        ps.len() <= enc_entries(ps).len(),
    decreases ps.len(),
{
    let d = ps.drop_last();
    if d.len() > 0 {
        if i < d.len() {
            lemma_entries_bound(d, i);
        } else {
            lemma_entries_bound(d, 0);
        }
    }
}

proof fn lemma_short_props(ps: Props)
    requires
        enc_entries(ps).len() <= MAX_VALUE_SIZE,
    ensures
        storable_props(ps),
{
    assert forall|i: int| 0 <= i < ps.len() implies encode_utf8((#[trigger] ps[i]).0).len()
        <= u64::MAX && storable(ps[i].1) by {
        lemma_entries_bound(ps, i);
    }
    if ps.len() > 0 {
        lemma_entries_bound(ps, 0);
    }
}

/// A node record that fits reads back.
proof fn lemma_node_fits(rec: NodeRec)
    requires
        enc_node(rec).len() <= MAX_VALUE_SIZE,
        props_ok(rec.props),
    ensures
        dec_node(enc_node(rec)) == Some(rec),
{
    lemma_short_props(rec.props);
    lemma_node_round_trip(rec);
}

/// An edge record that fits reads back.
proof fn lemma_edge_fits(rec: EdgeRec)
    requires
        enc_edge(rec).len() <= MAX_VALUE_SIZE,
        props_ok(rec.props),
    ensures
        dec_edge(enc_edge(rec)) == Some(rec),
{
    lemma_short_props(rec.props);
    lemma_edge_round_trip(rec);
}

// ---------------------------------------------------------------------------
// Creating nodes
// ---------------------------------------------------------------------------

proof fn lemma_node_counter(g: GraphState)
    requires
        graph_ok(g),
        next_node(g) < u64::MAX,
    ensures
        next_node(node_numbered(g)) == next_node(g) + 1,
        next_edge(node_numbered(g)) == next_edge(g),
        graph_ok(node_numbered(g)),
{
    lemma_le64_round_trip((next_node(g) + 1) as u64);
    assert(NEXT_NODE_KEY@[5] != NEXT_EDGE_KEY@[5]);
}

proof fn lemma_edge_counter(g: GraphState)
    requires
        graph_ok(g),
        next_edge(g) < u64::MAX,
    ensures
        next_edge(edge_numbered(g)) == next_edge(g) + 1,
        next_node(edge_numbered(g)) == next_node(g),
        graph_ok(edge_numbered(g)),
{
    lemma_le64_round_trip((next_edge(g) + 1) as u64);
    assert(NEXT_NODE_KEY@[5] != NEXT_EDGE_KEY@[5]);
}

/// What a counter says has no bearing on the invariant but for numbers that it
/// has not handed out.
proof fn lemma_recounted(g: GraphState, g2: GraphState)
    requires
        consistent(g),
        graph_ok(g2),
        g2 == (GraphState { meta: g2.meta, ..g }),
        next_node(g) <= next_node(g2),
        next_edge(g) <= next_edge(g2),
    ensures
        consistent(g2),
{
    reveal(consistent);
    assert forall|id: u64| #[trigger] has_node(g2, id) implies node_sound(g2, id) by {
        assert(has_node(g, id));
    }
    assert forall|id: u64| #[trigger] has_edge(g2, id) implies edge_sound(g2, id) by {
        assert(has_edge(g, id));
    }
    assert forall|n: u64, d: Direction, h: u32, o: u64, e: u64| #[trigger]
        has_link(g2, n, d, h, o, e) implies link_sound(g2, n, d, h, o, e) by {
        assert(has_link(g, n, d, h, o, e));
    }
    assert forall|h: u32, id: u64| #[trigger] has_label(g2, h, id) implies label_sound(
        g2,
        h,
        id,
    ) by {
        assert(has_label(g, h, id));
    }
}

/// Creating a node keeps the invariant, also where its record is refused.
pub proof fn lemma_create_node_consistent(g: GraphState, label: Seq<char>, props: Props)
    requires
        consistent(g),
        props_ok(props),
        next_node(g) < u64::MAX,
    ensures
        consistent(created_node(g, label, props).1),
{
    reveal(consistent);
    let id = next_node(g);
    let g1 = node_numbered(g);
    lemma_node_counter(g);
    lemma_recounted(g, g1);
    let rec = NodeRec { label, props };
    let data = enc_node(rec);
    if data.len() <= MAX_VALUE_SIZE {
        let g2 = created_node(g, label, props).1;
        lemma_node_fits(rec);
        lemma_label_key(hash_of(label), id);
        assert(node_rec(g2, id) == Some(rec));
        assert(graph_ok(g2));
        assert forall|x: u64| #[trigger] has_node(g2, x) implies node_sound(g2, x) by {
            lemma_number_key(x, id);
            if x != id {
                assert(has_node(g1, x));
                assert(node_sound(g1, x));
            }
        }
        assert forall|x: u64| #[trigger] has_edge(g2, x) implies edge_sound(g2, x) by {
            assert(has_edge(g1, x));
        }
        assert forall|n: u64, d: Direction, h: u32, o: u64, e: u64| #[trigger]
            has_link(g2, n, d, h, o, e) implies link_sound(g2, n, d, h, o, e) by {
            assert(has_link(g1, n, d, h, o, e));
        }
        assert forall|h: u32, x: u64| #[trigger] has_label(g2, h, x) implies label_sound(
            g2,
            h,
            x,
        ) by {
            lemma_label_entry(h, x, hash_of(label), id);
            lemma_number_key(x, id);
            if !(h == hash_of(label) && x == id) {
                assert(has_label(g1, h, x));
                assert(label_sound(g1, h, x));
                if x == id {
                    assert(has_node(g, id));
                    assert(node_sound(g, id));
                }
            }
        }
    }
}

// ---------------------------------------------------------------------------
// Creating edges
// ---------------------------------------------------------------------------

/// Creating an edge keeps the invariant, also where it is refused.
pub proof fn lemma_create_edge_consistent(
    g: GraphState,
    src: u64,
    dst: u64,
    edge_type: Seq<char>,
    props: Props,
)
    requires
        consistent(g),
        props_ok(props),
        next_edge(g) < u64::MAX,
    ensures
        consistent(created_edge(g, src, dst, edge_type, props).1),
{
    reveal(consistent);
    let id = next_edge(g);
    let g1 = edge_numbered(g);
    lemma_edge_counter(g);
    lemma_recounted(g, g1);
    let rec = EdgeRec { src, dst, edge_type, props };
    let data = enc_edge(rec);
    let h0 = hash_of(edge_type);
    if has_node(g, src) && has_node(g, dst) && data.len() <= MAX_VALUE_SIZE {
        let g2 = created_edge(g, src, dst, edge_type, props).1;
        lemma_edge_fits(rec);
        lemma_adj_key(src, Direction::Out, h0, dst, id);
        lemma_adj_key(dst, Direction::In, h0, src, id);
        assert(edge_rec(g2, id) == Some(rec));
        assert(graph_ok(g2));
        assert(has_node(g2, src) && has_node(g2, dst));
        assert forall|x: u64| #[trigger] has_node(g2, x) implies node_sound(g2, x) by {
            assert(has_node(g1, x));
            assert(node_sound(g1, x));
        }
        assert forall|x: u64| #[trigger] has_edge(g2, x) implies edge_sound(g2, x) by {
            lemma_number_key(x, id);
            if x != id {
                assert(has_edge(g1, x));
                assert(edge_sound(g1, x));
            }
        }
        assert forall|n: u64, d: Direction, h: u32, o: u64, e: u64| #[trigger]
            has_link(g2, n, d, h, o, e) implies link_sound(g2, n, d, h, o, e) by {
            lemma_link_key(n, d, h, o, e, src, Direction::Out, h0, dst, id);
            lemma_link_key(n, d, h, o, e, dst, Direction::In, h0, src, id);
            lemma_number_key(e, id);
            if has_link(g1, n, d, h, o, e) {
                assert(link_sound(g1, n, d, h, o, e));
                if e == id {
                    assert(has_edge(g, id));
                    assert(edge_sound(g, id));
                }
            }
        }
        assert forall|h: u32, x: u64| #[trigger] has_label(g2, h, x) implies label_sound(
            g2,
            h,
            x,
        ) by {
            assert(has_label(g1, h, x));
        }
    }
}

// ---------------------------------------------------------------------------
// Deleting edges
// ---------------------------------------------------------------------------

/// Deleting an edge keeps the invariant.
pub proof fn lemma_delete_edge_consistent(g: GraphState, id: u64)
    requires
        consistent(g),
    ensures
        consistent(deleted_edge(g, id).1),
{
    reveal(consistent);
    if has_edge(g, id) {
        assert(edge_sound(g, id));
        let rec = edge_rec(g, id)->0;
        let h0 = hash_of(rec.edge_type);
        let g2 = deleted_edge(g, id).1;
        assert(graph_ok(g2)) by {
            assert forall|k: Seq<u8>| #[trigger] g2.adj.contains_key(k) implies k.len()
                == ADJ_KEY_LEN by {
                assert(g.adj.contains_key(k));
            }
        }
        assert forall|x: u64| #[trigger] has_node(g2, x) implies node_sound(g2, x) by {
            assert(has_node(g, x));
            assert(node_sound(g, x));
        }
        assert forall|x: u64| #[trigger] has_edge(g2, x) implies edge_sound(g2, x) by {
            assert(has_edge(g, x));
            assert(edge_sound(g, x));
            let r = edge_rec(g, x)->0;
            let h = hash_of(r.edge_type);
            lemma_link_key(r.src, Direction::Out, h, r.dst, x, rec.src, Direction::Out, h0, rec.dst, id);
            lemma_link_key(r.src, Direction::Out, h, r.dst, x, rec.dst, Direction::In, h0, rec.src, id);
            lemma_link_key(r.dst, Direction::In, h, r.src, x, rec.src, Direction::Out, h0, rec.dst, id);
            lemma_link_key(r.dst, Direction::In, h, r.src, x, rec.dst, Direction::In, h0, rec.src, id);
            assert(has_node(g2, r.src) && has_node(g2, r.dst)) by {
                assert(has_node(g, r.src) && has_node(g, r.dst));
            }
        }
        assert forall|n: u64, d: Direction, h: u32, o: u64, e: u64| #[trigger]
            has_link(g2, n, d, h, o, e) implies link_sound(g2, n, d, h, o, e) by {
            assert(has_link(g, n, d, h, o, e));
            assert(link_sound(g, n, d, h, o, e));
            lemma_number_key(e, id);
            lemma_link_key(n, d, h, o, e, rec.src, Direction::Out, h0, rec.dst, id);
            lemma_link_key(n, d, h, o, e, rec.dst, Direction::In, h0, rec.src, id);
        }
        assert forall|h: u32, x: u64| #[trigger] has_label(g2, h, x) implies label_sound(
            g2,
            h,
            x,
        ) by {
            assert(has_label(g, h, x));
        }
    }
}

// ---------------------------------------------------------------------------
// Deleting nodes
// ---------------------------------------------------------------------------

/// In a graph that keeps the invariant, removing an adjacency entry with all
/// that belongs to it is deleting its edge.
proof fn lemma_unlink_one(g: GraphState, n: u64, d: Direction, h: u32, o: u64, e: u64)
    requires
        consistent(g),
        has_link(g, n, d, h, o, e),
    ensures
        ({
            let k = adj_key(n, d, h, o, e);
            deleted_edge(g, e) == (
                Ok::<bool, crate::graph::GraphErr>(true),
                GraphState {
                    adj: g.adj.remove(mirror(k, n, d)).remove(k),
                    edges: g.edges.remove(be64_bytes(be64(k, 21) as u64)),
                    ..g
                },
            )
        }),
{
    reveal(consistent);
    let k = adj_key(n, d, h, o, e);
    lemma_adj_key(n, d, h, o, e);
    assert(link_sound(g, n, d, h, o, e));
    let rec = edge_rec(g, e)->0;
    assert(mirror(k, n, d) == adj_key(o, opposite(d), h, n, e));
    let a = adj_key(rec.src, Direction::Out, h, rec.dst, e);
    let b = adj_key(rec.dst, Direction::In, h, rec.src, e);
    assert(g.adj.remove(a).remove(b) =~= g.adj.remove(b).remove(a));
}

/// The entries of a node in one direction: exactly the keys that start so.
proof fn lemma_dir_entries(adj: Table, id: u64, dir: Direction, k: Seq<u8>)
    requires
        adj.dom().finite(),
        forall|x: Seq<u8>| #[trigger] adj.contains_key(x) ==> x.len() == ADJ_KEY_LEN,
    ensures
        is_range(
            adj_entries(adj, id, dir, None),
            adj,
            adj_key(id, dir, 0, 0, 0),
            adj_key(id, dir, u32::MAX, u64::MAX, u64::MAX),
        ),
        (exists|j: int|
            0 <= j < adj_entries(adj, id, dir, None).len() && (#[trigger] adj_entries(
                adj,
                id,
                dir,
                None,
            )[j]).0 == k) <==> adj.contains_key(k) && starts_with(k, adj_dir_prefix(id, dir)),
{
    let start = adj_key(id, dir, 0, 0, 0);
    let end = adj_key(id, dir, u32::MAX, u64::MAX, u64::MAX);
    lemma_range_exists(adj, start, end);
    let s = adj_entries(adj, id, dir, None);
    if k.len() == ADJ_KEY_LEN {
        lemma_dir_range(id, dir, k);
    }
    if exists|j: int| 0 <= j < s.len() && (#[trigger] s[j]).0 == k {
        let j = choose|j: int| 0 <= j < s.len() && (#[trigger] s[j]).0 == k;
        assert(s.contains((s[j].0, s[j].1)));
    }
    if adj.contains_key(k) && starts_with(k, adj_dir_prefix(id, dir)) {
        assert(s.contains((k, adj[k])));
        let j = s.index_of((k, adj[k]));
        assert(s[j].0 == k);
    }
}

proof fn lemma_entry_key(adj: Table, id: u64, dir: Direction, j: int)
    requires
        adj.dom().finite(),
        forall|x: Seq<u8>| #[trigger] adj.contains_key(x) ==> x.len() == ADJ_KEY_LEN,
        0 <= j < adj_entries(adj, id, dir, None).len(),
    ensures
        ({
            let k = adj_entries(adj, id, dir, None)[j].0;
            &&& adj.contains_key(k)
            &&& k == adj_key(id, dir, be32(k, 9) as u32, be64(k, 13) as u64, be64(k, 21) as u64)
        }),
{
    let k = adj_entries(adj, id, dir, None)[j].0;
    lemma_dir_entries(adj, id, dir, k);
    lemma_adj_parts(k, id, dir);
}

/// Two entries of a node in one direction have different keys, and neither has
/// the key that stands at the other end for the other.
proof fn lemma_entries_apart(adj: Table, id: u64, dir: Direction, m: int, j: int)
    requires
        adj.dom().finite(),
        forall|x: Seq<u8>| #[trigger] adj.contains_key(x) ==> x.len() == ADJ_KEY_LEN,
        0 <= m < j < adj_entries(adj, id, dir, None).len(),
    ensures
        adj_entries(adj, id, dir, None)[j].0 != adj_entries(adj, id, dir, None)[m].0,
        adj_entries(adj, id, dir, None)[j].0 != mirror(
            adj_entries(adj, id, dir, None)[m].0,
            id,
            dir,
        ),
{
    let s = adj_entries(adj, id, dir, None);
    let k = s[m].0;
    let kj = s[j].0;
    lemma_entry_key(adj, id, dir, m);
    lemma_entry_key(adj, id, dir, j);
    lemma_dir_entries(adj, id, dir, k);
    assert(key_lt(keys_of(s)[m], keys_of(s)[j]));
    lemma_key_irreflexive(k);
    lemma_link_key(
        id,
        dir,
        be32(kj, 9) as u32,
        be64(kj, 13) as u64,
        be64(kj, 21) as u64,
        be64(k, 13) as u64,
        opposite(dir),
        be32(k, 9) as u32,
        id,
        be64(k, 21) as u64,
    );
}

/// Whether an edge has a node as one of its ends.
pub open spec fn touches(g: GraphState, edge: u64, node: u64) -> bool {
    edge_rec(g, edge)->0.src == node || edge_rec(g, edge)->0.dst == node
}

/// Whether removing edges of a node led from one graph to another: nothing but
/// edges of the node and adjacency entries went, and both keep the invariant.
#[verifier::opaque]
spec fn thinned(g: GraphState, g2: GraphState, node: u64) -> bool {
    &&& consistent(g2)
    &&& g2.nodes == g.nodes
    &&& g2.labels == g.labels
    &&& g2.meta == g.meta
    &&& forall|k: Seq<u8>| #[trigger] g2.adj.contains_key(k) ==> g.adj.contains_key(k)
    &&& forall|x: u64| #[trigger] has_edge(g2, x) ==> has_edge(g, x) && edge_rec(g2, x)
        == edge_rec(g, x)
    &&& forall|x: u64| #[trigger] has_edge(g, x) && !touches(g, x, node) ==> has_edge(g2, x)
}

proof fn lemma_thinned_more(g: GraphState, gm: GraphState, node: u64, e: u64)
    requires
        thinned(g, gm, node),
        has_edge(gm, e),
        touches(gm, e, node),
    ensures
        thinned(g, deleted_edge(gm, e).1, node),
{
    reveal(consistent);
    reveal(thinned);
    lemma_delete_edge_consistent(gm, e);
    assert(edge_sound(gm, e));
    let gi = deleted_edge(gm, e).1;
    assert forall|k: Seq<u8>| #[trigger] gi.adj.contains_key(k) implies g.adj.contains_key(k) by {
        assert(gm.adj.contains_key(k));
    }
    assert forall|x: u64| #[trigger] has_edge(gi, x) implies has_edge(g, x) && edge_rec(gi, x)
        == edge_rec(g, x) by {
        assert(has_edge(gm, x));
    }
    assert forall|x: u64| #[trigger] has_edge(g, x) && !touches(g, x, node) implies has_edge(
        gi,
        x,
    ) by {
        assert(has_edge(gm, x));
        lemma_number_key(x, e);
    }
}

/// Removing one entry more.
proof fn lemma_unlink_step(g: GraphState, id: u64, dir: Direction, m: int)
    requires
        consistent(g),
        0 <= m < adj_entries(g.adj, id, dir, None).len(),
        ({
            let s = adj_entries(g.adj, id, dir, None);
            let gm = unlinked(g, s.take(m), id, dir);
            thinned(g, gm, id) && gm.adj.contains_key(s[m].0)
        }),
    ensures
        ({
            let s = adj_entries(g.adj, id, dir, None);
            let gm = unlinked(g, s.take(m), id, dir);
            let gi = unlinked(g, s.take(m + 1), id, dir);
            &&& thinned(g, gi, id)
            &&& gi.adj == gm.adj.remove(mirror(s[m].0, id, dir)).remove(s[m].0)
        }),
{
    reveal(consistent);
    let s = adj_entries(g.adj, id, dir, None);
    let gm = unlinked(g, s.take(m), id, dir);
    assert(s.take(m + 1).drop_last() =~= s.take(m));
    assert(s.take(m + 1).last() == s[m]);
    let k = s[m].0;
    lemma_entry_key(g.adj, id, dir, m);
    let h = be32(k, 9) as u32;
    let o = be64(k, 13) as u64;
    let e = be64(k, 21) as u64;
    assert(consistent(gm)) by {
        reveal(thinned);
    }
    assert(has_link(gm, id, dir, h, o, e));
    assert(link_sound(gm, id, dir, h, o, e));
    lemma_unlink_one(gm, id, dir, h, o, e);
    lemma_thinned_more(g, gm, id, e);
}

/// Removing the first entries of a node keeps the invariant, leaves the other
/// entries of the node there, and changes nothing but edges and adjacency.
proof fn lemma_unlink_prefix(g: GraphState, id: u64, dir: Direction, i: int)
    requires
        consistent(g),
        0 <= i <= adj_entries(g.adj, id, dir, None).len(),
    ensures
        ({
            let s = adj_entries(g.adj, id, dir, None);
            let gi = unlinked(g, s.take(i), id, dir);
            &&& thinned(g, gi, id)
            &&& forall|j: int| 0 <= j < i ==> !gi.adj.contains_key((#[trigger] s[j]).0)
            &&& forall|j: int| i <= j < s.len() ==> gi.adj.contains_key((#[trigger] s[j]).0)
        }),
    decreases i,
{
    reveal(consistent);
    let s = adj_entries(g.adj, id, dir, None);
    let gi = unlinked(g, s.take(i), id, dir);
    if i == 0 {
        assert(s.take(0).len() == 0);
        assert(thinned(g, gi, id)) by {
            reveal(thinned);
        }
        assert forall|j: int| 0 <= j < s.len() implies g.adj.contains_key((#[trigger] s[j]).0) by {
            lemma_entry_key(g.adj, id, dir, j);
        }
    } else {
        let m = i - 1;
        lemma_unlink_prefix(g, id, dir, m);
        let gm = unlinked(g, s.take(m), id, dir);
        assert(gm.adj.contains_key(s[m].0));
        lemma_unlink_step(g, id, dir, m);
        assert forall|j: int| i <= j < s.len() implies gi.adj.contains_key(
            (#[trigger] s[j]).0,
        ) by {
            lemma_entries_apart(g.adj, id, dir, m, j);
            assert(gm.adj.contains_key(s[j].0));
        }
        assert forall|j: int| 0 <= j < i implies !gi.adj.contains_key((#[trigger] s[j]).0) by {
            if j < m {
                assert(!gm.adj.contains_key(s[j].0));
            }
        }
    }
}

/// Removing all edges of a node in one direction leaves no entry of it there.
proof fn lemma_unlink_all(g: GraphState, id: u64, dir: Direction)
    requires
        consistent(g),
    ensures
        ({
            let g2 = unlinked(g, adj_entries(g.adj, id, dir, None), id, dir);
            &&& consistent(g2)
            &&& g2.nodes == g.nodes
            &&& g2.labels == g.labels
            &&& g2.meta == g.meta
            &&& forall|k: Seq<u8>| #[trigger] g2.adj.contains_key(k) ==> g.adj.contains_key(k)
            &&& forall|h: u32, o: u64, e: u64| !#[trigger] has_link(g2, id, dir, h, o, e)
            &&& forall|x: u64| #[trigger] has_edge(g2, x) ==> has_edge(g, x) && edge_rec(g2, x)
                == edge_rec(g, x)
            &&& forall|x: u64| #[trigger] has_edge(g, x) && !touches(g, x, id) ==> has_edge(g2, x)
        }),
{
    reveal(consistent);
    let s = adj_entries(g.adj, id, dir, None);
    lemma_unlink_prefix(g, id, dir, s.len() as int);
    reveal(thinned);
    assert(s.take(s.len() as int) =~= s);
    let g2 = unlinked(g, s, id, dir);
    assert forall|h: u32, o: u64, e: u64| !#[trigger] has_link(g2, id, dir, h, o, e) by {
        let k = adj_key(id, dir, h, o, e);
        if g2.adj.contains_key(k) {
            assert(g.adj.contains_key(k));
            lemma_be64_round_trip(id);
            assert(k.take(9) =~= adj_dir_prefix(id, dir));
            lemma_dir_entries(g.adj, id, dir, k);
            let j = choose|j: int| 0 <= j < s.len() && (#[trigger] s[j]).0 == k;
            assert(!g2.adj.contains_key(s[j].0));
        }
    }
}

/// Removing edges has nothing to do with the label index.
proof fn lemma_unlink_labels(
    g: GraphState,
    labels: Table,
    s: Seq<(Seq<u8>, Seq<u8>)>,
    id: u64,
    dir: Direction,
)
    ensures
        unlinked(GraphState { labels, ..g }, s, id, dir) == (GraphState {
            labels,
            ..unlinked(g, s, id, dir)
        }),
    decreases s.len(),
{
    if s.len() > 0 {
        lemma_unlink_labels(g, labels, s.drop_last(), id, dir);
    }
}

/// The graph after a node's edges are gone.
spec fn isolated(g: GraphState, id: u64) -> GraphState {
    let g1 = unlinked(g, adj_entries(g.adj, id, Direction::Out, None), id, Direction::Out);
    unlinked(g1, adj_entries(g1.adj, id, Direction::In, None), id, Direction::In)
}

proof fn lemma_isolated(g: GraphState, id: u64)
    requires
        consistent(g),
    ensures
        consistent(isolated(g, id)),
        isolated(g, id).nodes == g.nodes,
        isolated(g, id).labels == g.labels,
        isolated(g, id).meta == g.meta,
        forall|d: Direction, h: u32, o: u64, e: u64|
            !#[trigger] has_link(isolated(g, id), id, d, h, o, e),
        forall|x: u64| #[trigger] has_edge(isolated(g, id), x) ==> has_edge(g, x) && edge_rec(
            isolated(g, id),
            x,
        ) == edge_rec(g, x),
        forall|x: u64| #[trigger]
            has_edge(g, x) && !touches(g, x, id) ==> has_edge(isolated(g, id), x),
{
    reveal(consistent);
    let g1 = unlinked(g, adj_entries(g.adj, id, Direction::Out, None), id, Direction::Out);
    lemma_unlink_all(g, id, Direction::Out);
    lemma_unlink_all(g1, id, Direction::In);
    let g2 = isolated(g, id);
    assert forall|d: Direction, h: u32, o: u64, e: u64| !#[trigger] has_link(
        g2,
        id,
        d,
        h,
        o,
        e,
    ) by {
        if d == Direction::Out && has_link(g2, id, d, h, o, e) {
            assert(has_link(g1, id, Direction::Out, h, o, e));
        }
    }
    assert forall|x: u64| #[trigger] has_edge(g2, x) implies has_edge(g, x) && edge_rec(g2, x)
        == edge_rec(g, x) by {
        assert(has_edge(g1, x));
    }
    assert forall|x: u64| #[trigger] has_edge(g, x) && !touches(g, x, id) implies has_edge(
        g2,
        x,
    ) by {
        assert(has_edge(g1, x));
    }
}

proof fn lemma_deleted_node_form(g: GraphState, id: u64)
    requires
        consistent(g),
        has_node(g, id),
    ensures
        deleted_node(g, id) == (
            Ok::<bool, crate::graph::GraphErr>(true),
            GraphState {
                labels: g.labels.remove(
                    label_key(hash_of(node_rec(g, id)->0.label), id),
                ),
                nodes: g.nodes.remove(be64_bytes(id)),
                ..isolated(g, id)
            },
        ),
{
    reveal(consistent);
    assert(node_sound(g, id));
    let labels = g.labels.remove(label_key(hash_of(node_rec(g, id)->0.label), id));
    let g0 = GraphState { labels, ..g };
    let s1 = adj_entries(g.adj, id, Direction::Out, None);
    lemma_unlink_labels(g, labels, s1, id, Direction::Out);
    let g1 = unlinked(g, s1, id, Direction::Out);
    let s2 = adj_entries(g1.adj, id, Direction::In, None);
    lemma_unlink_labels(g1, labels, s2, id, Direction::In);
    lemma_isolated(g, id);
}

/// Deleting a node keeps the invariant: no edge is left without one of its
/// nodes.
pub proof fn lemma_delete_node_consistent(g: GraphState, id: u64)
    requires
        consistent(g),
    ensures
        consistent(deleted_node(g, id).1),
{
    reveal(consistent);
    if has_node(g, id) {
        lemma_deleted_node_form(g, id);
        lemma_isolated(g, id);
        assert(node_sound(g, id));
        let gi = isolated(g, id);
        let g2 = deleted_node(g, id).1;
        let h0 = hash_of(node_rec(g, id)->0.label);
        assert(graph_ok(g2)) by {
            assert forall|k: Seq<u8>| #[trigger] g2.labels.contains_key(k) implies k.len()
                == LABEL_KEY_LEN by {
                assert(g.labels.contains_key(k));
            }
        }
        assert forall|x: u64| #[trigger] has_node(g2, x) implies node_sound(g2, x) by {
            lemma_number_key(x, id);
            assert(has_node(gi, x));
            assert(node_sound(gi, x));
            lemma_label_entry(hash_of(node_rec(gi, x)->0.label), x, h0, id);
        }
        assert forall|x: u64| #[trigger] has_edge(g2, x) implies edge_sound(g2, x) by {
            assert(has_edge(gi, x));
            assert(edge_sound(gi, x));
            let r = edge_rec(gi, x)->0;
            let h = hash_of(r.edge_type);
            assert(has_link(gi, r.src, Direction::Out, h, r.dst, x));
            assert(has_link(gi, r.dst, Direction::In, h, r.src, x));
            lemma_number_key(r.src, id);
            lemma_number_key(r.dst, id);
            assert(has_node(gi, r.src) && has_node(gi, r.dst));
        }
        assert forall|n: u64, d: Direction, h: u32, o: u64, e: u64| #[trigger]
            has_link(g2, n, d, h, o, e) implies link_sound(g2, n, d, h, o, e) by {
            assert(has_link(gi, n, d, h, o, e));
            assert(link_sound(gi, n, d, h, o, e));
        }
        assert forall|h: u32, x: u64| #[trigger] has_label(g2, h, x) implies label_sound(
            g2,
            h,
            x,
        ) by {
            assert(has_label(gi, h, x));
            assert(label_sound(gi, h, x));
            lemma_label_entry(h, x, h0, id);
            lemma_number_key(x, id);
        }
    }
}

// ---------------------------------------------------------------------------
// Setting properties
// ---------------------------------------------------------------------------

proof fn lemma_stored_props_ok(b: Seq<u8>)
    requires
        dec_node(b) is Some,
    ensures
        props_ok(dec_node(b)->0.props),
{
    let (label, r) = dec_text(b)->0;
    let (n, r2) = dec_number(r)->0;
    lemma_decoded_props_ok(r2, n as nat, Seq::empty());
}

/// Setting a property keeps the invariant.
pub proof fn lemma_set_property_consistent(g: GraphState, id: u64, key: Seq<char>, v: Val)
    requires
        consistent(g),
    ensures
        consistent(property_set(g, id, key, v).1),
{
    reveal(consistent);
    if has_node(g, id) {
        assert(node_sound(g, id));
        let old_rec = node_rec(g, id)->0;
        lemma_stored_props_ok(g.nodes[be64_bytes(id)]);
        lemma_prop_set(old_rec.props, key, v, key);
        let rec = NodeRec { label: old_rec.label, props: prop_set(old_rec.props, key, v) };
        if enc_node(rec).len() <= MAX_VALUE_SIZE {
            lemma_node_fits(rec);
            let g2 = property_set(g, id, key, v).1;
            assert(node_rec(g2, id) == Some(rec));
            assert forall|x: u64| #[trigger] has_node(g2, x) implies node_sound(g2, x) by {
                lemma_number_key(x, id);
                assert(has_node(g, x));
                assert(node_sound(g, x));
            }
            assert forall|x: u64| #[trigger] has_edge(g2, x) implies edge_sound(g2, x) by {
                assert(has_edge(g, x));
                assert(edge_sound(g, x));
                let r = edge_rec(g, x)->0;
                assert(has_node(g, r.src) && has_node(g, r.dst));
                assert(has_node(g2, r.src) && has_node(g2, r.dst));
            }
            assert forall|n: u64, d: Direction, h: u32, o: u64, e: u64| #[trigger]
                has_link(g2, n, d, h, o, e) implies link_sound(g2, n, d, h, o, e) by {
                assert(has_link(g, n, d, h, o, e));
            }
            assert forall|h: u32, x: u64| #[trigger] has_label(g2, h, x) implies label_sound(
                g2,
                h,
                x,
            ) by {
                assert(has_label(g, h, x));
                assert(label_sound(g, h, x));
                lemma_number_key(x, id);
            }
        }
    }
}

// ---------------------------------------------------------------------------
// What is read
// ---------------------------------------------------------------------------

/// Whether an edge leads from a node in a direction to another, and has a type
/// with the hash of the one that is asked for.
pub open spec fn leads(
    rec: EdgeRec,
    node: u64,
    dir: Direction,
    edge_type: Option<Seq<char>>,
    other: u64,
) -> bool {
    &&& match dir {
        Direction::Out => rec.src == node && rec.dst == other,
        Direction::In => rec.dst == node && rec.src == other,
    }
    &&& edge_type matches Some(t) ==> hash_of(rec.edge_type) == hash_of(t)
}

/// What adjacency keys of one type start with.
proof fn lemma_type_entries(adj: Table, id: u64, dir: Direction, t: Seq<char>, k: Seq<u8>)
    requires
        adj.dom().finite(),
        forall|x: Seq<u8>| #[trigger] adj.contains_key(x) ==> x.len() == ADJ_KEY_LEN,
    ensures
        (exists|j: int|
            0 <= j < adj_entries(adj, id, dir, Some(t)).len() && (#[trigger] adj_entries(
                adj,
                id,
                dir,
                Some(t),
            )[j]).0 == k) <==> adj.contains_key(k) && starts_with(
            k,
            adj_type_prefix(id, dir, hash_of(t)),
        ),
{
    let h = hash_of(t);
    let start = adj_key(id, dir, h, 0, 0);
    let end = adj_key(id, dir, h, u64::MAX, u64::MAX);
    lemma_range_exists(adj, start, end);
    let s = adj_entries(adj, id, dir, Some(t));
    if k.len() == ADJ_KEY_LEN {
        lemma_type_range(id, dir, h, k);
    }
    if exists|j: int| 0 <= j < s.len() && (#[trigger] s[j]).0 == k {
        let j = choose|j: int| 0 <= j < s.len() && (#[trigger] s[j]).0 == k;
        assert(s.contains((s[j].0, s[j].1)));
    }
    if adj.contains_key(k) && starts_with(k, adj_type_prefix(id, dir, h)) {
        assert(s.contains((k, adj[k])));
        let j = s.index_of((k, adj[k]));
        assert(s[j].0 == k);
    }
}

/// The keys that a listing of neighbours goes through.
proof fn lemma_listed(
    adj: Table,
    id: u64,
    dir: Direction,
    edge_type: Option<Seq<char>>,
    k: Seq<u8>,
)
    requires
        adj.dom().finite(),
        forall|x: Seq<u8>| #[trigger] adj.contains_key(x) ==> x.len() == ADJ_KEY_LEN,
    ensures
        (exists|j: int|
            0 <= j < adj_entries(adj, id, dir, edge_type).len() && (#[trigger] adj_entries(
                adj,
                id,
                dir,
                edge_type,
            )[j]).0 == k) <==> {
            &&& adj.contains_key(k)
            &&& k == adj_key(id, dir, be32(k, 9) as u32, be64(k, 13) as u64, be64(k, 21) as u64)
            &&& edge_type matches Some(t) ==> be32(k, 9) == hash_of(t)
        },
{
    if adj.contains_key(k) {
        let h = be32(k, 9) as u32;
        let o = be64(k, 13) as u64;
        let e = be64(k, 21) as u64;
        let full = adj_key(id, dir, h, o, e);
        lemma_adj_key(id, dir, h, o, e);
        lemma_be64_round_trip(id);
        assert(full.take(9) =~= adj_dir_prefix(id, dir));
        if starts_with(k, adj_dir_prefix(id, dir)) {
            lemma_adj_parts(k, id, dir);
        }
        match edge_type {
            None => {
                lemma_dir_entries(adj, id, dir, k);
            },
            Some(t) => {
                lemma_type_entries(adj, id, dir, t, k);
                let p = adj_type_prefix(id, dir, hash_of(t));
                assert(full.take(13) =~= adj_type_prefix(id, dir, h));
                if starts_with(k, p) {
                    assert(k.take(9) =~= p.take(9));
                    assert(p.take(9) =~= adj_dir_prefix(id, dir));
                    lemma_adj_parts(k, id, dir);
                    assert(p.subrange(9, 13) =~= crate::bytes::be32_bytes(hash_of(t)));
                    assert(adj_type_prefix(id, dir, h).subrange(9, 13)
                        =~= crate::bytes::be32_bytes(h));
                    crate::bytes::lemma_be32_round_trip(h);
                    crate::bytes::lemma_be32_round_trip(hash_of(t));
                }
            },
        }
    } else {
        match edge_type {
            None => {
                lemma_dir_entries(adj, id, dir, k);
            },
            Some(t) => {
                lemma_type_entries(adj, id, dir, t, k);
            },
        }
    }
}

/// The neighbours of a node are exactly the other ends of its edges: the
/// listing holds an edge and a node if and only if the edge is there and leads
/// from the node to that one, in the direction and of the type asked for.
pub proof fn lemma_neighbors_are_edges(
    g: GraphState,
    node: u64,
    dir: Direction,
    edge_type: Option<Seq<char>>,
    edge: u64,
    other: u64,
)
    requires
        consistent(g),
    ensures
        neighbors_of(g, node, dir, edge_type).contains((edge, other)) <==> (has_edge(g, edge)
            && leads(edge_rec(g, edge)->0, node, dir, edge_type, other)),
{
    reveal(consistent);
    let s = adj_entries(g.adj, node, dir, edge_type);
    let ns = neighbors_of(g, node, dir, edge_type);
    if ns.contains((edge, other)) {
        let j = ns.index_of((edge, other));
        let k = s[j].0;
        lemma_listed(g.adj, node, dir, edge_type, k);
        let h = be32(k, 9) as u32;
        assert(adj_target(k) == (edge, other));
        assert(has_link(g, node, dir, h, other, edge));
        assert(link_sound(g, node, dir, h, other, edge));
        lemma_adj_key(node, dir, h, other, edge);
    }
    if has_edge(g, edge) && leads(edge_rec(g, edge)->0, node, dir, edge_type, other) {
        assert(edge_sound(g, edge));
        let rec = edge_rec(g, edge)->0;
        let h = hash_of(rec.edge_type);
        let k = adj_key(node, dir, h, other, edge);
        assert(has_link(g, node, dir, h, other, edge));
        lemma_adj_key(node, dir, h, other, edge);
        lemma_listed(g.adj, node, dir, edge_type, k);
        let j = choose|j: int| 0 <= j < s.len() && (#[trigger] s[j]).0 == k;
        assert(ns[j] == (edge, other));
    }
}

/// An edge is seen from both its nodes: it leads out of one exactly where it
/// leads into the other.
pub proof fn lemma_neighbors_symmetric(
    g: GraphState,
    a: u64,
    b: u64,
    edge_type: Option<Seq<char>>,
    edge: u64,
)
    requires
        consistent(g),
    ensures
        neighbors_of(g, a, Direction::Out, edge_type).contains((edge, b)) <==> neighbors_of(
            g,
            b,
            Direction::In,
            edge_type,
        ).contains((edge, a)),
{
    reveal(consistent);
    lemma_neighbors_are_edges(g, a, Direction::Out, edge_type, edge, b);
    lemma_neighbors_are_edges(g, b, Direction::In, edge_type, edge, a);
}

proof fn lemma_adj_range(adj: Table, id: u64, dir: Direction, edge_type: Option<Seq<char>>)
    requires
        adj.dom().finite(),
    ensures
        sorted_keys(keys_of(adj_entries(adj, id, dir, edge_type))),
{
    match edge_type {
        Some(t) => {
            let h = hash_of(t);
            lemma_range_exists(
                adj,
                adj_key(id, dir, h, 0, 0),
                adj_key(id, dir, h, u64::MAX, u64::MAX),
            );
        },
        None => {
            lemma_range_exists(
                adj,
                adj_key(id, dir, 0, 0, 0),
                adj_key(id, dir, u32::MAX, u64::MAX, u64::MAX),
            );
        },
    }
}

/// What a place in a listing of neighbours says of the graph.
proof fn lemma_neighbor_key(
    g: GraphState,
    node: u64,
    dir: Direction,
    edge_type: Option<Seq<char>>,
    i: int,
)
    requires
        consistent(g),
        0 <= i < neighbors_of(g, node, dir, edge_type).len(),
    ensures
        ({
            let (e, o) = neighbors_of(g, node, dir, edge_type)[i];
            &&& has_edge(g, e)
            &&& adj_entries(g.adj, node, dir, edge_type)[i].0 == adj_key(
                node,
                dir,
                hash_of(edge_rec(g, e)->0.edge_type),
                o,
                e,
            )
        }),
{
    reveal(consistent);
    let s = adj_entries(g.adj, node, dir, edge_type);
    let (e, o) = neighbors_of(g, node, dir, edge_type)[i];
    let k = s[i].0;
    lemma_listed(g.adj, node, dir, edge_type, k);
    let h = be32(k, 9) as u32;
    assert(adj_target(k) == (e, o));
    assert(has_link(g, node, dir, h, o, e));
    assert(link_sound(g, node, dir, h, o, e));
}

/// The neighbours of a node come in the order of the hashes of their edges'
/// types, within one hash in the order of their numbers, within one neighbour
/// in the order of the edges. No edge comes twice.
pub proof fn lemma_neighbors_ordered(
    g: GraphState,
    node: u64,
    dir: Direction,
    edge_type: Option<Seq<char>>,
    i: int,
    j: int,
)
    requires
        consistent(g),
        0 <= i < j < neighbors_of(g, node, dir, edge_type).len(),
    ensures
        ({
            let (e, o) = neighbors_of(g, node, dir, edge_type)[i];
            let (e2, o2) = neighbors_of(g, node, dir, edge_type)[j];
            &&& link_before(
                hash_of(edge_rec(g, e)->0.edge_type),
                o,
                e,
                hash_of(edge_rec(g, e2)->0.edge_type),
                o2,
                e2,
            )
            &&& e != e2
        }),
{
    reveal(consistent);
    let s = adj_entries(g.adj, node, dir, edge_type);
    let (e, o) = neighbors_of(g, node, dir, edge_type)[i];
    let (e2, o2) = neighbors_of(g, node, dir, edge_type)[j];
    let h = hash_of(edge_rec(g, e)->0.edge_type);
    let h2 = hash_of(edge_rec(g, e2)->0.edge_type);
    lemma_neighbor_key(g, node, dir, edge_type, i);
    lemma_neighbor_key(g, node, dir, edge_type, j);
    lemma_adj_range(g.adj, node, dir, edge_type);
    assert(key_lt(keys_of(s)[i], keys_of(s)[j]));
    lemma_adj_order(node, dir, h, o, e, h2, o2, e2);
    let ns = neighbors_of(g, node, dir, edge_type);
    assert(ns.contains(ns[i]) && ns.contains(ns[j]));
    lemma_neighbors_are_edges(g, node, dir, edge_type, e, o);
    lemma_neighbors_are_edges(g, node, dir, edge_type, e2, o2);
}

/// The nodes with a label come in ascending order, none of them twice.
pub proof fn lemma_labelled_ordered(g: GraphState, label: Seq<char>, i: int, j: int)
    requires
        consistent(g),
        0 <= i < j < labelled(g, label).len(),
    ensures
        labelled(g, label)[i] < labelled(g, label)[j],
{
    reveal(consistent);
    let h = hash_of(label);
    lemma_range_exists(g.labels, label_key(h, 0), label_key(h, u64::MAX));
    let s = range_of(g.labels, label_key(h, 0), label_key(h, u64::MAX));
    lemma_label_at(g, label, i);
    lemma_label_at(g, label, j);
    assert(key_lt(keys_of(s)[i], keys_of(s)[j]));
    lemma_label_order(h, labelled(g, label)[i], labelled(g, label)[j]);
}

proof fn lemma_label_at(g: GraphState, label: Seq<char>, i: int)
    requires
        consistent(g),
        0 <= i < labelled(g, label).len(),
    ensures
        range_of(
            g.labels,
            label_key(hash_of(label), 0),
            label_key(hash_of(label), u64::MAX),
        )[i].0 == label_key(hash_of(label), labelled(g, label)[i]),
{
    reveal(consistent);
    let h = hash_of(label);
    lemma_range_exists(g.labels, label_key(h, 0), label_key(h, u64::MAX));
    let s = range_of(g.labels, label_key(h, 0), label_key(h, u64::MAX));
    let k = s[i].0;
    assert(s.contains((s[i].0, s[i].1)));
    lemma_label_range(h, k);
    lemma_be64_inverse(k, 4);
    assert(k =~= k.take(4) + k.subrange(4, 12));
}

/// The nodes with a label are exactly those whose label has its hash.
pub proof fn lemma_labelled_are_nodes(g: GraphState, label: Seq<char>, id: u64)
    requires
        consistent(g),
    ensures
        labelled(g, label).contains(id) <==> (has_node(g, id) && hash_of(
            node_rec(g, id)->0.label,
        ) == hash_of(label)),
{
    reveal(consistent);
    let h = hash_of(label);
    let start = label_key(h, 0);
    let end = label_key(h, u64::MAX);
    lemma_range_exists(g.labels, start, end);
    let s = range_of(g.labels, start, end);
    let ids = labelled(g, label);
    if ids.contains(id) {
        let j = ids.index_of(id);
        let k = s[j].0;
        assert(s.contains((s[j].0, s[j].1)));
        lemma_label_range(h, k);
        lemma_be64_inverse(k, 4);
        assert(k =~= k.take(4) + k.subrange(4, 12));
        assert(be64(k, 4) as u64 == id);
        assert(k == label_key(h, id));
        assert(has_label(g, h, id));
        assert(label_sound(g, h, id));
    }
    if has_node(g, id) && hash_of(node_rec(g, id)->0.label) == h {
        assert(node_sound(g, id));
        let k = label_key(h, id);
        assert(has_label(g, h, id));
        lemma_label_key(h, id);
        lemma_label_range(h, k);
        assert(k.take(4) =~= crate::bytes::be32_bytes(h));
        assert(s.contains((k, g.labels[k])));
        let j = s.index_of((k, g.labels[k]));
        assert(ids[j] == id);
    }
}

/// A node that was created reads back, its label lists it, and no other node
/// changed.
pub proof fn lemma_created_node_reads_back(
    g: GraphState,
    label: Seq<char>,
    props: Props,
    other: u64,
)
    requires
        consistent(g),
        props_ok(props),
        next_node(g) < u64::MAX,
        created_node(g, label, props).0 is Ok,
    ensures
        ({
            let (r, g2) = created_node(g, label, props);
            let id = r->Ok_0;
            &&& node_at(g, id) == Ok::<Option<NodeVal>, crate::graph::GraphErr>(None)
            &&& node_at(g2, id) == Ok::<Option<NodeVal>, crate::graph::GraphErr>(
                Some(NodeVal { id, label, props }),
            )
            &&& labelled(g2, label).contains(id)
            &&& other != id ==> node_at(g2, other) == node_at(g, other)
        }),
{
    reveal(consistent);
    let g2 = created_node(g, label, props).1;
    let id = next_node(g);
    let rec = NodeRec { label, props };
    lemma_node_fits(rec);
    lemma_create_node_consistent(g, label, props);
    lemma_labelled_are_nodes(g2, label, id);
    lemma_number_key(other, id);
    if has_node(g, id) {
        assert(node_sound(g, id));
    }
}

/// An edge that was created reads back, and both its nodes list it, with its
/// type and without.
pub proof fn lemma_created_edge_reads_back(
    g: GraphState,
    src: u64,
    dst: u64,
    edge_type: Seq<char>,
    props: Props,
    other: u64,
)
    requires
        consistent(g),
        props_ok(props),
        next_edge(g) < u64::MAX,
        created_edge(g, src, dst, edge_type, props).0 is Ok,
    ensures
        ({
            let (r, g2) = created_edge(g, src, dst, edge_type, props);
            let id = r->Ok_0;
            &&& edge_at(g2, id) == Ok::<Option<EdgeVal>, crate::graph::GraphErr>(
                Some(EdgeVal { id, src, dst, edge_type, props }),
            )
            &&& neighbors_of(g2, src, Direction::Out, None).contains((id, dst))
            &&& neighbors_of(g2, src, Direction::Out, Some(edge_type)).contains((id, dst))
            &&& neighbors_of(g2, dst, Direction::In, None).contains((id, src))
            &&& neighbors_of(g2, dst, Direction::In, Some(edge_type)).contains((id, src))
            &&& other != id ==> edge_at(g2, other) == edge_at(g, other)
        }),
{
    reveal(consistent);
    let g2 = created_edge(g, src, dst, edge_type, props).1;
    let id = next_edge(g);
    let rec = EdgeRec { src, dst, edge_type, props };
    lemma_edge_fits(rec);
    lemma_create_edge_consistent(g, src, dst, edge_type, props);
    lemma_number_key(other, id);
    assert(has_edge(g2, id));
    assert(edge_rec(g2, id) == Some(rec));
    lemma_neighbors_are_edges(g2, src, Direction::Out, None, id, dst);
    lemma_neighbors_are_edges(g2, src, Direction::Out, Some(edge_type), id, dst);
    lemma_neighbors_are_edges(g2, dst, Direction::In, None, id, src);
    lemma_neighbors_are_edges(g2, dst, Direction::In, Some(edge_type), id, src);
}

/// A node that was deleted is gone from everywhere: it does not read, no label
/// lists it, it has no neighbours, and no edge that is left has it as an end.
pub proof fn lemma_deleted_node_is_gone(
    g: GraphState,
    id: u64,
    label: Seq<char>,
    dir: Direction,
    edge_type: Option<Seq<char>>,
    edge: u64,
)
    requires
        consistent(g),
    ensures
        ({
            let g2 = deleted_node(g, id).1;
            &&& node_at(g2, id) == Ok::<Option<NodeVal>, crate::graph::GraphErr>(None)
            &&& !labelled(g2, label).contains(id)
            &&& neighbors_of(g2, id, dir, edge_type).len() == 0
            &&& has_edge(g2, edge) ==> edge_rec(g2, edge)->0.src != id && edge_rec(
                g2,
                edge,
            )->0.dst != id
        }),
{
    reveal(consistent);
    lemma_delete_node_consistent(g, id);
    let g2 = deleted_node(g, id).1;
    if has_node(g, id) {
        lemma_deleted_node_form(g, id);
    }
    assert(!has_node(g2, id));
    lemma_labelled_are_nodes(g2, label, id);
    let ns = neighbors_of(g2, id, dir, edge_type);
    if ns.len() > 0 {
        let (e, o) = ns[0];
        assert(ns.contains((e, o)));
        lemma_neighbors_are_edges(g2, id, dir, edge_type, e, o);
        assert(edge_sound(g2, e));
    }
    if has_edge(g2, edge) {
        assert(edge_sound(g2, edge));
    }
}

/// Deleting a node leaves the other nodes as they were, and of the edges exactly
/// those that it is no end of, with their records.
pub proof fn lemma_deleted_node_spares(g: GraphState, id: u64, other: u64, edge: u64)
    requires
        consistent(g),
    ensures
        ({
            let g2 = deleted_node(g, id).1;
            &&& other != id ==> node_at(g2, other) == node_at(g, other)
            &&& has_edge(g2, edge) <==> has_edge(g, edge) && !touches(g, edge, id)
            &&& has_edge(g2, edge) ==> edge_rec(g2, edge) == edge_rec(g, edge) && edge_at(g2, edge)
                == edge_at(g, edge)
        }),
{
    reveal(consistent);
    lemma_number_key(other, id);
    if has_edge(g, edge) {
        assert(edge_sound(g, edge));
    }
    if has_node(g, id) {
        lemma_deleted_node_form(g, id);
        lemma_isolated(g, id);
        let gi = isolated(g, id);
        let g2 = deleted_node(g, id).1;
        assert(has_edge(g2, edge) == has_edge(gi, edge));
        if has_edge(g2, edge) {
            assert(edge_sound(gi, edge));
            lemma_deleted_node_is_gone(g, id, Seq::empty(), Direction::Out, None, edge);
        }
    }
}

/// Deleting an edge takes that edge and no other, and never fails.
pub proof fn lemma_deleted_edge_only(g: GraphState, id: u64, edge: u64)
    requires
        consistent(g),
    ensures
        deleted_edge(g, id).0 == Ok::<bool, crate::graph::GraphErr>(has_edge(g, id)),
        deleted_edge(g, id).1.nodes == g.nodes,
        has_edge(deleted_edge(g, id).1, edge) <==> has_edge(g, edge) && edge != id,
        edge != id ==> edge_at(deleted_edge(g, id).1, edge) == edge_at(g, edge),
{
    reveal(consistent);
    lemma_number_key(edge, id);
    if has_edge(g, id) {
        assert(edge_sound(g, id));
    }
}

/// Deleting a node makes no edge.
pub proof fn lemma_deleted_node_keeps_no_new_edge(g: GraphState, id: u64, edge: u64)
    requires
        consistent(g),
    ensures
        has_edge(deleted_node(g, id).1, edge) ==> has_edge(g, edge),
{
    reveal(consistent);
    if has_node(g, id) {
        lemma_deleted_node_form(g, id);
        lemma_isolated(g, id);
        if has_edge(deleted_node(g, id).1, edge) {
            assert(has_edge(isolated(g, id), edge));
        }
    }
}

/// An edge that was deleted is gone from everywhere, and nothing else is.
pub proof fn lemma_deleted_edge_is_gone(
    g: GraphState,
    id: u64,
    node: u64,
    dir: Direction,
    edge_type: Option<Seq<char>>,
    edge: u64,
    other: u64,
)
    requires
        consistent(g),
    ensures
        ({
            let g2 = deleted_edge(g, id).1;
            &&& edge_at(g2, id) == Ok::<Option<EdgeVal>, crate::graph::GraphErr>(None)
            &&& node_at(g2, node) == node_at(g, node)
            &&& neighbors_of(g2, node, dir, edge_type).contains((edge, other)) <==> (edge != id
                && neighbors_of(g, node, dir, edge_type).contains((edge, other)))
        }),
{
    reveal(consistent);
    lemma_delete_edge_consistent(g, id);
    let g2 = deleted_edge(g, id).1;
    if has_edge(g, id) {
        assert(edge_sound(g, id));
    }
    lemma_number_key(edge, id);
    lemma_neighbors_are_edges(g, node, dir, edge_type, edge, other);
    lemma_neighbors_are_edges(g2, node, dir, edge_type, edge, other);
}

/// A property that was set reads back, and the other properties of the node
/// are as they were.
pub proof fn lemma_set_property_reads_back(
    g: GraphState,
    id: u64,
    key: Seq<char>,
    v: Val,
    other: Seq<char>,
)
    requires
        consistent(g),
        property_set(g, id, key, v).0 is Ok,
    ensures
        ({
            let g2 = property_set(g, id, key, v).1;
            &&& property_at(g2, id, key) == Ok::<Option<Val>, crate::graph::GraphErr>(Some(v))
            &&& other != key ==> property_at(g2, id, other) == property_at(g, id, other)
        }),
{
    reveal(consistent);
    let old_rec = node_rec(g, id)->0;
    lemma_stored_props_ok(g.nodes[be64_bytes(id)]);
    lemma_prop_set(old_rec.props, key, v, key);
    lemma_prop_set(old_rec.props, key, v, other);
    let rec = NodeRec { label: old_rec.label, props: prop_set(old_rec.props, key, v) };
    lemma_node_fits(rec);
    let g2 = property_set(g, id, key, v).1;
    assert(node_rec(g2, id) == Some(rec));
}

/// The data file and the log of a graph database can be opened again, also when
/// a transaction was cut short.
pub proof fn lemma_files_sound(a: GraphDb)
    requires
        a.wf(),
        a.settled(),
    ensures
        sound_files(a.db.pager@.base, Some(a.db.wal@)),
        open_error(a.db.pager@.base, Some(a.db.wal@)) is None,
{
    lemma_nothing_to_replay(a.db.wal@, a.db.wal@.len() as int);
    assert forall|db: Database| #[trigger]
        reopened(a.db.pager@.base, Some(a.db.wal@), db) implies db.wf() by {
        lemma_restart(a.db, db);
    }
}

/// What was committed to a graph survives a restart, and what was not is not
/// there: what is opened from the data file and the log, also when a
/// transaction was cut short, is the graph of the last commit.
pub proof fn lemma_reopened_graph(a: GraphDb, b: GraphDb)
    requires
        a.wf(),
        a.settled(),
        reopened(a.db.pager@.base, Some(a.db.wal@), b.db),
    ensures
        b.wf(),
        b.settled(),
        b.graph() == a.graph(),
{
    lemma_restart(a.db, b.db);
}

/// A crash in the middle of storing the pages of a commit loses nothing of it:
/// once the log is stored, what the crash left opens as the graph of the new
/// commit.
pub proof fn lemma_graph_after_storing_crash(
    a: GraphDb,
    b: GraphDb,
    pages: Seq<Seq<u8>>,
    c: GraphDb,
)
    requires
        a.wf(),
        a.settled(),
        b.wf(),
        b.settled(),
        logged(a.db, b.db),
        half_stored(a.db, b.db, pages),
        reopened(pages, Some(b.db.wal@), c.db),
    ensures
        sound_files(pages, Some(b.db.wal@)),
        c.wf(),
        c.settled(),
        c.graph() == b.graph(),
{
    lemma_crash_while_storing(a.db, b.db, pages, c.db);
    assert forall|db: Database| #[trigger]
        reopened(pages, Some(b.db.wal@), db) implies db.wf() by {
        lemma_crash_while_storing(a.db, b.db, pages, db);
    }
}

/// A crash in the middle of storing the log of a commit undoes all of it: what
/// the crash left opens as the graph of the commit before, and settled once the
/// end of the log is cut off.
pub proof fn lemma_graph_after_logging_crash(
    a: GraphDb,
    b: GraphDb,
    n: int,
    c: GraphDb,
    d: GraphDb,
)
    requires
        a.wf(),
        a.settled(),
        b.wf(),
        logged(a.db, b.db),
        a.db.wal@.len() <= n < b.db.wal@.len(),
        reopened(a.db.pager@.base, Some(b.db.wal@.take(n)), c.db),
        reopened(
            a.db.pager@.base,
            Some(kept_log(a.db.pager@.base, b.db.wal@.take(n))),
            d.db,
        ),
    ensures
        sound_files(a.db.pager@.base, Some(b.db.wal@.take(n))),
        c.wf(),
        c.graph() == a.graph(),
        d.wf(),
        d.settled(),
        d.graph() == a.graph(),
{
    lemma_crash_while_logging(a.db, b.db, n, c.db);
    assert forall|db: Database| #[trigger]
        reopened(a.db.pager@.base, Some(b.db.wal@.take(n)), db) implies db.wf() by {
        lemma_crash_while_logging(a.db, b.db, n, db);
    }
    lemma_reopened_graph(a, d);
}

/// An abandoned transaction leaves the graph as it was: whatever a transaction
/// did, without its commit the database holds the graph of the last commit.
pub proof fn lemma_abandoned_graph(a: GraphDb, b: GraphDb)
    requires
        a.wf(),
        b.db.wf(),
        same_base(a.db, b.db),
    ensures
        b.wf(),
        b.graph() == a.graph(),
        a.settled() ==> b.settled(),
{
    lemma_uncommitted_is_invisible(a.db, b.db);
}

} // verus!
