//! What `CREATE`, `MERGE` and `DELETE` leave in a graph.

use crate::cypher::ast::{EdgeDirection, EdgePat, Elem, Ex, Exs, Lit, MatchStmt, NodePat};
use crate::cypher::conditions::{keeps, written};
use crate::cypher::CypherErr;
use crate::cypher::env::{
    any_node, env_get, is_largest_node, last_node_key, lemma_largest_node, Binding, EnvMap,
};
use crate::cypher::laws::{lemma_counters, lemma_literal_props_ok};
use crate::cypher::query::{
    bound, create_from, create_pattern_edge, create_pattern_node, delete_edges, delete_nodes,
    doomed, doomed_in, expand, filtered, first_fit, label_of, literal_props, no_stats, only_stats,
    run_create, run_delete, run_merge, Doomed, QueryVal, Stats,
};
use crate::cypher::values::node_text;
use crate::cypher::walks::{
    asked, edge_pat, equals, goes, hops, is_path, joins, lemma_fits_is_wanted,
    lemma_matches_are_walks, node_on, node_pat, step_fits, typed, walk_env, walk_fits, wanted, Step,
    Walk,
};
use crate::float::is_nan;
use crate::graph::codec::{enc_edge, enc_node};
use crate::graph::GraphErr;
use crate::graph::laws::{
    consistent, edge_rec, has_edge, has_node, lemma_create_edge_consistent,
    lemma_create_node_consistent, lemma_created_edge_reads_back, lemma_created_node_reads_back,
    lemma_delete_edge_consistent, lemma_delete_node_consistent, lemma_deleted_edge_only,
    lemma_deleted_node_is_gone, lemma_deleted_node_spares, lemma_labelled_are_nodes,
    lemma_labelled_ordered, lemma_node_props_ok, lemma_sound_edge, lemma_sound_node,
};
use crate::graph::state::{
    deleted_node, edge_at, labelled, next_edge, next_node, node_at, GraphState,
};
use crate::graph::types::{
    lemma_prop_index, prop_index, Direction, EdgeRec, EdgeVal, NodeRec, NodeVal, Props, Val,
};
use crate::model::MAX_VALUE_SIZE;
use vstd::prelude::*;

verus! {

// ---------------------------------------------------------------------------
// CREATE
// ---------------------------------------------------------------------------

/// Whether a pattern has each property name once.
pub open spec fn names_once(np: NodePat) -> bool {
    forall|i: int, j: int|
        0 <= i < j < np.properties.len() ==> (#[trigger] np.properties[i]).0 != (
        #[trigger] np.properties[j]).0
}

/// Whether properties are what literals write: the same names in the same
/// order, each with the value of its literal.
pub open spec fn props_written(es: Exs, ps: Props) -> bool {
    &&& ps.len() == es.len()
    &&& forall|i: int|
        0 <= i < es.len() ==> (#[trigger] es[i]).1 is Literal && ps[i].0 == es[i].0 && written(
            es[i].1->Literal_0,
            ps[i].1,
        )
}

/// Whether a node is what a pattern writes: it has the label, or the empty one
/// where the pattern has none, and the properties.
pub open spec fn node_written(np: NodePat, n: NodeVal) -> bool {
    &&& n.label == (if np.label is Some {
        np.label->0
    } else {
        ""@
    })
    &&& props_written(np.properties, n.props)
}

/// Whether a node is stored and is what a pattern writes.
pub open spec fn node_made(g: GraphState, np: NodePat, id: u64) -> bool {
    node_at(g, id) matches Ok(Some(n)) && node_written(np, n)
}

/// The type of an edge that a pattern writes.
pub open spec fn type_written(ep: EdgePat) -> Seq<char> {
    if ep.edge_type is Some {
        ep.edge_type->0
    } else {
        "RELATED"@
    }
}

/// Whether the properties of a pattern are literals, and its node is not too
/// long to be stored.
pub open spec fn node_storable(np: NodePat) -> bool {
    &&& forall|i: int| 0 <= i < np.properties.len() ==> (#[trigger] np.properties[i]).1 is Literal
    &&& forall|n: NodeVal| #[trigger]
        node_written(np, n) ==> enc_node(NodeRec { label: n.label, props: n.props }).len()
            <= MAX_VALUE_SIZE
}

/// The bytes of an edge between two nodes.
pub open spec fn edge_bytes(ep: EdgePat, src: u64, dst: u64) -> Seq<u8> {
    enc_edge(EdgeRec { src, dst, edge_type: type_written(ep), props: Seq::empty() })
}

/// Whether an edge of a pattern is not too long to be stored.
pub open spec fn edge_storable(ep: EdgePat) -> bool {
    forall|src: u64, dst: u64| (#[trigger] edge_bytes(ep, src, dst)).len() <= MAX_VALUE_SIZE
}

proof fn lemma_literals_written(es: Exs)
    requires
        forall|i: int, j: int|
            0 <= i < j < es.len() ==> (#[trigger] es[i]).0 != (#[trigger] es[j]).0,
    ensures
        literal_props(es) is Ok <==> forall|i: int|
            0 <= i < es.len() ==> (#[trigger] es[i]).1 is Literal,
        literal_props(es) matches Ok(ps) ==> props_written(es, ps),
    decreases es.len(),
{
    if es.len() > 0 {
        let d = es.drop_last();
        let last = es.last();
        assert forall|i: int, j: int| 0 <= i < j < d.len() implies (#[trigger] d[i]).0 != (
        #[trigger] d[j]).0 by {
            assert(es[i].0 != es[j].0);
        }
        lemma_literals_written(d);
        assert(es[es.len() - 1] == last);
        if literal_props(d) is Ok {
            let ps = literal_props(d)->Ok_0;
            lemma_prop_index(ps, last.0);
            let i = prop_index(ps, last.0);
            if i < ps.len() {
                assert(d[i].1 is Literal);
                assert(es[i].0 != es[es.len() - 1].0);
            }
            assert forall|i: int| 0 <= i < d.len() implies (#[trigger] es[i]).1 is Literal by {
                assert(d[i].1 is Literal);
            }
            if literal_props(es) is Ok {
                let qs = literal_props(es)->Ok_0;
                assert forall|i: int| 0 <= i < es.len() implies (#[trigger] es[i]).1 is Literal
                    && qs[i].0 == es[i].0 && written(es[i].1->Literal_0, qs[i].1) by {
                    if i < d.len() {
                        assert(d[i].1 is Literal);
                    }
                }
            }
        } else {
            let i = choose|i: int| 0 <= i < d.len() && !((#[trigger] d[i]).1 is Literal);
            assert(!(es[i].1 is Literal));
        }
    }
}

/// What creating the node of a pattern leaves.
#[verifier::opaque]
spec fn node_added(g: GraphState, g2: GraphState, np: NodePat, id: u64) -> bool {
    &&& id == next_node(g)
    &&& node_at(g, id) == Ok::<Option<NodeVal>, GraphErr>(None)
    &&& node_made(g2, np, id)
    &&& forall|x: u64| x != id ==> #[trigger] node_at(g2, x) == node_at(g, x)
    &&& forall|x: u64| #[trigger] edge_at(g2, x) == edge_at(g, x)
    &&& next_node(g2) == next_node(g) + 1
    &&& next_edge(g2) == next_edge(g)
}

proof fn lemma_one_node(g: GraphState, np: NodePat)
    requires
        consistent(g),
        names_once(np),
        next_node(g) < u64::MAX,
    ensures
        ({
            let (r, g2) = create_pattern_node(g, np);
            &&& node_storable(np) ==> r is Ok
            &&& r matches Ok(id) ==> node_added(g, g2, np, id) && consistent(g2)
        }),
{
    reveal(node_added);
    lemma_literals_written(np.properties);
    if literal_props(np.properties) is Ok {
        let ps = literal_props(np.properties)->Ok_0;
        let label = label_of(np);
        lemma_literal_props_ok(np.properties);
        assert(node_written(np, NodeVal { id: 0, label, props: ps }));
        let (r, g2) = create_pattern_node(g, np);
        if r is Ok {
            lemma_create_node_consistent(g, label, ps);
            lemma_counters(g, label, ps);
            lemma_created_node_reads_back(g, label, ps, 0);
            assert forall|x: u64| x != r->Ok_0 implies #[trigger] node_at(g2, x) == node_at(
                g,
                x,
            ) by {
                lemma_created_node_reads_back(g, label, ps, x);
            }
        }
    }
}

/// What creating an edge of a pattern between two nodes leaves.
#[verifier::opaque]
spec fn edge_added(
    g: GraphState,
    g2: GraphState,
    ep: EdgePat,
    src: u64,
    dst: u64,
    id: u64,
) -> bool {
    &&& id == next_edge(g)
    &&& edge_at(g2, id) == Ok::<Option<EdgeVal>, GraphErr>(
        Some(EdgeVal { id, src, dst, edge_type: type_written(ep), props: Seq::empty() }),
    )
    &&& forall|x: u64| x != id ==> #[trigger] edge_at(g2, x) == edge_at(g, x)
    &&& forall|x: u64| #[trigger] node_at(g2, x) == node_at(g, x)
    &&& next_node(g2) == next_node(g)
    &&& next_edge(g2) == next_edge(g) + 1
}

proof fn lemma_one_edge(g: GraphState, ep: EdgePat, src: u64, dst: u64)
    requires
        consistent(g),
        next_edge(g) < u64::MAX,
        node_at(g, src) is Ok && node_at(g, src)->Ok_0 is Some,
        node_at(g, dst) is Ok && node_at(g, dst)->Ok_0 is Some,
    ensures
        ({
            let (r, g2) = create_pattern_edge(g, ep, src, dst);
            &&& edge_storable(ep) ==> r is Ok
            &&& r matches Ok(id) ==> edge_added(g, g2, ep, src, dst, id) && consistent(g2)
        }),
{
    reveal(edge_added);
    let t = type_written(ep);
    let (r, g2) = create_pattern_edge(g, ep, src, dst);
    let none: Props = Seq::empty();
    assert(edge_bytes(ep, src, dst) == enc_edge(
        EdgeRec { src, dst, edge_type: t, props: none },
    ));
    if r is Ok {
        lemma_create_edge_consistent(g, src, dst, t, none);
        lemma_created_edge_reads_back(g, src, dst, t, none, 0);
        assert forall|x: u64| x != r->Ok_0 implies #[trigger] edge_at(g2, x) == edge_at(g, x) by {
            lemma_created_edge_reads_back(g, src, dst, t, none, x);
        }
        crate::bytes::lemma_le64_round_trip((next_edge(g) + 1) as u64);
        assert(crate::graph::state::NEXT_NODE_KEY@[5] != crate::graph::state::NEXT_EDGE_KEY@[5]);
    }
}

/// Whether the names in a path are told apart: no edge has the variable of a
/// node, and no node has a property name twice. Where there is an edge, the
/// first node has a variable.
pub open spec fn names_apart(path: Seq<Elem>) -> bool {
    &&& hops(path) > 0 ==> node_pat(path, 0).variable is Some
    &&& forall|i: int| 0 <= i <= hops(path) ==> names_once(#[trigger] node_pat(path, i))
    &&& forall|i: int|
        0 <= i <= hops(path) ==> (#[trigger] node_pat(path, i)).variable != Some(last_node_key())
    &&& forall|i: int|
        0 <= i < hops(path) ==> (#[trigger] edge_pat(path, i)).variable is None || !is_node_name(
            path,
            edge_pat(path, i).variable->0,
        )
}

/// Whether a name is the variable of a node of a path.
pub open spec fn is_node_name(path: Seq<Elem>, v: Seq<char>) -> bool {
    exists|j: int| 0 <= j <= hops(path) && (#[trigger] node_pat(path, j)).variable == Some(v)
}

/// The node from which edge `i` of a path leads: the last up to there that has
/// a variable.
pub open spec fn source_of(path: Seq<Elem>, i: int) -> int
    decreases i,
{
    if i <= 0 || node_pat(path, i).variable is Some {
        i
    } else {
        source_of(path, i - 1)
    }
}

proof fn lemma_source(path: Seq<Elem>, i: int)
    requires
        0 <= i,
    ensures
        0 <= source_of(path, i) <= i,
    decreases i,
{
    if i > 0 && node_pat(path, i).variable is None {
        lemma_source(path, i - 1);
    }
}

/// Whether every node and every edge of a path can be stored.
pub open spec fn path_storable(path: Seq<Elem>) -> bool {
    &&& forall|i: int| 0 <= i <= hops(path) ==> node_storable(#[trigger] node_pat(path, i))
    &&& forall|i: int| 0 <= i < hops(path) ==> edge_storable(#[trigger] edge_pat(path, i))
}

/// Whether edge `i` of a path, and the node behind it, are stored, where node
/// `0` has the number `n` and edge `0` the number `e`: the edge leads to that
/// node from the last before it that has a variable.
pub open spec fn hop_made(g: GraphState, path: Seq<Elem>, n: int, e: int, i: int) -> bool {
    &&& edge_at(g, (e + i) as u64) == Ok::<Option<EdgeVal>, GraphErr>(
        Some(
            EdgeVal {
                id: (e + i) as u64,
                src: (n + source_of(path, i)) as u64,
                dst: (n + i + 1) as u64,
                edge_type: type_written(edge_pat(path, i)),
                props: Seq::empty(),
            },
        ),
    )
    &&& node_made(g, node_pat(path, i + 1), (n + i + 1) as u64)
}

/// What creating the edges of a path from `i` on, and the nodes behind them,
/// leaves.
#[verifier::opaque]
spec fn laid(g: GraphState, g2: GraphState, path: Seq<Elem>, i: int) -> bool {
    let k = hops(path) - i;
    &&& consistent(g2)
    &&& next_node(g2) == next_node(g) + k
    &&& next_edge(g2) == next_edge(g) + k
    &&& forall|x: u64|
        !(next_node(g) <= x < next_node(g) + k) ==> #[trigger] node_at(g2, x) == node_at(g, x)
    &&& forall|x: u64|
        !(next_edge(g) <= x < next_edge(g) + k) ==> #[trigger] edge_at(g2, x) == edge_at(g, x)
    &&& forall|j: int|
        i <= j < hops(path) ==> #[trigger] hop_made(
            g2,
            path,
            next_node(g) - 1 - i,
            next_edge(g) - i,
            j,
        )
}

/// Whether the newest node that a variable stands for is `id`, and only variables
/// of nodes stand for nodes.
#[verifier::opaque]
spec fn newest(m: EnvMap, path: Seq<Elem>, id: u64) -> bool {
    &&& is_largest_node(m, Some(id))
    &&& forall|k: Seq<char>, x: u64|
        #[trigger] env_get(m, k) == Some(Binding::Node(x)) && #[trigger] any_node(x)
            ==> is_node_name(path, k)
}

/// Creating the edges of a path from `i` on, and the nodes behind them.
#[verifier::opaque]
spec fn create_rest(g: GraphState, path: Seq<Elem>, i: int, m: EnvMap, stats: Stats) -> (
    Result<Stats, CypherErr>,
    GraphState,
) {
    create_from(g, path, 2 * i + 1, m, stats)
}

proof fn lemma_newest(m: EnvMap, path: Seq<Elem>, i: int, old_id: u64, id: u64, e: u64)
    requires
        names_apart(path),
        0 <= i < hops(path),
        newest(m, path, old_id),
        old_id < id,
    ensures
        newest(
            bound(
                bound(m, node_pat(path, i + 1).variable, Binding::Node(id)),
                edge_pat(path, i).variable,
                Binding::Edge(e),
            ),
            path,
            if node_pat(path, i + 1).variable is Some {
                id
            } else {
                old_id
            },
        ),
{
    reveal(newest);
    let (v, ev) = (node_pat(path, i + 1).variable, edge_pat(path, i).variable);
    let m1 = bound(m, v, Binding::Node(id));
    let m2 = bound(m1, ev, Binding::Edge(e));
    let top = if v is Some {
        id
    } else {
        old_id
    };
    assert(any_node(id) && any_node(old_id));
    assert(v != Some(last_node_key()));
    if v is Some {
        assert(is_node_name(path, v->0));
        assert(env_get(m2, v->0) == Some(Binding::Node(id)));
    } else {
        let k = choose|k: Seq<char>|
            k != last_node_key() && #[trigger] env_get(m, k) == Some(Binding::Node(old_id));
        assert(is_node_name(path, k));
        assert(ev != Some(k));
        assert(env_get(m2, k) == Some(Binding::Node(old_id)));
    }
    assert forall|k: Seq<char>, x: u64|
        #[trigger] env_get(m2, k) == Some(Binding::Node(x)) && #[trigger] any_node(x) implies
        is_node_name(path, k) by {
        if v != Some(k) {
            assert(env_get(m, k) == Some(Binding::Node(x)));
        }
    }
    assert forall|k: Seq<char>, x: u64|
        k != last_node_key() && #[trigger] env_get(m2, k) == Some(Binding::Node(x))
            && #[trigger] any_node(x) implies x <= top by {
        if v != Some(k) {
            assert(env_get(m, k) == Some(Binding::Node(x)));
        }
    }
}

/// What creating one edge of a path, and the node behind it, leaves.
#[verifier::opaque]
spec fn added(g: GraphState, gb: GraphState, path: Seq<Elem>, i: int) -> bool {
    &&& consistent(gb)
    &&& next_node(gb) == next_node(g) + 1
    &&& next_edge(gb) == next_edge(g) + 1
    &&& forall|x: u64| x != next_node(g) ==> #[trigger] node_at(gb, x) == node_at(g, x)
    &&& forall|x: u64| x != next_edge(g) ==> #[trigger] edge_at(gb, x) == edge_at(g, x)
    &&& hop_made(gb, path, next_node(g) - 1 - i, next_edge(g) - i, i)
}

/// Whether a node is stored.
spec fn stored(g: GraphState, id: u64) -> bool {
    node_at(g, id) is Ok && node_at(g, id)->Ok_0 is Some
}

proof fn lemma_added(
    g: GraphState,
    ga: GraphState,
    gb: GraphState,
    path: Seq<Elem>,
    i: int,
    src: u64,
    dst: u64,
    e: u64,
)
    requires
        0 <= i < next_node(g),
        src == next_node(g) - 1 - i + source_of(path, i),
        next_node(g) < u64::MAX,
        next_edge(g) < u64::MAX,
        stored(g, src),
        node_added(g, ga, node_pat(path, i + 1), dst),
        edge_added(ga, gb, edge_pat(path, i), src, dst, e),
        consistent(gb),
    ensures
        added(g, gb, path, i),
        dst == next_node(g),
        next_node(gb) == next_node(g) + 1,
        next_edge(gb) == next_edge(g) + 1,
        stored(gb, dst),
        stored(gb, src),
{
    reveal(node_added);
    reveal(edge_added);
    reveal(added);
    lemma_source(path, i);
    assert(node_at(g, dst)->Ok_0 is None);
    assert(node_at(gb, src) == node_at(ga, src));
    assert(node_at(ga, src) == node_at(g, src));
    assert forall|x: u64| x != next_node(g) implies #[trigger] node_at(gb, x) == node_at(g, x) by {
        assert(node_at(ga, x) == node_at(g, x));
    }
    assert forall|x: u64| x != next_edge(g) implies #[trigger] edge_at(gb, x) == edge_at(g, x) by {
        assert(edge_at(ga, x) == edge_at(g, x));
    }
    assert(node_at(gb, dst) == node_at(ga, dst));
}

/// What is stored of a path stays where its node and its edge do.
proof fn lemma_hop_kept(
    gb: GraphState,
    g2: GraphState,
    path: Seq<Elem>,
    n: int,
    e: int,
    i: int,
)
    requires
        hop_made(gb, path, n, e, i),
        edge_at(g2, (e + i) as u64) == edge_at(gb, (e + i) as u64),
        node_at(g2, (n + i + 1) as u64) == node_at(gb, (n + i + 1) as u64),
    ensures
        hop_made(g2, path, n, e, i),
{
}

proof fn lemma_laid_more(g: GraphState, gb: GraphState, g2: GraphState, path: Seq<Elem>, i: int)
    requires
        added(g, gb, path, i),
        laid(gb, g2, path, i + 1),
        0 <= i < hops(path),
        i < next_node(g),
        next_node(g) + (hops(path) - i) <= u64::MAX,
        next_edge(g) + (hops(path) - i) <= u64::MAX,
    ensures
        laid(g, g2, path, i),
{
    reveal(added);
    reveal(laid);
    let k = hops(path) - i;
    let (n0, e0) = (next_node(g) - 1 - i, next_edge(g) - i);
    assert(n0 == next_node(gb) - 1 - (i + 1) && e0 == next_edge(gb) - (i + 1));
    assert(forall|x: u64|
        !(next_node(g) <= x < next_node(g) + k) ==> node_at(gb, x) == #[trigger] node_at(g, x));
    assert(forall|x: u64|
        !(next_edge(g) <= x < next_edge(g) + k) ==> edge_at(gb, x) == #[trigger] edge_at(g, x));
    assert(hop_made(g2, path, n0, e0, i)) by {
        assert(hop_made(gb, path, n0, e0, i));
        lemma_hop_kept(gb, g2, path, n0, e0, i);
    }
    assert forall|j: int| i <= j < hops(path) implies #[trigger] hop_made(g2, path, n0, e0, j) by {
        if j > i {
            assert(hop_made(g2, path, next_node(gb) - 1 - (i + 1), next_edge(gb) - (i + 1), j));
        }
    }
}

/// Creating one edge of a path, and the node behind it, before the rest.
proof fn lemma_create_step(
    g: GraphState,
    path: Seq<Elem>,
    i: int,
    m: EnvMap,
    stats: Stats,
    src: u64,
)
    requires
        is_path(path),
        0 <= i < hops(path),
        newest(m, path, src),
    ensures
        ({
            let (ep, np) = (edge_pat(path, i), node_pat(path, i + 1));
            let (r1, ga) = create_pattern_node(g, np);
            let (r2, gb) = create_pattern_edge(ga, ep, src, r1->Ok_0);
            let stats2 = Stats {
                nodes_created: stats.nodes_created + 1,
                edges_created: stats.edges_created + 1,
                ..stats
            };
            let m2 = bound(
                bound(m, np.variable, Binding::Node(r1->Ok_0)),
                ep.variable,
                Binding::Edge(r2->Ok_0),
            );
            if r1 is Ok && r2 is Ok {
                create_rest(g, path, i, m, stats) == create_rest(gb, path, i + 1, m2, stats2)
            } else {
                create_rest(g, path, i, m, stats).0 is Err
            }
        }),
{
    reveal(newest);
    reveal(create_rest);
    assert(path[2 * i + 1] is Edge);
    assert(path[2 * i + 2] is Node);
    lemma_largest_node(m, Some(src));
}

/// What one edge and the node behind it leave.
proof fn lemma_hop_added(g: GraphState, path: Seq<Elem>, i: int, src: u64)
    requires
        consistent(g),
        names_apart(path),
        0 <= i < hops(path),
        i < next_node(g) < u64::MAX,
        next_edge(g) < u64::MAX,
        src == next_node(g) - 1 - i + source_of(path, i),
        stored(g, src),
    ensures
        ({
            let (ep, np) = (edge_pat(path, i), node_pat(path, i + 1));
            let (r1, ga) = create_pattern_node(g, np);
            let (r2, gb) = create_pattern_edge(ga, ep, src, r1->Ok_0);
            &&& path_storable(path) ==> r1 is Ok && r2 is Ok
            &&& r1 is Ok && r2 is Ok ==> {
                &&& added(g, gb, path, i)
                &&& consistent(gb)
                &&& r1->Ok_0 == next_node(g)
                &&& next_node(gb) == next_node(g) + 1
                &&& next_edge(gb) == next_edge(g) + 1
                &&& stored(gb, next_node(g))
                &&& stored(gb, src)
            }
        }),
{
    let (ep, np) = (edge_pat(path, i), node_pat(path, i + 1));
    assert(names_once(np));
    if path_storable(path) {
        assert(node_storable(np) && edge_storable(ep));
    }
    lemma_one_node(g, np);
    let (r1, ga) = create_pattern_node(g, np);
    let dst = r1->Ok_0;
    if r1 is Ok {
        lemma_still_stored(g, ga, np, dst, src);
        lemma_one_edge(ga, ep, src, dst);
        let (r2, gb) = create_pattern_edge(ga, ep, src, dst);
        if r2 is Ok {
            lemma_added(g, ga, gb, path, i, src, dst, r2->Ok_0);
        }
    }
}

proof fn lemma_still_stored(g: GraphState, ga: GraphState, np: NodePat, dst: u64, src: u64)
    requires
        node_added(g, ga, np, dst),
        stored(g, src),
    ensures
        stored(ga, src),
        stored(ga, dst),
        next_edge(ga) == next_edge(g),
        next_node(ga) == next_node(g) + 1,
        dst == next_node(g),
{
    reveal(node_added);
    assert(node_at(g, dst)->Ok_0 is None);
    assert(node_at(ga, src) == node_at(g, src));
}

/// Whether edge `i` of a path can be created: the node from which it leads is
/// stored, and is the newest that a variable stands for.
#[verifier::opaque]
spec fn ready(g: GraphState, path: Seq<Elem>, i: int, m: EnvMap) -> bool {
    let src = (next_node(g) - 1 - i + source_of(path, i)) as u64;
    stored(g, src) && newest(m, path, src)
}

proof fn lemma_ready(g: GraphState, path: Seq<Elem>, i: int, m: EnvMap) -> (src: u64)
    requires
        ready(g, path, i, m),
        0 <= i < next_node(g),
    ensures
        src == next_node(g) - 1 - i + source_of(path, i),
        src < next_node(g),
        stored(g, src),
        newest(m, path, src),
{
    reveal(ready);
    lemma_source(path, i);
    (next_node(g) - 1 - i + source_of(path, i)) as u64
}

proof fn lemma_ready_next(
    gb: GraphState,
    path: Seq<Elem>,
    i: int,
    m: EnvMap,
    src: u64,
    dst: u64,
)
    requires
        0 <= i,
        next_node(gb) == dst + 1,
        src == dst - 1 - i + source_of(path, i),
        stored(gb, src),
        stored(gb, dst),
        newest(
            m,
            path,
            if node_pat(path, i + 1).variable is Some {
                dst
            } else {
                src
            },
        ),
    ensures
        ready(gb, path, i + 1, m),
{
    reveal(ready);
}

/// Creating one edge of a path, and the node behind it: where it succeeds, the
/// rest goes on from there.
proof fn lemma_hop_created(
    g: GraphState,
    path: Seq<Elem>,
    i: int,
    m: EnvMap,
    stats: Stats,
) -> (r: (GraphState, EnvMap, Stats))
    requires
        consistent(g),
        is_path(path),
        names_apart(path),
        0 <= i < hops(path),
        i < next_node(g) < u64::MAX,
        next_edge(g) < u64::MAX,
        ready(g, path, i, m),
    ensures
        ({
            let (gb, m2, stats2) = r;
            ||| {
                &&& !path_storable(path)
                &&& create_rest(g, path, i, m, stats).0 is Err
            }
            ||| {
                &&& create_rest(g, path, i, m, stats) == create_rest(gb, path, i + 1, m2, stats2)
                &&& added(g, gb, path, i)
                &&& consistent(gb)
                &&& next_node(gb) == next_node(g) + 1
                &&& next_edge(gb) == next_edge(g) + 1
                &&& ready(gb, path, i + 1, m2)
                &&& stats2 == (Stats {
                    nodes_created: stats.nodes_created + 1,
                    edges_created: stats.edges_created + 1,
                    ..stats
                })
            }
        }),
{
    let (ep, np) = (edge_pat(path, i), node_pat(path, i + 1));
    let src = lemma_ready(g, path, i, m);
    lemma_create_step(g, path, i, m, stats, src);
    lemma_hop_added(g, path, i, src);
    let (r1, ga) = create_pattern_node(g, np);
    let (r2, gb) = create_pattern_edge(ga, ep, src, r1->Ok_0);
    let m2 = bound(
        bound(m, np.variable, Binding::Node(r1->Ok_0)),
        ep.variable,
        Binding::Edge(r2->Ok_0),
    );
    let stats2 = Stats {
        nodes_created: stats.nodes_created + 1,
        edges_created: stats.edges_created + 1,
        ..stats
    };
    if r1 is Ok && r2 is Ok {
        lemma_newest(m, path, i, src, r1->Ok_0, r2->Ok_0);
        lemma_ready_next(gb, path, i, m2, src, r1->Ok_0);
    }
    (gb, m2, stats2)
}

proof fn lemma_rest_created(g: GraphState, path: Seq<Elem>, i: int, m: EnvMap, stats: Stats)
    requires
        consistent(g),
        is_path(path),
        names_apart(path),
        0 <= i <= hops(path),
        i < next_node(g),
        next_node(g) + (hops(path) - i) <= u64::MAX,
        next_edge(g) + (hops(path) - i) <= u64::MAX,
        i < hops(path) ==> ready(g, path, i, m),
    ensures
        ({
            let (r, g2) = create_rest(g, path, i, m, stats);
            let k = (hops(path) - i) as nat;
            &&& path_storable(path) ==> r is Ok
            &&& r matches Ok(s) ==> laid(g, g2, path, i) && s == (Stats {
                nodes_created: stats.nodes_created + k,
                edges_created: stats.edges_created + k,
                ..stats
            })
        }),
    decreases hops(path) - i,
{
    if i == hops(path) {
        lemma_nothing_laid(g, path, m, stats);
    } else {
        let (gb, m2, stats2) = lemma_hop_created(g, path, i, m, stats);
        let (r, g2) = create_rest(g, path, i, m, stats);
        if r is Ok || path_storable(path) {
            lemma_rest_created(gb, path, i + 1, m2, stats2);
            if r is Ok {
                lemma_laid_more(g, gb, g2, path, i);
            }
        }
    }
}

proof fn lemma_nothing_laid(g: GraphState, path: Seq<Elem>, m: EnvMap, stats: Stats)
    requires
        consistent(g),
        is_path(path),
    ensures
        create_rest(g, path, hops(path), m, stats) == (Ok::<Stats, CypherErr>(stats), g),
        laid(g, g, path, hops(path)),
{
    reveal(laid);
    reveal(create_rest);
}

/// Whether the nodes and the edges of a path, and nothing else, were added to a
/// graph. They are numbered in their order: each edge leads to the node behind
/// it from the one before it, or from the last before it that has a variable
/// where that one has none, and has the type of its pattern, and each node has
/// the label and the properties of its pattern.
pub open spec fn path_made(g: GraphState, g2: GraphState, path: Seq<Elem>) -> bool {
    let (n, e, k) = (next_node(g) as int, next_edge(g) as int, hops(path));
    &&& node_made(g2, node_pat(path, 0), n as u64)
    &&& forall|i: int| 0 <= i < k ==> #[trigger] hop_made(g2, path, n, e, i)
    &&& forall|x: u64| !(n <= x <= n + k) ==> #[trigger] node_at(g2, x) == node_at(g, x)
    &&& forall|x: u64| !(e <= x < e + k) ==> #[trigger] edge_at(g2, x) == edge_at(g, x)
    &&& forall|x: u64|
        n <= x ==> #[trigger] node_at(g, x) == Ok::<Option<NodeVal>, GraphErr>(None)
    &&& forall|x: u64|
        e <= x ==> #[trigger] edge_at(g, x) == Ok::<Option<EdgeVal>, GraphErr>(None)
    &&& consistent(g2)
    &&& next_node(g2) == n + k + 1 && next_edge(g2) == e + k
}

proof fn lemma_path_made(g: GraphState, ga: GraphState, g2: GraphState, path: Seq<Elem>)
    requires
        consistent(g),
        is_path(path),
        node_added(g, ga, node_pat(path, 0), next_node(g)),
        laid(ga, g2, path, 0),
        next_node(g) + hops(path) + 1 <= u64::MAX,
    ensures
        path_made(g, g2, path),
{
    reveal(node_added);
    reveal(laid);
    let (n, e, k) = (next_node(g) as int, next_edge(g) as int, hops(path));
    assert(node_at(g2, n as u64) == node_at(ga, n as u64));
    assert(next_node(ga) - 1 - 0 == n && next_edge(ga) - 0 == e);
    assert forall|i: int| 0 <= i < k implies #[trigger] hop_made(g2, path, n, e, i) by {
        assert(hop_made(g2, path, next_node(ga) - 1 - 0, next_edge(ga) - 0, i));
    }
    assert forall|x: u64| !(n <= x <= n + k) implies #[trigger] node_at(g2, x) == node_at(g, x) by {
        assert(node_at(ga, x) == node_at(g, x));
    }
    assert forall|x: u64| !(e <= x < e + k) implies #[trigger] edge_at(g2, x) == edge_at(g, x) by {
        assert(edge_at(ga, x) == edge_at(g, x));
    }
    assert forall|x: u64| n <= x implies #[trigger] node_at(g, x) == Ok::<
        Option<NodeVal>,
        GraphErr,
    >(None) by {
        lemma_sound_node(g, x);
    }
    assert forall|x: u64| e <= x implies #[trigger] edge_at(g, x) == Ok::<
        Option<EdgeVal>,
        GraphErr,
    >(None) by {
        lemma_sound_edge(g, x);
    }
}

/// `CREATE` of a path adds its nodes and its edges, and nothing else, and tells
/// how many. It succeeds where all of them can be stored.
pub proof fn lemma_create_makes_path(g: GraphState, path: Seq<Elem>)
    requires
        consistent(g),
        is_path(path),
        names_apart(path),
        next_node(g) + hops(path) + 1 <= u64::MAX,
        next_edge(g) + hops(path) <= u64::MAX,
    ensures
        ({
            let (r, g2) = run_create(g, path);
            &&& path_storable(path) ==> r is Ok
            &&& r matches Ok(q) ==> {
                &&& path_made(g, g2, path)
                &&& q.columns.len() == 0 && q.rows.len() == 0
                &&& q.stats.nodes_created == hops(path) + 1
                &&& q.stats.edges_created == hops(path)
                &&& q.stats.nodes_deleted == 0 && q.stats.edges_deleted == 0
            }
        }),
{
    let (r, g2) = run_create(g, path);
    let np = node_pat(path, 0);
    let n = next_node(g);
    assert(names_once(np));
    lemma_one_node(g, np);
    lemma_create_start(g, path);
    if path_storable(path) {
        assert(node_storable(np));
    }
    let (r0, ga) = create_pattern_node(g, np);
    if r0 is Ok {
        let m = bound(Map::empty(), np.variable, Binding::Node(n));
        let stats = Stats { nodes_created: 1, ..no_stats() };
        lemma_first_stored(g, ga, np, r0->Ok_0);
        if hops(path) > 0 {
            lemma_first_ready(ga, path, m, n);
        }
        lemma_rest_created(ga, path, 0, m, stats);
        if r is Ok {
            lemma_path_made(g, ga, g2, path);
        }
    }
}

proof fn lemma_first_stored(g: GraphState, ga: GraphState, np: NodePat, id: u64)
    requires
        node_added(g, ga, np, id),
    ensures
        stored(ga, id),
        id == next_node(g),
        next_node(ga) == next_node(g) + 1,
        next_edge(ga) == next_edge(g),
{
    reveal(node_added);
}

proof fn lemma_first_ready(ga: GraphState, path: Seq<Elem>, m: EnvMap, n: u64)
    requires
        names_apart(path),
        hops(path) > 0,
        stored(ga, n),
        next_node(ga) == n + 1,
        m == bound(Map::empty(), node_pat(path, 0).variable, Binding::Node(n)),
    ensures
        ready(ga, path, 0, m),
{
    reveal(ready);
    reveal(newest);
    let v = node_pat(path, 0).variable->0;
    assert(is_node_name(path, v));
    assert(node_pat(path, 0).variable != Some(last_node_key()));
    assert(env_get(m, v) == Some(Binding::Node(n)));
}

/// Creating the first node of a path, before the rest.
proof fn lemma_create_start(g: GraphState, path: Seq<Elem>)
    requires
        is_path(path),
    ensures
        ({
            let np = node_pat(path, 0);
            let (r0, ga) = create_pattern_node(g, np);
            let m = bound(Map::empty(), np.variable, Binding::Node(r0->Ok_0));
            let (rest, g2) = create_rest(
                ga,
                path,
                0,
                m,
                (Stats { nodes_created: 1, ..no_stats() }),
            );
            if r0 is Ok {
                &&& run_create(g, path).1 == g2
                &&& run_create(g, path).0 is Ok <==> rest is Ok
                &&& rest is Ok ==> run_create(g, path).0 == Ok::<QueryVal, CypherErr>(
                    only_stats(rest->Ok_0),
                )
            } else {
                run_create(g, path).0 is Err
            }
        }),
{
    assert(path[0] is Node);
    reveal(create_rest);
}

/// `CREATE` of a path with an edge fails where its first node has no variable.
pub proof fn lemma_create_needs_variable(g: GraphState, path: Seq<Elem>)
    requires
        is_path(path),
        hops(path) > 0,
        node_pat(path, 0).variable is None,
    ensures
        run_create(g, path).0 is Err,
{
    let empty = Map::<Seq<char>, Binding>::empty();
    lemma_create_start(g, path);
    let (r0, ga) = create_pattern_node(g, node_pat(path, 0));
    if r0 is Ok {
        assert(is_largest_node(empty, None)) by {
            assert(forall|k: Seq<char>| #[trigger] env_get(empty, k) is None);
        }
        lemma_largest_node(empty, None);
        assert(path[1] is Edge);
        assert(path[2] is Node);
        reveal(create_rest);
    }
}

/// Whether `CREATE` and `MATCH` read a path alike: its first node has a label,
/// nodes from which an edge leads have variables, no edge points to the left,
/// and no literal is one that does not equal itself.
pub open spec fn reads_alike(path: Seq<Elem>) -> bool {
    &&& node_pat(path, 0).label is Some
    &&& forall|i: int|
        0 <= i < hops(path) ==> (#[trigger] node_pat(path, i)).variable is Some
    &&& forall|i: int|
        0 <= i < hops(path) ==> (#[trigger] edge_pat(path, i)).direction != EdgeDirection::Left
    &&& forall|i: int, k: Seq<char>, f: u64|
        0 <= i <= hops(path) && #[trigger] node_pat(path, i).properties.contains(
            (k, Ex::Literal(Lit::Float(f))),
        ) ==> !is_nan(f)
}

proof fn lemma_written_is_wanted(np: NodePat, n: NodeVal)
    requires
        node_written(np, n),
        forall|k: Seq<char>, f: u64| #[trigger]
            np.properties.contains((k, Ex::Literal(Lit::Float(f)))) ==> !is_nan(f),
    ensures
        wanted(np, n),
{
    assert forall|k: Seq<char>, e: Ex| #[trigger] np.properties.contains((k, e)) implies {
        &&& e is Literal
        &&& exists|v: Val| #[trigger] n.props.contains((k, v)) && equals(v, e->Literal_0)
    } by {
        let i = np.properties.index_of((k, e));
        assert(np.properties[i].1 is Literal);
        let v = n.props[i].1;
        assert(n.props[i] == (k, v));
        assert(n.props.contains((k, v)));
        assert(written(e->Literal_0, v));
        assert(e == Ex::Literal(e->Literal_0));
        assert(equals(v, e->Literal_0));
    }
}

/// The walk along the nodes and edges that are numbered from `n` and `e` on.
pub open spec fn walk_from(n: int, e: int, k: int) -> Walk {
    Walk {
        start: n as u64,
        steps: Seq::new(
            k as nat,
            |i: int| Step { edge: (e + i) as u64, dir: Direction::Out, node: (n + i + 1) as u64 },
        ),
    }
}

/// What `CREATE` of a path made, `MATCH` of the same path finds: its nodes and
/// its edges in their order.
pub proof fn lemma_created_path_is_found(g: GraphState, path: Seq<Elem>)
    requires
        consistent(g),
        is_path(path),
        names_apart(path),
        reads_alike(path),
        next_node(g) + hops(path) + 1 <= u64::MAX,
        next_edge(g) + hops(path) <= u64::MAX,
        run_create(g, path).0 is Ok,
    ensures
        ({
            let g2 = run_create(g, path).1;
            let k = hops(path);
            let w = walk_from(next_node(g) as int, next_edge(g) as int, k);
            &&& expand(g2, path) matches Ok(ms)
            &&& ms.contains(walk_env(path, w, k).remove(last_node_key()))
        }),
{
    let g2 = run_create(g, path).1;
    let (n, e, k) = (next_node(g) as int, next_edge(g) as int, hops(path));
    let w = walk_from(n, e, k);
    lemma_create_makes_path(g, path);
    let first = node_at(g2, n as u64)->Ok_0->0;
    lemma_written_is_wanted(node_pat(path, 0), first);
    assert forall|i: int| 0 <= i < k implies step_fits(
        g2,
        edge_pat(path, i),
        node_pat(path, i + 1),
        node_on(w, i),
        #[trigger] w.steps[i],
    ) by {
        assert(hop_made(g2, path, n, e, i));
        assert(node_pat(path, i).variable is Some);
        let to = node_at(g2, (n + i + 1) as u64)->Ok_0->0;
        lemma_written_is_wanted(node_pat(path, i + 1), to);
        assert(edge_pat(path, i).direction != EdgeDirection::Left);
        assert(goes(edge_pat(path, i).direction, Direction::Out));
        assert(node_on(w, i) == (n + i) as u64);
        assert(joins(g2, (e + i) as u64, (n + i) as u64, Direction::Out, (n + i + 1) as u64));
        assert(typed(g2, (e + i) as u64, edge_pat(path, i).edge_type));
    }
    assert(walk_fits(g2, path, w, k));
    let ws = lemma_matches_are_walks(g2, path);
    let ms = expand(g2, path)->Ok_0;
    assert(ws.contains(w));
    assert(ms[ws.index_of(w)] == walk_env(path, w, k).remove(last_node_key()));
}

// ---------------------------------------------------------------------------
// MERGE
// ---------------------------------------------------------------------------

/// The first of some nodes that has what is asked for, if one has.
proof fn lemma_first_asked(g: GraphState, np: NodePat, ids: Seq<u64>) -> (j: int)
    requires
        consistent(g),
    ensures
        0 <= j <= ids.len(),
        forall|i: int| 0 <= i < j ==> !asked(g, np, #[trigger] ids[i]),
        if j < ids.len() {
            asked(g, np, ids[j]) && first_fit(g, np, ids) == Ok::<Option<NodeVal>, CypherErr>(
                node_at(g, ids[j])->Ok_0,
            )
        } else {
            first_fit(g, np, ids) == Ok::<Option<NodeVal>, CypherErr>(None)
        },
    decreases ids.len(),
{
    if ids.len() == 0 {
        0
    } else {
        let d = ids.drop_last();
        let id = ids.last();
        let j = lemma_first_asked(g, np, d);
        assert(forall|i: int| 0 <= i < d.len() ==> d[i] == #[trigger] ids[i]);
        lemma_sound_node(g, id);
        lemma_node_props_ok(g, id);
        if node_at(g, id)->Ok_0 is Some {
            lemma_fits_is_wanted(np, node_at(g, id)->Ok_0->0);
        }
        if j < d.len() {
            j
        } else if asked(g, np, id) {
            ids.len() - 1
        } else {
            ids.len() as int
        }
    }
}

/// Whether a result is one row with one node, and nothing but the number of
/// nodes created can be other than zero.
pub open spec fn gives_node(q: QueryVal, n: NodeVal, created: nat) -> bool {
    &&& q.columns == seq!["n"@]
    &&& q.rows == seq![seq![Val::Str(node_text(n))]]
    &&& q.stats.nodes_created == created
    &&& q.stats.edges_created == 0 && q.stats.nodes_deleted == 0 && q.stats.edges_deleted == 0
}

/// Whether a node, and nothing else, was added to a graph.
pub open spec fn node_new(g: GraphState, g2: GraphState, n: NodeVal) -> bool {
    &&& n.id == next_node(g)
    &&& node_at(g, n.id) == Ok::<Option<NodeVal>, GraphErr>(None)
    &&& node_at(g2, n.id) == Ok::<Option<NodeVal>, GraphErr>(Some(n))
    &&& forall|x: u64| x != n.id ==> #[trigger] node_at(g2, x) == node_at(g, x)
    &&& forall|x: u64| #[trigger] edge_at(g2, x) == edge_at(g, x)
    &&& consistent(g2)
}

proof fn lemma_node_new(g: GraphState, g2: GraphState, np: NodePat, id: u64)
    requires
        node_added(g, g2, np, id),
        consistent(g2),
    ensures
        stored(g2, id),
        node_new(g, g2, node_at(g2, id)->Ok_0->0),
        node_written(np, node_at(g2, id)->Ok_0->0),
{
    reveal(node_added);
}

/// `MERGE` where no node has what is asked for.
proof fn lemma_merge_makes(g: GraphState, np: NodePat)
    requires
        consistent(g),
        np.label is Some,
        names_once(np),
        next_node(g) < u64::MAX,
        first_fit(g, np, labelled(g, np.label->0)) == Ok::<Option<NodeVal>, CypherErr>(None),
    ensures
        ({
            let (r, g2) = run_merge(g, np);
            let n = node_at(g2, next_node(g))->Ok_0->0;
            &&& node_storable(np) ==> r is Ok
            &&& r matches Ok(q) ==> gives_node(q, n, 1) && node_new(g, g2, n) && node_written(
                np,
                n,
            )
        }),
{
    lemma_one_node(g, np);
    let (r, g2) = create_pattern_node(g, np);
    if r is Ok {
        lemma_node_new(g, g2, np, r->Ok_0);
    }
}

/// `MERGE` gives the node with the lowest number that has what the pattern asks
/// for, and then changes nothing. Where no node has it, it creates one, gives
/// that one, and changes nothing else.
pub proof fn lemma_merge_gives(g: GraphState, np: NodePat) -> (n: NodeVal)
    requires
        consistent(g),
        np.label is Some,
        names_once(np),
        next_node(g) < u64::MAX,
    ensures
        ({
            let (r, g2) = run_merge(g, np);
            if exists|x: u64| asked(g, np, x) {
                &&& g2 == g
                &&& r matches Ok(q) && gives_node(q, n, 0)
                &&& node_at(g, n.id) == Ok::<Option<NodeVal>, GraphErr>(Some(n))
                &&& wanted(np, n)
                &&& forall|x: u64| #[trigger] asked(g, np, x) ==> n.id <= x
            } else {
                &&& node_storable(np) ==> r is Ok
                &&& r matches Ok(q) ==> gives_node(q, n, 1) && node_new(g, g2, n) && node_written(
                    np,
                    n,
                )
            }
        }),
{
    let label = np.label->0;
    let ids = labelled(g, label);
    let j = lemma_first_asked(g, np, ids);
    assert forall|x: u64| #[trigger] asked(g, np, x) implies ids.contains(x) by {
        lemma_labelled_are_nodes(g, label, x);
    }
    if j < ids.len() {
        assert forall|x: u64| #[trigger] asked(g, np, x) implies ids[j] <= x by {
            assert(ids.contains(x));
            let i = ids.index_of(x);
            if j < i {
                lemma_labelled_ordered(g, label, j, i);
            }
        }
        node_at(g, ids[j])->Ok_0->0
    } else {
        if exists|x: u64| asked(g, np, x) {
            let x = choose|x: u64| asked(g, np, x);
            assert(ids.contains(x));
            assert(asked(g, np, ids[ids.index_of(x)]));
        }
        lemma_merge_makes(g, np);
        node_at(run_merge(g, np).1, next_node(g))->Ok_0->0
    }
}

/// `MERGE` without a label fails and changes nothing.
pub proof fn lemma_merge_needs_label(g: GraphState, np: NodePat)
    requires
        np.label is None,
    ensures
        run_merge(g, np).0 is Err,
        run_merge(g, np).1 == g,
{
}

// ---------------------------------------------------------------------------
// DELETE
// ---------------------------------------------------------------------------

/// Whether a match is one that `MATCH` finds and `WHERE` keeps.
pub open spec fn kept(g: GraphState, m: MatchStmt, env: EnvMap) -> bool {
    &&& expand(g, m.pattern) matches Ok(ms) && ms.contains(env)
    &&& m.where_clause matches Some(e) ==> keeps(g, e, env)
}

/// Whether a variable of `DELETE` stands for a node in a match that is kept.
pub open spec fn node_named(g: GraphState, m: MatchStmt, x: u64) -> bool {
    exists|env: EnvMap, v: Seq<char>| #[trigger]
        kept(g, m, env) && #[trigger] m.delete_clause->0.contains(v) && env_get(env, v) == Some(
            Binding::Node(x),
        )
}

/// Whether a variable of `DELETE` stands for an edge in a match that is kept.
pub open spec fn edge_named(g: GraphState, m: MatchStmt, x: u64) -> bool {
    exists|env: EnvMap, v: Seq<char>| #[trigger]
        kept(g, m, env) && #[trigger] m.delete_clause->0.contains(v) && env_get(env, v) == Some(
            Binding::Edge(x),
        )
}

/// Whether a variable of `DELETE` stands for nothing in a match that is kept.
pub open spec fn nothing_named(g: GraphState, m: MatchStmt) -> bool {
    exists|env: EnvMap, v: Seq<char>| #[trigger]
        kept(g, m, env) && #[trigger] m.delete_clause->0.contains(v) && env_get(env, v)
            == None::<Binding>
}

proof fn lemma_filtered(g: GraphState, w: Option<Ex>, ms: Seq<EnvMap>, env: EnvMap)
    ensures
        filtered(g, w, ms).contains(env) <==> ms.contains(env) && (w matches Some(e) ==> keeps(
            g,
            e,
            env,
        )),
    decreases ms.len(),
{
    if ms.len() > 0 {
        let d = ms.drop_last();
        let last = ms.last();
        lemma_filtered(g, w, d, env);
        let f = filtered(g, w, d);
        assert(ms == d.push(last));
        assert(ms.contains(env) <==> d.contains(env) || env == last) by {
            if d.contains(env) {
                assert(ms[d.index_of(env)] == env);
            }
            if env == last {
                assert(ms[ms.len() - 1] == env);
            }
            if ms.contains(env) {
                let i = ms.index_of(env);
                if i < d.len() {
                    assert(d[i] == env);
                }
            }
        }
        assert(f.push(last).contains(env) <==> f.contains(env) || env == last) by {
            if f.contains(env) {
                assert(f.push(last)[f.index_of(env)] == env);
            }
            if env == last {
                assert(f.push(last)[f.len() as int] == env);
            }
            if f.push(last).contains(env) {
                let i = f.push(last).index_of(env);
                if i < f.len() {
                    assert(f[i] == env);
                }
            }
        }
    }
}

/// Whether one of some variables stands for something.
spec fn stands(env: EnvMap, vars: Seq<Seq<char>>, b: Option<Binding>) -> bool {
    exists|v: Seq<char>| #[trigger] vars.contains(v) && env_get(env, v) == b
}

/// Whether one of some variables stands for something in one of some matches.
spec fn stands_in(ms: Seq<EnvMap>, vars: Seq<Seq<char>>, b: Option<Binding>) -> bool {
    exists|env: EnvMap, v: Seq<char>| #[trigger]
        ms.contains(env) && #[trigger] vars.contains(v) && env_get(env, v) == b
}

proof fn lemma_stands(env: EnvMap, vars: Seq<Seq<char>>, b: Option<Binding>)
    requires
        vars.len() > 0,
    ensures
        stands(env, vars, b) <==> stands(env, vars.drop_last(), b) || env_get(env, vars.last())
            == b,
{
    let d = vars.drop_last();
    if stands(env, vars, b) {
        let v = choose|v: Seq<char>| #[trigger] vars.contains(v) && env_get(env, v) == b;
        lemma_contains_last(vars, v);
    }
    if stands(env, d, b) {
        let v = choose|v: Seq<char>| #[trigger] d.contains(v) && env_get(env, v) == b;
        lemma_contains_last(vars, v);
    }
    assert(vars.contains(vars.last()));
}

proof fn lemma_stands_in(ms: Seq<EnvMap>, vars: Seq<Seq<char>>, b: Option<Binding>)
    requires
        ms.len() > 0,
    ensures
        stands_in(ms, vars, b) <==> stands_in(ms.drop_last(), vars, b) || stands(
            ms.last(),
            vars,
            b,
        ),
{
    let d = ms.drop_last();
    if stands_in(ms, vars, b) {
        let (env, v) = choose|env: EnvMap, v: Seq<char>| #[trigger]
            ms.contains(env) && #[trigger] vars.contains(v) && env_get(env, v) == b;
        lemma_contains_last(ms, env);
        if d.contains(env) {
            assert(stands_in(d, vars, b));
        }
    }
    if stands_in(d, vars, b) {
        let (env, v) = choose|env: EnvMap, v: Seq<char>| #[trigger]
            d.contains(env) && #[trigger] vars.contains(v) && env_get(env, v) == b;
        lemma_contains_last(ms, env);
    }
    assert(ms.contains(ms.last()));
}

proof fn lemma_doomed_in(env: EnvMap, vars: Seq<Seq<char>>, acc: Doomed, x: u64)
    ensures
        doomed_in(env, vars, acc) is Err <==> stands(env, vars, None),
        doomed_in(env, vars, acc) matches Ok((es, ns)) ==> {
            &&& es.contains(x) <==> acc.0.contains(x) || stands(
                env,
                vars,
                Some(Binding::Edge(x)),
            )
            &&& ns.contains(x) <==> acc.1.contains(x) || stands(
                env,
                vars,
                Some(Binding::Node(x)),
            )
        },
    decreases vars.len(),
{
    if vars.len() > 0 {
        let d = vars.drop_last();
        lemma_doomed_in(env, d, acc, x);
        lemma_stands(env, vars, None);
        lemma_stands(env, vars, Some(Binding::Edge(x)));
        lemma_stands(env, vars, Some(Binding::Node(x)));
        if doomed_in(env, vars, acc) is Ok {
            let (es, ns) = doomed_in(env, d, acc)->Ok_0;
            let (es2, ns2) = doomed_in(env, vars, acc)->Ok_0;
            if es2.len() > es.len() {
                lemma_contains_last(es2, x);
                assert(es2.drop_last() =~= es);
            }
            if ns2.len() > ns.len() {
                lemma_contains_last(ns2, x);
                assert(ns2.drop_last() =~= ns);
            }
        }
    }
}

proof fn lemma_contains_last<T>(s: Seq<T>, x: T)
    requires
        s.len() > 0,
    ensures
        s.contains(x) <==> s.drop_last().contains(x) || x == s.last(),
{
    let d = s.drop_last();
    if d.contains(x) {
        assert(s[d.index_of(x)] == x);
    }
    if x == s.last() {
        assert(s[s.len() - 1] == x);
    }
    if s.contains(x) {
        let i = s.index_of(x);
        if i < d.len() {
            assert(d[i] == x);
        }
    }
}

proof fn lemma_doomed(ms: Seq<EnvMap>, vars: Seq<Seq<char>>, x: u64)
    ensures
        doomed(ms, vars) is Err <==> stands_in(ms, vars, None),
        doomed(ms, vars) matches Ok((es, ns)) ==> {
            &&& es.contains(x) <==> stands_in(ms, vars, Some(Binding::Edge(x)))
            &&& ns.contains(x) <==> stands_in(ms, vars, Some(Binding::Node(x)))
        },
    decreases ms.len(),
{
    if ms.len() > 0 {
        let d = ms.drop_last();
        lemma_doomed(d, vars, x);
        lemma_stands_in(ms, vars, None);
        lemma_stands_in(ms, vars, Some(Binding::Edge(x)));
        lemma_stands_in(ms, vars, Some(Binding::Node(x)));
        if doomed(d, vars) is Ok {
            lemma_doomed_in(ms.last(), vars, doomed(d, vars)->Ok_0, x);
        }
    }
}

/// Deleting edges takes those and no others, and counts each that was there
/// once.
proof fn lemma_edges_gone(g: GraphState, ids: Seq<u64>) -> (gone: Seq<u64>)
    requires
        consistent(g),
    ensures
        ({
            let (r, g2) = delete_edges(g, ids);
            &&& r == Ok::<nat, CypherErr>(gone.len())
            &&& consistent(g2)
            &&& g2.nodes == g.nodes
            &&& forall|x: u64| #[trigger] has_edge(g2, x) <==> has_edge(g, x) && !ids.contains(x)
            &&& forall|x: u64| !ids.contains(x) ==> #[trigger] edge_at(g2, x) == edge_at(g, x)
        }),
        gone.no_duplicates(),
        forall|x: u64| #[trigger] gone.contains(x) <==> ids.contains(x) && has_edge(g, x),
    decreases ids.len(),
{
    if ids.len() == 0 {
        Seq::empty()
    } else {
        let front = ids.drop_last();
        let id = ids.last();
        let before = lemma_edges_gone(g, front);
        let g1 = delete_edges(g, front).1;
        let g2 = delete_edges(g, ids).1;
        lemma_delete_edge_consistent(g1, id);
        lemma_deleted_edge_only(g1, id, 0);
        let gone = if has_edge(g1, id) {
            before.push(id)
        } else {
            before
        };
        assert forall|x: u64| #[trigger] has_edge(g2, x) <==> has_edge(g, x) && !ids.contains(
            x,
        ) by {
            lemma_deleted_edge_only(g1, id, x);
            lemma_contains_last(ids, x);
            assert(has_edge(g1, x) <==> has_edge(g, x) && !front.contains(x));
        }
        assert forall|x: u64| !ids.contains(x) implies #[trigger] edge_at(g2, x) == edge_at(
            g,
            x,
        ) by {
            lemma_deleted_edge_only(g1, id, x);
            lemma_contains_last(ids, x);
            assert(edge_at(g1, x) == edge_at(g, x));
        }
        assert(has_edge(g1, id) <==> has_edge(g, id) && !front.contains(id));
        assert(before.contains(id) <==> front.contains(id) && has_edge(g, id));
        assert forall|x: u64| #[trigger] gone.contains(x) <==> ids.contains(x) && has_edge(
            g,
            x,
        ) by {
            lemma_contains_last(ids, x);
            assert(before.contains(x) <==> front.contains(x) && has_edge(g, x));
            if gone.len() > before.len() {
                lemma_contains_last(gone, x);
                assert(gone.drop_last() =~= before);
            }
        }
        gone
    }
}

/// Whether an edge has one of some nodes as an end.
spec fn ends_in(g: GraphState, edge: u64, ids: Seq<u64>) -> bool {
    ids.contains(edge_rec(g, edge)->0.src) || ids.contains(edge_rec(g, edge)->0.dst)
}

/// Deleting nodes takes those and the edges that they are ends of, and no
/// others, and counts each node that was there once.
proof fn lemma_nodes_gone(g: GraphState, ids: Seq<u64>) -> (gone: Seq<u64>)
    requires
        consistent(g),
    ensures
        ({
            let (r, g2) = delete_nodes(g, ids);
            &&& r == Ok::<nat, CypherErr>(gone.len())
            &&& consistent(g2)
            &&& forall|x: u64| #[trigger] has_node(g2, x) <==> has_node(g, x) && !ids.contains(x)
            &&& forall|x: u64| !ids.contains(x) ==> #[trigger] node_at(g2, x) == node_at(g, x)
            &&& forall|x: u64| #[trigger]
                has_edge(g2, x) <==> has_edge(g, x) && !ends_in(g, x, ids)
            &&& forall|x: u64| #[trigger]
                has_edge(g2, x) ==> edge_at(g2, x) == edge_at(g, x) && edge_rec(g2, x) == edge_rec(
                    g,
                    x,
                )
        }),
        gone.no_duplicates(),
        forall|x: u64| #[trigger] gone.contains(x) <==> ids.contains(x) && has_node(g, x),
    decreases ids.len(),
{
    if ids.len() == 0 {
        Seq::empty()
    } else {
        let front = ids.drop_last();
        let id = ids.last();
        let before = lemma_nodes_gone(g, front);
        let g1 = delete_nodes(g, front).1;
        let g2 = delete_nodes(g, ids).1;
        lemma_delete_node_consistent(g1, id);
        lemma_sound_node(g1, id);
        lemma_deleted_node_is_gone(g1, id, Seq::empty(), Direction::Out, None, 0);
        assert(deleted_node(g1, id).0 == Ok::<bool, GraphErr>(has_node(g1, id)));
        let gone = if has_node(g1, id) {
            before.push(id)
        } else {
            before
        };
        assert forall|x: u64| #[trigger] has_node(g2, x) <==> has_node(g, x) && !ids.contains(
            x,
        ) by {
            lemma_deleted_node_spares(g1, id, x, 0);
            lemma_sound_node(g2, x);
            lemma_sound_node(g1, x);
            lemma_contains_last(ids, x);
            assert(has_node(g1, x) <==> has_node(g, x) && !front.contains(x));
        }
        assert forall|x: u64| !ids.contains(x) implies #[trigger] node_at(g2, x) == node_at(
            g,
            x,
        ) by {
            lemma_deleted_node_spares(g1, id, x, 0);
            lemma_contains_last(ids, x);
            assert(node_at(g1, x) == node_at(g, x));
        }
        assert forall|x: u64| #[trigger] has_edge(g2, x) <==> has_edge(g, x) && !ends_in(
            g,
            x,
            ids,
        ) by {
            lemma_deleted_node_spares(g1, id, id, x);
            lemma_contains_last(ids, edge_rec(g, x)->0.src);
            lemma_contains_last(ids, edge_rec(g, x)->0.dst);
            assert(has_edge(g1, x) <==> has_edge(g, x) && !ends_in(g, x, front));
        }
        assert forall|x: u64| #[trigger] has_edge(g2, x) implies edge_at(g2, x) == edge_at(g, x)
            && edge_rec(g2, x) == edge_rec(g, x) by {
            lemma_deleted_node_spares(g1, id, id, x);
            assert(has_edge(g1, x));
        }
        assert(has_node(g1, id) <==> has_node(g, id) && !front.contains(id));
        assert(before.contains(id) <==> front.contains(id) && has_node(g, id));
        assert forall|x: u64| #[trigger] gone.contains(x) <==> ids.contains(x) && has_node(
            g,
            x,
        ) by {
            lemma_contains_last(ids, x);
            assert(before.contains(x) <==> front.contains(x) && has_node(g, x));
            if gone.len() > before.len() {
                lemma_contains_last(gone, x);
                assert(gone.drop_last() =~= before);
            }
        }
        gone
    }
}

/// Whether nodes and edges were taken from a graph, and nothing else was: the
/// nodes, the edges, and the edges that have one of the nodes as an end.
pub open spec fn only_gone(
    g: GraphState,
    g2: GraphState,
    nodes: spec_fn(u64) -> bool,
    edges: spec_fn(u64) -> bool,
) -> bool {
    &&& consistent(g2)
    &&& forall|x: u64| #[trigger]
        node_at(g2, x) == (if nodes(x) {
            Ok(None)
        } else {
            node_at(g, x)
        })
    &&& forall|x: u64| #[trigger]
        edge_at(g2, x) == (if edges(x) {
            Ok(None)
        } else if edge_at(g, x) is Ok && edge_at(g, x)->Ok_0 is Some && (nodes(
            edge_at(g, x)->Ok_0->0.src,
        ) || nodes(edge_at(g, x)->Ok_0->0.dst)) {
            Ok(None)
        } else {
            edge_at(g, x)
        })
}

/// `DELETE` takes what its variables stand for in the matches that are kept, and
/// the edges of the nodes among it, and nothing else. It tells how many nodes
/// and edges that were there it took by name, each counted once. Where a
/// variable stands for nothing, it fails and changes nothing.
pub proof fn lemma_delete_takes(g: GraphState, m: MatchStmt) -> (r: (Seq<u64>, Seq<u64>))
    requires
        consistent(g),
        m.delete_clause is Some,
        expand(g, m.pattern) is Ok,
    ensures
        ({
            let (result, g2) = run_delete(g, m);
            let (ns, es) = r;
            if nothing_named(g, m) {
                result is Err && g2 == g
            } else {
                &&& only_gone(g, g2, |x: u64| node_named(g, m, x), |x: u64| edge_named(g, m, x))
                &&& result matches Ok(q)
                &&& q.columns.len() == 0 && q.rows.len() == 0
                &&& q.stats.nodes_created == 0 && q.stats.edges_created == 0
                &&& q.stats.nodes_deleted == ns.len()
                &&& q.stats.edges_deleted == es.len()
                &&& ns.no_duplicates() && es.no_duplicates()
                &&& forall|x: u64| #[trigger]
                    ns.contains(x) <==> node_named(g, m, x) && has_node(g, x)
                &&& forall|x: u64| #[trigger]
                    es.contains(x) <==> edge_named(g, m, x) && has_edge(g, x)
            }
        }),
{
    let ms = expand(g, m.pattern)->Ok_0;
    let vars = m.delete_clause->0;
    let fs = filtered(g, m.where_clause, ms);
    assert forall|env: EnvMap| #[trigger] fs.contains(env) <==> kept(g, m, env) by {
        lemma_filtered(g, m.where_clause, ms, env);
    }
    lemma_doomed(fs, vars, 0);
    lemma_kept_stands(g, m, fs, None);
    if doomed(fs, vars) is Err {
        (Seq::empty(), Seq::empty())
    } else {
        let (es, ns) = doomed(fs, vars)->Ok_0;
        assert forall|x: u64| #[trigger] ns.contains(x) <==> node_named(g, m, x) by {
            lemma_doomed(fs, vars, x);
            lemma_kept_stands(g, m, fs, Some(Binding::Node(x)));
        }
        assert forall|x: u64| #[trigger] es.contains(x) <==> edge_named(g, m, x) by {
            lemma_doomed(fs, vars, x);
            lemma_kept_stands(g, m, fs, Some(Binding::Edge(x)));
        }
        let gone_edges = lemma_edges_gone(g, es);
        let g1 = delete_edges(g, es).1;
        let gone_nodes = lemma_nodes_gone(g1, ns);
        let g2 = delete_nodes(g1, ns).1;
        lemma_only_gone(
            g,
            g1,
            g2,
            ns,
            es,
            |x: u64| node_named(g, m, x),
            |x: u64| edge_named(g, m, x),
        );
        assert forall|x: u64| #[trigger] gone_nodes.contains(x) <==> node_named(g, m, x)
            && has_node(g, x) by {
            assert(ns.contains(x) <==> node_named(g, m, x));
        }
        assert forall|x: u64| #[trigger] gone_edges.contains(x) <==> edge_named(g, m, x)
            && has_edge(g, x) by {
            assert(es.contains(x) <==> edge_named(g, m, x));
        }
        (gone_nodes, gone_edges)
    }
}

proof fn lemma_kept_stands(g: GraphState, m: MatchStmt, fs: Seq<EnvMap>, b: Option<Binding>)
    requires
        forall|env: EnvMap| #[trigger] fs.contains(env) <==> kept(g, m, env),
    ensures
        stands_in(fs, m.delete_clause->0, b) <==> exists|env: EnvMap, v: Seq<char>| #[trigger]
            kept(g, m, env) && #[trigger] m.delete_clause->0.contains(v) && env_get(env, v) == b,
{
    let vars = m.delete_clause->0;
    if stands_in(fs, vars, b) {
        let (env, v) = choose|env: EnvMap, v: Seq<char>| #[trigger]
            fs.contains(env) && #[trigger] vars.contains(v) && env_get(env, v) == b;
        assert(kept(g, m, env));
    }
    if exists|env: EnvMap, v: Seq<char>| #[trigger]
        kept(g, m, env) && #[trigger] vars.contains(v) && env_get(env, v) == b {
        let (env, v) = choose|env: EnvMap, v: Seq<char>| #[trigger]
            kept(g, m, env) && #[trigger] vars.contains(v) && env_get(env, v) == b;
        assert(fs.contains(env));
    }
}

proof fn lemma_only_gone(
    g: GraphState,
    g1: GraphState,
    g2: GraphState,
    ns: Seq<u64>,
    es: Seq<u64>,
    nodes: spec_fn(u64) -> bool,
    edges: spec_fn(u64) -> bool,
)
    requires
        consistent(g),
        consistent(g1),
        consistent(g2),
        g1.nodes == g.nodes,
        forall|x: u64| #[trigger] has_edge(g1, x) <==> has_edge(g, x) && !es.contains(x),
        forall|x: u64| !es.contains(x) ==> #[trigger] edge_at(g1, x) == edge_at(g, x),
        forall|x: u64| #[trigger] has_node(g2, x) <==> has_node(g1, x) && !ns.contains(x),
        forall|x: u64| !ns.contains(x) ==> #[trigger] node_at(g2, x) == node_at(g1, x),
        forall|x: u64| #[trigger] has_edge(g2, x) <==> has_edge(g1, x) && !ends_in(g1, x, ns),
        forall|x: u64| #[trigger] has_edge(g2, x) ==> edge_at(g2, x) == edge_at(g1, x),
        forall|x: u64| #[trigger] ns.contains(x) <==> nodes(x),
        forall|x: u64| #[trigger] es.contains(x) <==> edges(x),
    ensures
        only_gone(g, g2, nodes, edges),
{
    assert forall|x: u64| #[trigger]
        node_at(g2, x) == (if nodes(x) {
            Ok(None)
        } else {
            node_at(g, x)
        }) by {
        assert(ns.contains(x) <==> nodes(x));
        assert(has_node(g2, x) <==> has_node(g1, x) && !ns.contains(x));
        assert(node_at(g1, x) == node_at(g, x));
    }
    assert forall|x: u64| #[trigger]
        edge_at(g2, x) == (if edges(x) {
            Ok(None)
        } else if edge_at(g, x) is Ok && edge_at(g, x)->Ok_0 is Some && (nodes(
            edge_at(g, x)->Ok_0->0.src,
        ) || nodes(edge_at(g, x)->Ok_0->0.dst)) {
            Ok(None)
        } else {
            edge_at(g, x)
        }) by {
        assert(es.contains(x) <==> edges(x));
        assert(has_edge(g1, x) <==> has_edge(g, x) && !es.contains(x));
        assert(has_edge(g2, x) <==> has_edge(g1, x) && !ends_in(g1, x, ns));
        lemma_sound_edge(g, x);
        lemma_sound_edge(g1, x);
        if has_edge(g1, x) {
            assert(edge_at(g1, x) == edge_at(g, x));
            let (src, dst) = (edge_rec(g1, x)->0.src, edge_rec(g1, x)->0.dst);
            assert(ns.contains(src) <==> nodes(src));
            assert(ns.contains(dst) <==> nodes(dst));
        }
    }
}

/// A failed `MATCH` deletes nothing.
pub proof fn lemma_delete_without_matches(g: GraphState, m: MatchStmt)
    requires
        expand(g, m.pattern) is Err,
    ensures
        run_delete(g, m).0 is Err,
        run_delete(g, m).1 == g,
{
}

/// What a variable of `DELETE` stands for in any match that is kept is gone.
pub proof fn lemma_bound_is_gone(g: GraphState, m: MatchStmt, env: EnvMap, v: Seq<char>)
    requires
        consistent(g),
        m.delete_clause is Some,
        run_delete(g, m).0 is Ok,
        kept(g, m, env),
        m.delete_clause->0.contains(v),
    ensures
        env_get(env, v) is Some,
        env_get(env, v) matches Some(Binding::Node(x)) ==> !has_node(run_delete(g, m).1, x),
        env_get(env, v) matches Some(Binding::Edge(e)) ==> !has_edge(run_delete(g, m).1, e),
{
    let g2 = run_delete(g, m).1;
    lemma_delete_takes(g, m);
    match env_get(env, v) {
        Some(Binding::Node(x)) => {
            assert(node_named(g, m, x));
            assert(node_at(g2, x) == Ok::<Option<NodeVal>, GraphErr>(None));
        },
        Some(Binding::Edge(e)) => {
            assert(edge_named(g, m, e));
            assert(edge_at(g2, e) == Ok::<Option<EdgeVal>, GraphErr>(None));
        },
        None => {
            assert(nothing_named(g, m));
        },
    }
}

} // verus!
