//! What holds of every query.

use crate::cypher::ast::{stmt_width, Elem, Exs, MatchStmt, NodePat, Stmt};
use crate::cypher::CypherErr;
use crate::cypher::env::{Binding, EnvMap};
use crate::cypher::lexer::{word_tok, Tok};
use crate::cypher::query::{
    any_aggregate, bound, candidate_fits, create_from, create_pattern_edge, create_pattern_node,
    delete_edges, delete_nodes, expand, expand_node, filtered, first_fit, label_of, limit_of,
    limited, literal_props, no_stats, reached, rows, run_delete, run_match, run_merge, run_write,
    try_candidate, try_candidates, QueryVal, Stats,
};
use crate::cypher::values::{ex_val, node_fits, prop_matches, vals_equal};
use crate::float::is_nan;
use crate::graph::laws::{
    consistent, has_edge, has_node, lemma_create_edge_consistent, lemma_create_node_consistent,
    lemma_created_node_reads_back, lemma_delete_edge_consistent, lemma_delete_node_consistent,
    lemma_deleted_edge_only, lemma_deleted_node_is_gone, lemma_deleted_node_spares,
    lemma_labelled_are_nodes, lemma_sound_node,
};
use crate::graph::state::{
    created_edge, created_node, labelled, next_edge, next_node, node_at, GraphState,
};
use crate::graph::types::{lemma_prop_set, prop_get, props_ok, Direction, NodeVal, Props, Val};
use vstd::prelude::*;

verus! {

broadcast use crate::bytes::group_byte_lengths;

/// A word that is a keyword is the same one however it is written, as long as
/// its upper case is the same.
pub proof fn lemma_keyword_by_upper_case(upper: Seq<char>, a: Seq<char>, b: Seq<char>)
    ensures
        word_tok(upper, a) !is Ident ==> word_tok(upper, a) == word_tok(upper, b),
        word_tok(upper, a) is Ident ==> word_tok(upper, a) == Tok::Ident(a),
{
}

// ---------------------------------------------------------------------------
// The invariant of the graph
// ---------------------------------------------------------------------------

/// Properties that a pattern writes have each name once.
pub proof fn lemma_literal_props_ok(es: Exs)
    ensures
        literal_props(es) matches Ok(ps) ==> props_ok(ps),
    decreases es.len(),
{
    if es.len() > 0 {
        lemma_literal_props_ok(es.drop_last());
        match (literal_props(es.drop_last()), ex_val(es.last().1)) {
            (Ok(ps), Some(v)) => {
                lemma_prop_set(ps, es.last().0, v, es.last().0);
            },
            _ => {},
        }
    }
}

pub proof fn lemma_counters(g: GraphState, label: Seq<char>, props: Props)
    requires
        next_node(g) < u64::MAX,
    ensures
        next_node(created_node(g, label, props).1) == next_node(g) + 1,
        next_edge(created_node(g, label, props).1) == next_edge(g),
{
    crate::bytes::lemma_le64_round_trip((next_node(g) + 1) as u64);
    assert(crate::graph::state::NEXT_NODE_KEY@[5] != crate::graph::state::NEXT_EDGE_KEY@[5]);
}

proof fn lemma_edge_counters(
    g: GraphState,
    src: u64,
    dst: u64,
    edge_type: Seq<char>,
    props: Props,
)
    requires
        next_edge(g) < u64::MAX,
    ensures
        next_edge(created_edge(g, src, dst, edge_type, props).1) <= next_edge(g) + 1,
        next_node(created_edge(g, src, dst, edge_type, props).1) == next_node(g),
{
    crate::bytes::lemma_le64_round_trip((next_edge(g) + 1) as u64);
    assert(crate::graph::state::NEXT_NODE_KEY@[5] != crate::graph::state::NEXT_EDGE_KEY@[5]);
}

proof fn lemma_pattern_node_consistent(g: GraphState, np: NodePat)
    requires
        consistent(g),
        next_node(g) < u64::MAX,
    ensures
        consistent(create_pattern_node(g, np).1),
        next_node(create_pattern_node(g, np).1) <= next_node(g) + 1,
        next_edge(create_pattern_node(g, np).1) == next_edge(g),
{
    lemma_literal_props_ok(np.properties);
    match literal_props(np.properties) {
        Ok(ps) => {
            lemma_create_node_consistent(g, label_of(np), ps);
            lemma_counters(g, label_of(np), ps);
        },
        Err(_) => {},
    }
}

proof fn lemma_create_consistent(
    g: GraphState,
    path: Seq<Elem>,
    i: int,
    m: EnvMap,
    stats: Stats,
)
    requires
        consistent(g),
        0 <= i,
        next_node(g) + (path.len() - i) <= u64::MAX,
        next_edge(g) + (path.len() - i) <= u64::MAX,
    ensures
        consistent(create_from(g, path, i, m, stats).1),
    decreases path.len() - i,
{
    if i < path.len() {
        match path[i] {
            Elem::Node(np) => {
                lemma_pattern_node_consistent(g, np);
                let (r, g1) = create_pattern_node(g, np);
                match r {
                    Ok(id) => {
                        lemma_create_consistent(
                            g1,
                            path,
                            i + 1,
                            bound(m, np.variable, Binding::Node(id)),
                            Stats { nodes_created: stats.nodes_created + 1, ..stats },
                        );
                    },
                    Err(_) => {},
                }
            },
            Elem::Edge(ep) => {
                if i + 1 < path.len() {
                    match (crate::cypher::env::largest_node(m), path[i + 1]) {
                        (Some(src), Elem::Node(np)) => {
                            lemma_pattern_node_consistent(g, np);
                            let (r, g1) = create_pattern_node(g, np);
                            match r {
                                Ok(dst) => {
                                    let m1 = bound(m, np.variable, Binding::Node(dst));
                                    let edge_type = match ep.edge_type {
                                        Some(t) => t,
                                        None => "RELATED"@,
                                    };
                                    lemma_create_edge_consistent(
                                        g1,
                                        src,
                                        dst,
                                        edge_type,
                                        Seq::empty(),
                                    );
                                    lemma_edge_counters(g1, src, dst, edge_type, Seq::empty());
                                    let (r2, g2) = create_pattern_edge(g1, ep, src, dst);
                                    match r2 {
                                        Ok(id) => {
                                            lemma_create_consistent(
                                                g2,
                                                path,
                                                i + 2,
                                                bound(m1, ep.variable, Binding::Edge(id)),
                                                Stats {
                                                    nodes_created: stats.nodes_created + 1,
                                                    edges_created: stats.edges_created + 1,
                                                    ..stats
                                                },
                                            );
                                        },
                                        Err(_) => {},
                                    }
                                },
                                Err(_) => {},
                            }
                        },
                        _ => {},
                    }
                }
            },
        }
    }
}

/// Deleting edges keeps the invariant; none of them is left, and the nodes are
/// as they were.
proof fn lemma_edges_deleted(g: GraphState, ids: Seq<u64>)
    requires
        consistent(g),
    ensures
        consistent(delete_edges(g, ids).1),
        delete_edges(g, ids).0 is Ok,
        delete_edges(g, ids).1.nodes == g.nodes,
        forall|x: u64| #[trigger] has_edge(delete_edges(g, ids).1, x) ==> has_edge(g, x)
            && !ids.contains(x),
    decreases ids.len(),
{
    let g2 = delete_edges(g, ids).1;
    if ids.len() > 0 {
        let front = ids.drop_last();
        lemma_edges_deleted(g, front);
        let g1 = delete_edges(g, front).1;
        lemma_delete_edge_consistent(g1, ids.last());
        lemma_deleted_edge_only(g1, ids.last(), 0);
        assert forall|x: u64| #[trigger] has_edge(g2, x) implies has_edge(g, x) && !ids.contains(
            x,
        ) by {
            lemma_deleted_edge_only(g1, ids.last(), x);
            assert(has_edge(g1, x));
            if ids.contains(x) {
                let i = ids.index_of(x);
                if i < front.len() {
                    assert(front[i] == x);
                } else {
                    assert(x == ids.last());
                }
            }
        }
    }
}

/// Deleting nodes keeps the invariant; none of them is left.
proof fn lemma_nodes_deleted(g: GraphState, ids: Seq<u64>)
    requires
        consistent(g),
    ensures
        consistent(delete_nodes(g, ids).1),
        delete_nodes(g, ids).0 is Ok,
        forall|x: u64| #[trigger] has_node(delete_nodes(g, ids).1, x) ==> has_node(g, x)
            && !ids.contains(x),
        forall|x: u64| #[trigger] has_edge(delete_nodes(g, ids).1, x) ==> has_edge(g, x),
    decreases ids.len(),
{
    let g2 = delete_nodes(g, ids).1;
    if ids.len() > 0 {
        let front = ids.drop_last();
        lemma_nodes_deleted(g, front);
        let g1 = delete_nodes(g, front).1;
        let id = ids.last();
        lemma_delete_node_consistent(g1, id);
        lemma_sound_node(g1, id);
        assert forall|x: u64| #[trigger] has_node(g2, x) implies has_node(g, x) && !ids.contains(
            x,
        ) by {
            lemma_deleted_node_is_gone(g1, id, Seq::empty(), Direction::Out, None, 0);
            if x != id {
                lemma_deleted_node_spares(g1, id, x, 0);
            }
            assert(has_node(g1, x));
            if ids.contains(x) {
                let i = ids.index_of(x);
                if i < front.len() {
                    assert(front[i] == x);
                } else {
                    assert(x == ids.last());
                }
            }
        }
        assert forall|x: u64| #[trigger] has_edge(g2, x) implies has_edge(g, x) by {
            crate::graph::laws::lemma_deleted_node_keeps_no_new_edge(g1, id, x);
        }
    }
}

/// Every statement keeps the invariant of the graph, also where it fails.
pub proof fn lemma_statement_consistent(g: GraphState, s: Stmt)
    requires
        consistent(g),
        next_node(g) + stmt_width(s) <= u64::MAX,
        next_edge(g) + stmt_width(s) <= u64::MAX,
    ensures
        consistent(run_write(g, s).1),
{
    match s {
        Stmt::Match(m) => {
            if m.delete_clause is Some {
                match expand(g, m.pattern) {
                    Ok(ms) => {
                        let vars = m.delete_clause->0;
                        match crate::cypher::query::doomed(
                            filtered(g, m.where_clause, ms),
                            vars,
                        ) {
                            Ok((es, ns)) => {
                                lemma_edges_deleted(g, es);
                                let g1 = delete_edges(g, es).1;
                                lemma_nodes_deleted(g1, ns);
                            },
                            Err(_) => {},
                        }
                    },
                    Err(_) => {},
                }
            }
        },
        Stmt::Create(path) => {
            lemma_create_consistent(g, path, 0, Map::empty(), no_stats());
        },
        Stmt::Merge(np) => {
            lemma_pattern_node_consistent(g, np);
        },
    }
}

/// A statement that neither creates nor deletes leaves the graph as it is.
pub proof fn lemma_match_changes_nothing(g: GraphState, m: MatchStmt)
    requires
        m.delete_clause is None,
    ensures
        run_write(g, Stmt::Match(m)).1 == g,
        run_write(g, Stmt::Match(m)).0 == crate::cypher::query::run_read(g, Stmt::Match(m)),
{
}

// ---------------------------------------------------------------------------
// MATCH
// ---------------------------------------------------------------------------

proof fn lemma_rows_len(g: GraphState, items: Seq<crate::cypher::ast::Item>, ms: Seq<EnvMap>)
    ensures
        rows(g, items, ms) matches Ok(rs) ==> rs.len() == ms.len(),
    decreases ms.len(),
{
    if ms.len() > 0 {
        lemma_rows_len(g, items, ms.drop_last());
    }
}

/// A result has a row for each match, at most as many as the limit says; an
/// aggregation has one row.
pub proof fn lemma_result_rows(g: GraphState, m: MatchStmt)
    requires
        m.return_clause is Some,
        run_match(g, m) is Ok,
    ensures
        ({
            let items = m.return_clause->0.items;
            let found = limited(
                filtered(g, m.where_clause, expand(g, m.pattern)->Ok_0),
                limit_of(m),
            );
            let result = run_match(g, m)->Ok_0;
            &&& result.columns.len() == items.len()
            &&& any_aggregate(items) ==> result.rows.len() == 1
            &&& !any_aggregate(items) ==> result.rows.len() == found.len()
            &&& limit_of(m) matches Some(n) ==> found.len() <= n
        }),
{
    let ret = m.return_clause->0;
    let found = limited(
        filtered(g, m.where_clause, expand(g, m.pattern)->Ok_0),
        limit_of(m),
    );
    lemma_rows_len(g, ret.items, limited(found, ret.limit));
}

/// In a graph that keeps the invariant no candidate gives an error.
proof fn lemma_candidates(g: GraphState, np: NodePat, ids: Seq<u64>, ms: Seq<EnvMap>, j: int)
    requires
        consistent(g),
        0 <= j < ids.len(),
    ensures
        try_candidates(g, np, ids, ms) is Ok,
        candidate_fits(g, np, ids[j]) is Ok,
        candidate_fits(g, np, ids[j])->Ok_0 && ms.len() > 0 ==> try_candidates(
            g,
            np,
            ids,
            ms,
        )->Ok_0.contains(reached(bound(ms[0], np.variable, Binding::Node(ids[j])), ids[j])),
    decreases ids.len(),
{
    let last = ids.last();
    lemma_sound_node(g, last);
    lemma_sound_node(g, ids[j]);
    let front = ids.drop_last();
    if front.len() > 0 {
        if j < front.len() {
            lemma_candidates(g, np, front, ms, j);
        } else {
            lemma_candidates(g, np, front, ms, 0);
        }
    }
    let want = reached(bound(ms[0], np.variable, Binding::Node(ids[j])), ids[j]);
    if candidate_fits(g, np, ids[j])->Ok_0 && ms.len() > 0 {
        let a = try_candidates(g, np, front, ms)->Ok_0;
        let b = try_candidate(g, np, last, ms)->Ok_0;
        if j < front.len() {
            let i = a.index_of(want);
            assert((a + b)[i] == want);
        } else {
            assert(b[0] == want);
            assert((a + b)[a.len() as int] == want);
        }
    }
}

/// Whether a value equals itself: all do but what is no number.
pub open spec fn reflexive(v: Val) -> bool {
    v matches Val::Float(f) ==> !is_nan(f)
}

/// Whether a pattern has each name once, and only literals that equal
/// themselves.
pub open spec fn plain_pattern(np: NodePat) -> bool {
    &&& forall|i: int, j: int|
        0 <= i < j < np.properties.len() ==> (#[trigger] np.properties[i]).0 != (
        #[trigger] np.properties[j]).0
    &&& forall|i: int|
        0 <= i < np.properties.len() ==> (ex_val((#[trigger] np.properties[i]).1) matches Some(v)
            ==> reflexive(v))
}

proof fn lemma_literal_gets(es: Exs, j: int)
    requires
        literal_props(es) is Ok,
        0 <= j < es.len(),
        forall|a: int, b: int|
            0 <= a < b < es.len() ==> (#[trigger] es[a]).0 != (#[trigger] es[b]).0,
    ensures
        ex_val(es[j].1) is Some,
        prop_get(literal_props(es)->Ok_0, es[j].0) == ex_val(es[j].1),
    decreases es.len(),
{
    let d = es.drop_last();
    lemma_literal_props_ok(d);
    let ps = literal_props(d)->Ok_0;
    let last = es.last();
    lemma_prop_set(ps, last.0, ex_val(last.1)->0, es[j].0);
    if j < d.len() {
        assert forall|a: int, b: int| 0 <= a < b < d.len() implies (#[trigger] d[a]).0 != (
        #[trigger] d[b]).0 by {
            assert(es[a].0 != es[b].0);
        }
        lemma_literal_gets(d, j);
        assert(es[j].0 != es[es.len() - 1].0);
    }
}

/// A node that a pattern creates is what the pattern asks for.
pub proof fn lemma_created_fits(np: NodePat, id: u64)
    requires
        plain_pattern(np),
        np.label is Some,
        literal_props(np.properties) is Ok,
    ensures
        node_fits(
            np,
            NodeVal { id, label: np.label->0, props: literal_props(np.properties)->Ok_0 },
        ),
{
    let ps = literal_props(np.properties)->Ok_0;
    assert forall|i: int| 0 <= i < np.properties.len() implies prop_matches(
        ps,
        #[trigger] np.properties[i],
    ) by {
        lemma_literal_gets(np.properties, i);
        let v = ex_val(np.properties[i].1)->0;
        assert(reflexive(v));
        assert(vals_equal(v, v));
    }
}

/// What `CREATE` made, `MATCH` finds: a node that was created with a label is
/// among those that its own pattern matches.
pub proof fn lemma_created_is_matched(g: GraphState, np: NodePat)
    requires
        consistent(g),
        next_node(g) < u64::MAX,
        plain_pattern(np),
        np.label is Some,
        create_pattern_node(g, np).0 is Ok,
    ensures
        ({
            let (r, g2) = create_pattern_node(g, np);
            let found = expand_node(g2, np, seq![Map::empty()]);
            found is Ok && found->Ok_0.contains(
                reached(
                    bound(Map::empty(), np.variable, Binding::Node(r->Ok_0)),
                    r->Ok_0,
                ),
            )
        }),
{
    let (r, g2) = create_pattern_node(g, np);
    let id = r->Ok_0;
    let label = np.label->0;
    let ps = literal_props(np.properties)->Ok_0;
    let ms = seq![Map::<Seq<char>, Binding>::empty()];
    lemma_literal_props_ok(np.properties);
    lemma_created_node_reads_back(g, label, ps, 0);
    lemma_create_node_consistent(g, label, ps);
    lemma_created_fits(np, id);
    let ids = labelled(g2, label);
    let j = ids.index_of(id);
    lemma_candidates(g2, np, ids, ms, j);
}

// ---------------------------------------------------------------------------
// MERGE
// ---------------------------------------------------------------------------

proof fn lemma_first_fit(g: GraphState, np: NodePat, ids: Seq<u64>, j: int, n: NodeVal)
    requires
        consistent(g),
        0 <= j < ids.len(),
        node_at(g, ids[j]) == Ok::<Option<NodeVal>, crate::graph::GraphErr>(Some(n)),
        node_fits(np, n),
    ensures
        first_fit(g, np, ids) matches Ok(Some(_)),
    decreases ids.len(),
{
    let front = ids.drop_last();
    lemma_first_fit_ok(g, np, front);
    if j < front.len() {
        lemma_first_fit(g, np, front, j, n);
    }
}

proof fn lemma_first_fit_ok(g: GraphState, np: NodePat, ids: Seq<u64>)
    requires
        consistent(g),
    ensures
        first_fit(g, np, ids) is Ok,
    decreases ids.len(),
{
    if ids.len() > 0 {
        lemma_first_fit_ok(g, np, ids.drop_last());
        lemma_sound_node(g, ids.last());
    }
}

proof fn lemma_first_fit_found(g: GraphState, np: NodePat, ids: Seq<u64>) -> (j: int)
    requires
        first_fit(g, np, ids) matches Ok(Some(_)),
    ensures
        0 <= j < ids.len(),
        node_at(g, ids[j]) == Ok::<Option<NodeVal>, crate::graph::GraphErr>(
            Some(first_fit(g, np, ids)->Ok_0->0),
        ),
        node_fits(np, first_fit(g, np, ids)->Ok_0->0),
    decreases ids.len(),
{
    let front = ids.drop_last();
    match first_fit(g, np, front) {
        Ok(Some(_)) => {
            let j = lemma_first_fit_found(g, np, front);
            assert(front[j] == ids[j]);
            j
        },
        _ => ids.len() - 1,
    }
}

/// Whether a node has the label of a pattern, and fits it.
pub open spec fn fits(g: GraphState, np: NodePat, id: u64) -> bool {
    &&& np.label matches Some(label) && labelled(g, label).contains(id)
    &&& node_at(g, id) matches Ok(Some(n)) && node_fits(np, n)
}

/// `MERGE` finds a node exactly where one fits.
proof fn lemma_merge_finds(g: GraphState, np: NodePat)
    requires
        consistent(g),
        np.label is Some,
    ensures
        first_fit(g, np, labelled(g, np.label->0)) is Ok,
        first_fit(g, np, labelled(g, np.label->0)) matches Ok(Some(_)) <==> exists|id: u64|
            #[trigger] fits(g, np, id),
{
    let ids = labelled(g, np.label->0);
    lemma_first_fit_ok(g, np, ids);
    if exists|id: u64| #[trigger] fits(g, np, id) {
        let id = choose|id: u64| #[trigger] fits(g, np, id);
        lemma_first_fit(g, np, ids, ids.index_of(id), node_at(g, id)->Ok_0->0);
    }
    if first_fit(g, np, ids) matches Ok(Some(_)) {
        let j = lemma_first_fit_found(g, np, ids);
        assert(fits(g, np, ids[j]));
    }
}

/// Where no node fitted a pattern, the one that was created for it is the only
/// one that does.
proof fn lemma_only_created_fits(g: GraphState, np: NodePat, x: u64)
    requires
        consistent(g),
        next_node(g) < u64::MAX,
        plain_pattern(np),
        np.label is Some,
        create_pattern_node(g, np).0 is Ok,
        forall|id: u64| !#[trigger] fits(g, np, id),
        fits(create_pattern_node(g, np).1, np, x),
    ensures
        x == create_pattern_node(g, np).0->Ok_0,
{
    let label = np.label->0;
    let ps = literal_props(np.properties)->Ok_0;
    let (r, g2) = create_pattern_node(g, np);
    lemma_literal_props_ok(np.properties);
    lemma_created_node_reads_back(g, label, ps, x);
    lemma_create_node_consistent(g, label, ps);
    if x != r->Ok_0 {
        lemma_labelled_are_nodes(g2, label, x);
        lemma_labelled_are_nodes(g, label, x);
        assert(node_at(g2, x) == node_at(g, x));
        assert(fits(g, np, x));
    }
}

/// `MERGE` gives one row with a node that fits, and creates the node exactly
/// where none fitted. A second `MERGE` of the same pattern gives the same row,
/// creates nothing and changes nothing.
pub proof fn lemma_merge_twice(g: GraphState, np: NodePat)
    requires
        consistent(g),
        next_node(g) < u64::MAX,
        plain_pattern(np),
        run_merge(g, np).0 is Ok,
    ensures
        ({
            let (r, g2) = run_merge(g, np);
            let (r3, g3) = run_merge(g2, np);
            &&& r->Ok_0.rows.len() == 1
            &&& (exists|id: u64| #[trigger] fits(g, np, id)) ==> g2 == g && r->Ok_0.stats
                == no_stats()
            &&& !(exists|id: u64| #[trigger] fits(g, np, id)) ==> r->Ok_0.stats == (Stats {
                nodes_created: 1,
                ..no_stats()
            })
            &&& g3 == g2
            &&& r3 == Ok::<QueryVal, CypherErr>(QueryVal { stats: no_stats(), ..r->Ok_0 })
        }),
{
    let label = np.label->0;
    let (r, g2) = run_merge(g, np);
    lemma_merge_finds(g, np);
    match first_fit(g, np, labelled(g, label)) {
        Ok(None) => {
            let ps = literal_props(np.properties)->Ok_0;
            lemma_literal_props_ok(np.properties);
            lemma_created_node_reads_back(g, label, ps, 0);
            lemma_create_node_consistent(g, label, ps);
            let id = create_pattern_node(g, np).0->Ok_0;
            lemma_created_fits(np, id);
            assert(fits(g2, np, id));
            lemma_merge_finds(g2, np);
            let ids = labelled(g2, label);
            let j = lemma_first_fit_found(g2, np, ids);
            assert(fits(g2, np, ids[j]));
            lemma_only_created_fits(g, np, ids[j]);
        },
        _ => {},
    }
}

// ---------------------------------------------------------------------------
// DELETE
// ---------------------------------------------------------------------------

/// What `DELETE` was asked to delete is gone: the edges and the nodes that its
/// variables stood for.
pub proof fn lemma_deleted_is_gone(g: GraphState, m: MatchStmt, edge: u64, node: u64)
    requires
        consistent(g),
        m.delete_clause is Some,
        run_delete(g, m).0 is Ok,
    ensures
        ({
            let found = filtered(g, m.where_clause, expand(g, m.pattern)->Ok_0);
            let (es, ns) = crate::cypher::query::doomed(found, m.delete_clause->0)->Ok_0;
            let g2 = run_delete(g, m).1;
            &&& es.contains(edge) ==> !has_edge(g2, edge)
            &&& ns.contains(node) ==> !has_node(g2, node)
        }),
{
    let found = filtered(g, m.where_clause, expand(g, m.pattern)->Ok_0);
    let (es, ns) = crate::cypher::query::doomed(found, m.delete_clause->0)->Ok_0;
    lemma_edges_deleted(g, es);
    let g1 = delete_edges(g, es).1;
    lemma_nodes_deleted(g1, ns);
    let g2 = delete_nodes(g1, ns).1;
    if has_edge(g2, edge) {
        assert(has_edge(g1, edge));
    }
}

} // verus!
