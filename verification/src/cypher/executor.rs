//! Executing statements.

use crate::cypher::{CypherErr, CypherError};
use crate::cypher::ast::{
    items_view, stmt_width, CreateClause, EdgeDirection, EdgePattern, Expr, ExprMap, Item,
    LiteralValue, MatchClause, MergeClause, NodePattern, Pattern, PatternElement, ReturnClause,
    ReturnItem, Statement,
};
use crate::cypher::env::{envs_view, last_node_key, Binding, Env, EnvMap};
use crate::cypher::lexer::Lexer;
use crate::cypher::parser::Parser;
use crate::cypher::query::{
    aggregate, aggregate_row, any_aggregate, bind_node, bound, candidate_fits, column, columns,
    condition, create_from, create_pattern_edge, create_pattern_node, delete_edges, delete_nodes,
    doomed, doomed_in, expand, expand_edge, expand_edge_from, expand_from, expand_node, filtered,
    first_fit, follow, followed, is_aggregate, item_value, limited, literal_props, merged,
    no_stats, only_stats, operand, parsed, project, property_of, recheck_all, row, rows,
    run_create, run_delete, run_match, run_merge, run_read, run_write, try_candidates,
    try_neighbors, unaliased, unmarked, Envs, QueryVal, Stats,
};
use crate::cypher::values::{
    edge_to_value, eval_comparison, expr_to_value, literal_to_value, node_matches, node_to_value,
};
use crate::graph::read_txn::GraphReadTxn;
use crate::graph::state::{
    edge_at, graph_of, neighbors_of, next_edge, next_node, node_at, GraphState,
};
use crate::graph::types::{
    Direction, Edge, EdgeId, Node, NodeId, Properties, Props, Val, Value,
};
use crate::graph::view::{
    holds_graph, read_edge, read_neighbors, read_node, read_nodes_by_label, TableSource,
};
use crate::graph::write_txn::{step, GraphWriteTxn, PAGES_PER_EDGE, PAGES_PER_NODE};
use crate::numtext::push_number;
use crate::text::{copy_str, push_text, str_equal, texts};
use vstd::prelude::*;

verus! {

/// How much a statement changed.
#[derive(Debug, Clone, Copy, PartialEq, Eq)]
pub struct QueryStats {
    pub nodes_created: u64,
    pub edges_created: u64,
    pub nodes_deleted: u64,
    pub edges_deleted: u64,
}

/// What a statement gives.
#[derive(Debug)]
pub struct QueryResult {
    pub columns: Vec<String>,
    pub rows: Vec<Vec<Value>>,
    pub stats: QueryStats,
}

impl View for QueryStats {
    type V = Stats;

    open spec fn view(&self) -> Stats {
        Stats {
            nodes_created: self.nodes_created as nat,
            edges_created: self.edges_created as nat,
            nodes_deleted: self.nodes_deleted as nat,
            edges_deleted: self.edges_deleted as nat,
        }
    }
}

/// A row, as a value.
pub open spec fn row_view(v: Seq<Value>) -> Seq<Val> {
    Seq::new(v.len(), |i: int| v[i]@)
}

/// Rows, as values.
pub open spec fn rows_view(v: Seq<Vec<Value>>) -> Seq<Seq<Val>> {
    Seq::new(v.len(), |i: int| row_view(v[i]@))
}

impl View for QueryResult {
    type V = QueryVal;

    open spec fn view(&self) -> QueryVal {
        QueryVal {
            columns: texts(self.columns@),
            rows: rows_view(self.rows@),
            stats: self.stats@,
        }
    }
}

impl Default for QueryStats {
    fn default() -> (r: Self)
        ensures
            r@ == no_stats(),
    {
        QueryStats { nodes_created: 0, edges_created: 0, nodes_deleted: 0, edges_deleted: 0 }
    }
}

impl Default for QueryResult {
    fn default() -> (r: Self)
        ensures
            r@ == only_stats(no_stats()),
    {
        stats_only(QueryStats::default())
    }
}

fn stats_only(stats: QueryStats) -> (r: QueryResult)
    ensures
        r@ == only_stats(stats@),
{
    let r = QueryResult { columns: Vec::new(), rows: Vec::new(), stats };
    proof {
        assert(r@.columns =~= Seq::<Seq<char>>::empty());
        assert(r@.rows =~= Seq::<Seq<Val>>::empty());
    }
    r
}

/// A result with a view, as a value.
pub open spec fn viewed<T: View>(r: Result<T, CypherError>) -> Result<T::V, CypherErr> {
    match r {
        Ok(x) => Ok(x@),
        Err(e) => Err(e@),
    }
}

/// A result without a view, as a value.
pub open spec fn plain<T>(r: Result<T, CypherError>) -> Result<T, CypherErr> {
    match r {
        Ok(x) => Ok(x),
        Err(e) => Err(e@),
    }
}

/// Environments or an error, as a value.
pub open spec fn envs_result(r: Result<Vec<Env>, CypherError>) -> Envs {
    match r {
        Ok(v) => Ok(envs_view(v@)),
        Err(e) => Err(e@),
    }
}

fn execution(m: &str) -> (r: CypherError)
    ensures
        r@ == CypherErr::Execution(m@),
{
    CypherError::Execution(copy_str(m))
}

fn not_bound_error(var: &str) -> (r: CypherError)
    ensures
        r@ == CypherErr::Execution("variable '"@ + var@ + "' not bound"@),
{
    let mut s = copy_str("variable '");
    push_text(&mut s, var);
    push_text(&mut s, "' not bound");
    CypherError::Execution(s)
}

fn not_found_error(what: &str, id: u64) -> (r: CypherError)
    ensures
        r@ == CypherErr::Execution(
            what@ + crate::numtext::nat_text(id as nat) + " not found"@,
        ),
{
    let mut s = copy_str(what);
    push_number(&mut s, id);
    push_text(&mut s, " not found");
    CypherError::Execution(s)
}

/// Reads a node, with the error of a query.
fn fetch_node<T: TableSource>(src: &T, id: NodeId) -> (r: Result<Option<Node>, CypherError>)
    requires
        holds_graph(*src),
    ensures
        match (r, node_at(graph_of(src.source_tables()), id)) {
            (Ok(Some(n)), Ok(Some(v))) => n@ == v,
            (Ok(None), Ok(None)) => true,
            (Err(c), Err(e)) => c@ == CypherErr::Graph(e),
            _ => false,
        },
{
    match read_node(src, id) {
        Ok(x) => Ok(x),
        Err(e) => Err(CypherError::Graph(e)),
    }
}

/// Reads an edge, with the error of a query.
fn fetch_edge<T: TableSource>(src: &T, id: EdgeId) -> (r: Result<Option<Edge>, CypherError>)
    requires
        holds_graph(*src),
    ensures
        match (r, edge_at(graph_of(src.source_tables()), id)) {
            (Ok(Some(n)), Ok(Some(v))) => n@ == v,
            (Ok(None), Ok(None)) => true,
            (Err(c), Err(e)) => c@ == CypherErr::Graph(e),
            _ => false,
        },
{
    match read_edge(src, id) {
        Ok(x) => Ok(x),
        Err(e) => Err(CypherError::Graph(e)),
    }
}

// ---------------------------------------------------------------------------
// Paths
// ---------------------------------------------------------------------------

/// Binds a variable, if there is one.
fn bind(env: &mut Env, variable: &Option<String>, b: Binding)
    ensures
        final(env)@ == bound(old(env)@, crate::cypher::ast::opt_string(*variable), b),
{
    match variable {
        Some(v) => env.insert(v.as_str(), b),
        None => {},
    }
}

/// The environments in which the node of a bound variable fits.
fn recheck_bound<T: TableSource>(np: &NodePattern, var: &str, envs: &Vec<Env>, src: &T) -> (r:
    Result<Vec<Env>, CypherError>)
    requires
        holds_graph(*src),
    ensures
        envs_result(r) == recheck_all(
            graph_of(src.source_tables()),
            np@,
            var@,
            envs_view(envs@),
        ),
{
    let ghost g = graph_of(src.source_tables());
    let ghost ms = envs_view(envs@);
    let mut result: Vec<Env> = Vec::new();
    let mut i: usize = 0;
    assert(envs_view(result@) =~= Seq::empty());
    assert(ms.take(0) =~= Seq::empty());
    while i < envs.len()
        invariant
            holds_graph(*src),
            g == graph_of(src.source_tables()),
            ms == envs_view(envs@),
            i <= envs@.len(),
            recheck_all(g, np@, var@, ms.take(i as int)) == Ok::<Seq<EnvMap>, CypherErr>(
                envs_view(result@),
            ),
        decreases envs@.len() - i,
    {
        proof {
            assert(ms.take(i + 1).drop_last() =~= ms.take(i as int));
            assert(ms.take(i + 1).last() == envs@[i as int]@);
        }
        let ghost before = result@;
        match envs[i].get(var) {
            Some(Binding::Node(id)) => {
                match fetch_node(src, id) {
                    Ok(Some(node)) => {
                        if node_matches(np, &node) {
                            let mut env = envs[i].copy();
                            env.insert("__last_node__", Binding::Node(id));
                            let ghost m = env@;
                            result.push(env);
                            assert(envs_view(result@) =~= envs_view(before) + seq![m]);
                        }
                    },
                    Ok(None) => {},
                    Err(e) => {
                        proof {
                            lemma_recheck_error(g, np@, var@, ms, i + 1);
                        }
                        return Err(e);
                    },
                }
            },
            _ => {},
        }
        proof {
            if result@ == before {
                assert(envs_view(before) + Seq::<EnvMap>::empty() =~= envs_view(before));
            }
        }
        i = i + 1;
    }
    assert(ms.take(i as int) =~= ms);
    Ok(result)
}

proof fn lemma_recheck_error(
    g: GraphState,
    np: crate::cypher::ast::NodePat,
    var: Seq<char>,
    ms: Seq<EnvMap>,
    i: int,
)
    requires
        0 <= i <= ms.len(),
        recheck_all(g, np, var, ms.take(i)) is Err,
    ensures
        recheck_all(g, np, var, ms) == recheck_all(g, np, var, ms.take(i)),
    decreases ms.len() - i,
{
    if i < ms.len() {
        assert(ms.take(i + 1).drop_last() =~= ms.take(i));
        lemma_recheck_error(g, np, var, ms, i + 1);
    } else {
        assert(ms.take(i) =~= ms);
    }
}

/// Every environment with a node bound, behind some others.
fn push_bound(np: &NodePattern, id: NodeId, envs: &Vec<Env>, result: &mut Vec<Env>)
    ensures
        envs_view(final(result)@) == envs_view(old(result)@) + bind_node(
            np@,
            id,
            envs_view(envs@),
        ),
{
    let ghost before = envs_view(result@);
    let ghost all = bind_node(np@, id, envs_view(envs@));
    let mut i: usize = 0;
    assert(envs_view(result@) =~= before + all.take(0));
    while i < envs.len()
        invariant
            all == bind_node(np@, id, envs_view(envs@)),
            i <= envs@.len(),
            envs_view(result@) == before + all.take(i as int),
        decreases envs@.len() - i,
    {
        let mut env = envs[i].copy();
        bind(&mut env, &np.variable, Binding::Node(id));
        env.insert("__last_node__", Binding::Node(id));
        let ghost m = env@;
        let ghost so_far = result@;
        result.push(env);
        proof {
            assert(m == all[i as int]);
            assert(envs_view(result@) =~= envs_view(so_far).push(m));
            assert(before + all.take(i + 1) =~= (before + all.take(i as int)).push(
                all[i as int],
            ));
        }
        i = i + 1;
    }
    assert(all.take(i as int) =~= all);
}

/// The environments for nodes with the label.
fn expand_candidates<T: TableSource>(
    np: &NodePattern,
    ids: &Vec<NodeId>,
    envs: &Vec<Env>,
    src: &T,
) -> (r: Result<Vec<Env>, CypherError>)
    requires
        holds_graph(*src),
    ensures
        envs_result(r) == try_candidates(
            graph_of(src.source_tables()),
            np@,
            ids@,
            envs_view(envs@),
        ),
{
    let ghost g = graph_of(src.source_tables());
    let ghost ms = envs_view(envs@);
    let has_prop_filter = np.properties.len() > 0;
    let mut result: Vec<Env> = Vec::new();
    let mut i: usize = 0;
    assert(envs_view(result@) =~= Seq::empty());
    assert(ids@.take(0) =~= Seq::empty());
    while i < ids.len()
        invariant
            holds_graph(*src),
            g == graph_of(src.source_tables()),
            ms == envs_view(envs@),
            has_prop_filter == (np@.properties.len() > 0),
            i <= ids@.len(),
            try_candidates(g, np@, ids@.take(i as int), ms) == Ok::<Seq<EnvMap>, CypherErr>(
                envs_view(result@),
            ),
        decreases ids@.len() - i,
    {
        proof {
            assert(ids@.take(i + 1).drop_last() =~= ids@.take(i as int));
            assert(ids@.take(i + 1).last() == ids@[i as int]);
        }
        let id: NodeId = ids[i];
        let fits = if has_prop_filter {
            match fetch_node(src, id) {
                Ok(Some(node)) => node_matches(np, &node),
                Ok(None) => false,
                Err(e) => {
                    proof {
                        lemma_candidates_error(g, np@, ids@, ms, i + 1);
                    }
                    return Err(e);
                },
            }
        } else {
            true
        };
        assert(candidate_fits(g, np@, id) == Ok::<bool, CypherErr>(fits));
        if fits {
            push_bound(np, id, envs, &mut result);
        } else {
            assert(envs_view(result@) + Seq::<EnvMap>::empty() =~= envs_view(result@));
        }
        i = i + 1;
    }
    assert(ids@.take(i as int) =~= ids@);
    Ok(result)
}

proof fn lemma_candidates_error(
    g: GraphState,
    np: crate::cypher::ast::NodePat,
    ids: Seq<u64>,
    ms: Seq<EnvMap>,
    i: int,
)
    requires
        0 <= i <= ids.len(),
        try_candidates(g, np, ids.take(i), ms) is Err,
    ensures
        try_candidates(g, np, ids, ms) == try_candidates(g, np, ids.take(i), ms),
    decreases ids.len() - i,
{
    if i < ids.len() {
        assert(ids.take(i + 1).drop_last() =~= ids.take(i));
        lemma_candidates_error(g, np, ids, ms, i + 1);
    } else {
        assert(ids.take(i) =~= ids);
    }
}

/// The environments behind a node of a path.
fn expand_node_pattern<T: TableSource>(np: &NodePattern, envs: &Vec<Env>, src: &T) -> (r: Result<
    Vec<Env>,
    CypherError,
>)
    requires
        holds_graph(*src),
    ensures
        envs_result(r) == expand_node(graph_of(src.source_tables()), np@, envs_view(envs@)),
{
    match &np.variable {
        Some(var) => {
            if envs.len() > 0 {
                assert(envs_view(envs@)[0] == envs@[0]@);
                match envs[0].get(var.as_str()) {
                    Some(_) => {
                        return recheck_bound(np, var.as_str(), envs, src);
                    },
                    None => {},
                }
            }
        },
        None => {},
    }
    match &np.label {
        Some(label) => match read_nodes_by_label(src, label.as_str()) {
            Ok(ids) => expand_candidates(np, &ids, envs, src),
            Err(e) => Err(CypherError::Graph(e)),
        },
        None => Err(
            execution(
                "first node pattern must have a label or be bound by a previous edge expansion",
            ),
        ),
    }
}

/// Appends the environments behind the edges in one direction.
fn follow_edges<T: TableSource>(
    ep: &EdgePattern,
    np: &NodePattern,
    env: &Env,
    from: NodeId,
    dir: Direction,
    src: &T,
) -> (r: Result<Vec<Env>, CypherError>)
    requires
        holds_graph(*src),
    ensures
        envs_result(r) == follow(graph_of(src.source_tables()), ep@, np@, env@, from, dir),
{
    let ghost g = graph_of(src.source_tables());
    let edge_type: Option<&str> = match &ep.edge_type {
        Some(t) => Some(t.as_str()),
        None => None,
    };
    let neighbors = match read_neighbors(src, from, dir, edge_type) {
        Ok(v) => v,
        Err(e) => {
            return Err(CypherError::Graph(e));
        },
    };
    let ghost ns = neighbors@;
    assert(ns == neighbors_of(g, from, dir, ep@.edge_type));
    let mut result: Vec<Env> = Vec::new();
    let mut i: usize = 0;
    assert(envs_view(result@) =~= Seq::empty());
    assert(ns.take(0) =~= Seq::empty());
    while i < neighbors.len()
        invariant
            holds_graph(*src),
            g == graph_of(src.source_tables()),
            ns == neighbors@,
            ns == neighbors_of(g, from, dir, ep@.edge_type),
            i <= ns.len(),
            try_neighbors(g, ep@, np@, env@, ns.take(i as int)) == Ok::<Seq<EnvMap>, CypherErr>(
                envs_view(result@),
            ),
        decreases ns.len() - i,
    {
        proof {
            assert(ns.take(i + 1).drop_last() =~= ns.take(i as int));
            assert(ns.take(i + 1).last() == ns[i as int]);
        }
        let ghost before = result@;
        let (edge_id, neighbor_id) = neighbors[i];
        match fetch_node(src, neighbor_id) {
            Ok(Some(node)) => {
                if node_matches(np, &node) {
                    let mut next = env.copy();
                    bind(&mut next, &ep.variable, Binding::Edge(edge_id));
                    bind(&mut next, &np.variable, Binding::Node(neighbor_id));
                    next.insert("__last_node__", Binding::Node(neighbor_id));
                    let ghost m = next@;
                    result.push(next);
                    assert(envs_view(result@) =~= envs_view(before) + seq![m]);
                } else {
                    assert(envs_view(before) + Seq::<EnvMap>::empty() =~= envs_view(before));
                }
            },
            Ok(None) => {
                assert(envs_view(before) + Seq::<EnvMap>::empty() =~= envs_view(before));
            },
            Err(e) => {
                proof {
                    lemma_neighbors_error(g, ep@, np@, env@, ns, i + 1);
                }
                return Err(e);
            },
        }
        i = i + 1;
    }
    assert(ns.take(i as int) =~= ns);
    Ok(result)
}

proof fn lemma_neighbors_error(
    g: GraphState,
    ep: crate::cypher::ast::EdgePat,
    np: crate::cypher::ast::NodePat,
    m: EnvMap,
    ns: Seq<(u64, u64)>,
    i: int,
)
    requires
        0 <= i <= ns.len(),
        try_neighbors(g, ep, np, m, ns.take(i)) is Err,
    ensures
        try_neighbors(g, ep, np, m, ns) == try_neighbors(g, ep, np, m, ns.take(i)),
    decreases ns.len() - i,
{
    if i < ns.len() {
        assert(ns.take(i + 1).drop_last() =~= ns.take(i));
        lemma_neighbors_error(g, ep, np, m, ns, i + 1);
    } else {
        assert(ns.take(i) =~= ns);
    }
}

/// Moves environments behind others.
fn append_envs(a: &mut Vec<Env>, b: Vec<Env>)
    ensures
        envs_view(final(a)@) == envs_view(old(a)@) + envs_view(b@),
{
    let mut more = b;
    a.append(&mut more);
    assert(envs_view(a@) =~= envs_view(old(a)@) + envs_view(b@));
}

/// The environments behind an edge of a path, from one environment.
fn expand_edge_one<T: TableSource>(ep: &EdgePattern, np: &NodePattern, env: &Env, src: &T) -> (r:
    Result<Vec<Env>, CypherError>)
    requires
        holds_graph(*src),
    ensures
        envs_result(r) == expand_edge_from(graph_of(src.source_tables()), ep@, np@, env@),
{
    let from: NodeId = match env.get("__last_node__") {
        Some(Binding::Node(id)) => id,
        _ => {
            return Err(execution("no node binding found for edge expansion"));
        },
    };
    match ep.direction {
        EdgeDirection::Right => follow_edges(ep, np, env, from, Direction::Out, src),
        EdgeDirection::Left => follow_edges(ep, np, env, from, Direction::In, src),
        EdgeDirection::Both => {
            let mut out = match follow_edges(ep, np, env, from, Direction::Out, src) {
                Ok(v) => v,
                Err(e) => {
                    return Err(e);
                },
            };
            match follow_edges(ep, np, env, from, Direction::In, src) {
                Ok(v) => {
                    append_envs(&mut out, v);
                    Ok(out)
                },
                Err(e) => Err(e),
            }
        },
    }
}

/// The environments behind an edge of a path and the node that follows it.
fn expand_edge_pattern<T: TableSource>(
    ep: &EdgePattern,
    np: &NodePattern,
    envs: &Vec<Env>,
    src: &T,
) -> (r: Result<Vec<Env>, CypherError>)
    requires
        holds_graph(*src),
    ensures
        envs_result(r) == expand_edge(
            graph_of(src.source_tables()),
            ep@,
            np@,
            envs_view(envs@),
        ),
{
    let ghost g = graph_of(src.source_tables());
    let ghost ms = envs_view(envs@);
    let mut result: Vec<Env> = Vec::new();
    let mut i: usize = 0;
    assert(envs_view(result@) =~= Seq::empty());
    assert(ms.take(0) =~= Seq::empty());
    while i < envs.len()
        invariant
            holds_graph(*src),
            g == graph_of(src.source_tables()),
            ms == envs_view(envs@),
            i <= ms.len(),
            expand_edge(g, ep@, np@, ms.take(i as int)) == Ok::<Seq<EnvMap>, CypherErr>(
                envs_view(result@),
            ),
        decreases ms.len() - i,
    {
        proof {
            assert(ms.take(i + 1).drop_last() =~= ms.take(i as int));
            assert(ms.take(i + 1).last() == envs@[i as int]@);
        }
        match expand_edge_one(ep, np, &envs[i], src) {
            Ok(v) => append_envs(&mut result, v),
            Err(e) => {
                proof {
                    lemma_edge_error(g, ep@, np@, ms, i + 1);
                }
                return Err(e);
            },
        }
        i = i + 1;
    }
    assert(ms.take(i as int) =~= ms);
    Ok(result)
}

proof fn lemma_edge_error(
    g: GraphState,
    ep: crate::cypher::ast::EdgePat,
    np: crate::cypher::ast::NodePat,
    ms: Seq<EnvMap>,
    i: int,
)
    requires
        0 <= i <= ms.len(),
        expand_edge(g, ep, np, ms.take(i)) is Err,
    ensures
        expand_edge(g, ep, np, ms) == expand_edge(g, ep, np, ms.take(i)),
    decreases ms.len() - i,
{
    if i < ms.len() {
        assert(ms.take(i + 1).drop_last() =~= ms.take(i));
        lemma_edge_error(g, ep, np, ms, i + 1);
    } else {
        assert(ms.take(i) =~= ms);
    }
}

/// The environments without the mark of the node that the path has reached.
fn unmark(envs: &Vec<Env>) -> (r: Vec<Env>)
    ensures
        envs_view(r@) == unmarked(envs_view(envs@)),
{
    let mut r: Vec<Env> = Vec::new();
    let mut i: usize = 0;
    while i < envs.len()
        invariant
            i <= envs@.len(),
            r@.len() == i,
            forall|j: int| 0 <= j < i ==> (#[trigger] r@[j])@ == envs@[j]@.remove(last_node_key()),
        decreases envs@.len() - i,
    {
        r.push(envs[i].without("__last_node__"));
        i = i + 1;
    }
    assert(envs_view(r@) =~= unmarked(envs_view(envs@)));
    r
}

/// The environments in which a path is in the graph.
pub fn expand_pattern<T: TableSource>(pattern: &Pattern, src: &T) -> (r: Result<
    Vec<Env>,
    CypherError,
>)
    requires
        holds_graph(*src),
    ensures
        envs_result(r) == expand(graph_of(src.source_tables()), pattern@),
{
    let ghost g = graph_of(src.source_tables());
    let ghost path = pattern@;
    let mut envs: Vec<Env> = Vec::new();
    envs.push(Env::new());
    assert(envs_view(envs@) =~= seq![Map::<Seq<char>, Binding>::empty()]);
    let mut i: usize = 0;
    let n: usize = pattern.elements.len();
    while i < n
        invariant
            holds_graph(*src),
            g == graph_of(src.source_tables()),
            path == pattern@,
            n == path.len(),
            i <= n,
            expand_from(g, path, 0, seq![Map::<Seq<char>, Binding>::empty()]) == expand_from(
                g,
                path,
                i as int,
                envs_view(envs@),
            ),
        decreases n - i,
    {
        assert(path[i as int] == pattern.elements@[i as int]@);
        match &pattern.elements[i] {
            PatternElement::Node(np) => {
                match expand_node_pattern(np, &envs, src) {
                    Ok(v) => {
                        envs = v;
                    },
                    Err(e) => {
                        return Err(e);
                    },
                }
                i = i + 1;
            },
            PatternElement::Edge(ep) => {
                if n - i == 1 {
                    return Err(execution("edge pattern not followed by node"));
                }
                assert(path[i + 1] == pattern.elements@[i + 1]@);
                match &pattern.elements[i + 1] {
                    PatternElement::Node(np) => {
                        match expand_edge_pattern(ep, np, &envs, src) {
                            Ok(v) => {
                                envs = v;
                            },
                            Err(e) => {
                                return Err(e);
                            },
                        }
                    },
                    PatternElement::Edge(_) => {
                        return Err(execution("expected node after edge"));
                    },
                }
                i = i + 2;
            },
        }
    }
    Ok(unmark(&envs))
}

// ---------------------------------------------------------------------------
// Conditions
// ---------------------------------------------------------------------------

/// The value of a property, null where it is missing.
fn or_null(ps: &Properties, prop: &str) -> (r: Value)
    ensures
        r@ == (match crate::graph::types::prop_get(ps@, prop@) {
            Some(v) => v,
            None => Val::Null,
        }),
{
    match ps.get(prop) {
        Some(v) => v.clone(),
        None => Value::Null,
    }
}

/// A property of what a variable stands for.
fn resolve_property<T: TableSource>(var: &str, prop: &str, env: &Env, src: &T) -> (r: Result<
    Value,
    CypherError,
>)
    requires
        holds_graph(*src),
    ensures
        viewed(r) == property_of(graph_of(src.source_tables()), env@, var@, prop@),
{
    match env.get(var) {
        Some(Binding::Node(id)) => match fetch_node(src, id) {
            Ok(Some(n)) => Ok(or_null(&n.properties, prop)),
            Ok(None) => Err(not_found_error("node ", id)),
            Err(e) => Err(e),
        },
        Some(Binding::Edge(id)) => match fetch_edge(src, id) {
            Ok(Some(n)) => Ok(or_null(&n.properties, prop)),
            Ok(None) => Err(not_found_error("edge ", id)),
            Err(e) => Err(e),
        },
        None => Err(not_bound_error(var)),
    }
}

/// The value of an operand of a comparison.
fn resolve_expr<T: TableSource>(expr: &Expr, env: &Env, src: &T) -> (r: Result<
    Value,
    CypherError,
>)
    requires
        holds_graph(*src),
    ensures
        viewed(r) == operand(graph_of(src.source_tables()), expr@, env@),
{
    match expr {
        Expr::Property(var, prop) => resolve_property(var.as_str(), prop.as_str(), env, src),
        Expr::Literal(lit) => Ok(literal_to_value(lit)),
        _ => Err(execution("unsupported expression in WHERE")),
    }
}

/// Whether a condition holds.
pub fn eval_where<T: TableSource>(expr: &Expr, env: &Env, src: &T) -> (r: Result<
    bool,
    CypherError,
>)
    requires
        holds_graph(*src),
    ensures
        plain(r) == condition(graph_of(src.source_tables()), expr@, env@),
    decreases *expr,
{
    match expr {
        Expr::Comparison(left, op, right) => {
            let lv = match resolve_expr(&**left, env, src) {
                Ok(v) => v,
                Err(e) => {
                    return Err(e);
                },
            };
            let rv = match resolve_expr(&**right, env, src) {
                Ok(v) => v,
                Err(e) => {
                    return Err(e);
                },
            };
            Ok(eval_comparison(&lv, *op, &rv))
        },
        Expr::And(a, b) => match eval_where(&**a, env, src) {
            Ok(true) => eval_where(&**b, env, src),
            Ok(false) => Ok(false),
            Err(e) => Err(e),
        },
        Expr::Or(a, b) => match eval_where(&**a, env, src) {
            Ok(true) => Ok(true),
            Ok(false) => eval_where(&**b, env, src),
            Err(e) => Err(e),
        },
        Expr::Not(inner) => match eval_where(&**inner, env, src) {
            Ok(v) => Ok(!v),
            Err(e) => Err(e),
        },
        Expr::Literal(LiteralValue::Bool(b)) => Ok(*b),
        _ => Err(execution("invalid WHERE expression")),
    }
}

/// A condition that may be missing, as a value.
pub open spec fn opt_expr(w: Option<Expr>) -> Option<crate::cypher::ast::Ex> {
    match w {
        Some(e) => Some(e@),
        None => None,
    }
}

proof fn lemma_filtered_len(
    g: GraphState,
    w: Option<crate::cypher::ast::Ex>,
    ms: Seq<EnvMap>,
    i: int,
)
    requires
        0 <= i <= ms.len(),
    ensures
        filtered(g, w, ms.take(i)).len() <= filtered(g, w, ms).len(),
        filtered(g, w, ms).take(filtered(g, w, ms.take(i)).len() as int) == filtered(
            g,
            w,
            ms.take(i),
        ),
    decreases ms.len() - i,
{
    let a = filtered(g, w, ms.take(i));
    let all = filtered(g, w, ms);
    if i == ms.len() {
        assert(ms.take(i) =~= ms);
        assert(all.take(all.len() as int) =~= all);
    } else {
        lemma_filtered_len(g, w, ms, i + 1);
        assert(ms.take(i + 1).drop_last() =~= ms.take(i));
        let b = filtered(g, w, ms.take(i + 1));
        assert(a =~= b.take(a.len() as int));
        assert(all.take(a.len() as int) =~= all.take(b.len() as int).take(a.len() as int));
    }
}

/// The environments that stay, as many as the limit says.
fn filter_envs<T: TableSource>(
    envs: &Vec<Env>,
    where_clause: &Option<Expr>,
    limit: Option<u64>,
    src: &T,
) -> (r: Vec<Env>)
    requires
        holds_graph(*src),
    ensures
        envs_view(r@) == limited(
            filtered(graph_of(src.source_tables()), opt_expr(*where_clause), envs_view(envs@)),
            limit,
        ),
{
    let ghost g = graph_of(src.source_tables());
    let ghost ms = envs_view(envs@);
    let ghost w = opt_expr(*where_clause);
    let mut out: Vec<Env> = Vec::new();
    let mut i: usize = 0;
    assert(ms.take(0) =~= Seq::empty());
    assert(envs_view(out@) =~= Seq::empty());
    while i < envs.len()
        invariant
            holds_graph(*src),
            g == graph_of(src.source_tables()),
            ms == envs_view(envs@),
            w == opt_expr(*where_clause),
            i <= ms.len(),
            envs_view(out@) == filtered(g, w, ms.take(i as int)),
            limit matches Some(n) ==> out@.len() <= n,
        decreases ms.len() - i,
    {
        match limit {
            Some(n) => {
                if out.len() as u64 >= n {
                    proof {
                        lemma_filtered_len(g, w, ms, i as int);
                        let all = filtered(g, w, ms);
                        assert(all.take(all.len() as int) =~= all);
                    }
                    return out;
                }
            },
            None => {},
        }
        proof {
            assert(ms.take(i + 1).drop_last() =~= ms.take(i as int));
            assert(ms.take(i + 1).last() == envs@[i as int]@);
        }
        let keep = match where_clause {
            Some(e) => match eval_where(e, &envs[i], src) {
                Ok(b) => b,
                Err(_) => false,
            },
            None => true,
        };
        if keep {
            let ghost before = out@;
            let env = envs[i].copy();
            let ghost m = env@;
            out.push(env);
            assert(envs_view(out@) =~= envs_view(before).push(m));
        }
        i = i + 1;
    }
    assert(ms.take(i as int) =~= ms);
    out
}

// ---------------------------------------------------------------------------
// RETURN
// ---------------------------------------------------------------------------

/// The name of a column.
pub fn return_item_name(item: &ReturnItem) -> (r: String)
    ensures
        r@ == column(item@),
    decreases *item,
{
    match item {
        ReturnItem::Variable(v) => copy_str(v.as_str()),
        ReturnItem::Property(v, p) => {
            let mut s = copy_str(v.as_str());
            push_text(&mut s, ".");
            push_text(&mut s, p.as_str());
            s
        },
        ReturnItem::FunctionCall(f, inner) => {
            let mut s = copy_str(f.as_str());
            push_text(&mut s, "(");
            push_text(&mut s, return_item_name(&**inner).as_str());
            push_text(&mut s, ")");
            s
        },
        ReturnItem::Alias(_, alias) => copy_str(alias.as_str()),
    }
}

/// An item without its aliases.
fn unwrap_alias(item: &ReturnItem) -> (r: &ReturnItem)
    ensures
        r@ == unaliased(item@),
        unaliased(r@) == r@,
    decreases *item,
{
    match item {
        ReturnItem::Alias(inner, _) => unwrap_alias(&**inner),
        other => other,
    }
}

/// The value of an item in one environment.
fn resolve_return_item<T: TableSource>(item: &ReturnItem, env: &Env, src: &T) -> (r: Result<
    Value,
    CypherError,
>)
    requires
        holds_graph(*src),
    ensures
        viewed(r) == item_value(graph_of(src.source_tables()), item@, env@),
    decreases *item,
{
    match item {
        ReturnItem::Variable(var) => match env.get(var.as_str()) {
            Some(Binding::Node(id)) => match fetch_node(src, id) {
                Ok(Some(n)) => Ok(node_to_value(&n)),
                Ok(None) => Ok(Value::Null),
                Err(e) => Err(e),
            },
            Some(Binding::Edge(id)) => match fetch_edge(src, id) {
                Ok(Some(n)) => Ok(edge_to_value(&n)),
                Ok(None) => Ok(Value::Null),
                Err(e) => Err(e),
            },
            None => Err(not_bound_error(var.as_str())),
        },
        ReturnItem::Property(var, prop) => resolve_property(
            var.as_str(),
            prop.as_str(),
            env,
            src,
        ),
        ReturnItem::Alias(inner, _) => resolve_return_item(&**inner, env, src),
        ReturnItem::FunctionCall(name, _) => {
            let mut s = copy_str("function '");
            push_text(&mut s, name.as_str());
            push_text(&mut s, "' not expected here");
            Err(CypherError::Execution(s))
        },
    }
}

fn column_names(items: &Vec<ReturnItem>) -> (r: Vec<String>)
    ensures
        texts(r@) == columns(items_view(items@)),
{
    let mut r: Vec<String> = Vec::new();
    let mut i: usize = 0;
    while i < items.len()
        invariant
            i <= items@.len(),
            r@.len() == i,
            forall|j: int| 0 <= j < i ==> (#[trigger] r@[j])@ == column(items@[j]@),
        decreases items@.len() - i,
    {
        r.push(return_item_name(&items[i]));
        i = i + 1;
    }
    assert(texts(r@) =~= columns(items_view(items@)));
    r
}

fn has_aggregate(items: &Vec<ReturnItem>) -> (r: bool)
    ensures
        r == any_aggregate(items_view(items@)),
{
    let ghost v = items_view(items@);
    let mut i: usize = 0;
    while i < items.len()
        invariant
            v == items_view(items@),
            i <= items@.len(),
            forall|j: int| 0 <= j < i ==> !is_aggregate(#[trigger] v[j]),
        decreases items@.len() - i,
    {
        assert(v[i as int] == items@[i as int]@);
        match unwrap_alias(&items[i]) {
            ReturnItem::FunctionCall(_, _) => {
                assert(is_aggregate(v[i as int]));
                return true;
            },
            _ => {},
        }
        i = i + 1;
    }
    false
}

/// A row or an error, as a value.
pub open spec fn row_result(r: Result<Vec<Value>, CypherError>) -> Result<Seq<Val>, CypherErr> {
    match r {
        Ok(v) => Ok(row_view(v@)),
        Err(e) => Err(e@),
    }
}

proof fn lemma_row_error(g: GraphState, items: Seq<Item>, m: EnvMap, i: int)
    requires
        0 <= i <= items.len(),
        row(g, items.take(i), m) is Err,
    ensures
        row(g, items, m) == row(g, items.take(i), m),
    decreases items.len() - i,
{
    if i < items.len() {
        assert(items.take(i + 1).drop_last() =~= items.take(i));
        lemma_row_error(g, items, m, i + 1);
    } else {
        assert(items.take(i) =~= items);
    }
}

fn project_row<T: TableSource>(items: &Vec<ReturnItem>, env: &Env, src: &T) -> (r: Result<
    Vec<Value>,
    CypherError,
>)
    requires
        holds_graph(*src),
    ensures
        row_result(r) == row(graph_of(src.source_tables()), items_view(items@), env@),
{
    let ghost g = graph_of(src.source_tables());
    let ghost v = items_view(items@);
    let mut out: Vec<Value> = Vec::new();
    let mut i: usize = 0;
    assert(v.take(0) =~= Seq::empty());
    assert(row_view(out@) =~= Seq::empty());
    while i < items.len()
        invariant
            holds_graph(*src),
            g == graph_of(src.source_tables()),
            v == items_view(items@),
            i <= items@.len(),
            row(g, v.take(i as int), env@) == Ok::<Seq<Val>, CypherErr>(row_view(out@)),
        decreases items@.len() - i,
    {
        proof {
            assert(v.take(i + 1).drop_last() =~= v.take(i as int));
            assert(v.take(i + 1).last() == items@[i as int]@);
        }
        let ghost before = out@;
        match resolve_return_item(&items[i], env, src) {
            Ok(x) => {
                let ghost xv = x@;
                out.push(x);
                assert(row_view(out@) =~= row_view(before).push(xv));
            },
            Err(e) => {
                proof {
                    lemma_row_error(g, v, env@, i + 1);
                }
                return Err(e);
            },
        }
        i = i + 1;
    }
    assert(v.take(i as int) =~= v);
    Ok(out)
}

proof fn lemma_rows_error(g: GraphState, items: Seq<Item>, ms: Seq<EnvMap>, i: int)
    requires
        0 <= i <= ms.len(),
        rows(g, items, ms.take(i)) is Err,
    ensures
        rows(g, items, ms) == rows(g, items, ms.take(i)),
    decreases ms.len() - i,
{
    if i < ms.len() {
        assert(ms.take(i + 1).drop_last() =~= ms.take(i));
        lemma_rows_error(g, items, ms, i + 1);
    } else {
        assert(ms.take(i) =~= ms);
    }
}

/// A row for each environment, as many as the limit says.
fn project_rows<T: TableSource>(ret: &ReturnClause, envs: &Vec<Env>, src: &T) -> (r: Result<
    Vec<Vec<Value>>,
    CypherError,
>)
    requires
        holds_graph(*src),
    ensures
        ({
            let want = rows(
                graph_of(src.source_tables()),
                ret@.items,
                limited(envs_view(envs@), ret.limit),
            );
            match r {
                Ok(v) => want == Ok::<Seq<Seq<Val>>, CypherErr>(rows_view(v@)),
                Err(e) => want == Err::<Seq<Seq<Val>>, CypherErr>(e@),
            }
        }),
{
    let ghost g = graph_of(src.source_tables());
    let ghost items = ret@.items;
    let ghost ms = limited(envs_view(envs@), ret.limit);
    let n: usize = match ret.limit {
        Some(k) => if k < envs.len() as u64 {
            k as usize
        } else {
            envs.len()
        },
        None => envs.len(),
    };
    assert(n == ms.len());
    let mut out: Vec<Vec<Value>> = Vec::new();
    let mut i: usize = 0;
    assert(ms.take(0) =~= Seq::empty());
    assert(rows_view(out@) =~= Seq::empty());
    while i < n
        invariant
            holds_graph(*src),
            g == graph_of(src.source_tables()),
            items == ret@.items,
            ms == limited(envs_view(envs@), ret.limit),
            n == ms.len(),
            n <= envs@.len(),
            i <= n,
            rows(g, items, ms.take(i as int)) == Ok::<Seq<Seq<Val>>, CypherErr>(
                rows_view(out@),
            ),
        decreases n - i,
    {
        proof {
            assert(ms.take(i + 1).drop_last() =~= ms.take(i as int));
            assert(ms.take(i + 1).last() == envs@[i as int]@);
        }
        let ghost before = out@;
        match project_row(&ret.items, &envs[i], src) {
            Ok(x) => {
                let ghost xv = row_view(x@);
                out.push(x);
                assert(rows_view(out@) =~= rows_view(before).push(xv));
            },
            Err(e) => {
                proof {
                    lemma_rows_error(g, items, ms, i + 1);
                }
                return Err(e);
            },
        }
        i = i + 1;
    }
    assert(ms.take(i as int) =~= ms);
    Ok(out)
}

/// The value of an item over all environments.
fn resolve_aggregate<T: TableSource>(item: &ReturnItem, envs: &Vec<Env>, src: &T) -> (r: Result<
    Value,
    CypherError,
>)
    requires
        holds_graph(*src),
    ensures
        viewed(r) == aggregate(graph_of(src.source_tables()), item@, envs_view(envs@)),
{
    let inner = unwrap_alias(item);
    let is_count = match inner {
        ReturnItem::FunctionCall(name, _) => str_equal(name.as_str(), "count"),
        _ => false,
    };
    if is_count {
        Ok(Value::Int(envs.len() as i64))
    } else if envs.len() > 0 {
        assert(envs_view(envs@)[0] == envs@[0]@);
        resolve_return_item(inner, &envs[0], src)
    } else {
        Ok(Value::Null)
    }
}

proof fn lemma_aggregate_error(g: GraphState, items: Seq<Item>, ms: Seq<EnvMap>, i: int)
    requires
        0 <= i <= items.len(),
        aggregate_row(g, items.take(i), ms) is Err,
    ensures
        aggregate_row(g, items, ms) == aggregate_row(g, items.take(i), ms),
    decreases items.len() - i,
{
    if i < items.len() {
        assert(items.take(i + 1).drop_last() =~= items.take(i));
        lemma_aggregate_error(g, items, ms, i + 1);
    } else {
        assert(items.take(i) =~= items);
    }
}

fn project_aggregate<T: TableSource>(items: &Vec<ReturnItem>, envs: &Vec<Env>, src: &T) -> (r:
    Result<Vec<Value>, CypherError>)
    requires
        holds_graph(*src),
    ensures
        row_result(r) == aggregate_row(
            graph_of(src.source_tables()),
            items_view(items@),
            envs_view(envs@),
        ),
{
    let ghost g = graph_of(src.source_tables());
    let ghost v = items_view(items@);
    let ghost ms = envs_view(envs@);
    let mut out: Vec<Value> = Vec::new();
    let mut i: usize = 0;
    assert(v.take(0) =~= Seq::empty());
    assert(row_view(out@) =~= Seq::empty());
    while i < items.len()
        invariant
            holds_graph(*src),
            g == graph_of(src.source_tables()),
            v == items_view(items@),
            ms == envs_view(envs@),
            i <= items@.len(),
            aggregate_row(g, v.take(i as int), ms) == Ok::<Seq<Val>, CypherErr>(row_view(out@)),
        decreases items@.len() - i,
    {
        proof {
            assert(v.take(i + 1).drop_last() =~= v.take(i as int));
            assert(v.take(i + 1).last() == items@[i as int]@);
        }
        let ghost before = out@;
        match resolve_aggregate(&items[i], envs, src) {
            Ok(x) => {
                let ghost xv = x@;
                out.push(x);
                assert(row_view(out@) =~= row_view(before).push(xv));
            },
            Err(e) => {
                proof {
                    lemma_aggregate_error(g, v, ms, i + 1);
                }
                return Err(e);
            },
        }
        i = i + 1;
    }
    assert(v.take(i as int) =~= v);
    Ok(out)
}

/// What `RETURN` gives.
pub fn project_results<T: TableSource>(ret: &ReturnClause, envs: &Vec<Env>, src: &T) -> (r: Result<
    QueryResult,
    CypherError,
>)
    requires
        holds_graph(*src),
    ensures
        viewed(r) == project(graph_of(src.source_tables()), ret@, envs_view(envs@)),
{
    let result = if has_aggregate(&ret.items) {
        let values = match project_aggregate(&ret.items, envs, src) {
            Ok(v) => v,
            Err(e) => {
                return Err(e);
            },
        };
        let ghost v = row_view(values@);
        let mut rows: Vec<Vec<Value>> = Vec::new();
        rows.push(values);
        assert(rows_view(rows@) =~= seq![v]);
        rows
    } else {
        match project_rows(ret, envs, src) {
            Ok(v) => v,
            Err(e) => {
                return Err(e);
            },
        }
    };
    Ok(
        QueryResult {
            columns: column_names(&ret.items),
            rows: result,
            stats: QueryStats::default(),
        },
    )
}

/// Executes `MATCH` without `DELETE`.
pub fn execute_match<T: TableSource>(m: &MatchClause, src: &T) -> (r: Result<
    QueryResult,
    CypherError,
>)
    requires
        holds_graph(*src),
    ensures
        viewed(r) == run_match(graph_of(src.source_tables()), m@),
{
    let envs = match expand_pattern(&m.pattern, src) {
        Ok(v) => v,
        Err(e) => {
            return Err(e);
        },
    };
    match &m.return_clause {
        Some(ret) => {
            let kept = filter_envs(&envs, &m.where_clause, ret.limit, src);
            project_results(ret, &kept, src)
        },
        None => Ok(QueryResult::default()),
    }
}

// ---------------------------------------------------------------------------
// CREATE
// ---------------------------------------------------------------------------

proof fn lemma_literal_error(es: crate::cypher::ast::Exs, i: int)
    requires
        0 <= i <= es.len(),
        literal_props(es.take(i)) is Err,
    ensures
        literal_props(es) == literal_props(es.take(i)),
    decreases es.len() - i,
{
    if i < es.len() {
        assert(es.take(i + 1).drop_last() =~= es.take(i));
        lemma_literal_error(es, i + 1);
    } else {
        assert(es.take(i) =~= es);
    }
}

/// The properties that a pattern writes.
fn props_to_map(props: &ExprMap) -> (r: Result<Properties, CypherError>)
    ensures
        viewed(r) == literal_props(props@),
{
    let ghost es = props@;
    let mut map = Properties::new();
    let mut i: usize = 0;
    assert(es.take(0) =~= Seq::empty());
    while i < props.len()
        invariant
            es == props@,
            i <= es.len(),
            literal_props(es.take(i as int)) == Ok::<Props, CypherErr>(map@),
        decreases es.len() - i,
    {
        proof {
            assert(es.take(i + 1).drop_last() =~= es.take(i as int));
            assert(es.take(i + 1).last() == es[i as int]);
        }
        match expr_to_value(props.expr(i)) {
            Some(v) => map.insert(copy_str(props.name(i)), v),
            None => {
                let mut s = copy_str("property '");
                push_text(&mut s, props.name(i));
                push_text(&mut s, "' must be a literal value");
                proof {
                    lemma_literal_error(es, i + 1);
                }
                return Err(CypherError::Execution(s));
            },
        }
        i = i + 1;
    }
    assert(es.take(i as int) =~= es);
    Ok(map)
}

/// Creates the node of a pattern.
fn create_node_of<'db>(np: &NodePattern, txn: &mut GraphWriteTxn<'db>) -> (r: Result<
    NodeId,
    CypherError,
>)
    requires
        old(txn).wf(),
        old(txn).next_page() + PAGES_PER_NODE <= u32::MAX,
        next_node(old(txn).graph()) < u64::MAX,
    ensures
        *final(final(txn).txn.db) == *final(old(txn).txn.db),
        final(txn).wf(),
        step(*old(txn), *final(txn), PAGES_PER_NODE as int),
        (plain(r), final(txn).graph()) == create_pattern_node(old(txn).graph(), np@),
{
    let props = match props_to_map(&np.properties) {
        Ok(p) => p,
        Err(e) => {
            return Err(e);
        },
    };
    let label = match &np.label {
        Some(l) => copy_str(l.as_str()),
        None => copy_str(""),
    };
    match txn.create_node(label.as_str(), props) {
        Ok(id) => Ok(id),
        Err(e) => Err(CypherError::Graph(e)),
    }
}

/// Creates the edge of a pattern.
fn create_edge_of<'db>(ep: &EdgePattern, src: NodeId, dst: NodeId, txn: &mut GraphWriteTxn<'db>) -> (r:
    Result<EdgeId, CypherError>)
    requires
        old(txn).wf(),
        old(txn).next_page() + PAGES_PER_EDGE <= u32::MAX,
        next_edge(old(txn).graph()) < u64::MAX,
    ensures
        *final(final(txn).txn.db) == *final(old(txn).txn.db),
        final(txn).wf(),
        step(*old(txn), *final(txn), PAGES_PER_EDGE as int),
        (plain(r), final(txn).graph()) == create_pattern_edge(old(txn).graph(), ep@, src, dst),
{
    let edge_type = match &ep.edge_type {
        Some(t) => copy_str(t.as_str()),
        None => copy_str("RELATED"),
    };
    match txn.create_edge(src, dst, edge_type.as_str(), Properties::new()) {
        Ok(id) => Ok(id),
        Err(e) => Err(CypherError::Graph(e)),
    }
}

proof fn lemma_created_numbers(g: GraphState, np: crate::cypher::ast::NodePat)
    ensures
        next_node(create_pattern_node(g, np).1) <= next_node(g) + 1 || next_node(g) == u64::MAX,
        next_edge(create_pattern_node(g, np).1) == next_edge(g),
{
    crate::bytes::lemma_le64_round_trip((next_node(g) + 1) as u64);
    assert(crate::graph::state::NEXT_NODE_KEY@[5] != crate::graph::state::NEXT_EDGE_KEY@[5]);
}

proof fn lemma_linked_numbers(
    g: GraphState,
    ep: crate::cypher::ast::EdgePat,
    src: u64,
    dst: u64,
)
    ensures
        next_edge(create_pattern_edge(g, ep, src, dst).1) <= next_edge(g) + 1 || next_edge(g)
            == u64::MAX,
        next_node(create_pattern_edge(g, ep, src, dst).1) == next_node(g),
{
    crate::bytes::lemma_le64_round_trip((next_edge(g) + 1) as u64);
    assert(crate::graph::state::NEXT_NODE_KEY@[5] != crate::graph::state::NEXT_EDGE_KEY@[5]);
}

/// Whether there is room to create a number of elements.
pub open spec fn room_for<'a>(txn: GraphWriteTxn<'a>, n: int) -> bool {
    &&& txn.next_page() + PAGES_PER_EDGE * n <= u32::MAX
    &&& next_node(txn.graph()) + n <= u64::MAX
    &&& next_edge(txn.graph()) + n <= u64::MAX
}

/// Whether there is room to create a number of elements.
pub fn has_room<'db>(txn: &GraphWriteTxn<'db>, n: usize) -> (r: bool)
    requires
        txn.wf(),
    ensures
        r == room_for(*txn, n as int),
{
    let page: u128 = txn.txn.db.pager.meta().next_page_id as u128;
    let node: u128 = txn.next_node_id() as u128;
    let edge: u128 = txn.next_edge_id() as u128;
    page + PAGES_PER_EDGE as u128 * n as u128 <= u32::MAX as u128 && node + n as u128
        <= u64::MAX as u128 && edge + n as u128 <= u64::MAX as u128
}

/// Executes `CREATE`.
pub fn execute_create<'db>(c: &CreateClause, txn: &mut GraphWriteTxn<'db>) -> (r: Result<
    QueryResult,
    CypherError,
>)
    requires
        old(txn).wf(),
        room_for(*old(txn), c.pattern.elements@.len() as int),
    ensures
        *final(final(txn).txn.db) == *final(old(txn).txn.db),
        final(txn).wf(),
        step(*old(txn), *final(txn), PAGES_PER_EDGE * c.pattern.elements@.len()),
        (viewed(r), final(txn).graph()) == run_create(old(txn).graph(), c.pattern@),
{
    let ghost path = c.pattern@;
    let ghost start = txn.next_page();
    let mut stats = QueryStats::default();
    let mut env = Env::new();
    let mut i: usize = 0;
    let n: usize = c.pattern.elements.len();
    while i < n
        invariant
            path == c.pattern@,
            n == path.len(),
            i <= n,
            *final(txn.txn.db) == *final(old(txn).txn.db),
            txn.wf(),
            step(*old(txn), *txn, PAGES_PER_EDGE * i),
            start == old(txn).next_page(),
            start + PAGES_PER_EDGE * n <= u32::MAX,
            next_node(txn.graph()) + (n - i) <= u64::MAX,
            next_edge(txn.graph()) + (n - i) <= u64::MAX,
            stats.nodes_created <= i,
            stats.edges_created <= i,
            create_from(
                old(txn).graph(),
                path,
                0,
                Map::<Seq<char>, Binding>::empty(),
                no_stats(),
            ) == create_from(txn.graph(), path, i as int, env@, stats@),
        decreases n - i,
    {
        assert(path[i as int] == c.pattern.elements@[i as int]@);
        let ghost g = txn.graph();
        match &c.pattern.elements[i] {
            PatternElement::Node(np) => {
                proof {
                    lemma_created_numbers(g, np@);
                }
                let id: NodeId = match create_node_of(np, txn) {
                    Ok(id) => id,
                    Err(e) => {
                        return Err(e);
                    },
                };
                stats.nodes_created = stats.nodes_created + 1;
                bind(&mut env, &np.variable, Binding::Node(id));
                i = i + 1;
            },
            PatternElement::Edge(ep) => {
                if n - i == 1 {
                    return Err(execution("edge pattern not followed by node"));
                }
                let src_id: NodeId = match env.largest() {
                    Some(id) => id,
                    None => {
                        return Err(execution("no node binding found for edge expansion"));
                    },
                };
                assert(path[i + 1] == c.pattern.elements@[i + 1]@);
                match &c.pattern.elements[i + 1] {
                    PatternElement::Node(np) => {
                        proof {
                            lemma_created_numbers(g, np@);
                        }
                        let dst_id: NodeId = match create_node_of(np, txn) {
                            Ok(id) => id,
                            Err(e) => {
                                return Err(e);
                            },
                        };
                        stats.nodes_created = stats.nodes_created + 1;
                        bind(&mut env, &np.variable, Binding::Node(dst_id));
                        proof {
                            lemma_linked_numbers(txn.graph(), ep@, src_id, dst_id);
                        }
                        let id: EdgeId = match create_edge_of(ep, src_id, dst_id, txn) {
                            Ok(id) => id,
                            Err(e) => {
                                return Err(e);
                            },
                        };
                        stats.edges_created = stats.edges_created + 1;
                        bind(&mut env, &ep.variable, Binding::Edge(id));
                    },
                    PatternElement::Edge(_) => {
                        return Err(execution("expected node after edge"));
                    },
                }
                i = i + 2;
            },
        }
    }
    Ok(stats_only(stats))
}

// ---------------------------------------------------------------------------
// DELETE
// ---------------------------------------------------------------------------

proof fn lemma_doomed_in_error(
    m: EnvMap,
    vars: Seq<Seq<char>>,
    acc: (Seq<u64>, Seq<u64>),
    i: int,
)
    requires
        0 <= i <= vars.len(),
        doomed_in(m, vars.take(i), acc) is Err,
    ensures
        doomed_in(m, vars, acc) == doomed_in(m, vars.take(i), acc),
    decreases vars.len() - i,
{
    if i < vars.len() {
        assert(vars.take(i + 1).drop_last() =~= vars.take(i));
        lemma_doomed_in_error(m, vars, acc, i + 1);
    } else {
        assert(vars.take(i) =~= vars);
    }
}

proof fn lemma_doomed_error(ms: Seq<EnvMap>, vars: Seq<Seq<char>>, i: int)
    requires
        0 <= i <= ms.len(),
        doomed(ms.take(i), vars) is Err,
    ensures
        doomed(ms, vars) == doomed(ms.take(i), vars),
    decreases ms.len() - i,
{
    if i < ms.len() {
        assert(ms.take(i + 1).drop_last() =~= ms.take(i));
        lemma_doomed_error(ms, vars, i + 1);
    } else {
        assert(ms.take(i) =~= ms);
    }
}

/// Appends what some variables of one environment stand for.
fn collect_from(env: &Env, vars: &Vec<String>, edges: &mut Vec<EdgeId>, nodes: &mut Vec<NodeId>) -> (r:
    Result<(), CypherError>)
    ensures
        match (r, doomed_in(env@, texts(vars@), (old(edges)@, old(nodes)@))) {
            (Ok(_), Ok((es, ns))) => es == final(edges)@ && ns == final(nodes)@,
            (Err(c), Err(e)) => c@ == e,
            _ => false,
        },
{
    let ghost vs = texts(vars@);
    let ghost acc = (edges@, nodes@);
    let mut i: usize = 0;
    assert(vs.take(0) =~= Seq::empty());
    while i < vars.len()
        invariant
            vs == texts(vars@),
            i <= vs.len(),
            acc == (old(edges)@, old(nodes)@),
            doomed_in(env@, vs.take(i as int), acc) == Ok::<(Seq<u64>, Seq<u64>), CypherErr>(
                (edges@, nodes@),
            ),
        decreases vs.len() - i,
    {
        proof {
            assert(vs.take(i + 1).drop_last() =~= vs.take(i as int));
            assert(vs.take(i + 1).last() == vars@[i as int]@);
        }
        match env.get(vars[i].as_str()) {
            Some(Binding::Edge(id)) => edges.push(id),
            Some(Binding::Node(id)) => nodes.push(id),
            None => {
                proof {
                    lemma_doomed_in_error(env@, vs, acc, i + 1);
                }
                return Err(not_bound_error(vars[i].as_str()));
            },
        }
        i = i + 1;
    }
    assert(vs.take(i as int) =~= vs);
    Ok(())
}

/// What some variables stand for in any environment: edges, and nodes.
fn collect_doomed(envs: &Vec<Env>, vars: &Vec<String>) -> (r: Result<
    (Vec<EdgeId>, Vec<NodeId>),
    CypherError,
>)
    ensures
        match (r, doomed(envs_view(envs@), texts(vars@))) {
            (Ok((a, b)), Ok((es, ns))) => a@ == es && b@ == ns,
            (Err(c), Err(e)) => c@ == e,
            _ => false,
        },
{
    let ghost ms = envs_view(envs@);
    let ghost vs = texts(vars@);
    let mut edges: Vec<EdgeId> = Vec::new();
    let mut nodes: Vec<NodeId> = Vec::new();
    let mut i: usize = 0;
    assert(ms.take(0) =~= Seq::empty());
    while i < envs.len()
        invariant
            ms == envs_view(envs@),
            vs == texts(vars@),
            i <= ms.len(),
            doomed(ms.take(i as int), vs) == Ok::<(Seq<u64>, Seq<u64>), CypherErr>(
                (edges@, nodes@),
            ),
        decreases ms.len() - i,
    {
        proof {
            assert(ms.take(i + 1).drop_last() =~= ms.take(i as int));
            assert(ms.take(i + 1).last() == envs@[i as int]@);
        }
        match collect_from(&envs[i], vars, &mut edges, &mut nodes) {
            Ok(_) => {},
            Err(e) => {
                proof {
                    lemma_doomed_error(ms, vs, i + 1);
                }
                return Err(e);
            },
        }
        i = i + 1;
    }
    assert(ms.take(i as int) =~= ms);
    Ok((edges, nodes))
}

proof fn lemma_delete_edges_error(g: GraphState, ids: Seq<u64>, i: int)
    requires
        0 <= i <= ids.len(),
        delete_edges(g, ids.take(i)).0 is Err,
    ensures
        delete_edges(g, ids) == delete_edges(g, ids.take(i)),
    decreases ids.len() - i,
{
    if i < ids.len() {
        assert(ids.take(i + 1).drop_last() =~= ids.take(i));
        lemma_delete_edges_error(g, ids, i + 1);
    } else {
        assert(ids.take(i) =~= ids);
    }
}

proof fn lemma_delete_nodes_error(g: GraphState, ids: Seq<u64>, i: int)
    requires
        0 <= i <= ids.len(),
        delete_nodes(g, ids.take(i)).0 is Err,
    ensures
        delete_nodes(g, ids) == delete_nodes(g, ids.take(i)),
    decreases ids.len() - i,
{
    if i < ids.len() {
        assert(ids.take(i + 1).drop_last() =~= ids.take(i));
        lemma_delete_nodes_error(g, ids, i + 1);
    } else {
        assert(ids.take(i) =~= ids);
    }
}

/// A count or an error, as a value.
pub open spec fn count_result(r: Result<u64, CypherError>) -> Result<nat, CypherErr> {
    match r {
        Ok(n) => Ok(n as nat),
        Err(e) => Err(e@),
    }
}

fn remove_edges<'db>(ids: &Vec<EdgeId>, txn: &mut GraphWriteTxn<'db>) -> (r: Result<
    u64,
    CypherError,
>)
    requires
        old(txn).wf(),
    ensures
        *final(final(txn).txn.db) == *final(old(txn).txn.db),
        final(txn).wf(),
        step(*old(txn), *final(txn), 0),
        (count_result(r), final(txn).graph()) == delete_edges(old(txn).graph(), ids@),
{
    let ghost g = txn.graph();
    let mut n: u64 = 0;
    let mut i: usize = 0;
    assert(ids@.take(0) =~= Seq::empty());
    while i < ids.len()
        invariant
            g == old(txn).graph(),
            i <= ids@.len(),
            n <= i,
            *final(txn.txn.db) == *final(old(txn).txn.db),
            txn.wf(),
            step(*old(txn), *txn, 0),
            delete_edges(g, ids@.take(i as int)) == (
                Ok::<nat, CypherErr>(n as nat),
                txn.graph(),
            ),
        decreases ids@.len() - i,
    {
        proof {
            assert(ids@.take(i + 1).drop_last() =~= ids@.take(i as int));
            assert(ids@.take(i + 1).last() == ids@[i as int]);
        }
        match txn.delete_edge(ids[i]) {
            Ok(there) => {
                if there {
                    n = n + 1;
                }
            },
            Err(e) => {
                proof {
                    lemma_delete_edges_error(g, ids@, i + 1);
                }
                return Err(CypherError::Graph(e));
            },
        }
        i = i + 1;
    }
    assert(ids@.take(i as int) =~= ids@);
    Ok(n)
}

fn remove_nodes<'db>(ids: &Vec<NodeId>, txn: &mut GraphWriteTxn<'db>) -> (r: Result<
    u64,
    CypherError,
>)
    requires
        old(txn).wf(),
    ensures
        *final(final(txn).txn.db) == *final(old(txn).txn.db),
        final(txn).wf(),
        step(*old(txn), *final(txn), 0),
        (count_result(r), final(txn).graph()) == delete_nodes(old(txn).graph(), ids@),
{
    let ghost g = txn.graph();
    let mut n: u64 = 0;
    let mut i: usize = 0;
    assert(ids@.take(0) =~= Seq::empty());
    while i < ids.len()
        invariant
            g == old(txn).graph(),
            i <= ids@.len(),
            n <= i,
            *final(txn.txn.db) == *final(old(txn).txn.db),
            txn.wf(),
            step(*old(txn), *txn, 0),
            delete_nodes(g, ids@.take(i as int)) == (
                Ok::<nat, CypherErr>(n as nat),
                txn.graph(),
            ),
        decreases ids@.len() - i,
    {
        proof {
            assert(ids@.take(i + 1).drop_last() =~= ids@.take(i as int));
            assert(ids@.take(i + 1).last() == ids@[i as int]);
        }
        match txn.delete_node(ids[i]) {
            Ok(there) => {
                if there {
                    n = n + 1;
                }
            },
            Err(e) => {
                proof {
                    lemma_delete_nodes_error(g, ids@, i + 1);
                }
                return Err(CypherError::Graph(e));
            },
        }
        i = i + 1;
    }
    assert(ids@.take(i as int) =~= ids@);
    Ok(n)
}

/// Executes `MATCH` with `DELETE`.
pub fn execute_match_delete<'db>(m: &MatchClause, txn: &mut GraphWriteTxn<'db>) -> (r: Result<
    QueryResult,
    CypherError,
>)
    requires
        old(txn).wf(),
    ensures
        *final(final(txn).txn.db) == *final(old(txn).txn.db),
        final(txn).wf(),
        step(*old(txn), *final(txn), 0),
        (viewed(r), final(txn).graph()) == run_delete(old(txn).graph(), m@),
{
    let envs = match expand_pattern(&m.pattern, &txn.txn) {
        Ok(v) => v,
        Err(e) => {
            return Err(e);
        },
    };
    let kept = filter_envs(&envs, &m.where_clause, None, &txn.txn);
    let none: Vec<String> = Vec::new();
    assert(texts(none@) =~= Seq::empty());
    let vars: &Vec<String> = match &m.delete_clause {
        Some(d) => d,
        None => &none,
    };
    let (edges, nodes) = match collect_doomed(&kept, vars) {
        Ok(x) => x,
        Err(e) => {
            return Err(e);
        },
    };
    let edges_deleted: u64 = match remove_edges(&edges, txn) {
        Ok(n) => n,
        Err(e) => {
            return Err(e);
        },
    };
    let nodes_deleted: u64 = match remove_nodes(&nodes, txn) {
        Ok(n) => n,
        Err(e) => {
            return Err(e);
        },
    };
    Ok(
        stats_only(
            QueryStats { nodes_created: 0, edges_created: 0, nodes_deleted, edges_deleted },
        ),
    )
}

// ---------------------------------------------------------------------------
// MERGE
// ---------------------------------------------------------------------------

proof fn lemma_first_fit_done(
    g: GraphState,
    np: crate::cypher::ast::NodePat,
    ids: Seq<u64>,
    i: int,
)
    requires
        0 <= i <= ids.len(),
        first_fit(g, np, ids.take(i)) != Ok::<
            Option<crate::graph::types::NodeVal>,
            CypherErr,
        >(None),
    ensures
        first_fit(g, np, ids) == first_fit(g, np, ids.take(i)),
    decreases ids.len() - i,
{
    if i < ids.len() {
        assert(ids.take(i + 1).drop_last() =~= ids.take(i));
        lemma_first_fit_done(g, np, ids, i + 1);
    } else {
        assert(ids.take(i) =~= ids);
    }
}

/// The first of some nodes that fits.
fn find_fit<T: TableSource>(np: &NodePattern, ids: &Vec<NodeId>, src: &T) -> (r: Result<
    Option<Node>,
    CypherError,
>)
    requires
        holds_graph(*src),
    ensures
        match (r, first_fit(graph_of(src.source_tables()), np@, ids@)) {
            (Ok(Some(n)), Ok(Some(v))) => n@ == v,
            (Ok(None), Ok(None)) => true,
            (Err(c), Err(e)) => c@ == e,
            _ => false,
        },
{
    let ghost g = graph_of(src.source_tables());
    let mut i: usize = 0;
    assert(ids@.take(0) =~= Seq::empty());
    while i < ids.len()
        invariant
            holds_graph(*src),
            g == graph_of(src.source_tables()),
            i <= ids@.len(),
            first_fit(g, np@, ids@.take(i as int)) == Ok::<
                Option<crate::graph::types::NodeVal>,
                CypherErr,
            >(None),
        decreases ids@.len() - i,
    {
        proof {
            assert(ids@.take(i + 1).drop_last() =~= ids@.take(i as int));
            assert(ids@.take(i + 1).last() == ids@[i as int]);
        }
        match fetch_node(src, ids[i]) {
            Ok(Some(node)) => {
                if node_matches(np, &node) {
                    proof {
                        lemma_first_fit_done(g, np@, ids@, i + 1);
                    }
                    return Ok(Some(node));
                }
            },
            Ok(None) => {},
            Err(e) => {
                proof {
                    lemma_first_fit_done(g, np@, ids@, i + 1);
                }
                return Err(e);
            },
        }
        i = i + 1;
    }
    assert(ids@.take(i as int) =~= ids@);
    Ok(None)
}

/// The result of `MERGE`.
fn merge_result(node: &Node, stats: QueryStats) -> (r: QueryResult)
    ensures
        r@ == merged(node@, stats@),
{
    let mut columns: Vec<String> = Vec::new();
    columns.push(copy_str("n"));
    let v = node_to_value(node);
    let ghost vv = v@;
    let mut row: Vec<Value> = Vec::new();
    row.push(v);
    let ghost rv = row@;
    let mut rows: Vec<Vec<Value>> = Vec::new();
    rows.push(row);
    let r = QueryResult { columns, rows, stats };
    proof {
        assert(row_view(rv) =~= seq![vv]);
        assert(r@.columns =~= seq!["n"@]);
        assert(r@.rows =~= seq![seq![vv]]);
    }
    r
}

/// Executes `MERGE`.
pub fn execute_merge<'db>(m: &MergeClause, txn: &mut GraphWriteTxn<'db>) -> (r: Result<
    QueryResult,
    CypherError,
>)
    requires
        old(txn).wf(),
        old(txn).next_page() + PAGES_PER_NODE <= u32::MAX,
        next_node(old(txn).graph()) < u64::MAX,
    ensures
        *final(final(txn).txn.db) == *final(old(txn).txn.db),
        final(txn).wf(),
        step(*old(txn), *final(txn), PAGES_PER_NODE as int),
        (viewed(r), final(txn).graph()) == run_merge(old(txn).graph(), m.pattern@),
{
    let np = &m.pattern;
    let label = match &np.label {
        Some(l) => copy_str(l.as_str()),
        None => {
            return Err(execution("MERGE requires a label"));
        },
    };
    let ids = match txn.nodes_by_label(label.as_str()) {
        Ok(v) => v,
        Err(e) => {
            return Err(CypherError::Graph(e));
        },
    };
    match find_fit(np, &ids, &txn.txn) {
        Ok(Some(node)) => {
            return Ok(merge_result(&node, QueryStats::default()));
        },
        Ok(None) => {},
        Err(e) => {
            return Err(e);
        },
    }
    let id: NodeId = match create_node_of(np, txn) {
        Ok(id) => id,
        Err(e) => {
            return Err(e);
        },
    };
    match fetch_node(&txn.txn, id) {
        Ok(Some(node)) => Ok(
            merge_result(
                &node,
                QueryStats {
                    nodes_created: 1,
                    edges_created: 0,
                    nodes_deleted: 0,
                    edges_deleted: 0,
                },
            ),
        ),
        Ok(None) => Err(execution("failed to read created node")),
        Err(e) => Err(e),
    }
}

// ---------------------------------------------------------------------------
// Statements
// ---------------------------------------------------------------------------

/// The statement that a text writes.
pub fn parse_query(query: &str) -> (r: Result<Statement, CypherError>)
    requires
        query@.len() + 3 <= usize::MAX,
    ensures
        viewed(r) == parsed(query@),
        r matches Ok(s) ==> s.width() <= query@.len() + 1,
{
    let mut lexer = Lexer::new(query);
    let tokens = match lexer.tokenize() {
        Ok(t) => t,
        Err(e) => {
            return Err(e);
        },
    };
    let mut parser = Parser::new(tokens);
    parser.parse()
}

/// Executes a statement in a read-only transaction.
pub fn execute_statement_read<'db>(stmt: &Statement, txn: &GraphReadTxn<'db>) -> (r: Result<
    QueryResult,
    CypherError,
>)
    requires
        txn.wf(),
    ensures
        viewed(r) == run_read(txn.graph(), stmt@),
{
    match stmt {
        Statement::Match(m) => execute_match(m, &txn.txn),
        Statement::Create(_) => Err(execution("CREATE requires a write transaction")),
        Statement::Merge(_) => Err(execution("MERGE requires a write transaction")),
    }
}

/// Executes a statement in a read-write transaction.
pub fn execute_statement_write<'db>(stmt: &Statement, txn: &mut GraphWriteTxn<'db>) -> (r: Result<
    QueryResult,
    CypherError,
>)
    requires
        old(txn).wf(),
        room_for(*old(txn), stmt.width() as int),
    ensures
        *final(final(txn).txn.db) == *final(old(txn).txn.db),
        final(txn).wf(),
        step(*old(txn), *final(txn), PAGES_PER_EDGE * stmt.width()),
        (viewed(r), final(txn).graph()) == run_write(old(txn).graph(), stmt@),
{
    match stmt {
        Statement::Match(m) => match &m.delete_clause {
            Some(_) => execute_match_delete(m, txn),
            None => execute_match(m, &txn.txn),
        },
        Statement::Create(c) => execute_create(c, txn),
        Statement::Merge(m) => execute_merge(m, txn),
    }
}

/// Executes a query in a read-only transaction.
pub fn execute_read<'db>(query: &str, txn: &GraphReadTxn<'db>) -> (r: Result<
    QueryResult,
    CypherError,
>)
    requires
        txn.wf(),
        query@.len() + 3 <= usize::MAX,
    ensures
        viewed(r) == (match parsed(query@) {
            Ok(s) => run_read(txn.graph(), s),
            Err(e) => Err(e),
        }),
{
    match parse_query(query) {
        Ok(stmt) => execute_statement_read(&stmt, txn),
        Err(e) => Err(e),
    }
}

/// Executes a query in a read-write transaction.
pub fn execute_write<'db>(query: &str, txn: &mut GraphWriteTxn<'db>) -> (r: Result<
    QueryResult,
    CypherError,
>)
    requires
        old(txn).wf(),
        query@.len() + 3 <= usize::MAX,
        room_for(*old(txn), query@.len() as int + 1),
    ensures
        *final(final(txn).txn.db) == *final(old(txn).txn.db),
        final(txn).wf(),
        step(*old(txn), *final(txn), PAGES_PER_EDGE * (query@.len() + 1)),
        (viewed(r), final(txn).graph()) == (match parsed(query@) {
            Ok(s) => run_write(old(txn).graph(), s),
            Err(e) => (Err(e), old(txn).graph()),
        }),
{
    let stmt = match parse_query(query) {
        Ok(s) => s,
        Err(e) => {
            return Err(e);
        },
    };
    assert(PAGES_PER_EDGE * stmt.width() <= PAGES_PER_EDGE * (query@.len() + 1)) by (nonlinear_arith)
        requires
            stmt.width() <= query@.len() + 1,
            PAGES_PER_EDGE >= 0,
    ;
    execute_statement_write(&stmt, txn)
}

/// Executes a query in a read-write transaction as `execute_write` does. `None`,
/// and no change, where there is no room for what its statement creates at most.
pub fn try_execute_write<'db>(query: &str, txn: &mut GraphWriteTxn<'db>) -> (r: Option<
    Result<QueryResult, CypherError>,
>)
    requires
        old(txn).wf(),
        query@.len() + 3 <= usize::MAX,
    ensures
        *final(final(txn).txn.db) == *final(old(txn).txn.db),
        final(txn).wf(),
        match r {
            None => {
                &&& parsed(query@) matches Ok(s) && !room_for(*old(txn), stmt_width(s) as int)
                &&& *final(txn) == *old(txn)
            },
            Some(result) => {
                &&& parsed(query@) matches Ok(s) ==> room_for(*old(txn), stmt_width(s) as int)
                    && step(*old(txn), *final(txn), PAGES_PER_EDGE * stmt_width(s))
                &&& (viewed(result), final(txn).graph()) == (match parsed(query@) {
                    Ok(s) => run_write(old(txn).graph(), s),
                    Err(e) => (Err(e), old(txn).graph()),
                })
            },
        },
{
    let stmt = match parse_query(query) {
        Ok(s) => s,
        Err(e) => {
            return Some(Err(e));
        },
    };
    let created: usize = match &stmt {
        Statement::Create(c) => c.pattern.elements.len(),
        Statement::Merge(_) => 1,
        Statement::Match(_) => 0,
    };
    if !has_room(txn, created) {
        return None;
    }
    Some(execute_statement_write(&stmt, txn))
}

} // verus!
