//! What a statement does to a graph and gives.

use crate::cypher::ast::{
    EdgeDirection, EdgePat, Elem, Ex, Exs, Item, Lit, MatchStmt, NodePat, Ret, Stmt,
};
use crate::cypher::CypherErr;
use crate::cypher::env::{env_get, largest_node, last_node_key, Binding, EnvMap};
use crate::cypher::grammar::{parse_message, statement_at};
use crate::cypher::lexer::tokens_at;
use crate::cypher::values::{edge_text, ex_val, holds, lit_val, node_fits, node_text};
use crate::graph::state::{
    created_edge, created_node, deleted_edge, deleted_node, edge_at, labelled, neighbors_of,
    node_at, GraphState,
};
use crate::graph::types::{prop_get, prop_set, Direction, NodeVal, Props, Val};
use crate::numtext::nat_text;
use vstd::prelude::*;

verus! {

/// How much a statement changed.
pub struct Stats {
    pub nodes_created: nat,
    pub edges_created: nat,
    pub nodes_deleted: nat,
    pub edges_deleted: nat,
}

/// No change.
pub open spec fn no_stats() -> Stats {
    Stats { nodes_created: 0, edges_created: 0, nodes_deleted: 0, edges_deleted: 0 }
}

/// What a statement gives, as a value.
pub struct QueryVal {
    pub columns: Seq<Seq<char>>,
    pub rows: Seq<Seq<Val>>,
    pub stats: Stats,
}

/// Nothing but changes.
pub open spec fn only_stats(stats: Stats) -> QueryVal {
    QueryVal { columns: Seq::empty(), rows: Seq::empty(), stats }
}

/// An execution error.
pub open spec fn failure<T>(m: Seq<char>) -> Result<T, CypherErr> {
    Err(CypherErr::Execution(m))
}

/// The statement that a text writes.
pub open spec fn parsed(cs: Seq<char>) -> Result<Stmt, CypherErr> {
    match tokens_at(cs, 0) {
        Err(m) => Err(CypherErr::Lex(m)),
        Ok(ts) => match statement_at(ts, 0) {
            Err((p, m)) => Err(CypherErr::Parse(parse_message(p, m))),
            Ok((s, _)) => Ok(s),
        },
    }
}

// ---------------------------------------------------------------------------
// Paths
// ---------------------------------------------------------------------------

/// Environments, or an error.
pub type Envs = Result<Seq<EnvMap>, CypherErr>;

/// Two parts of a result one after the other; the error of the first counts.
pub open spec fn followed(a: Envs, b: Envs) -> Envs {
    match a {
        Err(e) => Err(e),
        Ok(x) => match b {
            Err(e) => Err(e),
            Ok(y) => Ok(x + y),
        },
    }
}

/// An environment in which the path has reached a node.
pub open spec fn reached(m: EnvMap, id: u64) -> EnvMap {
    m.insert(last_node_key(), Binding::Node(id))
}

/// An environment with a variable, if there is one.
pub open spec fn bound(m: EnvMap, variable: Option<Seq<char>>, b: Binding) -> EnvMap {
    match variable {
        Some(v) => m.insert(v, b),
        None => m,
    }
}

/// The environment of a variable that is bound already, if its node fits.
pub open spec fn recheck(g: GraphState, np: NodePat, var: Seq<char>, m: EnvMap) -> Envs {
    match env_get(m, var) {
        Some(Binding::Node(id)) => match node_at(g, id) {
            Err(e) => Err(CypherErr::Graph(e)),
            Ok(Some(n)) => if node_fits(np, n) {
                Ok(seq![reached(m, id)])
            } else {
                Ok(Seq::empty())
            },
            Ok(None) => Ok(Seq::empty()),
        },
        _ => Ok(Seq::empty()),
    }
}

/// The environments in which the node of a bound variable fits.
pub open spec fn recheck_all(g: GraphState, np: NodePat, var: Seq<char>, ms: Seq<EnvMap>) -> Envs
    decreases ms.len(),
{
    if ms.len() == 0 {
        Ok(Seq::empty())
    } else {
        followed(recheck_all(g, np, var, ms.drop_last()), recheck(g, np, var, ms.last()))
    }
}

/// Whether a node with the label fits: where the pattern asks for properties,
/// it is read and looked at.
pub open spec fn candidate_fits(g: GraphState, np: NodePat, id: u64) -> Result<bool, CypherErr> {
    if np.properties.len() == 0 {
        Ok(true)
    } else {
        match node_at(g, id) {
            Err(e) => Err(CypherErr::Graph(e)),
            Ok(Some(n)) => Ok(node_fits(np, n)),
            Ok(None) => Ok(false),
        }
    }
}

/// Every environment with a node bound.
pub open spec fn bind_node(np: NodePat, id: u64, ms: Seq<EnvMap>) -> Seq<EnvMap> {
    Seq::new(ms.len(), |i: int| reached(bound(ms[i], np.variable, Binding::Node(id)), id))
}

/// The environments for one candidate.
pub open spec fn try_candidate(g: GraphState, np: NodePat, id: u64, ms: Seq<EnvMap>) -> Envs {
    match candidate_fits(g, np, id) {
        Err(e) => Err(e),
        Ok(fits) => if fits {
            Ok(bind_node(np, id, ms))
        } else {
            Ok(Seq::empty())
        },
    }
}

/// The environments for all candidates.
pub open spec fn try_candidates(
    g: GraphState,
    np: NodePat,
    ids: Seq<u64>,
    ms: Seq<EnvMap>,
) -> Envs
    decreases ids.len(),
{
    if ids.len() == 0 {
        Ok(Seq::empty())
    } else {
        followed(
            try_candidates(g, np, ids.drop_last(), ms),
            try_candidate(g, np, ids.last(), ms),
        )
    }
}

/// Whether the first environment binds the variable of a pattern.
pub open spec fn is_bound(np: NodePat, ms: Seq<EnvMap>) -> bool {
    np.variable matches Some(v) && ms.len() > 0 && ms[0].contains_key(v)
}

/// The environments behind a node of a path.
pub open spec fn expand_node(g: GraphState, np: NodePat, ms: Seq<EnvMap>) -> Envs {
    if is_bound(np, ms) {
        recheck_all(g, np, np.variable->0, ms)
    } else {
        match np.label {
            Some(label) => try_candidates(g, np, labelled(g, label), ms),
            None => failure(
                "first node pattern must have a label or be bound by a previous edge expansion"@,
            ),
        }
    }
}

/// The environment behind one edge to a neighbour, if the neighbour fits.
pub open spec fn try_neighbor(
    g: GraphState,
    ep: EdgePat,
    np: NodePat,
    m: EnvMap,
    n: (u64, u64),
) -> Envs {
    match node_at(g, n.1) {
        Err(e) => Err(CypherErr::Graph(e)),
        Ok(Some(node)) => if node_fits(np, node) {
            let with_edge = bound(m, ep.variable, Binding::Edge(n.0));
            Ok(seq![reached(bound(with_edge, np.variable, Binding::Node(n.1)), n.1)])
        } else {
            Ok(Seq::empty())
        },
        Ok(None) => Ok(Seq::empty()),
    }
}

/// The environments behind the edges to some neighbours.
pub open spec fn try_neighbors(
    g: GraphState,
    ep: EdgePat,
    np: NodePat,
    m: EnvMap,
    ns: Seq<(u64, u64)>,
) -> Envs
    decreases ns.len(),
{
    if ns.len() == 0 {
        Ok(Seq::empty())
    } else {
        followed(
            try_neighbors(g, ep, np, m, ns.drop_last()),
            try_neighbor(g, ep, np, m, ns.last()),
        )
    }
}

/// The environments behind the edges in one direction.
pub open spec fn follow(
    g: GraphState,
    ep: EdgePat,
    np: NodePat,
    m: EnvMap,
    from: u64,
    dir: Direction,
) -> Envs {
    try_neighbors(g, ep, np, m, neighbors_of(g, from, dir, ep.edge_type))
}

/// The environments behind an edge of a path, from one environment.
pub open spec fn expand_edge_from(g: GraphState, ep: EdgePat, np: NodePat, m: EnvMap) -> Envs {
    match env_get(m, last_node_key()) {
        Some(Binding::Node(id)) => match ep.direction {
            EdgeDirection::Right => follow(g, ep, np, m, id, Direction::Out),
            EdgeDirection::Left => follow(g, ep, np, m, id, Direction::In),
            EdgeDirection::Both => followed(
                follow(g, ep, np, m, id, Direction::Out),
                follow(g, ep, np, m, id, Direction::In),
            ),
        },
        _ => failure("no node binding found for edge expansion"@),
    }
}

/// The environments behind an edge of a path and the node that follows it.
pub open spec fn expand_edge(g: GraphState, ep: EdgePat, np: NodePat, ms: Seq<EnvMap>) -> Envs
    decreases ms.len(),
{
    if ms.len() == 0 {
        Ok(Seq::empty())
    } else {
        followed(
            expand_edge(g, ep, np, ms.drop_last()),
            expand_edge_from(g, ep, np, ms.last()),
        )
    }
}

/// The environments behind the elements of a path from `i` on.
pub open spec fn expand_from(g: GraphState, path: Seq<Elem>, i: int, ms: Seq<EnvMap>) -> Envs
    decreases path.len() - i,
{
    if !(0 <= i < path.len()) {
        Ok(ms)
    } else {
        match path[i] {
            Elem::Node(np) => match expand_node(g, np, ms) {
                Err(e) => Err(e),
                Ok(next) => expand_from(g, path, i + 1, next),
            },
            Elem::Edge(ep) => if i + 1 >= path.len() {
                failure("edge pattern not followed by node"@)
            } else {
                match path[i + 1] {
                    Elem::Node(np) => match expand_edge(g, ep, np, ms) {
                        Err(e) => Err(e),
                        Ok(next) => expand_from(g, path, i + 2, next),
                    },
                    Elem::Edge(_) => failure("expected node after edge"@),
                }
            },
        }
    }
}

/// Environments without the mark of the node that the path has reached.
pub open spec fn unmarked(ms: Seq<EnvMap>) -> Seq<EnvMap> {
    Seq::new(ms.len(), |i: int| ms[i].remove(last_node_key()))
}

/// The environments in which a path is in the graph, in the order in which they
/// are found.
pub open spec fn expand(g: GraphState, path: Seq<Elem>) -> Envs {
    match expand_from(g, path, 0, seq![Map::empty()]) {
        Err(e) => Err(e),
        Ok(ms) => Ok(unmarked(ms)),
    }
}

// ---------------------------------------------------------------------------
// Conditions
// ---------------------------------------------------------------------------

/// The error for a variable that stands for nothing.
pub open spec fn not_bound<T>(var: Seq<char>) -> Result<T, CypherErr> {
    failure("variable '"@ + var + "' not bound"@)
}

/// A property of what a variable stands for; null where it has none.
pub open spec fn property_of(g: GraphState, m: EnvMap, var: Seq<char>, prop: Seq<char>) -> Result<
    Val,
    CypherErr,
> {
    let or_null = |ps: Props| match prop_get(ps, prop) {
        Some(v) => v,
        None => Val::Null,
    };
    match env_get(m, var) {
        Some(Binding::Node(id)) => match node_at(g, id) {
            Err(e) => Err(CypherErr::Graph(e)),
            Ok(Some(n)) => Ok(or_null(n.props)),
            Ok(None) => failure("node "@ + nat_text(id as nat) + " not found"@),
        },
        Some(Binding::Edge(id)) => match edge_at(g, id) {
            Err(e) => Err(CypherErr::Graph(e)),
            Ok(Some(n)) => Ok(or_null(n.props)),
            Ok(None) => failure("edge "@ + nat_text(id as nat) + " not found"@),
        },
        None => not_bound(var),
    }
}

/// The value of an operand of a comparison.
pub open spec fn operand(g: GraphState, e: Ex, m: EnvMap) -> Result<Val, CypherErr> {
    match e {
        Ex::Property(var, prop) => property_of(g, m, var, prop),
        Ex::Literal(l) => Ok(lit_val(l)),
        _ => failure("unsupported expression in WHERE"@),
    }
}

/// Whether a condition holds.
pub open spec fn condition(g: GraphState, e: Ex, m: EnvMap) -> Result<bool, CypherErr>
    decreases e,
{
    match e {
        Ex::Comparison(a, op, b) => match operand(g, *a, m) {
            Err(x) => Err(x),
            Ok(l) => match operand(g, *b, m) {
                Err(x) => Err(x),
                Ok(r) => Ok(holds(l, op, r)),
            },
        },
        Ex::And(a, b) => match condition(g, *a, m) {
            Err(x) => Err(x),
            Ok(l) => if l {
                condition(g, *b, m)
            } else {
                Ok(false)
            },
        },
        Ex::Or(a, b) => match condition(g, *a, m) {
            Err(x) => Err(x),
            Ok(l) => if l {
                Ok(true)
            } else {
                condition(g, *b, m)
            },
        },
        Ex::Not(a) => match condition(g, *a, m) {
            Err(x) => Err(x),
            Ok(l) => Ok(!l),
        },
        Ex::Literal(Lit::Bool(b)) => Ok(b),
        _ => failure("invalid WHERE expression"@),
    }
}

/// Whether an environment stays: the condition holds, and gives no error.
pub open spec fn stays(g: GraphState, w: Option<Ex>, m: EnvMap) -> bool {
    match w {
        Some(e) => condition(g, e, m) == Ok::<bool, CypherErr>(true),
        None => true,
    }
}

/// The environments that stay.
pub open spec fn filtered(g: GraphState, w: Option<Ex>, ms: Seq<EnvMap>) -> Seq<EnvMap>
    decreases ms.len(),
{
    if ms.len() == 0 {
        Seq::empty()
    } else if stays(g, w, ms.last()) {
        filtered(g, w, ms.drop_last()).push(ms.last())
    } else {
        filtered(g, w, ms.drop_last())
    }
}

/// The first of some things, as many as the limit says.
pub open spec fn limited<T>(s: Seq<T>, limit: Option<u64>) -> Seq<T> {
    match limit {
        Some(n) => if n < s.len() {
            s.take(n as int)
        } else {
            s
        },
        None => s,
    }
}

// ---------------------------------------------------------------------------
// RETURN
// ---------------------------------------------------------------------------

/// The name of a column.
pub open spec fn column(i: Item) -> Seq<char>
    decreases i,
{
    match i {
        Item::Variable(v) => v,
        Item::Property(v, p) => v + "."@ + p,
        Item::FunctionCall(f, a) => f + "("@ + column(*a) + ")"@,
        Item::Alias(_, n) => n,
    }
}

/// The names of the columns.
pub open spec fn columns(items: Seq<Item>) -> Seq<Seq<char>> {
    Seq::new(items.len(), |i: int| column(items[i]))
}

/// An item without its aliases.
pub open spec fn unaliased(i: Item) -> Item
    decreases i,
{
    match i {
        Item::Alias(a, _) => unaliased(*a),
        other => other,
    }
}

/// Whether an item is computed over all rows.
pub open spec fn is_aggregate(i: Item) -> bool {
    unaliased(i) is FunctionCall
}

/// What a variable stands for, as a text; null where it is gone.
pub open spec fn shown(g: GraphState, m: EnvMap, var: Seq<char>) -> Result<Val, CypherErr> {
    match env_get(m, var) {
        Some(Binding::Node(id)) => match node_at(g, id) {
            Err(e) => Err(CypherErr::Graph(e)),
            Ok(Some(n)) => Ok(Val::Str(node_text(n))),
            Ok(None) => Ok(Val::Null),
        },
        Some(Binding::Edge(id)) => match edge_at(g, id) {
            Err(e) => Err(CypherErr::Graph(e)),
            Ok(Some(n)) => Ok(Val::Str(edge_text(n))),
            Ok(None) => Ok(Val::Null),
        },
        None => not_bound(var),
    }
}

/// The value of an item in one environment.
pub open spec fn item_value(g: GraphState, i: Item, m: EnvMap) -> Result<Val, CypherErr>
    decreases i,
{
    match i {
        Item::Variable(var) => shown(g, m, var),
        Item::Property(var, prop) => property_of(g, m, var, prop),
        Item::Alias(a, _) => item_value(g, *a, m),
        Item::FunctionCall(name, _) => failure("function '"@ + name + "' not expected here"@),
    }
}

/// The values of items in one environment.
pub open spec fn row(g: GraphState, items: Seq<Item>, m: EnvMap) -> Result<Seq<Val>, CypherErr>
    decreases items.len(),
{
    if items.len() == 0 {
        Ok(Seq::empty())
    } else {
        match row(g, items.drop_last(), m) {
            Err(e) => Err(e),
            Ok(vs) => match item_value(g, items.last(), m) {
                Err(e) => Err(e),
                Ok(v) => Ok(vs.push(v)),
            },
        }
    }
}

/// A row for each environment.
pub open spec fn rows(g: GraphState, items: Seq<Item>, ms: Seq<EnvMap>) -> Result<
    Seq<Seq<Val>>,
    CypherErr,
>
    decreases ms.len(),
{
    if ms.len() == 0 {
        Ok(Seq::empty())
    } else {
        match rows(g, items, ms.drop_last()) {
            Err(e) => Err(e),
            Ok(rs) => match row(g, items, ms.last()) {
                Err(e) => Err(e),
                Ok(r) => Ok(rs.push(r)),
            },
        }
    }
}

/// The value of an item over all environments: how many there are for `count`,
/// and of the first for any other item.
pub open spec fn aggregate(g: GraphState, i: Item, ms: Seq<EnvMap>) -> Result<Val, CypherErr> {
    match unaliased(i) {
        Item::FunctionCall(name, a) => if name == "count"@ {
            Ok(Val::Int(ms.len() as i64))
        } else if ms.len() > 0 {
            item_value(g, Item::FunctionCall(name, a), ms[0])
        } else {
            Ok(Val::Null)
        },
        other => if ms.len() > 0 {
            item_value(g, other, ms[0])
        } else {
            Ok(Val::Null)
        },
    }
}

/// The one row of an aggregation.
pub open spec fn aggregate_row(g: GraphState, items: Seq<Item>, ms: Seq<EnvMap>) -> Result<
    Seq<Val>,
    CypherErr,
>
    decreases items.len(),
{
    if items.len() == 0 {
        Ok(Seq::empty())
    } else {
        match aggregate_row(g, items.drop_last(), ms) {
            Err(e) => Err(e),
            Ok(vs) => match aggregate(g, items.last(), ms) {
                Err(e) => Err(e),
                Ok(v) => Ok(vs.push(v)),
            },
        }
    }
}

/// Whether any item is computed over all rows.
pub open spec fn any_aggregate(items: Seq<Item>) -> bool {
    exists|i: int| 0 <= i < items.len() && is_aggregate(#[trigger] items[i])
}

/// What `RETURN` gives.
pub open spec fn project(g: GraphState, ret: Ret, ms: Seq<EnvMap>) -> Result<QueryVal, CypherErr> {
    if any_aggregate(ret.items) {
        match aggregate_row(g, ret.items, ms) {
            Err(e) => Err(e),
            Ok(r) => Ok(
                QueryVal { columns: columns(ret.items), rows: seq![r], stats: no_stats() },
            ),
        }
    } else {
        match rows(g, ret.items, limited(ms, ret.limit)) {
            Err(e) => Err(e),
            Ok(rs) => Ok(QueryVal { columns: columns(ret.items), rows: rs, stats: no_stats() }),
        }
    }
}

/// The limit of a statement.
pub open spec fn limit_of(m: MatchStmt) -> Option<u64> {
    match m.return_clause {
        Some(r) => r.limit,
        None => None,
    }
}

/// What `MATCH` without `DELETE` gives.
pub open spec fn run_match(g: GraphState, m: MatchStmt) -> Result<QueryVal, CypherErr> {
    match expand(g, m.pattern) {
        Err(e) => Err(e),
        Ok(ms) => match m.return_clause {
            None => Ok(only_stats(no_stats())),
            Some(r) => project(g, r, limited(filtered(g, m.where_clause, ms), limit_of(m))),
        },
    }
}

// ---------------------------------------------------------------------------
// CREATE
// ---------------------------------------------------------------------------

/// The properties that a pattern writes, all of which must be literals.
pub open spec fn literal_props(es: Exs) -> Result<Props, CypherErr>
    decreases es.len(),
{
    if es.len() == 0 {
        Ok(Seq::empty())
    } else {
        match literal_props(es.drop_last()) {
            Err(e) => Err(e),
            Ok(ps) => match ex_val(es.last().1) {
                Some(v) => Ok(prop_set(ps, es.last().0, v)),
                None => failure("property '"@ + es.last().0 + "' must be a literal value"@),
            },
        }
    }
}

/// The label of a pattern, or none.
pub open spec fn label_of(np: NodePat) -> Seq<char> {
    match np.label {
        Some(l) => l,
        None => ""@,
    }
}

/// Creating the node of a pattern.
pub open spec fn create_pattern_node(g: GraphState, np: NodePat) -> (
    Result<u64, CypherErr>,
    GraphState,
) {
    match literal_props(np.properties) {
        Err(e) => (Err(e), g),
        Ok(ps) => {
            let (r, g1) = created_node(g, label_of(np), ps);
            match r {
                Ok(id) => (Ok(id), g1),
                Err(e) => (Err(CypherErr::Graph(e)), g1),
            }
        },
    }
}

/// Creating an edge of a pattern, whose type is `RELATED` where none is given.
pub open spec fn create_pattern_edge(g: GraphState, ep: EdgePat, src: u64, dst: u64) -> (
    Result<u64, CypherErr>,
    GraphState,
) {
    let edge_type = match ep.edge_type {
        Some(t) => t,
        None => "RELATED"@,
    };
    let (r, g1) = created_edge(g, src, dst, edge_type, Seq::empty());
    match r {
        Ok(id) => (Ok(id), g1),
        Err(e) => (Err(CypherErr::Graph(e)), g1),
    }
}

/// Creating the elements of a path from `i` on. An edge starts at the newest
/// node that a variable stands for.
pub open spec fn create_from(
    g: GraphState,
    path: Seq<Elem>,
    i: int,
    m: EnvMap,
    stats: Stats,
) -> (Result<Stats, CypherErr>, GraphState)
    decreases path.len() - i,
{
    if !(0 <= i < path.len()) {
        (Ok(stats), g)
    } else {
        match path[i] {
            Elem::Node(np) => {
                let (r, g1) = create_pattern_node(g, np);
                match r {
                    Err(e) => (Err(e), g1),
                    Ok(id) => create_from(
                        g1,
                        path,
                        i + 1,
                        bound(m, np.variable, Binding::Node(id)),
                        Stats { nodes_created: stats.nodes_created + 1, ..stats },
                    ),
                }
            },
            Elem::Edge(ep) => if i + 1 >= path.len() {
                (failure("edge pattern not followed by node"@), g)
            } else {
                match (largest_node(m), path[i + 1]) {
                    (None, _) => (failure("no node binding found for edge expansion"@), g),
                    (_, Elem::Edge(_)) => (failure("expected node after edge"@), g),
                    (Some(src), Elem::Node(np)) => {
                        let (r, g1) = create_pattern_node(g, np);
                        match r {
                            Err(e) => (Err(e), g1),
                            Ok(dst) => {
                                let m1 = bound(m, np.variable, Binding::Node(dst));
                                let (r2, g2) = create_pattern_edge(g1, ep, src, dst);
                                match r2 {
                                    Err(e) => (Err(e), g2),
                                    Ok(id) => create_from(
                                        g2,
                                        path,
                                        i + 2,
                                        bound(m1, ep.variable, Binding::Edge(id)),
                                        Stats {
                                            nodes_created: stats.nodes_created + 1,
                                            edges_created: stats.edges_created + 1,
                                            ..stats
                                        },
                                    ),
                                }
                            },
                        }
                    },
                }
            },
        }
    }
}

/// What `CREATE` gives and does.
pub open spec fn run_create(g: GraphState, path: Seq<Elem>) -> (
    Result<QueryVal, CypherErr>,
    GraphState,
) {
    let (r, g1) = create_from(g, path, 0, Map::empty(), no_stats());
    match r {
        Ok(stats) => (Ok(only_stats(stats)), g1),
        Err(e) => (Err(e), g1),
    }
}

// ---------------------------------------------------------------------------
// DELETE
// ---------------------------------------------------------------------------

/// What is to be deleted: edges, and nodes.
pub type Doomed = (Seq<u64>, Seq<u64>);

/// What some variables of one environment stand for, behind what was found
/// before.
pub open spec fn doomed_in(m: EnvMap, vars: Seq<Seq<char>>, acc: Doomed) -> Result<
    Doomed,
    CypherErr,
>
    decreases vars.len(),
{
    if vars.len() == 0 {
        Ok(acc)
    } else {
        match doomed_in(m, vars.drop_last(), acc) {
            Err(e) => Err(e),
            Ok((es, ns)) => match env_get(m, vars.last()) {
                Some(Binding::Edge(id)) => Ok((es.push(id), ns)),
                Some(Binding::Node(id)) => Ok((es, ns.push(id))),
                None => not_bound(vars.last()),
            },
        }
    }
}

/// What some variables stand for in any environment.
pub open spec fn doomed(ms: Seq<EnvMap>, vars: Seq<Seq<char>>) -> Result<Doomed, CypherErr>
    decreases ms.len(),
{
    if ms.len() == 0 {
        Ok((Seq::empty(), Seq::empty()))
    } else {
        match doomed(ms.drop_last(), vars) {
            Err(e) => Err(e),
            Ok(acc) => doomed_in(ms.last(), vars, acc),
        }
    }
}

/// Deleting edges; how many were there.
pub open spec fn delete_edges(g: GraphState, ids: Seq<u64>) -> (
    Result<nat, CypherErr>,
    GraphState,
)
    decreases ids.len(),
{
    if ids.len() == 0 {
        (Ok(0), g)
    } else {
        let (r, g1) = delete_edges(g, ids.drop_last());
        match r {
            Err(e) => (Err(e), g1),
            Ok(n) => {
                let (d, g2) = deleted_edge(g1, ids.last());
                match d {
                    Err(e) => (Err(CypherErr::Graph(e)), g2),
                    Ok(there) => (
                        Ok(
                            if there {
                                n + 1
                            } else {
                                n
                            },
                        ),
                        g2,
                    ),
                }
            },
        }
    }
}

/// Deleting nodes; how many were there.
pub open spec fn delete_nodes(g: GraphState, ids: Seq<u64>) -> (
    Result<nat, CypherErr>,
    GraphState,
)
    decreases ids.len(),
{
    if ids.len() == 0 {
        (Ok(0), g)
    } else {
        let (r, g1) = delete_nodes(g, ids.drop_last());
        match r {
            Err(e) => (Err(e), g1),
            Ok(n) => {
                let (d, g2) = deleted_node(g1, ids.last());
                match d {
                    Err(e) => (Err(CypherErr::Graph(e)), g2),
                    Ok(there) => (
                        Ok(
                            if there {
                                n + 1
                            } else {
                                n
                            },
                        ),
                        g2,
                    ),
                }
            },
        }
    }
}

/// What `MATCH` with `DELETE` gives and does: everything is found first, then
/// the edges go, then the nodes.
pub open spec fn run_delete(g: GraphState, m: MatchStmt) -> (
    Result<QueryVal, CypherErr>,
    GraphState,
) {
    let vars = match m.delete_clause {
        Some(d) => d,
        None => Seq::empty(),
    };
    match expand(g, m.pattern) {
        Err(e) => (Err(e), g),
        Ok(ms) => match doomed(filtered(g, m.where_clause, ms), vars) {
            Err(e) => (Err(e), g),
            Ok((es, ns)) => {
                let (r, g1) = delete_edges(g, es);
                match r {
                    Err(e) => (Err(e), g1),
                    Ok(edges_deleted) => {
                        let (r2, g2) = delete_nodes(g1, ns);
                        match r2 {
                            Err(e) => (Err(e), g2),
                            Ok(nodes_deleted) => (
                                Ok(
                                    only_stats(
                                        Stats { nodes_deleted, edges_deleted, ..no_stats() },
                                    ),
                                ),
                                g2,
                            ),
                        }
                    },
                }
            },
        },
    }
}

// ---------------------------------------------------------------------------
// MERGE
// ---------------------------------------------------------------------------

/// The first of some nodes that fits.
pub open spec fn first_fit(g: GraphState, np: NodePat, ids: Seq<u64>) -> Result<
    Option<NodeVal>,
    CypherErr,
>
    decreases ids.len(),
{
    if ids.len() == 0 {
        Ok(None)
    } else {
        match first_fit(g, np, ids.drop_last()) {
            Err(e) => Err(e),
            Ok(Some(n)) => Ok(Some(n)),
            Ok(None) => match node_at(g, ids.last()) {
                Err(e) => Err(CypherErr::Graph(e)),
                Ok(Some(n)) => if node_fits(np, n) {
                    Ok(Some(n))
                } else {
                    Ok(None)
                },
                Ok(None) => Ok(None),
            },
        }
    }
}

/// The result of `MERGE`: one node.
pub open spec fn merged(n: NodeVal, stats: Stats) -> QueryVal {
    QueryVal { columns: seq!["n"@], rows: seq![seq![Val::Str(node_text(n))]], stats }
}

/// What `MERGE` gives and does: a node that fits, which is created where none
/// is there.
pub open spec fn run_merge(g: GraphState, np: NodePat) -> (
    Result<QueryVal, CypherErr>,
    GraphState,
) {
    match np.label {
        None => (failure("MERGE requires a label"@), g),
        Some(label) => match first_fit(g, np, labelled(g, label)) {
            Err(e) => (Err(e), g),
            Ok(Some(n)) => (Ok(merged(n, no_stats())), g),
            Ok(None) => {
                let (r, g1) = create_pattern_node(g, np);
                match r {
                    Err(e) => (Err(e), g1),
                    Ok(id) => match node_at(g1, id) {
                        Err(e) => (Err(CypherErr::Graph(e)), g1),
                        Ok(None) => (failure("failed to read created node"@), g1),
                        Ok(Some(n)) => (
                            Ok(merged(n, Stats { nodes_created: 1, ..no_stats() })),
                            g1,
                        ),
                    },
                }
            },
        },
    }
}

// ---------------------------------------------------------------------------
// Statements
// ---------------------------------------------------------------------------

/// What a statement gives in a read-only transaction.
pub open spec fn run_read(g: GraphState, s: Stmt) -> Result<QueryVal, CypherErr> {
    match s {
        Stmt::Match(m) => run_match(g, m),
        Stmt::Create(_) => failure("CREATE requires a write transaction"@),
        Stmt::Merge(_) => failure("MERGE requires a write transaction"@),
    }
}

/// What a statement gives and does in a read-write transaction.
pub open spec fn run_write(g: GraphState, s: Stmt) -> (Result<QueryVal, CypherErr>, GraphState) {
    match s {
        Stmt::Match(m) => if m.delete_clause is Some {
            run_delete(g, m)
        } else {
            (run_match(g, m), g)
        },
        Stmt::Create(path) => run_create(g, path),
        Stmt::Merge(np) => run_merge(g, np),
    }
}

} // verus!
