//! What a path of nodes and edges finds in a graph: the walks that fit it.

use crate::cypher::ast::{CmpOp, EdgeDirection, EdgePat, Elem, Ex, Lit, NodePat};
use crate::cypher::conditions::written;
use crate::cypher::CypherErr;
use crate::cypher::env::{env_get, last_node_key, Binding, EnvMap};
use crate::cypher::query::{
    expand, expand_edge, expand_edge_from, expand_from, follow, is_bound, try_candidates,
    try_neighbors, unmarked,
};
use crate::cypher::values::{holds, lit_val, node_fits, prop_matches};
use crate::graph::keys::{hash_of, link_before};
use crate::graph::laws::{
    consistent, edge_rec, lemma_labelled_are_nodes, lemma_labelled_ordered,
    lemma_neighbors_are_edges, lemma_neighbors_ordered, lemma_node_props_ok, lemma_sound_edge,
    lemma_sound_node,
};
use crate::graph::state::{edge_at, labelled, neighbors_of, node_at, GraphState};
use crate::graph::types::{lemma_prop_get, prop_get, props_ok, Direction, NodeVal, Val};
use vstd::prelude::*;

verus! {

// ---------------------------------------------------------------------------
// Nodes
// ---------------------------------------------------------------------------

/// Whether a value equals what a literal writes.
pub open spec fn equals(v: Val, l: Lit) -> bool {
    exists|w: Val| #[trigger] written(l, w) && holds(v, CmpOp::Eq, w)
}

/// Whether a node has what a pattern asks for: the label, and of every name in
/// the pattern a property that equals the literal there.
pub open spec fn wanted(np: NodePat, n: NodeVal) -> bool {
    &&& np.label matches Some(l) ==> n.label == l
    &&& forall|k: Seq<char>, e: Ex| #[trigger]
        np.properties.contains((k, e)) ==> {
            &&& e is Literal
            &&& exists|v: Val| #[trigger]
                n.props.contains((k, v)) && equals(v, e->Literal_0)
        }
}

/// Whether a stored node has what a pattern asks for.
pub open spec fn asked(g: GraphState, np: NodePat, id: u64) -> bool {
    node_at(g, id) matches Ok(Some(n)) && wanted(np, n)
}

/// A node fits a pattern exactly where it has all that the pattern asks for.
pub proof fn lemma_fits_is_wanted(np: NodePat, n: NodeVal)
    requires
        props_ok(n.props),
    ensures
        node_fits(np, n) <==> wanted(np, n),
{
    let ps = np.properties;
    assert forall|l: Lit, v: Val| #[trigger] equals(v, l) <==> holds(v, CmpOp::Eq, lit_val(l)) by {
        assert(written(l, lit_val(l)));
    }
    if node_fits(np, n) {
        assert forall|k: Seq<char>, e: Ex| #[trigger] ps.contains((k, e)) implies {
            &&& e is Literal
            &&& exists|v: Val| #[trigger]
                n.props.contains((k, v)) && equals(v, e->Literal_0)
        } by {
            let i = ps.index_of((k, e));
            assert(prop_matches(n.props, ps[i]));
            let v = prop_get(n.props, k)->0;
            lemma_prop_get(n.props, k, v);
            assert(n.props.contains((k, v)) && equals(v, e->Literal_0));
        }
    }
    if wanted(np, n) {
        assert forall|i: int| 0 <= i < ps.len() implies prop_matches(
            n.props,
            #[trigger] ps[i],
        ) by {
            let (k, e) = ps[i];
            assert(ps.contains((k, e)));
            let v = choose|v: Val| #[trigger]
                n.props.contains((k, v)) && equals(v, e->Literal_0);
            lemma_prop_get(n.props, k, v);
            assert(equals(v, e->Literal_0));
        }
    }
}

/// What a pattern's literals say of the node: where a text, a flag or null is
/// asked for, the property is that very value, and where an integer is, it is
/// that integer, or a number with a point.
pub proof fn lemma_wanted_values(np: NodePat, n: NodeVal, k: Seq<char>, l: Lit)
    requires
        wanted(np, n),
        np.properties.contains((k, Ex::Literal(l))),
    ensures
        match l {
            Lit::Str(s) => n.props.contains((k, Val::Str(s))),
            Lit::Bool(b) => n.props.contains((k, Val::Bool(b))),
            Lit::Null => n.props.contains((k, Val::Null)),
            Lit::Int(i) => n.props.contains((k, Val::Int(i))) || exists|f: u64| #[trigger]
                n.props.contains((k, Val::Float(f))),
            Lit::Float(_) => (exists|i: i64| #[trigger] n.props.contains((k, Val::Int(i))))
                || exists|f: u64| #[trigger] n.props.contains((k, Val::Float(f))),
        },
{
    let v = choose|v: Val| #[trigger] n.props.contains((k, v)) && equals(v, l);
    let w = choose|w: Val| #[trigger] written(l, w) && holds(v, CmpOp::Eq, w);
    match v {
        Val::Int(i) => {
            assert(n.props.contains((k, Val::Int(i))));
        },
        Val::Float(f) => {
            assert(n.props.contains((k, Val::Float(f))));
        },
        _ => {},
    }
}

/// A node that lacks a property of the pattern, or has another integer, text or
/// flag for it, is not what the pattern asks for.
pub proof fn lemma_unwanted(np: NodePat, n: NodeVal, k: Seq<char>, l: Lit)
    requires
        np.properties.contains((k, Ex::Literal(l))),
        props_ok(n.props),
    ensures
        (forall|v: Val| !#[trigger] n.props.contains((k, v))) ==> !wanted(np, n),
        forall|v: Val|
            #[trigger] n.props.contains((k, v)) && (v is Int || v is Str || v is Bool) && (
            l is Int || l is Str || l is Bool) && !written(l, v) ==> !wanted(np, n),
{
    assert forall|v: Val|
        #[trigger] n.props.contains((k, v)) && (v is Int || v is Str || v is Bool) && (l is Int
            || l is Str || l is Bool) && !written(l, v) implies !wanted(np, n) by {
        if wanted(np, n) {
            let u = choose|u: Val| #[trigger] n.props.contains((k, u)) && equals(u, l);
            lemma_prop_get(n.props, k, u);
            lemma_prop_get(n.props, k, v);
        }
    }
}

// ---------------------------------------------------------------------------
// Walks
// ---------------------------------------------------------------------------

/// A step of a walk: an edge, the way in which it is gone, and the node that it
/// leads to.
pub struct Step {
    pub edge: u64,
    pub dir: Direction,
    pub node: u64,
}

/// A way through a graph: a node, and steps from there.
#[verifier::ext_equal]
pub struct Walk {
    pub start: u64,
    pub steps: Seq<Step>,
}

/// The node of a walk after `i` steps.
pub open spec fn node_on(w: Walk, i: int) -> u64 {
    if i == 0 {
        w.start
    } else {
        w.steps[i - 1].node
    }
}

/// Whether an edge pattern can be gone in a direction: with its arrow, or in
/// both where it has none.
pub open spec fn goes(d: EdgeDirection, dir: Direction) -> bool {
    match d {
        EdgeDirection::Right => dir == Direction::Out,
        EdgeDirection::Left => dir == Direction::In,
        EdgeDirection::Both => true,
    }
}

/// Whether an edge is stored that leads from one node to another, gone in a
/// direction.
pub open spec fn joins(g: GraphState, edge: u64, from: u64, dir: Direction, to: u64) -> bool {
    edge_at(g, edge) matches Ok(Some(e)) && match dir {
        Direction::Out => e.src == from && e.dst == to,
        Direction::In => e.dst == from && e.src == to,
    }
}

/// Whether an edge has the type that is asked for, if one is. Types are told
/// apart by their hash.
pub open spec fn typed(g: GraphState, edge: u64, edge_type: Option<Seq<char>>) -> bool {
    edge_type matches Some(t) ==> hash_of(edge_at(g, edge)->Ok_0->0.edge_type) == hash_of(t)
}

/// Whether a step from a node fits an edge pattern and the node pattern behind
/// it.
pub open spec fn step_fits(
    g: GraphState,
    ep: EdgePat,
    np: NodePat,
    from: u64,
    s: Step,
) -> bool {
    &&& goes(ep.direction, s.dir)
    &&& joins(g, s.edge, from, s.dir, s.node)
    &&& typed(g, s.edge, ep.edge_type)
    &&& asked(g, np, s.node)
}

/// Whether a walk can start at a node: it has what the pattern asks for. Where
/// the pattern asks for a label only, labels are told apart by their hash.
pub open spec fn start_fits(g: GraphState, np: NodePat, id: u64) -> bool {
    if np.properties.len() == 0 {
        node_at(g, id) matches Ok(Some(n)) && np.label matches Some(l) && hash_of(n.label)
            == hash_of(l)
    } else {
        asked(g, np, id)
    }
}

/// Whether a path is a node, then edges, each with a node behind it.
pub open spec fn is_path(path: Seq<Elem>) -> bool {
    &&& path.len() % 2 == 1
    &&& forall|i: int| 0 <= i < path.len() ==> (#[trigger] path[i] is Node <==> i % 2 == 0)
}

/// The number of edges of a path.
pub open spec fn hops(path: Seq<Elem>) -> int {
    path.len() as int / 2
}

/// Node `i` of a path.
pub open spec fn node_pat(path: Seq<Elem>, i: int) -> NodePat {
    path[2 * i]->Node_0
}

/// Edge `i` of a path, between node `i` and the next.
pub open spec fn edge_pat(path: Seq<Elem>, i: int) -> EdgePat {
    path[2 * i + 1]->Edge_0
}

/// Whether a walk of `n` steps fits the front of a path.
pub open spec fn walk_fits(g: GraphState, path: Seq<Elem>, w: Walk, n: int) -> bool {
    &&& w.steps.len() == n
    &&& start_fits(g, node_pat(path, 0), w.start)
    &&& forall|i: int|
        0 <= i < n ==> step_fits(
            g,
            edge_pat(path, i),
            node_pat(path, i + 1),
            node_on(w, i),
            #[trigger] w.steps[i],
        )
}

/// Variables, with one more where there is a name for it.
pub open spec fn named(m: EnvMap, variable: Option<Seq<char>>, b: Binding) -> EnvMap {
    if variable is Some {
        m.insert(variable->0, b)
    } else {
        m
    }
}

/// What the variables of the first `n` edges of a path, and of the nodes around
/// them, stand for on a walk. Of two with one name the later counts.
pub open spec fn walk_env(path: Seq<Elem>, w: Walk, n: int) -> EnvMap
    decreases n,
{
    if n <= 0 {
        named(Map::empty(), node_pat(path, 0).variable, Binding::Node(w.start))
    } else {
        named(
            named(
                walk_env(path, w, n - 1),
                edge_pat(path, n - 1).variable,
                Binding::Edge(w.steps[n - 1].edge),
            ),
            node_pat(path, n).variable,
            Binding::Node(w.steps[n - 1].node),
        )
    }
}

/// Whether one step comes before another: out before in, then by the hash of
/// the type, the node and the edge.
pub open spec fn step_before(g: GraphState, a: Step, b: Step) -> bool {
    if a.dir == b.dir {
        link_before(
            hash_of(edge_rec(g, a.edge)->0.edge_type),
            a.node,
            a.edge,
            hash_of(edge_rec(g, b.edge)->0.edge_type),
            b.node,
            b.edge,
        )
    } else {
        a.dir == Direction::Out
    }
}

/// Whether one walk comes before another: it starts at a lower number, or its
/// first step that differs comes before.
pub open spec fn walk_before(g: GraphState, a: Walk, b: Walk) -> bool {
    a.start < b.start || (a.start == b.start && exists|p: int|
        0 <= p < a.steps.len() && p < b.steps.len() && a.steps.take(p) == b.steps.take(p)
            && #[trigger] step_before(g, a.steps[p], b.steps[p]))
}

proof fn lemma_before_differs(g: GraphState, a: Walk, b: Walk)
    requires
        walk_before(g, a, b),
    ensures
        a != b,
{
}

// ---------------------------------------------------------------------------
// One step
// ---------------------------------------------------------------------------

spec fn to_step(n: (u64, u64), dir: Direction) -> Step {
    Step { edge: n.0, dir, node: n.1 }
}

/// An environment after a step.
#[verifier::opaque]
spec fn step_env(m: EnvMap, ep: EdgePat, np: NodePat, s: Step) -> EnvMap {
    named(named(m, ep.variable, Binding::Edge(s.edge)), np.variable, Binding::Node(s.node)).insert(
        last_node_key(),
        Binding::Node(s.node),
    )
}

/// The places of the neighbours that fit, among the first `k`.
proof fn lemma_picked(
    g: GraphState,
    ep: EdgePat,
    np: NodePat,
    m: EnvMap,
    ns: Seq<(u64, u64)>,
    dir: Direction,
    k: int,
) -> (js: Seq<int>)
    requires
        0 <= k <= ns.len(),
        forall|j: int| 0 <= j < ns.len() ==> node_at(g, (#[trigger] ns[j]).1) is Ok,
    ensures
        try_neighbors(g, ep, np, m, ns.take(k)) matches Ok(list) && list.len() == js.len()
            && forall|i: int|
            0 <= i < js.len() ==> #[trigger] list[i] == step_env(
                m,
                ep,
                np,
                to_step(ns[js[i]], dir),
            ),
        forall|i: int| 0 <= i < js.len() ==> 0 <= #[trigger] js[i] < k && asked(g, np, ns[js[i]].1),
        forall|i: int, j: int| 0 <= i < j < js.len() ==> js[i] < js[j],
        forall|j: int| 0 <= j < k && asked(g, np, (#[trigger] ns[j]).1) ==> js.contains(j),
    decreases k,
{
    reveal(step_env);
    if k == 0 {
        assert(ns.take(0) =~= Seq::empty());
        Seq::empty()
    } else {
        let js = lemma_picked(g, ep, np, m, ns, dir, k - 1);
        assert(ns.take(k).drop_last() =~= ns.take(k - 1));
        assert(ns.take(k).last() == ns[k - 1]);
        let id = ns[k - 1].1;
        assert(node_at(g, id) is Ok);
        lemma_node_props_ok(g, id);
        if node_at(g, id)->Ok_0 is Some {
            lemma_fits_is_wanted(np, node_at(g, id)->Ok_0->0);
        }
        let r = if asked(g, np, id) {
            js.push(k - 1)
        } else {
            js
        };
        assert forall|j: int| 0 <= j < k && asked(g, np, (#[trigger] ns[j]).1) implies r.contains(
            j,
        ) by {
            if j < k - 1 {
                assert(js.contains(j));
                let i = js.index_of(j);
                assert(r[i] == j);
            } else {
                assert(r[r.len() - 1] == j);
            }
        }
        let list = try_neighbors(g, ep, np, m, ns.take(k))->Ok_0;
        assert forall|i: int| 0 <= i < r.len() implies #[trigger] list[i] == step_env(
            m,
            ep,
            np,
            to_step(ns[r[i]], dir),
        ) by {
            if i < js.len() {
                assert(r[i] == js[i]);
            }
        }
        r
    }
}

/// The steps that fit from a node in one direction.
proof fn lemma_steps_in(
    g: GraphState,
    ep: EdgePat,
    np: NodePat,
    m: EnvMap,
    from: u64,
    dir: Direction,
) -> (ss: Seq<Step>)
    requires
        consistent(g),
    ensures
        follow(g, ep, np, m, from, dir) matches Ok(list) && list.len() == ss.len() && forall|i: int|
            0 <= i < ss.len() ==> #[trigger] list[i] == step_env(m, ep, np, ss[i]),
        forall|s: Step| #[trigger]
            ss.contains(s) <==> s.dir == dir && joins(g, s.edge, from, dir, s.node) && typed(
                g,
                s.edge,
                ep.edge_type,
            ) && asked(g, np, s.node),
        forall|i: int, j: int|
            0 <= i < j < ss.len() ==> step_before(g, #[trigger] ss[i], #[trigger] ss[j]),
{
    let ns = neighbors_of(g, from, dir, ep.edge_type);
    assert forall|j: int| 0 <= j < ns.len() implies node_at(g, (#[trigger] ns[j]).1) is Ok by {
        lemma_sound_node(g, ns[j].1);
    }
    let js = lemma_picked(g, ep, np, m, ns, dir, ns.len() as int);
    assert(ns.take(ns.len() as int) =~= ns);
    let ss = Seq::new(js.len(), |i: int| to_step(ns[js[i]], dir));
    assert forall|s: Step| #[trigger] ss.contains(s) <==> s.dir == dir && joins(
        g,
        s.edge,
        from,
        dir,
        s.node,
    ) && typed(g, s.edge, ep.edge_type) && asked(g, np, s.node) by {
        lemma_neighbors_are_edges(g, from, dir, ep.edge_type, s.edge, s.node);
        lemma_sound_edge(g, s.edge);
        if ss.contains(s) {
            let i = ss.index_of(s);
            assert(ns[js[i]] == (s.edge, s.node));
            assert(ns.contains((s.edge, s.node)));
        }
        if s.dir == dir && joins(g, s.edge, from, dir, s.node) && typed(g, s.edge, ep.edge_type)
            && asked(g, np, s.node) {
            assert(ns.contains((s.edge, s.node)));
            let j = ns.index_of((s.edge, s.node));
            assert(js.contains(j));
            let i = js.index_of(j);
            assert(ss[i] == s);
        }
    }
    assert forall|i: int, j: int| 0 <= i < j < ss.len() implies step_before(
        g,
        #[trigger] ss[i],
        #[trigger] ss[j],
    ) by {
        lemma_neighbors_ordered(g, from, dir, ep.edge_type, js[i], js[j]);
    }
    ss
}

/// The steps that fit from where an environment has got to.
proof fn lemma_steps(
    g: GraphState,
    ep: EdgePat,
    np: NodePat,
    m: EnvMap,
    from: u64,
) -> (ss: Seq<Step>)
    requires
        consistent(g),
        m.contains_key(last_node_key()),
        m[last_node_key()] == Binding::Node(from),
    ensures
        expand_edge_from(g, ep, np, m) matches Ok(list) && list.len() == ss.len()
            && forall|i: int|
            0 <= i < ss.len() ==> #[trigger] list[i] == step_env(m, ep, np, ss[i]),
        forall|s: Step| #[trigger] ss.contains(s) <==> step_fits(g, ep, np, from, s),
        forall|i: int, j: int|
            0 <= i < j < ss.len() ==> step_before(g, #[trigger] ss[i], #[trigger] ss[j]),
{
    match ep.direction {
        EdgeDirection::Right => lemma_steps_in(g, ep, np, m, from, Direction::Out),
        EdgeDirection::Left => lemma_steps_in(g, ep, np, m, from, Direction::In),
        EdgeDirection::Both => {
            let a = lemma_steps_in(g, ep, np, m, from, Direction::Out);
            let b = lemma_steps_in(g, ep, np, m, from, Direction::In);
            let ss = a + b;
            assert forall|s: Step| #[trigger] ss.contains(s) <==> step_fits(
                g,
                ep,
                np,
                from,
                s,
            ) by {
                if ss.contains(s) {
                    let i = ss.index_of(s);
                    if i < a.len() {
                        assert(a[i] == s);
                        assert(a.contains(s));
                    } else {
                        assert(b[i - a.len()] == s);
                        assert(b.contains(s));
                    }
                }
                if step_fits(g, ep, np, from, s) {
                    if s.dir == Direction::Out {
                        assert(a.contains(s));
                        assert(ss[a.index_of(s)] == s);
                    } else {
                        assert(b.contains(s));
                        assert(ss[a.len() + b.index_of(s)] == s);
                    }
                }
            }
            assert forall|i: int, j: int| 0 <= i < j < ss.len() implies step_before(
                g,
                #[trigger] ss[i],
                #[trigger] ss[j],
            ) by {
                if i < a.len() && j >= a.len() {
                    assert(a.contains(a[i]));
                    assert(b.contains(b[j - a.len()]));
                }
            }
            ss
        },
    }
}

// ---------------------------------------------------------------------------
// Whole paths
// ---------------------------------------------------------------------------

/// A walk with one step more.
spec fn longer(w: Walk, s: Step) -> Walk {
    Walk { start: w.start, steps: w.steps.push(s) }
}

/// A walk without its last step.
spec fn shorter(w: Walk) -> Walk {
    Walk { start: w.start, steps: w.steps.drop_last() }
}

/// The environment of a walk, with the mark of the node that it has reached.
#[verifier::opaque]
spec fn marked(path: Seq<Elem>, w: Walk, n: int) -> EnvMap {
    walk_env(path, w, n).insert(last_node_key(), Binding::Node(node_on(w, n)))
}

/// Whether environments are those of some walks of `n` steps, which are in order.
spec fn lined_up(
    g: GraphState,
    path: Seq<Elem>,
    n: int,
    ms: Seq<EnvMap>,
    ws: Seq<Walk>,
) -> bool {
    &&& ms.len() == ws.len()
    &&& forall|i: int| 0 <= i < ws.len() ==> #[trigger] ms[i] == marked(path, ws[i], n)
    &&& forall|i: int| 0 <= i < ws.len() ==> (#[trigger] ws[i]).steps.len() == n
    &&& forall|i: int, j: int|
        0 <= i < j < ws.len() ==> walk_before(g, #[trigger] ws[i], #[trigger] ws[j])
}

/// Whether environments are those of the walks that fit the front of a path.
spec fn stand_for(
    g: GraphState,
    path: Seq<Elem>,
    n: int,
    ms: Seq<EnvMap>,
    ws: Seq<Walk>,
) -> bool {
    &&& lined_up(g, path, n, ms, ws)
    &&& forall|w: Walk| #[trigger] ws.contains(w) <==> walk_fits(g, path, w, n)
}

proof fn lemma_before_longer(g: GraphState, a: Walk, b: Walk, s: Step, t: Step)
    requires
        walk_before(g, a, b),
    ensures
        walk_before(g, longer(a, s), longer(b, t)),
{
    if a.start == b.start {
        let p = choose|p: int|
            0 <= p < a.steps.len() && p < b.steps.len() && a.steps.take(p) == b.steps.take(p)
                && #[trigger] step_before(g, a.steps[p], b.steps[p]);
        let (x, y) = (longer(a, s), longer(b, t));
        assert(x.steps.take(p) =~= a.steps.take(p));
        assert(y.steps.take(p) =~= b.steps.take(p));
        assert(step_before(g, x.steps[p], y.steps[p]));
    }
}

proof fn lemma_before_last(g: GraphState, w: Walk, s: Step, t: Step)
    requires
        step_before(g, s, t),
    ensures
        walk_before(g, longer(w, s), longer(w, t)),
{
    let p = w.steps.len() as int;
    let (x, y) = (longer(w, s), longer(w, t));
    assert(x.steps.take(p) =~= y.steps.take(p));
    assert(step_before(g, x.steps[p], y.steps[p]));
}

proof fn lemma_env_longer(path: Seq<Elem>, w: Walk, s: Step, n: int)
    requires
        0 <= n <= w.steps.len(),
    ensures
        walk_env(path, longer(w, s), n) == walk_env(path, w, n),
    decreases n,
{
    if n > 0 {
        lemma_env_longer(path, w, s, n - 1);
    }
}

proof fn lemma_marked_longer(path: Seq<Elem>, w: Walk, s: Step, n: int)
    requires
        n == w.steps.len(),
    ensures
        marked(path, longer(w, s), n + 1) == step_env(
            marked(path, w, n),
            edge_pat(path, n),
            node_pat(path, n + 1),
            s,
        ),
{
    reveal(marked);
    reveal(step_env);
    lemma_env_longer(path, w, s, n);
    assert(longer(w, s).steps[n] == s);
    assert(marked(path, longer(w, s), n + 1) =~= step_env(
        marked(path, w, n),
        edge_pat(path, n),
        node_pat(path, n + 1),
        s,
    ));
}

/// Whether the last step of a walk fits.
#[verifier::opaque]
spec fn last_fits(g: GraphState, path: Seq<Elem>, n: int, w: Walk) -> bool {
    step_fits(g, edge_pat(path, n), node_pat(path, n + 1), node_on(w, n), w.steps[n])
}

/// Whether a walk goes one step on from one of some walks.
spec fn goes_on(g: GraphState, path: Seq<Elem>, n: int, ws: Seq<Walk>, w: Walk) -> bool {
    &&& w.steps.len() == n + 1
    &&& ws.contains(shorter(w))
    &&& last_fits(g, path, n, w)
}

/// One edge of a path, from one walk.
proof fn lemma_ways_on(
    g: GraphState,
    path: Seq<Elem>,
    n: int,
    w0: Walk,
) -> (r: Seq<Walk>)
    requires
        consistent(g),
        0 <= n,
        w0.steps.len() == n,
    ensures
        expand_edge_from(
            g,
            edge_pat(path, n),
            node_pat(path, n + 1),
            marked(path, w0, n),
        ) matches Ok(list) && list.len() == r.len() && forall|i: int|
            0 <= i < r.len() ==> #[trigger] list[i] == marked(path, r[i], n + 1),
        forall|i: int|
            0 <= i < r.len() ==> (#[trigger] r[i]).steps.len() == n + 1 && shorter(r[i]) == w0
                && r[i] == longer(w0, r[i].steps[n]),
        forall|w: Walk| #[trigger]
            r.contains(w) <==> w.steps.len() == n + 1 && shorter(w) == w0 && last_fits(
                g,
                path,
                n,
                w,
            ),
        forall|i: int, j: int|
            0 <= i < j < r.len() ==> walk_before(g, #[trigger] r[i], #[trigger] r[j]),
{
    let (ep, np) = (edge_pat(path, n), node_pat(path, n + 1));
    let m = marked(path, w0, n);
    assert(m.contains_key(last_node_key()) && m[last_node_key()] == Binding::Node(
        node_on(w0, n),
    )) by {
        reveal(marked);
    }
    let ss = lemma_steps(g, ep, np, m, node_on(w0, n));
    let r = Seq::new(ss.len(), |i: int| longer(w0, ss[i]));
    let list = expand_edge_from(g, ep, np, m)->Ok_0;
    assert forall|i: int| 0 <= i < r.len() implies #[trigger] list[i] == marked(
        path,
        r[i],
        n + 1,
    ) by {
        lemma_marked_longer(path, w0, ss[i], n);
    }
    assert forall|i: int| 0 <= i < r.len() implies (#[trigger] r[i]).steps.len() == n + 1
        && shorter(r[i]) == w0 && r[i] == longer(w0, r[i].steps[n]) by {
        assert(shorter(r[i]) =~= w0);
    }
    assert forall|w: Walk| #[trigger] r.contains(w) <==> w.steps.len() == n + 1 && shorter(w) == w0
        && last_fits(g, path, n, w) by {
        reveal(last_fits);
        if r.contains(w) {
            let i = r.index_of(w);
            assert(ss.contains(ss[i]));
            assert(w.steps[n] == ss[i]);
            assert(node_on(w, n) == node_on(w0, n));
        }
        if w.steps.len() == n + 1 && shorter(w) == w0 && last_fits(g, path, n, w) {
            let s = w.steps[n];
            assert(w.steps =~= w.steps.drop_last().push(s));
            assert(w == longer(w0, s));
            assert(node_on(w, n) == node_on(w0, n));
            assert(ss.contains(s));
            assert(r[ss.index_of(s)] == w);
        }
    }
    assert forall|i: int, j: int| 0 <= i < j < r.len() implies walk_before(
        g,
        #[trigger] r[i],
        #[trigger] r[j],
    ) by {
        lemma_before_last(g, w0, ss[i], ss[j]);
    }
    r
}

/// One edge of a path, from the first `k` environments.
proof fn lemma_going_on(
    g: GraphState,
    path: Seq<Elem>,
    n: int,
    ms: Seq<EnvMap>,
    ws: Seq<Walk>,
    k: int,
) -> (r: Seq<Walk>)
    requires
        consistent(g),
        lined_up(g, path, n, ms, ws),
        0 <= n,
        0 <= k <= ws.len(),
    ensures
        forall|i: int| 0 <= i < r.len() ==> (#[trigger] r[i]).steps.len() == n + 1,
        expand_edge(g, edge_pat(path, n), node_pat(path, n + 1), ms.take(k)) matches Ok(list)
            && list.len() == r.len() && forall|i: int|
            0 <= i < r.len() ==> #[trigger] list[i] == marked(path, r[i], n + 1),
        forall|w: Walk| #[trigger] r.contains(w) <==> goes_on(g, path, n, ws.take(k), w),
        forall|i: int, j: int|
            0 <= i < j < r.len() ==> walk_before(g, #[trigger] r[i], #[trigger] r[j]),
    decreases k,
{
    if k == 0 {
        assert(ms.take(0) =~= Seq::empty());
        assert(ws.take(0) =~= Seq::empty());
        Seq::empty()
    } else {
        let a = lemma_going_on(g, path, n, ms, ws, k - 1);
        let w0 = ws[k - 1];
        assert(ms[k - 1] == marked(path, w0, n));
        let b = lemma_ways_on(g, path, n, w0);
        let r = a + b;
        assert(ms.take(k).drop_last() =~= ms.take(k - 1));
        assert(ms.take(k).last() == ms[k - 1]);
        lemma_both_go_on(g, path, n, ws, k, a, b);
        r
    }
}

/// The walks that go on from the first `k - 1` walks, and those from the next.
proof fn lemma_both_go_on(
    g: GraphState,
    path: Seq<Elem>,
    n: int,
    ws: Seq<Walk>,
    k: int,
    a: Seq<Walk>,
    b: Seq<Walk>,
)
    requires
        0 <= n,
        0 < k <= ws.len(),
        forall|i: int, j: int|
            0 <= i < j < ws.len() ==> walk_before(g, #[trigger] ws[i], #[trigger] ws[j]),
        forall|w: Walk| #[trigger] a.contains(w) <==> goes_on(g, path, n, ws.take(k - 1), w),
        forall|i: int, j: int|
            0 <= i < j < a.len() ==> walk_before(g, #[trigger] a[i], #[trigger] a[j]),
        forall|w: Walk| #[trigger]
            b.contains(w) <==> w.steps.len() == n + 1 && shorter(w) == ws[k - 1] && last_fits(
                g,
                path,
                n,
                w,
            ),
        forall|i: int, j: int|
            0 <= i < j < b.len() ==> walk_before(g, #[trigger] b[i], #[trigger] b[j]),
        forall|i: int|
            0 <= i < b.len() ==> #[trigger] b[i] == longer(ws[k - 1], b[i].steps[n]),
    ensures
        forall|w: Walk| #[trigger] (a + b).contains(w) <==> goes_on(g, path, n, ws.take(k), w),
        forall|i: int, j: int|
            0 <= i < j < (a + b).len() ==> walk_before(
                g,
                #[trigger] (a + b)[i],
                #[trigger] (a + b)[j],
            ),
{
    let r = a + b;
    assert forall|w: Walk| #[trigger] r.contains(w) <==> goes_on(g, path, n, ws.take(k), w) by {
        if r.contains(w) {
            let i = r.index_of(w);
            if i < a.len() {
                assert(a[i] == w);
                assert(a.contains(w));
                let j = ws.take(k - 1).index_of(shorter(w));
                assert(ws.take(k)[j] == shorter(w));
            } else {
                assert(b[i - a.len()] == w);
                assert(b.contains(w));
                assert(ws.take(k)[k - 1] == shorter(w));
            }
        }
        if goes_on(g, path, n, ws.take(k), w) {
            let j = ws.take(k).index_of(shorter(w));
            if j < k - 1 {
                assert(ws.take(k - 1)[j] == shorter(w));
                assert(a.contains(w));
                assert(r[a.index_of(w)] == w);
            } else {
                assert(b.contains(w));
                assert(r[a.len() + b.index_of(w)] == w);
            }
        }
    }
    assert forall|i: int, j: int| 0 <= i < j < r.len() implies walk_before(
        g,
        #[trigger] r[i],
        #[trigger] r[j],
    ) by {
        if i >= a.len() {
            assert(r[i] == b[i - a.len()] && r[j] == b[j - a.len()]);
        } else if j >= a.len() {
            let w = a[i];
            assert(a.contains(w));
            let x = ws.take(k - 1).index_of(shorter(w));
            assert(ws[x] == shorter(w));
            assert(w.steps =~= w.steps.drop_last().push(w.steps[n]));
            assert(w == longer(ws[x], w.steps[n]));
            let v = b[j - a.len()];
            lemma_before_longer(g, ws[x], ws[k - 1], w.steps[n], v.steps[n]);
        } else {
            assert(r[i] == a[i] && r[j] == a[j]);
        }
    }
}

/// A walk fits where it fits without its last step, and that step fits too.
proof fn lemma_fits_longer(g: GraphState, path: Seq<Elem>, n: int, w: Walk)
    requires
        0 <= n,
    ensures
        walk_fits(g, path, w, n + 1) <==> w.steps.len() == n + 1 && walk_fits(
            g,
            path,
            shorter(w),
            n,
        ) && step_fits(g, edge_pat(path, n), node_pat(path, n + 1), node_on(w, n), w.steps[n]),
{
    let v = shorter(w);
    if w.steps.len() == n + 1 {
        assert forall|i: int| 0 <= i < n implies step_fits(
            g,
            edge_pat(path, i),
            node_pat(path, i + 1),
            node_on(v, i),
            #[trigger] v.steps[i],
        ) == step_fits(
            g,
            edge_pat(path, i),
            node_pat(path, i + 1),
            node_on(w, i),
            #[trigger] w.steps[i],
        ) by {
            assert(v.steps[i] == w.steps[i]);
            assert(node_on(v, i) == node_on(w, i));
        }
        if walk_fits(g, path, w, n + 1) {
            assert forall|i: int| 0 <= i < n implies step_fits(
                g,
                edge_pat(path, i),
                node_pat(path, i + 1),
                node_on(v, i),
                #[trigger] v.steps[i],
            ) by {
                assert(w.steps[i] == v.steps[i]);
            }
        }
        if walk_fits(g, path, v, n) && step_fits(
            g,
            edge_pat(path, n),
            node_pat(path, n + 1),
            node_on(w, n),
            w.steps[n],
        ) {
            assert forall|i: int| 0 <= i < n + 1 implies step_fits(
                g,
                edge_pat(path, i),
                node_pat(path, i + 1),
                node_on(w, i),
                #[trigger] w.steps[i],
            ) by {
                if i < n {
                    assert(v.steps[i] == w.steps[i]);
                }
            }
        }
    }
}

/// One edge of a path, from all environments.
proof fn lemma_next(
    g: GraphState,
    path: Seq<Elem>,
    n: int,
    ms: Seq<EnvMap>,
    ws: Seq<Walk>,
) -> (r: Seq<Walk>)
    requires
        consistent(g),
        stand_for(g, path, n, ms, ws),
        0 <= n,
    ensures
        expand_edge(g, edge_pat(path, n), node_pat(path, n + 1), ms) matches Ok(list) && stand_for(
            g,
            path,
            n + 1,
            list,
            r,
        ),
{
    let r = lemma_going_on(g, path, n, ms, ws, ws.len() as int);
    assert(ms.take(ws.len() as int) =~= ms);
    assert(ws.take(ws.len() as int) =~= ws);
    assert forall|w: Walk| #[trigger] r.contains(w) <==> walk_fits(g, path, w, n + 1) by {
        assert(r.contains(w) <==> goes_on(g, path, n, ws, w));
        lemma_fits_longer(g, path, n, w);
        reveal(last_fits);
        assert(ws.contains(shorter(w)) <==> walk_fits(g, path, shorter(w), n));
    }
    r
}

/// The rest of a path.
proof fn lemma_rest(
    g: GraphState,
    path: Seq<Elem>,
    n: int,
    ms: Seq<EnvMap>,
    ws: Seq<Walk>,
) -> (r: Seq<Walk>)
    requires
        consistent(g),
        is_path(path),
        stand_for(g, path, n, ms, ws),
        0 <= n <= hops(path),
    ensures
        expand_from(g, path, 2 * n + 1, ms) matches Ok(list) && stand_for(
            g,
            path,
            hops(path),
            list,
            r,
        ),
    decreases hops(path) - n,
{
    if n == hops(path) {
        ws
    } else {
        assert(path[2 * n + 1] is Edge);
        assert(path[2 * n + 2] is Node);
        let next = lemma_next(g, path, n, ms, ws);
        let list = expand_edge(g, edge_pat(path, n), node_pat(path, n + 1), ms)->Ok_0;
        lemma_rest(g, path, n + 1, list, next)
    }
}

/// The places of the nodes at which a walk can start, among the first `k`.
proof fn lemma_starts(
    g: GraphState,
    np: NodePat,
    label: Seq<char>,
    k: int,
) -> (r: Seq<u64>)
    requires
        consistent(g),
        np.label == Some(label),
        0 <= k <= labelled(g, label).len(),
    ensures
        try_candidates(g, np, labelled(g, label).take(k), seq![Map::empty()]) matches Ok(list)
            && list.len() == r.len() && forall|i: int|
            0 <= i < r.len() ==> #[trigger] list[i] == named(
                Map::empty(),
                np.variable,
                Binding::Node(r[i]),
            ).insert(last_node_key(), Binding::Node(r[i])),
        forall|x: u64| #[trigger]
            r.contains(x) <==> labelled(g, label).take(k).contains(x) && start_fits(g, np, x),
        forall|i: int, j: int| 0 <= i < j < r.len() ==> #[trigger] r[i] < #[trigger] r[j],
    decreases k,
{
    let ids = labelled(g, label);
    if k == 0 {
        assert(ids.take(0) =~= Seq::empty());
        Seq::empty()
    } else {
        let a = lemma_starts(g, np, label, k - 1);
        let id = ids[k - 1];
        assert(ids.contains(id));
        lemma_labelled_are_nodes(g, label, id);
        lemma_sound_node(g, id);
        lemma_node_props_ok(g, id);
        lemma_fits_is_wanted(np, node_at(g, id)->Ok_0->0);
        assert(ids.take(k).drop_last() =~= ids.take(k - 1));
        assert(ids.take(k).last() == id);
        let r = if start_fits(g, np, id) {
            a.push(id)
        } else {
            a
        };
        assert forall|x: u64| #[trigger]
            r.contains(x) <==> ids.take(k).contains(x) && start_fits(g, np, x) by {
            if r.contains(x) {
                let i = r.index_of(x);
                if i < a.len() {
                    assert(a[i] == x);
                    assert(a.contains(x));
                    assert(ids.take(k)[ids.take(k - 1).index_of(x)] == x);
                } else {
                    assert(ids.take(k)[k - 1] == x);
                }
            }
            if ids.take(k).contains(x) && start_fits(g, np, x) {
                let i = ids.take(k).index_of(x);
                if i < k - 1 {
                    assert(ids.take(k - 1)[i] == x);
                    assert(a.contains(x));
                    assert(r[a.index_of(x)] == x);
                } else {
                    assert(r[a.len() as int] == x);
                }
            }
        }
        assert forall|i: int, j: int| 0 <= i < j < r.len() implies #[trigger] r[i]
            < #[trigger] r[j] by {
            if j < a.len() {
                assert(r[i] == a[i] && r[j] == a[j]);
            } else {
                assert(a[i] == r[i]);
                assert(a.contains(a[i]));
                let x = ids.take(k - 1).index_of(a[i]);
                lemma_labelled_ordered(g, label, x, k - 1);
            }
        }
        r
    }
}

/// A path finds the walks that fit it: each once, and no other. They come in
/// order, and each gives the variables of the path what stands there on the
/// walk.
pub proof fn lemma_matches_are_walks(g: GraphState, path: Seq<Elem>) -> (ws: Seq<Walk>)
    requires
        consistent(g),
        is_path(path),
        node_pat(path, 0).label is Some,
    ensures
        expand(g, path) matches Ok(ms) && ms.len() == ws.len() && forall|i: int|
            0 <= i < ws.len() ==> #[trigger] ms[i] == walk_env(path, ws[i], hops(path)).remove(
                last_node_key(),
            ),
        forall|w: Walk| #[trigger] ws.contains(w) <==> walk_fits(g, path, w, hops(path)),
        forall|i: int, j: int|
            0 <= i < j < ws.len() ==> walk_before(g, #[trigger] ws[i], #[trigger] ws[j]) && ws[i]
                != ws[j],
{
    let np = node_pat(path, 0);
    let label = np.label->0;
    let ids = labelled(g, label);
    let start: Seq<EnvMap> = seq![Map::empty()];
    let xs = lemma_starts(g, np, label, ids.len() as int);
    assert(ids.take(ids.len() as int) =~= ids);
    assert(path[0] is Node);
    assert(!is_bound(np, start));
    let ms = try_candidates(g, np, ids, start)->Ok_0;
    let vs = Seq::new(xs.len(), |i: int| Walk { start: xs[i], steps: Seq::empty() });
    assert(stand_for(g, path, 0, ms, vs)) by {
        reveal(marked);
        assert forall|w: Walk| #[trigger] vs.contains(w) <==> walk_fits(g, path, w, 0) by {
            lemma_labelled_are_nodes(g, label, w.start);
            lemma_sound_node(g, w.start);
            if vs.contains(w) {
                let i = vs.index_of(w);
                assert(xs.contains(xs[i]));
            }
            if walk_fits(g, path, w, 0) {
                assert(ids.contains(w.start));
                assert(xs.contains(w.start));
                assert(w.steps =~= Seq::empty());
                assert(vs[xs.index_of(w.start)] == w);
            }
        }
    }
    let ws = lemma_rest(g, path, 0, ms, vs);
    let list = expand_from(g, path, 1, ms)->Ok_0;
    assert(expand_from(g, path, 0, start) == Ok::<Seq<EnvMap>, CypherErr>(list));
    let k = hops(path);
    assert forall|i: int| 0 <= i < ws.len() implies #[trigger] unmarked(list)[i] == walk_env(
        path,
        ws[i],
        k,
    ).remove(last_node_key()) by {
        assert(list[i] == marked(path, ws[i], k));
        reveal(marked);
        assert(marked(path, ws[i], k).remove(last_node_key()) =~= walk_env(path, ws[i], k).remove(
            last_node_key(),
        ));
    }
    assert forall|i: int, j: int| 0 <= i < j < ws.len() implies walk_before(
        g,
        #[trigger] ws[i],
        #[trigger] ws[j],
    ) && ws[i] != ws[j] by {
        lemma_before_differs(g, ws[i], ws[j]);
    }
    ws
}

// ---------------------------------------------------------------------------
// Nodes and single edges
// ---------------------------------------------------------------------------

/// An edge of a path leads from an environment to one for each step that fits,
/// and to no other. Such a step names its edge and its node.
pub proof fn lemma_edge_leads(
    g: GraphState,
    ep: EdgePat,
    np: NodePat,
    m: EnvMap,
    from: u64,
    m2: EnvMap,
)
    requires
        consistent(g),
        m.contains_key(last_node_key()),
        m[last_node_key()] == Binding::Node(from),
    ensures
        expand_edge_from(g, ep, np, m) matches Ok(list) && (list.contains(m2) <==> exists|s: Step|
            #[trigger] step_fits(g, ep, np, from, s) && m2 == named(
                named(m, ep.variable, Binding::Edge(s.edge)),
                np.variable,
                Binding::Node(s.node),
            ).insert(last_node_key(), Binding::Node(s.node))),
{
    reveal(step_env);
    let ss = lemma_steps(g, ep, np, m, from);
    let list = expand_edge_from(g, ep, np, m)->Ok_0;
    if list.contains(m2) {
        let i = list.index_of(m2);
        assert(ss.contains(ss[i]));
        assert(step_fits(g, ep, np, from, ss[i]));
        assert(list[i] == step_env(m, ep, np, ss[i]));
    }
    if exists|s: Step|
        #[trigger] step_fits(g, ep, np, from, s) && m2 == step_env(m, ep, np, s) {
        let s = choose|s: Step|
            #[trigger] step_fits(g, ep, np, from, s) && m2 == step_env(m, ep, np, s);
        assert(ss.contains(s));
        assert(list[ss.index_of(s)] == m2);
    }
}

/// An edge without an arrow leads from `x` to `y` by the stored edges of its
/// type between the two, whichever of them is the source.
pub proof fn lemma_undirected_edge(
    g: GraphState,
    ep: EdgePat,
    np: NodePat,
    m: EnvMap,
    x: u64,
    e: u64,
    y: u64,
)
    requires
        consistent(g),
        m.contains_key(last_node_key()),
        m[last_node_key()] == Binding::Node(x),
        ep.direction == EdgeDirection::Both,
        ep.variable matches Some(v) && v != last_node_key(),
        np.variable matches Some(v) && v != last_node_key() && v != ep.variable->0,
    ensures
        expand_edge_from(g, ep, np, m) matches Ok(list) && ((exists|m2: EnvMap|
            #[trigger] list.contains(m2) && env_get(m2, ep.variable->0) == Some(Binding::Edge(e))
                && env_get(m2, np.variable->0) == Some(Binding::Node(y))) <==> (edge_at(
            g,
            e,
        ) matches Ok(Some(rec)) && ((rec.src == x && rec.dst == y) || (rec.src == y && rec.dst
            == x)) && (ep.edge_type matches Some(t) ==> hash_of(rec.edge_type) == hash_of(t))
            && asked(g, np, y))),
{
    let list = expand_edge_from(g, ep, np, m)->Ok_0;
    assert forall|m2: EnvMap| #[trigger] list.contains(m2) implies exists|s: Step|
        #[trigger] step_fits(g, ep, np, x, s) && m2 == named(
            named(m, ep.variable, Binding::Edge(s.edge)),
            np.variable,
            Binding::Node(s.node),
        ).insert(last_node_key(), Binding::Node(s.node)) by {
        lemma_edge_leads(g, ep, np, m, x, m2);
    }
    lemma_edge_leads(g, ep, np, m, x, m);
    let out = Step { edge: e, dir: Direction::Out, node: y };
    let back = Step { edge: e, dir: Direction::In, node: y };
    let m2 = named(
        named(m, ep.variable, Binding::Edge(e)),
        np.variable,
        Binding::Node(y),
    ).insert(last_node_key(), Binding::Node(y));
    lemma_edge_leads(g, ep, np, m, x, m2);
    assert(env_get(m2, ep.variable->0) == Some(Binding::Edge(e)));
    assert(env_get(m2, np.variable->0) == Some(Binding::Node(y)));
    if step_fits(g, ep, np, x, out) || step_fits(g, ep, np, x, back) {
        assert(list.contains(m2));
    }
}

/// A path of one node.
pub open spec fn single(a: NodePat) -> Seq<Elem> {
    seq![Elem::Node(a)]
}

/// A path of one edge.
pub open spec fn hop(a: NodePat, ep: EdgePat, b: NodePat) -> Seq<Elem> {
    seq![Elem::Node(a), Elem::Edge(ep), Elem::Node(b)]
}

/// Whether a match is among those found in which two variables stand for these
/// nodes, and a third for this edge between them.
pub open spec fn found(
    ms: Seq<EnvMap>,
    a: Seq<char>,
    x: u64,
    ab: Seq<char>,
    e: u64,
    b: Seq<char>,
    y: u64,
) -> bool {
    exists|m: EnvMap| #[trigger]
        ms.contains(m) && env_get(m, a) == Some(Binding::Node(x)) && env_get(m, ab) == Some(
            Binding::Edge(e),
        ) && env_get(m, b) == Some(Binding::Node(y))
}

/// Whether the elements of a path of one edge have variables, all of them
/// different.
pub open spec fn told_apart(a: NodePat, ep: EdgePat, b: NodePat) -> bool {
    &&& a.variable matches Some(v) && v != last_node_key()
    &&& ep.variable matches Some(v) && v != last_node_key() && v != a.variable->0
    &&& b.variable matches Some(v) && v != last_node_key() && v != a.variable->0 && v
        != ep.variable->0
}

/// A node pattern finds a node exactly where the node has what it asks for.
pub proof fn lemma_node_found(g: GraphState, np: NodePat, x: u64)
    requires
        consistent(g),
        np.label is Some,
        np.variable matches Some(v) && v != last_node_key(),
    ensures
        expand(g, single(np)) matches Ok(ms) && ((exists|m: EnvMap|
            #[trigger] ms.contains(m) && env_get(m, np.variable->0) == Some(Binding::Node(x)))
            <==> start_fits(g, np, x)),
        np.properties.len() > 0 ==> (start_fits(g, np, x) <==> asked(g, np, x)),
{
    let path = single(np);
    let ws = lemma_matches_are_walks(g, path);
    let ms = expand(g, path)->Ok_0;
    if exists|m: EnvMap|
        #[trigger] ms.contains(m) && env_get(m, np.variable->0) == Some(Binding::Node(x)) {
        let m = choose|m: EnvMap|
            #[trigger] ms.contains(m) && env_get(m, np.variable->0) == Some(Binding::Node(x));
        let i = ms.index_of(m);
        assert(ws.contains(ws[i]));
        assert(m == walk_env(path, ws[i], 0).remove(last_node_key()));
        assert(ws[i].start == x);
    }
    if start_fits(g, np, x) {
        let w = Walk { start: x, steps: Seq::empty() };
        assert(walk_fits(g, path, w, 0));
        assert(ws.contains(w));
        let m = ms[ws.index_of(w)];
        assert(m == walk_env(path, w, 0).remove(last_node_key()));
        assert(ms.contains(m));
        assert(env_get(m, np.variable->0) == Some(Binding::Node(x)));
    }
}

/// A path of one edge finds an edge between two nodes exactly where the stored
/// edge joins them in a direction that the pattern allows, has the type, and
/// the nodes have what is asked of them.
pub proof fn lemma_hop_found(
    g: GraphState,
    a: NodePat,
    ep: EdgePat,
    b: NodePat,
    x: u64,
    e: u64,
    y: u64,
)
    requires
        consistent(g),
        a.label is Some,
        told_apart(a, ep, b),
    ensures
        expand(g, hop(a, ep, b)) matches Ok(ms) && (found(
            ms,
            a.variable->0,
            x,
            ep.variable->0,
            e,
            b.variable->0,
            y,
        ) <==> start_fits(g, a, x) && asked(g, b, y) && typed(g, e, ep.edge_type) && exists|
            dir: Direction,
        |
            #[trigger] goes(ep.direction, dir) && joins(g, e, x, dir, y)),
{
    let path = hop(a, ep, b);
    let ws = lemma_matches_are_walks(g, path);
    let ms = expand(g, path)->Ok_0;
    let (va, ve, vb) = (a.variable->0, ep.variable->0, b.variable->0);
    assert(hops(path) == 1);
    assert forall|w: Walk| w.steps.len() == 1 implies {
        let m = #[trigger] walk_env(path, w, 1).remove(last_node_key());
        &&& env_get(m, va) == Some(Binding::Node(w.start))
        &&& env_get(m, ve) == Some(Binding::Edge(w.steps[0].edge))
        &&& env_get(m, vb) == Some(Binding::Node(w.steps[0].node))
    } by {
        assert(walk_env(path, w, 0) == named(Map::empty(), a.variable, Binding::Node(w.start)));
    }
    if found(ms, va, x, ve, e, vb, y) {
        let m = choose|m: EnvMap| #[trigger]
            ms.contains(m) && env_get(m, va) == Some(Binding::Node(x)) && env_get(m, ve) == Some(
                Binding::Edge(e),
            ) && env_get(m, vb) == Some(Binding::Node(y));
        let i = ms.index_of(m);
        let w = ws[i];
        assert(ws.contains(w));
        assert(walk_fits(g, path, w, 1));
        assert(m == walk_env(path, w, 1).remove(last_node_key()));
        let s = w.steps[0];
        assert(step_fits(g, ep, b, x, s));
        assert(goes(ep.direction, s.dir));
    }
    if start_fits(g, a, x) && asked(g, b, y) && typed(g, e, ep.edge_type) && exists|dir: Direction|
        #[trigger] goes(ep.direction, dir) && joins(g, e, x, dir, y) {
        let dir = choose|dir: Direction|
            #[trigger] goes(ep.direction, dir) && joins(g, e, x, dir, y);
        let w = Walk { start: x, steps: seq![Step { edge: e, dir, node: y }] };
        assert(walk_fits(g, path, w, 1));
        assert(ws.contains(w));
        let m = ms[ws.index_of(w)];
        assert(m == walk_env(path, w, 1).remove(last_node_key()));
        assert(ms.contains(m));
    }
}

/// The direction of an edge that is written the other way round.
pub open spec fn turned(d: EdgeDirection) -> EdgeDirection {
    match d {
        EdgeDirection::Right => EdgeDirection::Left,
        EdgeDirection::Left => EdgeDirection::Right,
        EdgeDirection::Both => EdgeDirection::Both,
    }
}

/// Whether no node has another label with the hash of the pattern's label.
pub open spec fn label_apart(g: GraphState, np: NodePat) -> bool {
    &&& np.label is Some
    &&& forall|x: u64|
        #[trigger] node_at(g, x) matches Ok(Some(n)) ==> (hash_of(n.label) == hash_of(np.label->0)
            ==> n.label == np.label->0)
}

/// A path of one edge finds the same when it is written from its other end.
pub proof fn lemma_hop_turned(
    g: GraphState,
    a: NodePat,
    ep: EdgePat,
    b: NodePat,
    x: u64,
    e: u64,
    y: u64,
)
    requires
        consistent(g),
        label_apart(g, a),
        label_apart(g, b),
        told_apart(a, ep, b),
    ensures
        ({
            let (va, ve, vb) = (a.variable->0, ep.variable->0, b.variable->0);
            let back = EdgePat { direction: turned(ep.direction), ..ep };
            &&& expand(g, hop(a, ep, b)) is Ok
            &&& expand(g, hop(b, back, a)) is Ok
            &&& found(expand(g, hop(a, ep, b))->Ok_0, va, x, ve, e, vb, y) <==> found(
                expand(g, hop(b, back, a))->Ok_0,
                vb,
                y,
                ve,
                e,
                va,
                x,
            )
        }),
{
    let back = EdgePat { direction: turned(ep.direction), ..ep };
    lemma_hop_found(g, a, ep, b, x, e, y);
    lemma_hop_found(g, b, back, a, y, e, x);
    assert(start_fits(g, a, x) == asked(g, a, x));
    assert(start_fits(g, b, y) == asked(g, b, y));
    assert(goes(ep.direction, Direction::Out) == goes(back.direction, Direction::In));
    assert(goes(ep.direction, Direction::In) == goes(back.direction, Direction::Out));
    assert(joins(g, e, x, Direction::Out, y) == joins(g, e, y, Direction::In, x));
    assert(joins(g, e, x, Direction::In, y) == joins(g, e, y, Direction::Out, x));
}

/// An edge without an arrow between two nodes of which the same is asked finds
/// a pair exactly where it finds the pair the other way round.
pub proof fn lemma_undirected_symmetric(
    g: GraphState,
    a: NodePat,
    ep: EdgePat,
    b: NodePat,
    x: u64,
    e: u64,
    y: u64,
)
    requires
        consistent(g),
        label_apart(g, a),
        told_apart(a, ep, b),
        a.label == b.label,
        a.properties == b.properties,
        ep.direction == EdgeDirection::Both,
    ensures
        ({
            let (va, ve, vb) = (a.variable->0, ep.variable->0, b.variable->0);
            &&& expand(g, hop(a, ep, b)) matches Ok(ms)
            &&& found(ms, va, x, ve, e, vb, y) <==> found(ms, va, y, ve, e, vb, x)
        }),
{
    lemma_hop_found(g, a, ep, b, x, e, y);
    lemma_hop_found(g, a, ep, b, y, e, x);
    assert(start_fits(g, a, x) == asked(g, a, x));
    assert(start_fits(g, a, y) == asked(g, a, y));
    assert(forall|n: NodeVal| #[trigger] wanted(a, n) == wanted(b, n));
    assert(goes(ep.direction, Direction::Out) && goes(ep.direction, Direction::In));
    assert(joins(g, e, x, Direction::Out, y) == joins(g, e, y, Direction::In, x));
    assert(joins(g, e, x, Direction::In, y) == joins(g, e, y, Direction::Out, x));
}

/// A path that does not start with a labelled node finds nothing and fails.
pub proof fn lemma_start_needs_label(g: GraphState, path: Seq<Elem>)
    requires
        is_path(path),
        node_pat(path, 0).label is None,
    ensures
        expand(g, path) is Err,
{
    let start: Seq<EnvMap> = seq![Map::empty()];
    assert(path[0] is Node);
    assert(!is_bound(node_pat(path, 0), start));
}

} // verus!
