//! What comparisons and conditions mean.

use crate::bytes::{key_lt, lemma_key_asymmetric, lemma_key_irreflexive, lemma_key_total};
use crate::cypher::ast::{CmpOp, Ex, Lit, MatchStmt};
use crate::cypher::CypherErr;
use crate::cypher::env::{Binding, EnvMap};
use crate::cypher::query::{condition, expand, filtered, run_delete, run_match};
use crate::cypher::values::holds;
use crate::float::{float_value, is_nan, lemma_small_int_is_exact};
use crate::graph::GraphErr;
use crate::graph::state::{edge_at, node_at, GraphState};
use crate::graph::types::{lemma_prop_index, prop_get, prop_index, EdgeVal, NodeVal, Val};
use crate::text::lemma_utf8_injective;
use vstd::arithmetic::power2::pow2;
use vstd::prelude::*;
use vstd::utf8::encode_utf8;

verus! {

// ---------------------------------------------------------------------------
// Comparisons
// ---------------------------------------------------------------------------

/// Whether two values have an order: both are numbers, or both are texts.
pub open spec fn ordered(a: Val, b: Val) -> bool {
    ||| (a is Int || a is Float) && (b is Int || b is Float)
    ||| a is Str && b is Str
}

/// How the comparisons of any two values relate: `<>` is the opposite of `=`,
/// `>` is `<` the other way round, and at most one of `<`, `=` and `>` holds. Of
/// values that have an order, `<=` is `<` or `=`; others are neither.
pub proof fn lemma_comparisons(a: Val, b: Val)
    ensures
        holds(a, CmpOp::Neq, b) <==> !holds(a, CmpOp::Eq, b),
        holds(a, CmpOp::Eq, b) <==> holds(b, CmpOp::Eq, a),
        holds(a, CmpOp::Lt, b) <==> holds(b, CmpOp::Gt, a),
        holds(a, CmpOp::Lte, b) <==> holds(b, CmpOp::Gte, a),
        !(holds(a, CmpOp::Lt, b) && holds(a, CmpOp::Gt, b)),
        !(holds(a, CmpOp::Lt, b) && holds(a, CmpOp::Eq, b)),
        !(holds(a, CmpOp::Gt, b) && holds(a, CmpOp::Eq, b)),
        ordered(a, b) ==> (holds(a, CmpOp::Lte, b) <==> holds(a, CmpOp::Lt, b) || holds(
            a,
            CmpOp::Eq,
            b,
        )),
        ordered(a, b) ==> (holds(a, CmpOp::Gte, b) <==> holds(a, CmpOp::Gt, b) || holds(
            a,
            CmpOp::Eq,
            b,
        )),
        !ordered(a, b) ==> !holds(a, CmpOp::Lte, b) && !holds(a, CmpOp::Gte, b) && !holds(
            a,
            CmpOp::Lt,
            b,
        ) && !holds(a, CmpOp::Gt, b),
{
    match (a, b) {
        (Val::Str(x), Val::Str(y)) => {
            lemma_texts_compare(x, y);
            lemma_texts_compare(y, x);
            lemma_key_irreflexive(encode_utf8(x));
            if key_lt(encode_utf8(x), encode_utf8(y)) {
                lemma_key_asymmetric(encode_utf8(x), encode_utf8(y));
            }
        },
        _ => {},
    }
}

/// Integers compare as the numbers that they are.
pub proof fn lemma_integers_compare(x: i64, y: i64)
    ensures
        holds(Val::Int(x), CmpOp::Eq, Val::Int(y)) <==> x == y,
        holds(Val::Int(x), CmpOp::Neq, Val::Int(y)) <==> x != y,
        holds(Val::Int(x), CmpOp::Lt, Val::Int(y)) <==> x < y,
        holds(Val::Int(x), CmpOp::Lte, Val::Int(y)) <==> x <= y,
        holds(Val::Int(x), CmpOp::Gt, Val::Int(y)) <==> x > y,
        holds(Val::Int(x), CmpOp::Gte, Val::Int(y)) <==> x >= y,
{
}

/// Texts are equal where they are the same, and are ordered as their bytes are.
pub proof fn lemma_texts_compare(x: Seq<char>, y: Seq<char>)
    ensures
        holds(Val::Str(x), CmpOp::Eq, Val::Str(y)) <==> x == y,
        holds(Val::Str(x), CmpOp::Neq, Val::Str(y)) <==> x != y,
        holds(Val::Str(x), CmpOp::Lt, Val::Str(y)) <==> key_lt(encode_utf8(x), encode_utf8(y)),
        holds(Val::Str(x), CmpOp::Gt, Val::Str(y)) <==> key_lt(encode_utf8(y), encode_utf8(x)),
        holds(Val::Str(x), CmpOp::Lte, Val::Str(y)) <==> x == y || key_lt(
            encode_utf8(x),
            encode_utf8(y),
        ),
        holds(Val::Str(x), CmpOp::Gte, Val::Str(y)) <==> x == y || key_lt(
            encode_utf8(y),
            encode_utf8(x),
        ),
{
    let a = encode_utf8(x);
    let b = encode_utf8(y);
    if a == b {
        lemma_utf8_injective(x, y);
    }
    if key_lt(a, b) {
        lemma_key_asymmetric(a, b);
    }
    lemma_key_total(a, b);
    lemma_key_irreflexive(a);
}

/// Numbers with a point compare by their values; what is no number equals
/// nothing and has no order.
pub proof fn lemma_floats_compare(x: u64, y: u64)
    ensures
        !is_nan(x) && !is_nan(y) ==> {
            &&& holds(Val::Float(x), CmpOp::Eq, Val::Float(y)) <==> float_value(x) == float_value(y)
            &&& holds(Val::Float(x), CmpOp::Lt, Val::Float(y)) <==> float_value(x) < float_value(y)
            &&& holds(Val::Float(x), CmpOp::Gt, Val::Float(y)) <==> float_value(x) > float_value(y)
        },
        is_nan(x) || is_nan(y) ==> {
            &&& holds(Val::Float(x), CmpOp::Neq, Val::Float(y))
            &&& !holds(Val::Float(x), CmpOp::Lte, Val::Float(y))
            &&& !holds(Val::Float(x), CmpOp::Gte, Val::Float(y))
        },
{
}

/// An integer of at most 53 bits and a number with a point compare as numbers,
/// in whichever order they stand.
pub proof fn lemma_integer_and_float_compare(x: i64, y: u64)
    requires
        -0x20_0000_0000_0000 <= x <= 0x20_0000_0000_0000,
        !is_nan(y),
    ensures
        holds(Val::Int(x), CmpOp::Eq, Val::Float(y)) <==> x * pow2(1074) == float_value(y),
        holds(Val::Int(x), CmpOp::Lt, Val::Float(y)) <==> x * pow2(1074) < float_value(y),
        holds(Val::Int(x), CmpOp::Gt, Val::Float(y)) <==> x * pow2(1074) > float_value(y),
        holds(Val::Float(y), CmpOp::Eq, Val::Int(x)) <==> x * pow2(1074) == float_value(y),
        holds(Val::Float(y), CmpOp::Gt, Val::Int(x)) <==> x * pow2(1074) < float_value(y),
        holds(Val::Float(y), CmpOp::Lt, Val::Int(x)) <==> x * pow2(1074) > float_value(y),
{
    lemma_small_int_is_exact(x);
}

/// Flags are equal where they are the same, null equals null, and values of two
/// kinds are never equal, but for numbers.
pub proof fn lemma_kinds_compare(a: Val, b: Val)
    ensures
        a is Bool && b is Bool ==> (holds(a, CmpOp::Eq, b) <==> a == b),
        a is Null && b is Null ==> holds(a, CmpOp::Eq, b),
        !ordered(a, b) && holds(a, CmpOp::Eq, b) ==> a == b,
{
}

// ---------------------------------------------------------------------------
// Conditions
// ---------------------------------------------------------------------------

/// Whether a condition keeps a match: it holds there, and gives no error.
pub open spec fn keeps(g: GraphState, e: Ex, m: EnvMap) -> bool {
    condition(g, e, m) == Ok::<bool, CypherErr>(true)
}

/// Whether a condition drops a match: it does not hold there, and gives no
/// error.
pub open spec fn drops(g: GraphState, e: Ex, m: EnvMap) -> bool {
    condition(g, e, m) == Ok::<bool, CypherErr>(false)
}

/// `AND` keeps what both its sides keep, and drops what its left side drops, or
/// what its left side keeps and its right side drops.
pub proof fn lemma_and(g: GraphState, a: Ex, b: Ex, m: EnvMap)
    ensures
        keeps(g, Ex::And(Box::new(a), Box::new(b)), m) <==> keeps(g, a, m) && keeps(g, b, m),
        drops(g, Ex::And(Box::new(a), Box::new(b)), m) <==> drops(g, a, m) || (keeps(g, a, m)
            && drops(g, b, m)),
{
}

/// `OR` drops what both its sides drop, and keeps what its left side keeps, or
/// what its left side drops and its right side keeps.
pub proof fn lemma_or(g: GraphState, a: Ex, b: Ex, m: EnvMap)
    ensures
        drops(g, Ex::Or(Box::new(a), Box::new(b)), m) <==> drops(g, a, m) && drops(g, b, m),
        keeps(g, Ex::Or(Box::new(a), Box::new(b)), m) <==> keeps(g, a, m) || (drops(g, a, m)
            && keeps(g, b, m)),
{
}

/// `NOT` keeps what is dropped without it, and drops what is kept.
pub proof fn lemma_not(g: GraphState, a: Ex, m: EnvMap)
    ensures
        keeps(g, Ex::Not(Box::new(a)), m) <==> drops(g, a, m),
        drops(g, Ex::Not(Box::new(a)), m) <==> keeps(g, a, m),
{
}

/// A flag keeps everything or drops everything.
pub proof fn lemma_flag(g: GraphState, b: bool, m: EnvMap)
    ensures
        keeps(g, Ex::Literal(Lit::Bool(b)), m) <==> b,
        drops(g, Ex::Literal(Lit::Bool(b)), m) <==> !b,
{
}

/// The value that a literal writes.
pub open spec fn written(l: Lit, v: Val) -> bool {
    match l {
        Lit::Int(i) => v == Val::Int(i),
        Lit::Float(f) => v == Val::Float(f),
        Lit::Str(s) => v == Val::Str(s),
        Lit::Bool(b) => v == Val::Bool(b),
        Lit::Null => v == Val::Null,
    }
}

/// Whether `v` is the value of a property among `ps`, or null where no property
/// has that name.
pub open spec fn has_value(ps: Seq<(Seq<char>, Val)>, name: Seq<char>, v: Val) -> bool {
    ||| exists|i: int|
        0 <= i < ps.len() && #[trigger] ps[i] == (name, v) && forall|j: int|
            0 <= j < i ==> (#[trigger] ps[j]).0 != name
    ||| v == Val::Null && forall|i: int| 0 <= i < ps.len() ==> (#[trigger] ps[i]).0 != name
}

/// Comparing a property of a node with a literal keeps a match exactly where the
/// stored value compares so with the literal; a property that the node does not
/// have is null.
pub proof fn lemma_node_property_compared(
    g: GraphState,
    m: EnvMap,
    var: Seq<char>,
    name: Seq<char>,
    op: CmpOp,
    l: Lit,
    n: NodeVal,
    v: Val,
    w: Val,
)
    requires
        m.contains_key(var),
        m[var] == Binding::Node(n.id),
        node_at(g, n.id) == Ok::<Option<NodeVal>, GraphErr>(Some(n)),
        has_value(n.props, name, v),
        written(l, w),
    ensures
        ({
            let property = Box::new(Ex::Property(var, name));
            let literal = Box::new(Ex::Literal(l));
            &&& keeps(g, Ex::Comparison(property, op, literal), m) <==> holds(v, op, w)
            &&& drops(g, Ex::Comparison(property, op, literal), m) <==> !holds(v, op, w)
            &&& keeps(g, Ex::Comparison(literal, op, property), m) <==> holds(w, op, v)
        }),
{
    lemma_has_value(n.props, name, v);
}

/// Comparing a property of an edge with a literal, as of a node.
pub proof fn lemma_edge_property_compared(
    g: GraphState,
    m: EnvMap,
    var: Seq<char>,
    name: Seq<char>,
    op: CmpOp,
    l: Lit,
    e: EdgeVal,
    v: Val,
    w: Val,
)
    requires
        m.contains_key(var),
        m[var] == Binding::Edge(e.id),
        edge_at(g, e.id) == Ok::<Option<EdgeVal>, GraphErr>(Some(e)),
        has_value(e.props, name, v),
        written(l, w),
    ensures
        ({
            let property = Box::new(Ex::Property(var, name));
            let literal = Box::new(Ex::Literal(l));
            &&& keeps(g, Ex::Comparison(property, op, literal), m) <==> holds(v, op, w)
            &&& drops(g, Ex::Comparison(property, op, literal), m) <==> !holds(v, op, w)
            &&& keeps(g, Ex::Comparison(literal, op, property), m) <==> holds(w, op, v)
        }),
{
    lemma_has_value(e.props, name, v);
}

/// What a name stands for among properties is what is looked up for it.
pub proof fn lemma_has_value(ps: Seq<(Seq<char>, Val)>, name: Seq<char>, v: Val)
    ensures
        has_value(ps, name, v) <==> v == (match prop_get(ps, name) {
            Some(x) => x,
            None => Val::Null,
        }),
{
    lemma_prop_index(ps, name);
    let i = prop_index(ps, name);
    if has_value(ps, name, v) {
        if i < ps.len() {
            assert(ps[i].0 == name);
        }
        if exists|k: int|
            0 <= k < ps.len() && #[trigger] ps[k] == (name, v) && forall|j: int|
                0 <= j < k ==> (#[trigger] ps[j]).0 != name {
            let k = choose|k: int|
                0 <= k < ps.len() && #[trigger] ps[k] == (name, v) && forall|j: int|
                    0 <= j < k ==> (#[trigger] ps[j]).0 != name;
            assert(ps[k].0 == name);
            assert(k == i) by {
                if k < i {
                    assert(ps[k].0 != name);
                }
                if i < k {
                    assert(ps[i].0 != name);
                }
            }
        }
    } else if i < ps.len() {
        assert(ps[i] == (name, ps[i].1));
    }
}

/// `WHERE` keeps exactly the matches that its condition keeps, in their order.
pub proof fn lemma_where_filters(g: GraphState, e: Ex, ms: Seq<EnvMap>)
    ensures
        filtered(g, Some(e), ms) == ms.filter(|m: EnvMap| keeps(g, e, m)),
        filtered(g, None, ms) == ms,
    decreases ms.len(),
{
    reveal(Seq::filter);
    if ms.len() > 0 {
        lemma_where_filters(g, e, ms.drop_last());
        assert(ms.drop_last().push(ms.last()) =~= ms);
    } else {
        assert(filtered(g, None, ms) =~= ms);
        assert(filtered(g, Some(e), ms) =~= ms.filter(|m: EnvMap| keeps(g, e, m)));
    }
}

/// A statement with another condition.
pub open spec fn with_condition(m: MatchStmt, e: Ex) -> MatchStmt {
    MatchStmt { where_clause: Some(e), ..m }
}

/// Conditions that keep the same matches give the same results, and delete the
/// same.
pub proof fn lemma_same_condition(g: GraphState, m: MatchStmt, a: Ex, b: Ex)
    requires
        forall|x: EnvMap| #[trigger] keeps(g, a, x) <==> keeps(g, b, x),
    ensures
        run_match(g, with_condition(m, a)) == run_match(g, with_condition(m, b)),
        run_delete(g, with_condition(m, a)) == run_delete(g, with_condition(m, b)),
{
    match expand(g, m.pattern) {
        Ok(ms) => {
            lemma_where_filters(g, a, ms);
            lemma_where_filters(g, b, ms);
            assert((|x: EnvMap| keeps(g, a, x)) =~= (|x: EnvMap| keeps(g, b, x)));
        },
        Err(_) => {},
    }
}

/// `WHERE x <> y` gives what `WHERE NOT x = y` gives.
pub proof fn lemma_unequal_is_not_equal(g: GraphState, m: MatchStmt, x: Ex, y: Ex)
    ensures
        ({
            let unequal = Ex::Comparison(Box::new(x), CmpOp::Neq, Box::new(y));
            let equal = Ex::Comparison(Box::new(x), CmpOp::Eq, Box::new(y));
            &&& run_match(g, with_condition(m, unequal)) == run_match(
                g,
                with_condition(m, Ex::Not(Box::new(equal))),
            )
            &&& run_delete(g, with_condition(m, unequal)) == run_delete(
                g,
                with_condition(m, Ex::Not(Box::new(equal))),
            )
        }),
{
    let unequal = Ex::Comparison(Box::new(x), CmpOp::Neq, Box::new(y));
    let equal = Ex::Comparison(Box::new(x), CmpOp::Eq, Box::new(y));
    let other = Ex::Not(Box::new(equal));
    assert forall|e: EnvMap| #[trigger] keeps(g, unequal, e) <==> keeps(g, other, e) by {
        lemma_not(g, equal, e);
    }
    lemma_same_condition(g, m, unequal, other);
}

} // verus!
