//! Values in queries: how they compare, and how they are shown.

use crate::bytes::{compare_keys, key_lt, key_order, KeyOrder};
use crate::cypher::ast::{CmpOp, Ex, Expr, Lit, LiteralValue, NodePat, NodePattern};
use crate::float::{compare_floats, float_compare, float_equal, float_of_int, int_to_float};
use crate::graph::types::{prop_get, Edge, EdgeVal, Node, NodeVal, Properties, Props, Val, Value};
use crate::numtext::{float_text, int_text, nat_text, push_float, push_int, push_number};
use crate::text::{copy_str, push_text, str_equal};
use vstd::prelude::*;
use vstd::utf8::encode_utf8;

verus! {

/// The value of a literal.
pub open spec fn lit_val(l: Lit) -> Val {
    match l {
        Lit::Int(i) => Val::Int(i),
        Lit::Float(f) => Val::Float(f),
        Lit::Str(s) => Val::Str(s),
        Lit::Bool(b) => Val::Bool(b),
        Lit::Null => Val::Null,
    }
}

/// The value of an expression that is a literal.
pub open spec fn ex_val(e: Ex) -> Option<Val> {
    match e {
        Ex::Literal(l) => Some(lit_val(l)),
        _ => None,
    }
}

/// Whether two values are equal in a query; an integer and a number with a
/// point are compared as numbers with a point.
pub open spec fn vals_equal(a: Val, b: Val) -> bool {
    match (a, b) {
        (Val::Int(x), Val::Int(y)) => x == y,
        (Val::Float(x), Val::Float(y)) => float_equal(x, y),
        (Val::Int(x), Val::Float(y)) => float_equal(float_of_int(x), y),
        (Val::Float(x), Val::Int(y)) => float_equal(x, float_of_int(y)),
        (Val::Str(x), Val::Str(y)) => x == y,
        (Val::Bool(x), Val::Bool(y)) => x == y,
        (Val::Null, Val::Null) => true,
        _ => false,
    }
}

/// How two integers compare.
pub open spec fn int_order(x: i64, y: i64) -> KeyOrder {
    if x < y {
        KeyOrder::Less
    } else if x == y {
        KeyOrder::Equal
    } else {
        KeyOrder::Greater
    }
}

/// How two values compare, if they do: numbers by value, texts by their bytes.
pub open spec fn vals_order(a: Val, b: Val) -> Option<KeyOrder> {
    match (a, b) {
        (Val::Int(x), Val::Int(y)) => Some(int_order(x, y)),
        (Val::Float(x), Val::Float(y)) => float_compare(x, y),
        (Val::Int(x), Val::Float(y)) => float_compare(float_of_int(x), y),
        (Val::Float(x), Val::Int(y)) => float_compare(x, float_of_int(y)),
        (Val::Str(x), Val::Str(y)) => Some(key_order(encode_utf8(x), encode_utf8(y))),
        _ => None,
    }
}

/// Whether a comparison holds.
pub open spec fn holds(a: Val, op: CmpOp, b: Val) -> bool {
    match op {
        CmpOp::Eq => vals_equal(a, b),
        CmpOp::Neq => !vals_equal(a, b),
        CmpOp::Lt => vals_order(a, b) == Some(KeyOrder::Less),
        CmpOp::Gt => vals_order(a, b) == Some(KeyOrder::Greater),
        CmpOp::Lte => vals_order(a, b) == Some(KeyOrder::Less) || vals_order(a, b) == Some(
            KeyOrder::Equal,
        ),
        CmpOp::Gte => vals_order(a, b) == Some(KeyOrder::Greater) || vals_order(a, b) == Some(
            KeyOrder::Equal,
        ),
    }
}

/// The value of a literal.
pub fn literal_to_value(lit: &LiteralValue) -> (r: Value)
    ensures
        r@ == lit_val(lit@),
{
    match lit {
        LiteralValue::Int(n) => Value::Int(*n),
        LiteralValue::Float(f) => Value::Float(*f),
        LiteralValue::String(s) => Value::String(copy_str(s.as_str())),
        LiteralValue::Bool(b) => Value::Bool(*b),
        LiteralValue::Null => Value::Null,
    }
}

/// The value of an expression that is a literal.
pub fn expr_to_value(expr: &Expr) -> (r: Option<Value>)
    ensures
        match r {
            Some(v) => ex_val(expr@) == Some(v@),
            None => ex_val(expr@) is None,
        },
{
    match expr {
        Expr::Literal(lit) => Some(literal_to_value(lit)),
        _ => None,
    }
}

/// Whether two values are equal in a query.
pub fn values_equal(a: &Value, b: &Value) -> (r: bool)
    ensures
        r == vals_equal(a@, b@),
{
    match (a, b) {
        (Value::Int(x), Value::Int(y)) => *x == *y,
        (Value::Float(x), Value::Float(y)) => *x == *y,
        (Value::Int(x), Value::Float(y)) => int_to_float(*x) == *y,
        (Value::Float(x), Value::Int(y)) => *x == int_to_float(*y),
        (Value::String(x), Value::String(y)) => str_equal(x.as_str(), y.as_str()),
        (Value::Bool(x), Value::Bool(y)) => *x == *y,
        (Value::Null, Value::Null) => true,
        _ => false,
    }
}

/// How two values compare, if they do.
pub fn value_compare(a: &Value, b: &Value) -> (r: Option<KeyOrder>)
    ensures
        r == vals_order(a@, b@),
{
    match (a, b) {
        (Value::Int(x), Value::Int(y)) => if *x < *y {
            Some(KeyOrder::Less)
        } else if *x == *y {
            Some(KeyOrder::Equal)
        } else {
            Some(KeyOrder::Greater)
        },
        (Value::Float(x), Value::Float(y)) => compare_floats(*x, *y),
        (Value::Int(x), Value::Float(y)) => compare_floats(int_to_float(*x), *y),
        (Value::Float(x), Value::Int(y)) => compare_floats(*x, int_to_float(*y)),
        (Value::String(x), Value::String(y)) => Some(
            compare_keys(x.as_str().as_bytes(), y.as_str().as_bytes()),
        ),
        _ => None,
    }
}

/// Whether a comparison holds.
pub fn eval_comparison(left: &Value, op: CmpOp, right: &Value) -> (r: bool)
    ensures
        r == holds(left@, op, right@),
{
    match op {
        CmpOp::Eq => values_equal(left, right),
        CmpOp::Neq => !values_equal(left, right),
        CmpOp::Lt => match value_compare(left, right) {
            Some(KeyOrder::Less) => true,
            _ => false,
        },
        CmpOp::Gt => match value_compare(left, right) {
            Some(KeyOrder::Greater) => true,
            _ => false,
        },
        CmpOp::Lte => match value_compare(left, right) {
            Some(KeyOrder::Less) => true,
            Some(KeyOrder::Equal) => true,
            _ => false,
        },
        CmpOp::Gte => match value_compare(left, right) {
            Some(KeyOrder::Greater) => true,
            Some(KeyOrder::Equal) => true,
            _ => false,
        },
    }
}

// ---------------------------------------------------------------------------
// Matching nodes
// ---------------------------------------------------------------------------

/// Whether properties hold what a pattern asks of one name.
pub open spec fn prop_matches(ps: Props, want: (Seq<char>, Ex)) -> bool {
    match (ex_val(want.1), prop_get(ps, want.0)) {
        (Some(v), Some(actual)) => vals_equal(actual, v),
        _ => false,
    }
}

/// Whether a node is what a pattern asks for: it has the label, and its
/// properties equal the literals of the pattern.
pub open spec fn node_fits(np: NodePat, n: NodeVal) -> bool {
    &&& np.label matches Some(l) ==> n.label == l
    &&& forall|i: int|
        0 <= i < np.properties.len() ==> prop_matches(n.props, #[trigger] np.properties[i])
}

/// Whether a node is what a pattern asks for.
pub fn node_matches(np: &NodePattern, node: &Node) -> (r: bool)
    ensures
        r == node_fits(np@, node@),
{
    match &np.label {
        Some(label) => {
            if !str_equal(node.label.as_str(), label.as_str()) {
                return false;
            }
        },
        None => {},
    }
    let mut i: usize = 0;
    while i < np.properties.len()
        invariant
            i <= np.properties@.len(),
            np@.label matches Some(l) ==> node@.label == l,
            forall|j: int|
                0 <= j < i ==> prop_matches(node@.props, #[trigger] np@.properties[j]),
        decreases np.properties@.len() - i,
    {
        let ghost want = np@.properties[i as int];
        let expected = match expr_to_value(np.properties.expr(i)) {
            Some(v) => v,
            None => {
                assert(!prop_matches(node@.props, want));
                return false;
            },
        };
        match node.properties.get(np.properties.name(i)) {
            Some(actual) => {
                if !values_equal(actual, &expected) {
                    assert(!prop_matches(node@.props, want));
                    return false;
                }
            },
            None => {
                assert(!prop_matches(node@.props, want));
                return false;
            },
        }
        i = i + 1;
    }
    true
}

// ---------------------------------------------------------------------------
// Showing values
// ---------------------------------------------------------------------------

/// A value as text.
pub open spec fn value_text(v: Val) -> Seq<char> {
    match v {
        Val::Null => "null"@,
        Val::Bool(b) => if b {
            "true"@
        } else {
            "false"@
        },
        Val::Int(i) => int_text(i as int),
        Val::Float(f) => float_text(f),
        Val::Str(s) => "'"@ + s + "'"@,
    }
}

/// Properties with one more, in front of the first whose name is larger.
pub open spec fn insert_sorted(ps: Props, p: (Seq<char>, Val)) -> Props
    decreases ps.len(),
{
    if ps.len() == 0 || !key_lt(encode_utf8(p.0), encode_utf8(ps.last().0)) {
        ps.push(p)
    } else {
        insert_sorted(ps.drop_last(), p).push(ps.last())
    }
}

/// Properties in the order of their names.
pub open spec fn sorted_props(ps: Props) -> Props
    decreases ps.len(),
{
    if ps.len() == 0 {
        ps
    } else {
        insert_sorted(sorted_props(ps.drop_last()), ps.last())
    }
}

/// Properties as text, with commas between them.
pub open spec fn props_text(ps: Props) -> Seq<char>
    decreases ps.len(),
{
    if ps.len() == 0 {
        Seq::empty()
    } else {
        let front = if ps.len() == 1 {
            Seq::empty()
        } else {
            props_text(ps.drop_last()) + ", "@
        };
        front + ps.last().0 + ": "@ + value_text(ps.last().1)
    }
}

/// A node as text: `(id:Label {name: value, ...})`, with the names in order.
pub open spec fn node_text(n: NodeVal) -> Seq<char> {
    let head = "("@ + nat_text(n.id as nat) + ":"@ + n.label;
    if n.props.len() > 0 {
        head + " {"@ + props_text(sorted_props(n.props)) + "}"@ + ")"@
    } else {
        head + ")"@
    }
}

/// An edge as text: `[id:TYPE]`, or `[id:TYPE {...}]` where it has properties.
pub open spec fn edge_text(e: EdgeVal) -> Seq<char> {
    let head = "["@ + nat_text(e.id as nat) + ":"@ + e.edge_type;
    if e.props.len() > 0 {
        head + " {...}]"@
    } else {
        head + "]"@
    }
}

/// Appends a value as text.
pub fn push_value(s: &mut String, v: &Value)
    ensures
        final(s)@ == old(s)@ + value_text(v@),
{
    match v {
        Value::Null => push_text(s, "null"),
        Value::Bool(b) => if *b {
            push_text(s, "true")
        } else {
            push_text(s, "false")
        },
        Value::Int(n) => push_int(s, *n),
        Value::Float(f) => push_float(s, *f),
        Value::String(t) => {
            push_text(s, "'");
            push_text(s, t.as_str());
            push_text(s, "'");
            assert(s@ =~= old(s)@ + value_text(v@));
        },
    }
}

/// A value as text.
pub fn value_display(v: &Value) -> (r: String)
    ensures
        r@ == value_text(v@),
{
    let mut s: String = String::new();
    push_value(&mut s, v);
    assert(s@ =~= value_text(v@));
    s
}

/// The properties at some positions.
spec fn picked(ps: Props, order: Seq<usize>) -> Props {
    Seq::new(order.len(), |i: int| ps[order[i] as int])
}

/// The positions of properties in the order of their names.
fn sorted_positions(props: &Properties) -> (r: Vec<usize>)
    ensures
        r@.len() == props@.len(),
        forall|i: int| 0 <= i < r@.len() ==> (#[trigger] r@[i]) < props@.len(),
        picked(props@, r@) == sorted_props(props@),
{
    let ghost ps = props@;
    let mut order: Vec<usize> = Vec::new();
    let mut i: usize = 0;
    assert(picked(ps, order@) =~= sorted_props(ps.take(0)));
    while i < props.len()
        invariant
            ps == props@,
            i <= ps.len(),
            order@.len() == i,
            forall|j: int| 0 <= j < order@.len() ==> (#[trigger] order@[j]) < i,
            picked(ps, order@) == sorted_props(ps.take(i as int)),
        decreases ps.len() - i,
    {
        place(props, &mut order, i);
        assert(ps.take(i + 1).drop_last() =~= ps.take(i as int));
        i = i + 1;
    }
    assert(ps.take(i as int) =~= ps);
    order
}

/// Puts position `p` in its place.
fn place(props: &Properties, order: &mut Vec<usize>, p: usize)
    requires
        p < props@.len(),
        forall|j: int| 0 <= j < old(order)@.len() ==> (#[trigger] old(order)@[j]) < p,
    ensures
        final(order)@.len() == old(order)@.len() + 1,
        forall|j: int| 0 <= j < final(order)@.len() ==> (#[trigger] final(order)@[j]) <= p,
        picked(props@, final(order)@) == insert_sorted(
            picked(props@, old(order)@),
            props@[p as int],
        ),
    decreases old(order)@.len(),
{
    let ghost ps = props@;
    let ghost before = order@;
    if order.len() == 0 {
        order.push(p);
        assert(picked(ps, order@) =~= picked(ps, before).push(ps[p as int]));
        return;
    }
    let last: usize = order[order.len() - 1];
    assert(before[before.len() - 1] < p);
    let smaller = match compare_keys(props.name(p).as_bytes(), props.name(last).as_bytes()) {
        KeyOrder::Less => true,
        _ => false,
    };
    assert(picked(ps, before).last() == ps[last as int]);
    if !smaller {
        order.push(p);
        assert(picked(ps, order@) =~= picked(ps, before).push(ps[p as int]));
    } else {
        let _ = order.pop();
        let ghost rest = order@;
        assert(rest =~= before.drop_last());
        assert forall|j: int| 0 <= j < rest.len() implies (#[trigger] rest[j]) < p by {
            assert(before[j] < p);
        }
        place(props, order, p);
        let ghost placed = order@;
        order.push(last);
        assert(picked(ps, rest) =~= picked(ps, before).drop_last());
        assert(picked(ps, order@) =~= picked(ps, placed).push(ps[last as int]));
    }
}

/// A node as a value: a text that shows it.
pub fn node_to_value(node: &Node) -> (r: Value)
    ensures
        r@ == Val::Str(node_text(node@)),
{
    let mut s = copy_str("(");
    push_number(&mut s, node.id);
    push_text(&mut s, ":");
    push_text(&mut s, node.label.as_str());
    let ghost ps = node.properties@;
    if node.properties.len() > 0 {
        push_text(&mut s, " {");
        let ghost head = s@;
        let order = sorted_positions(&node.properties);
        let ghost sorted = sorted_props(ps);
        let mut i: usize = 0;
        assert(sorted.take(0) =~= Seq::empty());
        assert(s@ =~= head + props_text(sorted.take(0)));
        while i < order.len()
            invariant
                ps == node.properties@,
                order@.len() == ps.len(),
                sorted == sorted_props(ps),
                picked(ps, order@) == sorted,
                forall|j: int| 0 <= j < order@.len() ==> (#[trigger] order@[j]) < ps.len(),
                i <= order@.len(),
                s@ == head + props_text(sorted.take(i as int)),
            decreases order@.len() - i,
        {
            let k: usize = order[i];
            proof {
                assert(sorted[i as int] == ps[k as int]);
                assert(sorted.take(i + 1).drop_last() =~= sorted.take(i as int));
                assert(sorted.take(i + 1).last() == sorted[i as int]);
            }
            let ghost before = s@;
            if i > 0 {
                push_text(&mut s, ", ");
            }
            push_text(&mut s, node.properties.name(k));
            push_text(&mut s, ": ");
            push_value(&mut s, node.properties.value(k));
            i = i + 1;
            assert(s@ =~= head + props_text(sorted.take(i as int)));
        }
        assert(sorted.take(i as int) =~= sorted);
        push_text(&mut s, "}");
    }
    push_text(&mut s, ")");
    Value::String(s)
}

/// An edge as a value: a text that shows it.
pub fn edge_to_value(edge: &Edge) -> (r: Value)
    ensures
        r@ == Val::Str(edge_text(edge@)),
{
    let mut s = copy_str("[");
    push_number(&mut s, edge.id);
    push_text(&mut s, ":");
    push_text(&mut s, edge.edge_type.as_str());
    if edge.properties.len() > 0 {
        push_text(&mut s, " {...}]");
    } else {
        push_text(&mut s, "]");
    }
    Value::String(s)
}

} // verus!
