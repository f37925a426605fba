//! How statements are written, and that what is written is what is parsed.

use crate::cypher::ast::{
    exs_set, lemma_exs_index, CmpOp, EdgeDirection, EdgePat, Elem, Ex, Exs, Item, Lit, MatchStmt,
    NodePat, Ret, Stmt,
};
use crate::cypher::grammar::{
    and_at, and_rest, atom_at, clause_at, comparison_at, comparison_op, edge_at, edge_body_at,
    item_at, item_atom_at, items_rest, limit_at, match_at, names_rest, node_at, not_at,
    opt_ident_at, opt_name_at, opt_props_at, or_at, or_rest, outcome_at, path_at, path_rest,
    plain_item_at, prop_at, props_rest, return_at, statement_at, tok, where_at, Parsed,
};
use crate::cypher::lexer::Tok;
use crate::cypher::walks::{edge_pat, hops, is_path, node_pat};
use vstd::prelude::*;

verus! {

// ---------------------------------------------------------------------------
// Tokens in their place
// ---------------------------------------------------------------------------

/// Whether tokens stand at a position.
#[verifier::opaque]
spec fn placed(ts: Seq<Tok>, p: int, s: Seq<Tok>) -> bool {
    &&& 0 <= p
    &&& p + s.len() <= ts.len()
    &&& ts.subrange(p, p + s.len()) == s
}

proof fn lemma_one(ts: Seq<Tok>, p: int, t: Tok)
    requires
        placed(ts, p, seq![t]),
    ensures
        tok(ts, p) == t,
        0 <= p < ts.len(),
{
    reveal(placed);
    assert(ts.subrange(p, p + 1)[0] == t);
}

proof fn lemma_cat(ts: Seq<Tok>, p: int, a: Seq<Tok>, b: Seq<Tok>)
    requires
        placed(ts, p, a + b),
    ensures
        placed(ts, p, a),
        placed(ts, p + a.len(), b),
        0 <= p,
        p + a.len() + b.len() <= ts.len(),
{
    reveal(placed);
    let s = ts.subrange(p, p + (a + b).len());
    assert(ts.subrange(p, p + a.len()) =~= s.subrange(0, a.len() as int));
    assert(ts.subrange(p + a.len(), p + a.len() + b.len()) =~= s.subrange(
        a.len() as int,
        (a.len() + b.len()) as int,
    ));
    assert((a + b).subrange(0, a.len() as int) =~= a);
    assert((a + b).subrange(a.len() as int, (a.len() + b.len()) as int) =~= b);
}

proof fn lemma_head(ts: Seq<Tok>, p: int, s: Seq<Tok>)
    requires
        placed(ts, p, s),
    ensures
        0 <= p,
        p + s.len() <= ts.len(),
        s.len() > 0 ==> tok(ts, p) == s[0],
{
    reveal(placed);
    if s.len() > 0 {
        assert(ts.subrange(p, p + s.len())[0] == s[0]);
    }
}

// ---------------------------------------------------------------------------
// Expressions
// ---------------------------------------------------------------------------

/// How tightly an expression binds: `OR` least, then `AND`, `NOT` and a
/// comparison, and a literal or a property most.
pub open spec fn tightness(e: Ex) -> int {
    match e {
        Ex::Or(_, _) => 0,
        Ex::And(_, _) => 1,
        Ex::Not(_) => 2,
        Ex::Comparison(_, _, _) => 3,
        _ => 4,
    }
}

/// How a literal is written.
pub open spec fn lit_tok(l: Lit) -> Tok {
    match l {
        Lit::Int(n) => Tok::IntLit(n),
        Lit::Float(f) => Tok::FloatLit(f),
        Lit::Str(s) => Tok::StringLit(s),
        Lit::Bool(b) => if b {
            Tok::True
        } else {
            Tok::False
        },
        Lit::Null => Tok::Null,
    }
}

/// How a comparison is written.
pub open spec fn op_tok(op: CmpOp) -> Tok {
    match op {
        CmpOp::Eq => Tok::Eq,
        CmpOp::Neq => Tok::Neq,
        CmpOp::Lt => Tok::Lt,
        CmpOp::Gt => Tok::Gt,
        CmpOp::Lte => Tok::Lte,
        CmpOp::Gte => Tok::Gte,
    }
}

/// How an expression is written, without brackets around it. `AND` and `OR`
/// group to the left.
pub open spec fn bare_toks(e: Ex) -> Seq<Tok>
    decreases e, 0int,
{
    match e {
        Ex::Literal(l) => seq![lit_tok(l)],
        Ex::Property(v, p) => seq![Tok::Ident(v), Tok::Dot, Tok::Ident(p)],
        Ex::Comparison(a, op, b) => ex_toks(*a, 4) + seq![op_tok(op)] + ex_toks(*b, 4),
        Ex::Not(a) => seq![Tok::Not] + ex_toks(*a, 2),
        Ex::And(a, b) => ex_toks(*a, 1) + seq![Tok::And] + ex_toks(*b, 2),
        Ex::Or(a, b) => ex_toks(*a, 0) + seq![Tok::Or] + ex_toks(*b, 1),
    }
}

/// How an expression is written where it has to bind so tightly: in brackets if
/// it does not by itself.
pub open spec fn ex_toks(e: Ex, level: int) -> Seq<Tok>
    decreases e, 1int,
{
    if tightness(e) < level {
        seq![Tok::LParen] + bare_toks(e) + seq![Tok::RParen]
    } else {
        bare_toks(e)
    }
}

/// What is parsed at a level.
#[verifier::opaque]
spec fn level_at(ts: Seq<Tok>, p: int, level: int) -> Parsed<Ex> {
    if level == 4 {
        atom_at(ts, p)
    } else if level == 3 {
        comparison_at(ts, p)
    } else if level == 2 {
        not_at(ts, p)
    } else if level == 1 {
        and_at(ts, p)
    } else {
        or_at(ts, p)
    }
}

/// What is parsed at a level once an expression stands there.
#[verifier::opaque]
spec fn level_rest(ts: Seq<Tok>, q: int, e: Ex, level: int) -> Parsed<Ex> {
    if level >= 2 {
        Ok((e, q))
    } else if level == 1 {
        and_rest(ts, q, e)
    } else {
        or_rest(ts, q, e)
    }
}

proof fn lemma_first(e: Ex, level: int)
    ensures
        ex_toks(e, level).len() > 0,
        bare_toks(e).len() > 0,
        level >= 3 ==> !(ex_toks(e, level)[0] is Not),
    decreases e,
{
    match e {
        Ex::Comparison(a, _, b) => {
            lemma_first(*a, 4);
            lemma_first(*b, 4);
            assert(bare_toks(e)[0] == ex_toks(*a, 4)[0]);
        },
        Ex::Not(a) => {
            lemma_first(*a, 2);
        },
        Ex::And(a, b) => {
            lemma_first(*a, 1);
        },
        Ex::Or(a, b) => {
            lemma_first(*a, 0);
        },
        _ => {},
    }
}

spec fn rank(e: Ex, level: int) -> int {
    if level <= tightness(e) {
        tightness(e) - level
    } else {
        10 + (4 - level)
    }
}

/// Where no operator follows, an expression is all that is parsed.
proof fn lemma_done(ts: Seq<Tok>, q: int, e: Ex, level: int)
    requires
        level >= 2 || (level == 1 && !(tok(ts, q) is And)) || (level == 0 && !(tok(ts, q) is Or)),
    ensures
        level_rest(ts, q, e, level) == Ok::<(Ex, int), (int, Seq<char>)>((e, q)),
{
    reveal(level_rest);
}

proof fn lemma_bracketed(ts: Seq<Tok>, p: int, q: int, e: Ex)
    requires
        0 <= p < ts.len(),
        tok(ts, p) is LParen,
        tok(ts, q) is RParen,
        level_at(ts, p + 1, 0) == level_rest(ts, q, e, 0),
    ensures
        level_at(ts, p, 4) == level_rest(ts, q + 1, e, 4),
{
    lemma_done(ts, q, e, 0);
    reveal(level_at);
    reveal(level_rest);
}

proof fn lemma_compared(ts: Seq<Tok>, p: int, q: int, r: int, a: Ex, op: CmpOp, b: Ex)
    requires
        0 <= p < q < ts.len(),
        tok(ts, q) == op_tok(op),
        level_at(ts, p, 4) == level_rest(ts, q, a, 4),
        level_at(ts, q + 1, 4) == level_rest(ts, r, b, 4),
    ensures
        level_at(ts, p, 3) == level_rest(
            ts,
            r,
            Ex::Comparison(Box::new(a), op, Box::new(b)),
            3,
        ),
{
    reveal(level_at);
    reveal(level_rest);
    assert(comparison_op(op_tok(op)) == Some(op));
}

proof fn lemma_negated(ts: Seq<Tok>, p: int, r: int, a: Ex)
    requires
        0 <= p < ts.len(),
        tok(ts, p) is Not,
        level_at(ts, p + 1, 2) == level_rest(ts, r, a, 2),
    ensures
        level_at(ts, p, 2) == level_rest(ts, r, Ex::Not(Box::new(a)), 2),
{
    reveal(level_at);
    reveal(level_rest);
}

proof fn lemma_joined(ts: Seq<Tok>, p: int, q: int, r: int, a: Ex, b: Ex)
    requires
        0 <= p < q < r <= ts.len(),
        tok(ts, q) is And,
        level_at(ts, p, 1) == level_rest(ts, q, a, 1),
        level_at(ts, q + 1, 2) == level_rest(ts, r, b, 2),
    ensures
        level_at(ts, p, 1) == level_rest(ts, r, Ex::And(Box::new(a), Box::new(b)), 1),
{
    reveal(level_at);
    reveal(level_rest);
}

proof fn lemma_parted(ts: Seq<Tok>, p: int, q: int, r: int, a: Ex, b: Ex)
    requires
        0 <= p < q < r <= ts.len(),
        tok(ts, q) is Or,
        !(tok(ts, r) is And),
        level_at(ts, p, 0) == level_rest(ts, q, a, 0),
        level_at(ts, q + 1, 1) == level_rest(ts, r, b, 1),
    ensures
        level_at(ts, p, 0) == level_rest(ts, r, Ex::Or(Box::new(a), Box::new(b)), 0),
{
    lemma_done(ts, r, b, 1);
    reveal(level_at);
    reveal(level_rest);
}

proof fn lemma_level_down(ts: Seq<Tok>, p: int, q: int, e: Ex, level: int)
    requires
        0 <= level < 4,
        0 <= p < q <= ts.len(),
        comparison_op(tok(ts, q)) is None,
        level == 0 ==> !(tok(ts, q) is And),
        level == 2 ==> !(tok(ts, p) is Not),
        level_at(ts, p, level + 1) == level_rest(ts, q, e, level + 1),
    ensures
        level_at(ts, p, level) == level_rest(ts, q, e, level),
{
    if level == 0 {
        lemma_done(ts, q, e, 1);
    }
    reveal(level_at);
    reveal(level_rest);
}

proof fn lemma_atom_written(e: Ex, ts: Seq<Tok>, p: int)
    requires
        e is Literal || e is Property,
        placed(ts, p, bare_toks(e)),
    ensures
        level_at(ts, p, 4) == level_rest(ts, p + bare_toks(e).len(), e, 4),
{
    reveal(level_at);
    reveal(level_rest);
    match e {
        Ex::Literal(l) => {
            lemma_one(ts, p, lit_tok(l));
        },
        Ex::Property(v, x) => {
            lemma_property(ts, p, v, x);
        },
        _ => {},
    }
}

/// Two operands with an operator between them.
proof fn lemma_operands(ts: Seq<Tok>, p: int, x: Seq<Tok>, t: Tok, y: Seq<Tok>)
    requires
        placed(ts, p, x + seq![t] + y),
    ensures
        placed(ts, p, x),
        placed(ts, p + x.len() + 1, y),
        tok(ts, p + x.len()) == t,
        0 <= p,
        p + x.len() + 1 + y.len() <= ts.len(),
{
    lemma_cat(ts, p, x + seq![t], y);
    lemma_cat(ts, p, x, seq![t]);
    lemma_one(ts, p + x.len(), t);
}

/// An expression that is written at a position is parsed there.
proof fn lemma_ex(e: Ex, level: int, ts: Seq<Tok>, p: int)
    requires
        0 <= level <= 4,
        placed(ts, p, ex_toks(e, level)),
        level < 4 ==> comparison_op(tok(ts, p + ex_toks(e, level).len())) is None,
        level == 0 ==> !(tok(ts, p + ex_toks(e, level).len()) is And),
    ensures
        level_at(ts, p, level) == level_rest(ts, p + ex_toks(e, level).len(), e, level),
    decreases e, rank(e, level),
{
    let s = ex_toks(e, level);
    let q = p + s.len();
    lemma_first(e, level);
    lemma_head(ts, p, s);
    if level == 4 && tightness(e) < 4 {
        let b = bare_toks(e);
        lemma_cat(ts, p, seq![Tok::LParen] + b, seq![Tok::RParen]);
        lemma_cat(ts, p, seq![Tok::LParen], b);
        lemma_one(ts, p, Tok::LParen);
        lemma_one(ts, p + 1 + b.len(), Tok::RParen);
        lemma_ex(e, 0, ts, p + 1);
        lemma_bracketed(ts, p, p + 1 + b.len(), e);
    } else if level != tightness(e) {
        lemma_first(e, 3);
        lemma_ex(e, level + 1, ts, p);
        lemma_level_down(ts, p, q, e, level);
    } else {
        match e {
            Ex::Comparison(a, op, b) => {
                let (x, y) = (ex_toks(*a, 4), ex_toks(*b, 4));
                lemma_first(*a, 4);
                lemma_operands(ts, p, x, op_tok(op), y);
                lemma_ex(*a, 4, ts, p);
                lemma_ex(*b, 4, ts, p + x.len() + 1);
                lemma_compared(ts, p, p + x.len(), q, *a, op, *b);
            },
            Ex::Not(a) => {
                let x = ex_toks(*a, 2);
                lemma_cat(ts, p, seq![Tok::Not], x);
                lemma_one(ts, p, Tok::Not);
                lemma_ex(*a, 2, ts, p + 1);
                lemma_negated(ts, p, q, *a);
            },
            Ex::And(a, b) => {
                let (x, y) = (ex_toks(*a, 1), ex_toks(*b, 2));
                lemma_first(*a, 1);
                lemma_first(*b, 2);
                lemma_operands(ts, p, x, Tok::And, y);
                lemma_ex(*a, 1, ts, p);
                lemma_ex(*b, 2, ts, p + x.len() + 1);
                lemma_joined(ts, p, p + x.len(), q, *a, *b);
            },
            Ex::Or(a, b) => {
                let (x, y) = (ex_toks(*a, 0), ex_toks(*b, 1));
                lemma_first(*a, 0);
                lemma_first(*b, 1);
                lemma_operands(ts, p, x, Tok::Or, y);
                lemma_ex(*a, 0, ts, p);
                lemma_ex(*b, 1, ts, p + x.len() + 1);
                lemma_parted(ts, p, p + x.len(), q, *a, *b);
            },
            _ => {
                lemma_atom_written(e, ts, p);
            },
        }
    }
}

proof fn lemma_property(ts: Seq<Tok>, p: int, v: Seq<char>, x: Seq<char>)
    requires
        placed(ts, p, seq![Tok::Ident(v), Tok::Dot, Tok::Ident(x)]),
    ensures
        tok(ts, p) == Tok::Ident(v),
        tok(ts, p + 1) == Tok::Dot,
        tok(ts, p + 2) == Tok::Ident(x),
        0 <= p,
        p + 3 <= ts.len(),
{
    reveal(placed);
    let s = ts.subrange(p, p + 3);
    assert(s[0] == ts[p] && s[1] == ts[p + 1] && s[2] == ts[p + 2]);
}

/// A condition that is written at a position is parsed there.
proof fn lemma_condition(e: Ex, ts: Seq<Tok>, p: int)
    requires
        placed(ts, p, ex_toks(e, 0)),
        comparison_op(tok(ts, p + ex_toks(e, 0).len())) is None,
        !(tok(ts, p + ex_toks(e, 0).len()) is And),
        !(tok(ts, p + ex_toks(e, 0).len()) is Or),
    ensures
        or_at(ts, p) == Ok::<(Ex, int), (int, Seq<char>)>((e, p + ex_toks(e, 0).len())),
        ex_toks(e, 0).len() > 0,
        p + ex_toks(e, 0).len() <= ts.len(),
{
    lemma_ex(e, 0, ts, p);
    lemma_done(ts, p + ex_toks(e, 0).len(), e, 0);
    lemma_first(e, 0);
    lemma_head(ts, p, ex_toks(e, 0));
    reveal(level_at);
}

// ---------------------------------------------------------------------------
// Paths
// ---------------------------------------------------------------------------

/// Whether no name occurs twice.
pub open spec fn once(es: Exs) -> bool {
    forall|i: int, j: int|
        0 <= i < j < es.len() ==> (#[trigger] es[i]).0 != (#[trigger] es[j]).0
}

/// How a property is written.
pub open spec fn prop_toks(k: Seq<char>, e: Ex) -> Seq<Tok> {
    seq![Tok::Ident(k)] + (seq![Tok::Colon] + ex_toks(e, 0))
}

/// How the properties from `i` on are written, each behind a comma.
pub open spec fn more_props(es: Exs, i: int) -> Seq<Tok>
    decreases es.len() - i,
{
    if i >= es.len() {
        Seq::empty()
    } else {
        seq![Tok::Comma] + (prop_toks(es[i].0, es[i].1) + more_props(es, i + 1))
    }
}

/// How properties are written: in braces, or not at all where there are none.
pub open spec fn props_toks(es: Exs) -> Seq<Tok> {
    if es.len() == 0 {
        Seq::empty()
    } else {
        seq![Tok::LBrace] + (prop_toks(es[0].0, es[0].1) + (more_props(es, 1)
            + seq![Tok::RBrace]))
    }
}

/// How a variable is written, if there is one.
pub open spec fn var_toks(v: Option<Seq<char>>) -> Seq<Tok> {
    if v is Some {
        seq![Tok::Ident(v->0)]
    } else {
        Seq::empty()
    }
}

/// How a label or a type is written, if there is one.
pub open spec fn name_toks(n: Option<Seq<char>>) -> Seq<Tok> {
    if n is Some {
        seq![Tok::Colon] + seq![Tok::Ident(n->0)]
    } else {
        Seq::empty()
    }
}

/// How a node is written.
#[verifier::opaque]
pub open spec fn node_toks(np: NodePat) -> Seq<Tok> {
    seq![Tok::LParen] + (var_toks(np.variable) + (name_toks(np.label) + (props_toks(np.properties)
        + seq![Tok::RParen])))
}

/// How the inside of an edge is written: in square brackets, or not at all
/// where it has neither a variable nor a type.
pub open spec fn body_toks(ep: EdgePat) -> Seq<Tok> {
    if ep.variable is None && ep.edge_type is None {
        Seq::empty()
    } else {
        seq![Tok::LBracket] + (var_toks(ep.variable) + (name_toks(ep.edge_type)
            + seq![Tok::RBracket]))
    }
}

/// How an edge is written: with an arrow to the right, to the left, or without
/// one.
#[verifier::opaque]
pub open spec fn edge_toks(ep: EdgePat) -> Seq<Tok> {
    match ep.direction {
        EdgeDirection::Right => seq![Tok::Dash] + (body_toks(ep) + seq![Tok::Arrow]),
        EdgeDirection::Left => seq![Tok::Lt] + (seq![Tok::Dash] + (body_toks(ep)
            + seq![Tok::Dash])),
        EdgeDirection::Both => seq![Tok::Dash] + (body_toks(ep) + seq![Tok::Dash]),
    }
}

/// How the edges of a path from `i` on are written, each with the node behind
/// it.
pub open spec fn more_path(path: Seq<Elem>, i: int) -> Seq<Tok>
    decreases hops(path) - i,
{
    if i >= hops(path) {
        Seq::empty()
    } else {
        edge_toks(edge_pat(path, i)) + (node_toks(node_pat(path, i + 1)) + more_path(path, i + 1))
    }
}

/// How a path is written.
pub open spec fn path_toks(path: Seq<Elem>) -> Seq<Tok> {
    node_toks(node_pat(path, 0)) + more_path(path, 0)
}

proof fn lemma_written_prop(k: Seq<char>, e: Ex, ts: Seq<Tok>, p: int)
    requires
        placed(ts, p, prop_toks(k, e)),
        tok(ts, p + prop_toks(k, e).len()) is Comma || tok(ts, p + prop_toks(k, e).len()) is RBrace,
    ensures
        prop_at(ts, p) == Ok::<((Seq<char>, Ex), int), (int, Seq<char>)>(
            ((k, e), p + prop_toks(k, e).len()),
        ),
        p + prop_toks(k, e).len() <= ts.len(),
        prop_toks(k, e).len() > 0,
{
    let x = ex_toks(e, 0);
    lemma_cat(ts, p, seq![Tok::Ident(k)], seq![Tok::Colon] + x);
    lemma_cat(ts, p + 1, seq![Tok::Colon], x);
    lemma_one(ts, p, Tok::Ident(k));
    lemma_one(ts, p + 1, Tok::Colon);
    lemma_condition(e, ts, p + 2);
}

proof fn lemma_set_next(es: Exs, i: int)
    requires
        once(es),
        0 <= i < es.len(),
    ensures
        exs_set(es.take(i), es[i].0, es[i].1) == es.take(i + 1),
{
    let f = es.take(i);
    assert forall|j: int| 0 <= j < f.len() implies (#[trigger] f[j]).0 != es[i].0 by {
        assert(es[j].0 != es[i].0);
    }
    lemma_exs_index(f, es[i].0, i);
    assert(f.push((es[i].0, es[i].1)) =~= es.take(i + 1));
}

proof fn lemma_written_props(es: Exs, i: int, ts: Seq<Tok>, p: int)
    requires
        once(es),
        0 <= i <= es.len(),
        placed(ts, p, more_props(es, i)),
        tok(ts, p + more_props(es, i).len()) is RBrace,
    ensures
        props_rest(ts, p, es.take(i)) == Ok::<(Exs, int), (int, Seq<char>)>(
            (es, p + more_props(es, i).len()),
        ),
    decreases es.len() - i,
{
    if i == es.len() {
        assert(es.take(i) =~= es);
    } else {
        let x = prop_toks(es[i].0, es[i].1);
        let y = more_props(es, i + 1);
        lemma_cat(ts, p, seq![Tok::Comma], x + y);
        lemma_cat(ts, p + 1, x, y);
        lemma_one(ts, p, Tok::Comma);
        lemma_head(ts, p + 1 + x.len(), y);
        lemma_written_prop(es[i].0, es[i].1, ts, p + 1);
        lemma_set_next(es, i);
        lemma_written_props(es, i + 1, ts, p + 1 + x.len());
    }
}

proof fn lemma_written_braces(es: Exs, ts: Seq<Tok>, p: int)
    requires
        once(es),
        placed(ts, p, props_toks(es)),
        !(tok(ts, p + props_toks(es).len()) is LBrace),
    ensures
        opt_props_at(ts, p) == Ok::<(Exs, int), (int, Seq<char>)>((es, p + props_toks(es).len())),
{
    if es.len() == 0 {
        assert(es =~= Seq::empty());
    } else {
        let x = prop_toks(es[0].0, es[0].1);
        let y = more_props(es, 1);
        lemma_cat(ts, p, seq![Tok::LBrace], x + (y + seq![Tok::RBrace]));
        lemma_cat(ts, p + 1, x, y + seq![Tok::RBrace]);
        lemma_cat(ts, p + 1 + x.len(), y, seq![Tok::RBrace]);
        lemma_one(ts, p, Tok::LBrace);
        lemma_one(ts, p + 1 + x.len() + y.len(), Tok::RBrace);
        lemma_head(ts, p + 1 + x.len(), y);
        lemma_head(ts, p + 1, x);
        lemma_written_prop(es[0].0, es[0].1, ts, p + 1);
        lemma_set_next(es, 0);
        assert(es.take(0) =~= Seq::empty());
        lemma_written_props(es, 1, ts, p + 1 + x.len());
        assert(tok(ts, p + 1) is Ident);
    }
}

/// A name that may be missing.
proof fn lemma_written_var(v: Option<Seq<char>>, ts: Seq<Tok>, p: int)
    requires
        placed(ts, p, var_toks(v)),
        !(tok(ts, p + var_toks(v).len()) is Ident),
    ensures
        opt_ident_at(ts, p) == (v, p + var_toks(v).len()),
{
    if v is Some {
        lemma_one(ts, p, Tok::Ident(v->0));
    }
}

/// A label or a type that may be missing.
proof fn lemma_written_name(n: Option<Seq<char>>, ts: Seq<Tok>, p: int)
    requires
        placed(ts, p, name_toks(n)),
        !(tok(ts, p + name_toks(n).len()) is Colon),
    ensures
        opt_name_at(ts, p) == Ok::<
            (Option<Seq<char>>, int),
            (int, Seq<char>),
        >((n, p + name_toks(n).len())),
{
    if n is Some {
        lemma_cat(ts, p, seq![Tok::Colon], seq![Tok::Ident(n->0)]);
        lemma_one(ts, p, Tok::Colon);
        lemma_one(ts, p + 1, Tok::Ident(n->0));
    }
}

proof fn lemma_written_node(np: NodePat, ts: Seq<Tok>, p: int)
    requires
        once(np.properties),
        placed(ts, p, node_toks(np)),
    ensures
        node_at(ts, p) == Ok::<(NodePat, int), (int, Seq<char>)>((np, p + node_toks(np).len())),
        node_toks(np).len() > 0,
        p + node_toks(np).len() <= ts.len(),
        0 <= p,
{
    reveal(node_toks);
    let v = var_toks(np.variable);
    let n = name_toks(np.label);
    let b = props_toks(np.properties);
    let end = seq![Tok::RParen];
    lemma_cat(ts, p, seq![Tok::LParen], v + (n + (b + end)));
    lemma_cat(ts, p + 1, v, n + (b + end));
    lemma_cat(ts, p + 1 + v.len(), n, b + end);
    lemma_cat(ts, p + 1 + v.len() + n.len(), b, end);
    lemma_one(ts, p, Tok::LParen);
    lemma_one(ts, p + 1 + v.len() + n.len() + b.len(), Tok::RParen);
    lemma_head(ts, p + 1 + v.len() + n.len(), b + end);
    assert((b + end)[0] == (if b.len() > 0 {
        b[0]
    } else {
        Tok::RParen
    }));
    lemma_head(ts, p + 1 + v.len(), n + (b + end));
    assert((n + (b + end))[0] == (if n.len() > 0 {
        n[0]
    } else {
        (b + end)[0]
    }));
    lemma_written_var(np.variable, ts, p + 1);
    lemma_written_name(np.label, ts, p + 1 + v.len());
    lemma_written_braces(np.properties, ts, p + 1 + v.len() + n.len());
}

proof fn lemma_written_body(ep: EdgePat, ts: Seq<Tok>, p: int)
    requires
        placed(ts, p, body_toks(ep)),
        !(tok(ts, p + body_toks(ep).len()) is LBracket),
    ensures
        edge_body_at(ts, p) == Ok::<
            ((Option<Seq<char>>, Option<Seq<char>>), int),
            (int, Seq<char>),
        >(((ep.variable, ep.edge_type), p + body_toks(ep).len())),
{
    if ep.variable is Some || ep.edge_type is Some {
        let v = var_toks(ep.variable);
        let n = name_toks(ep.edge_type);
        let end = seq![Tok::RBracket];
        lemma_cat(ts, p, seq![Tok::LBracket], v + (n + end));
        lemma_cat(ts, p + 1, v, n + end);
        lemma_cat(ts, p + 1 + v.len(), n, end);
        lemma_one(ts, p, Tok::LBracket);
        lemma_one(ts, p + 1 + v.len() + n.len(), Tok::RBracket);
        lemma_head(ts, p + 1 + v.len(), n + end);
        assert((n + end)[0] == (if n.len() > 0 {
            n[0]
        } else {
            Tok::RBracket
        }));
        lemma_written_var(ep.variable, ts, p + 1);
        lemma_written_name(ep.edge_type, ts, p + 1 + v.len());
    }
}

proof fn lemma_written_edge(ep: EdgePat, ts: Seq<Tok>, p: int)
    requires
        placed(ts, p, edge_toks(ep)),
    ensures
        edge_at(ts, p) == Ok::<(EdgePat, int), (int, Seq<char>)>((ep, p + edge_toks(ep).len())),
        edge_toks(ep).len() > 0,
        p + edge_toks(ep).len() <= ts.len(),
        0 <= p,
        tok(ts, p) is Dash || tok(ts, p) is Lt,
{
    reveal(edge_toks);
    let b = body_toks(ep);
    let end = if ep.direction == EdgeDirection::Right {
        Tok::Arrow
    } else {
        Tok::Dash
    };
    let q = if ep.direction == EdgeDirection::Left {
        lemma_cat(ts, p, seq![Tok::Lt], seq![Tok::Dash] + (b + seq![end]));
        lemma_one(ts, p, Tok::Lt);
        p + 1
    } else {
        p
    };
    lemma_cat(ts, q, seq![Tok::Dash], b + seq![end]);
    lemma_one(ts, q, Tok::Dash);
    lemma_cat(ts, q + 1, b, seq![end]);
    lemma_one(ts, q + 1 + b.len(), end);
    lemma_written_body(ep, ts, q + 1);
}

/// Whether a path is one, and no property name occurs twice in a node of it.
pub open spec fn writable_path(path: Seq<Elem>) -> bool {
    &&& is_path(path)
    &&& forall|i: int| 0 <= i <= hops(path) ==> once((#[trigger] node_pat(path, i)).properties)
}

proof fn lemma_written_rest(path: Seq<Elem>, i: int, ts: Seq<Tok>, p: int)
    requires
        writable_path(path),
        0 <= i <= hops(path),
        placed(ts, p, more_path(path, i)),
        !(tok(ts, p + more_path(path, i).len()) is Dash),
        !(tok(ts, p + more_path(path, i).len()) is Lt),
    ensures
        path_rest(ts, p, path.take(2 * i + 1)) == Ok::<(Seq<Elem>, int), (int, Seq<char>)>(
            (path, p + more_path(path, i).len()),
        ),
    decreases hops(path) - i,
{
    if i == hops(path) {
        assert(path.take(2 * i + 1) =~= path);
    } else {
        let (ep, np) = (edge_pat(path, i), node_pat(path, i + 1));
        let x = edge_toks(ep);
        let y = node_toks(np);
        let z = more_path(path, i + 1);
        lemma_cat(ts, p, x, y + z);
        lemma_cat(ts, p + x.len(), y, z);
        lemma_written_edge(ep, ts, p);
        assert(once(np.properties));
        lemma_written_node(np, ts, p + x.len());
        let acc = path.take(2 * i + 1);
        lemma_path_step(ts, p, p + x.len(), p + x.len() + y.len(), ep, np, acc);
        lemma_take_hop(path, i);
        lemma_written_rest(path, i + 1, ts, p + x.len() + y.len());
    }
}

proof fn lemma_path_step(
    ts: Seq<Tok>,
    p: int,
    q: int,
    r: int,
    ep: EdgePat,
    np: NodePat,
    acc: Seq<Elem>,
)
    requires
        0 <= p < r <= ts.len(),
        tok(ts, p) is Dash || tok(ts, p) is Lt,
        edge_at(ts, p) == Ok::<(EdgePat, int), (int, Seq<char>)>((ep, q)),
        node_at(ts, q) == Ok::<(NodePat, int), (int, Seq<char>)>((np, r)),
    ensures
        path_rest(ts, p, acc) == path_rest(
            ts,
            r,
            acc.push(Elem::Edge(ep)).push(Elem::Node(np)),
        ),
{
}

proof fn lemma_take_hop(path: Seq<Elem>, i: int)
    requires
        is_path(path),
        0 <= i < hops(path),
    ensures
        path.take(2 * i + 1).push(Elem::Edge(edge_pat(path, i))).push(
            Elem::Node(node_pat(path, i + 1)),
        ) == path.take(2 * (i + 1) + 1),
{
    assert(path[2 * i + 1] is Edge);
    assert(path[2 * i + 2] is Node);
    assert(path.take(2 * i + 1).push(Elem::Edge(edge_pat(path, i))).push(
        Elem::Node(node_pat(path, i + 1)),
    ) =~= path.take(2 * (i + 1) + 1));
}

proof fn lemma_written_path(path: Seq<Elem>, ts: Seq<Tok>, p: int)
    requires
        writable_path(path),
        placed(ts, p, path_toks(path)),
        !(tok(ts, p + path_toks(path).len()) is Dash),
        !(tok(ts, p + path_toks(path).len()) is Lt),
    ensures
        path_at(ts, p) == Ok::<(Seq<Elem>, int), (int, Seq<char>)>(
            (path, p + path_toks(path).len()),
        ),
        p + path_toks(path).len() <= ts.len(),
{
    let np = node_pat(path, 0);
    let x = node_toks(np);
    lemma_cat(ts, p, x, more_path(path, 0));
    assert(once(np.properties));
    lemma_written_node(np, ts, p);
    lemma_written_rest(path, 0, ts, p + x.len());
    assert(path[0] is Node);
    assert(path.take(1) =~= seq![Elem::Node(np)]);
}

// ---------------------------------------------------------------------------
// Statements
// ---------------------------------------------------------------------------

/// Whether an item is a variable or a property.
pub open spec fn atom_item(item: Item) -> bool {
    item is Variable || item is Property
}

/// Whether an item is a variable, a property, or the `count` of one.
pub open spec fn plain_item(item: Item) -> bool {
    atom_item(item) || (item matches Item::FunctionCall(f, a) && f == "count"@ && atom_item(*a))
}

/// Whether an item can be written: it has at most one alias.
pub open spec fn writable_item(item: Item) -> bool {
    plain_item(item) || (item matches Item::Alias(a, _) && plain_item(*a))
}

/// How a variable or a property is written.
pub open spec fn atom_item_toks(item: Item) -> Seq<Tok> {
    match item {
        Item::Variable(v) => seq![Tok::Ident(v)],
        Item::Property(v, p) => seq![Tok::Ident(v), Tok::Dot, Tok::Ident(p)],
        _ => Seq::empty(),
    }
}

/// How an item without an alias is written.
pub open spec fn plain_item_toks(item: Item) -> Seq<Tok> {
    match item {
        Item::FunctionCall(_, a) => seq![Tok::Count] + (seq![Tok::LParen] + (atom_item_toks(*a)
            + seq![Tok::RParen])),
        _ => atom_item_toks(item),
    }
}

/// How an item is written.
pub open spec fn item_toks(item: Item) -> Seq<Tok> {
    match item {
        Item::Alias(a, n) => plain_item_toks(*a) + (seq![Tok::As] + seq![Tok::Ident(n)]),
        _ => plain_item_toks(item),
    }
}

/// How the items from `i` on are written, each behind a comma.
pub open spec fn more_items(items: Seq<Item>, i: int) -> Seq<Tok>
    decreases items.len() - i,
{
    if i >= items.len() {
        Seq::empty()
    } else {
        seq![Tok::Comma] + (item_toks(items[i]) + more_items(items, i + 1))
    }
}

/// How a limit is written, if there is one.
pub open spec fn limit_toks(limit: Option<u64>) -> Seq<Tok> {
    if limit is Some {
        seq![Tok::Limit] + seq![Tok::IntLit(limit->0 as i64)]
    } else {
        Seq::empty()
    }
}

/// How `RETURN` is written.
pub open spec fn return_toks(r: Ret) -> Seq<Tok> {
    seq![Tok::Return] + (item_toks(r.items[0]) + (more_items(r.items, 1) + limit_toks(r.limit)))
}

/// How the names from `i` on are written, each behind a comma.
pub open spec fn more_names(names: Seq<Seq<char>>, i: int) -> Seq<Tok>
    decreases names.len() - i,
{
    if i >= names.len() {
        Seq::empty()
    } else {
        seq![Tok::Comma] + (seq![Tok::Ident(names[i])] + more_names(names, i + 1))
    }
}

/// How `DELETE` is written.
pub open spec fn delete_toks(names: Seq<Seq<char>>) -> Seq<Tok> {
    seq![Tok::Delete] + (seq![Tok::Ident(names[0])] + more_names(names, 1))
}

/// How `WHERE` is written, if there is a condition.
pub open spec fn where_toks(w: Option<Ex>) -> Seq<Tok> {
    if w is Some {
        seq![Tok::Where] + ex_toks(w->0, 0)
    } else {
        Seq::empty()
    }
}

/// How `RETURN` or `DELETE` is written, if there is one.
pub open spec fn outcome_toks(m: MatchStmt) -> Seq<Tok> {
    if m.return_clause is Some {
        return_toks(m.return_clause->0)
    } else if m.delete_clause is Some {
        delete_toks(m.delete_clause->0)
    } else {
        Seq::empty()
    }
}

/// How a statement is written, up to its end.
pub open spec fn clause_toks(s: Stmt) -> Seq<Tok> {
    match s {
        Stmt::Match(m) => seq![Tok::Match] + (path_toks(m.pattern) + (where_toks(m.where_clause)
            + outcome_toks(m))),
        Stmt::Create(path) => seq![Tok::Create] + path_toks(path),
        Stmt::Merge(np) => seq![Tok::Merge] + node_toks(np),
    }
}

/// How a statement is written.
pub open spec fn stmt_toks(s: Stmt) -> Seq<Tok> {
    clause_toks(s) + seq![Tok::Eof]
}

/// Whether a statement can be written: its path is one, no property name occurs
/// twice in a node, `RETURN` has items that can be written and a limit that is
/// an integer, `DELETE` has names, and only one of the two is there.
pub open spec fn writable(s: Stmt) -> bool {
    match s {
        Stmt::Match(m) => {
            &&& writable_path(m.pattern)
            &&& m.return_clause matches Some(r) ==> {
                &&& m.delete_clause is None
                &&& r.items.len() > 0
                &&& forall|i: int| 0 <= i < r.items.len() ==> writable_item(#[trigger] r.items[i])
                &&& r.limit matches Some(n) ==> n <= i64::MAX
            }
            &&& m.delete_clause matches Some(d) ==> d.len() > 0
        },
        Stmt::Create(path) => writable_path(path),
        Stmt::Merge(np) => once(np.properties),
    }
}

proof fn lemma_written_atom_item(item: Item, ts: Seq<Tok>, p: int)
    requires
        atom_item(item),
        placed(ts, p, atom_item_toks(item)),
        !(tok(ts, p + atom_item_toks(item).len()) is Dot),
    ensures
        item_atom_at(ts, p) == Ok::<(Item, int), (int, Seq<char>)>(
            (item, p + atom_item_toks(item).len()),
        ),
        tok(ts, p) is Ident,
{
    match item {
        Item::Variable(v) => {
            lemma_one(ts, p, Tok::Ident(v));
        },
        Item::Property(v, x) => {
            lemma_property(ts, p, v, x);
        },
        _ => {},
    }
}

proof fn lemma_written_plain_item(item: Item, ts: Seq<Tok>, p: int)
    requires
        plain_item(item),
        placed(ts, p, plain_item_toks(item)),
        !(tok(ts, p + plain_item_toks(item).len()) is Dot),
    ensures
        plain_item_at(ts, p) == Ok::<(Item, int), (int, Seq<char>)>(
            (item, p + plain_item_toks(item).len()),
        ),
{
    match item {
        Item::FunctionCall(f, a) => {
            let x = atom_item_toks(*a);
            lemma_cat(ts, p, seq![Tok::Count], seq![Tok::LParen] + (x + seq![Tok::RParen]));
            lemma_cat(ts, p + 1, seq![Tok::LParen], x + seq![Tok::RParen]);
            lemma_cat(ts, p + 2, x, seq![Tok::RParen]);
            lemma_one(ts, p, Tok::Count);
            lemma_one(ts, p + 1, Tok::LParen);
            lemma_one(ts, p + 2 + x.len(), Tok::RParen);
            lemma_written_atom_item(*a, ts, p + 2);
        },
        _ => {
            lemma_written_atom_item(item, ts, p);
        },
    }
}

proof fn lemma_written_item(item: Item, ts: Seq<Tok>, p: int)
    requires
        writable_item(item),
        placed(ts, p, item_toks(item)),
        !(tok(ts, p + item_toks(item).len()) is Dot),
        !(tok(ts, p + item_toks(item).len()) is As),
    ensures
        item_at(ts, p) == Ok::<(Item, int), (int, Seq<char>)>((item, p + item_toks(item).len())),
        item_toks(item).len() > 0,
        p + item_toks(item).len() <= ts.len(),
{
    lemma_head(ts, p, item_toks(item));
    match item {
        Item::Alias(a, n) => {
            let x = plain_item_toks(*a);
            lemma_cat(ts, p, x, seq![Tok::As] + seq![Tok::Ident(n)]);
            lemma_cat(ts, p + x.len(), seq![Tok::As], seq![Tok::Ident(n)]);
            lemma_one(ts, p + x.len(), Tok::As);
            lemma_one(ts, p + x.len() + 1, Tok::Ident(n));
            lemma_written_plain_item(*a, ts, p);
        },
        _ => {
            lemma_written_plain_item(item, ts, p);
        },
    }
}

/// Whether a token can stand behind `RETURN` items.
spec fn behind_items(t: Tok) -> bool {
    t is Limit || t is Eof
}

proof fn lemma_written_items(items: Seq<Item>, i: int, ts: Seq<Tok>, p: int)
    requires
        0 <= i <= items.len(),
        forall|j: int| 0 <= j < items.len() ==> writable_item(#[trigger] items[j]),
        placed(ts, p, more_items(items, i)),
        behind_items(tok(ts, p + more_items(items, i).len())),
    ensures
        items_rest(ts, p, items.take(i)) == Ok::<(Seq<Item>, int), (int, Seq<char>)>(
            (items, p + more_items(items, i).len()),
        ),
    decreases items.len() - i,
{
    if i == items.len() {
        assert(items.take(i) =~= items);
    } else {
        let x = item_toks(items[i]);
        let y = more_items(items, i + 1);
        lemma_cat(ts, p, seq![Tok::Comma], x + y);
        lemma_cat(ts, p + 1, x, y);
        lemma_one(ts, p, Tok::Comma);
        lemma_head(ts, p + 1 + x.len(), y);
        lemma_written_item(items[i], ts, p + 1);
        assert(items.take(i).push(items[i]) =~= items.take(i + 1));
        lemma_written_items(items, i + 1, ts, p + 1 + x.len());
    }
}

proof fn lemma_written_limit(limit: Option<u64>, ts: Seq<Tok>, p: int)
    requires
        limit matches Some(n) ==> n <= i64::MAX,
        placed(ts, p, limit_toks(limit)),
        tok(ts, p + limit_toks(limit).len()) is Eof,
    ensures
        limit_at(ts, p) == Ok::<(Option<u64>, int), (int, Seq<char>)>(
            (limit, p + limit_toks(limit).len()),
        ),
{
    if limit is Some {
        let t = Tok::IntLit(limit->0 as i64);
        lemma_cat(ts, p, seq![Tok::Limit], seq![t]);
        lemma_one(ts, p, Tok::Limit);
        lemma_one(ts, p + 1, t);
    }
}

proof fn lemma_written_return(r: Ret, ts: Seq<Tok>, p: int)
    requires
        r.items.len() > 0,
        forall|i: int| 0 <= i < r.items.len() ==> writable_item(#[trigger] r.items[i]),
        r.limit matches Some(n) ==> n <= i64::MAX,
        placed(ts, p, return_toks(r)),
        tok(ts, p + return_toks(r).len()) is Eof,
    ensures
        return_at(ts, p) == Ok::<(Ret, int), (int, Seq<char>)>((r, p + return_toks(r).len())),
        tok(ts, p) is Return,
{
    let x = item_toks(r.items[0]);
    let y = more_items(r.items, 1);
    let z = limit_toks(r.limit);
    lemma_cat(ts, p, seq![Tok::Return], x + (y + z));
    lemma_cat(ts, p + 1, x, y + z);
    lemma_cat(ts, p + 1 + x.len(), y, z);
    lemma_one(ts, p, Tok::Return);
    lemma_head(ts, p + 1 + x.len(), y);
    lemma_head(ts, p + 1 + x.len() + y.len(), z);
    let first = r.items[0];
    lemma_written_item(first, ts, p + 1);
    assert(r.items.take(1) =~= seq![first]);
    lemma_written_items(r.items, 1, ts, p + 1 + x.len());
    lemma_written_limit(r.limit, ts, p + 1 + x.len() + y.len());
}

proof fn lemma_written_names(names: Seq<Seq<char>>, i: int, ts: Seq<Tok>, p: int)
    requires
        0 <= i <= names.len(),
        placed(ts, p, more_names(names, i)),
        !(tok(ts, p + more_names(names, i).len()) is Comma),
    ensures
        names_rest(ts, p, names.take(i)) == Ok::<(Seq<Seq<char>>, int), (int, Seq<char>)>(
            (names, p + more_names(names, i).len()),
        ),
    decreases names.len() - i,
{
    if i == names.len() {
        assert(names.take(i) =~= names);
    } else {
        let x = seq![Tok::Ident(names[i])];
        let y = more_names(names, i + 1);
        lemma_cat(ts, p, seq![Tok::Comma], x + y);
        lemma_cat(ts, p + 1, x, y);
        lemma_one(ts, p, Tok::Comma);
        lemma_one(ts, p + 1, Tok::Ident(names[i]));
        assert(names.take(i).push(names[i]) =~= names.take(i + 1));
        lemma_written_names(names, i + 1, ts, p + 2);
    }
}

proof fn lemma_written_outcome(m: MatchStmt, ts: Seq<Tok>, p: int)
    requires
        writable(Stmt::Match(m)),
        placed(ts, p, outcome_toks(m)),
        tok(ts, p + outcome_toks(m).len()) is Eof,
    ensures
        outcome_at(ts, p) == Ok::<((Option<Ret>, Option<Seq<Seq<char>>>), int), (int, Seq<char>)>(
            ((m.return_clause, m.delete_clause), p + outcome_toks(m).len()),
        ),
        tok(ts, p) is Return || tok(ts, p) is Delete || tok(ts, p) is Eof,
{
    if m.return_clause is Some {
        lemma_written_return(m.return_clause->0, ts, p);
    } else if m.delete_clause is Some {
        let d = m.delete_clause->0;
        let y = more_names(d, 1);
        lemma_cat(ts, p, seq![Tok::Delete], seq![Tok::Ident(d[0])] + y);
        lemma_cat(ts, p + 1, seq![Tok::Ident(d[0])], y);
        lemma_one(ts, p, Tok::Delete);
        lemma_one(ts, p + 1, Tok::Ident(d[0]));
        assert(d.take(1) =~= seq![d[0]]);
        lemma_written_names(d, 1, ts, p + 2);
    }
}

proof fn lemma_written_where(w: Option<Ex>, ts: Seq<Tok>, p: int)
    requires
        placed(ts, p, where_toks(w)),
        ({
            let t = tok(ts, p + where_toks(w).len());
            t is Return || t is Delete || t is Eof
        }),
    ensures
        where_at(ts, p) == Ok::<(Option<Ex>, int), (int, Seq<char>)>(
            (w, p + where_toks(w).len()),
        ),
        !(tok(ts, p) is Dash) && !(tok(ts, p) is Lt),
{
    if w is Some {
        lemma_cat(ts, p, seq![Tok::Where], ex_toks(w->0, 0));
        lemma_one(ts, p, Tok::Where);
        lemma_condition(w->0, ts, p + 1);
    }
}

proof fn lemma_written_match(m: MatchStmt, ts: Seq<Tok>)
    requires
        writable(Stmt::Match(m)),
        placed(ts, 0, clause_toks(Stmt::Match(m))),
        tok(ts, clause_toks(Stmt::Match(m)).len() as int) is Eof,
    ensures
        match_at(ts, 0) == Ok::<(MatchStmt, int), (int, Seq<char>)>(
            (m, clause_toks(Stmt::Match(m)).len() as int),
        ),
        tok(ts, 0) is Match,
{
    let x = path_toks(m.pattern);
    let y = where_toks(m.where_clause);
    let z = outcome_toks(m);
    lemma_cat(ts, 0, seq![Tok::Match], x + (y + z));
    lemma_cat(ts, 1, x, y + z);
    lemma_cat(ts, 1 + x.len() as int, y, z);
    lemma_one(ts, 0, Tok::Match);
    lemma_written_outcome(m, ts, 1 + x.len() + y.len() as int);
    lemma_written_where(m.where_clause, ts, 1 + x.len() as int);
    lemma_written_path(m.pattern, ts, 1);
    reveal(match_at);
}

/// What is parsed is what is written: the tokens that write a statement are
/// parsed to that statement.
pub proof fn lemma_parsed_as_written(s: Stmt)
    requires
        writable(s),
    ensures
        statement_at(stmt_toks(s), 0) == Ok::<(Stmt, int), (int, Seq<char>)>(
            (s, stmt_toks(s).len() as int),
        ),
{
    let ts = stmt_toks(s);
    let c = clause_toks(s);
    assert(placed(ts, 0, ts)) by {
        reveal(placed);
        assert(ts.subrange(0, ts.len() as int) =~= ts);
    }
    lemma_cat(ts, 0, c, seq![Tok::Eof]);
    lemma_one(ts, c.len() as int, Tok::Eof);
    match s {
        Stmt::Match(m) => {
            lemma_written_match(m, ts);
        },
        Stmt::Create(path) => {
            lemma_cat(ts, 0, seq![Tok::Create], path_toks(path));
            lemma_one(ts, 0, Tok::Create);
            lemma_written_path(path, ts, 1);
        },
        Stmt::Merge(np) => {
            lemma_cat(ts, 0, seq![Tok::Merge], node_toks(np));
            lemma_one(ts, 0, Tok::Merge);
            lemma_written_node(np, ts, 1);
        },
    }
    assert(clause_at(ts, 0) == Ok::<(Stmt, int), (int, Seq<char>)>((s, c.len() as int)));
}

/// Behind a statement nothing stands but the end.
pub proof fn lemma_nothing_behind(ts: Seq<Tok>)
    ensures
        statement_at(ts, 0) matches Ok((_, q)) ==> tok(ts, q - 1) is Eof,
{
}

} // verus!
