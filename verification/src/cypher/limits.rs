//! What `LIMIT` behind a query does to it.

use crate::cypher::ast::{exs_set, Elem, Ex, Exs, Item, MatchStmt, Ret, Stmt};
use crate::cypher::chars::{alphabetic, ascii, uppercase, whitespace};
use crate::cypher::CypherErr;
use crate::cypher::env::EnvMap;
use crate::cypher::grammar::{
    and_at, and_rest, atom_at, comparison_at, comparison_op, edge_at, edge_body_at, edge_end_at,
    item_at, item_atom_at, items_rest, match_at, node_at, not_at, opt_ident_at, opt_name_at,
    opt_props_at, or_at, or_rest, path_at, path_rest, plain_item_at, prop_at, props_at,
    props_rest, return_at, statement_at, tok, where_at,
};
use crate::cypher::lexer::{
    digits_end, in_word, number_at, quoted, space_end, tok_at, tokens_at, word_end, Tok,
};
use crate::cypher::query::{
    any_aggregate, expand, filtered, limited, parsed, rows, run_match, run_read, QueryVal,
};
use crate::graph::codec::unsigned;
use crate::graph::state::GraphState;
use crate::graph::types::Val;
use crate::numtext::{digits_value, int_text, is_digit, nat_text};
use vstd::prelude::*;

verus! {

// ---------------------------------------------------------------------------
// The statement
// ---------------------------------------------------------------------------

/// Whether `b` has the tokens of `a`, `n` of them, and `LIMIT` where `a` ends.
spec fn extends(a: Seq<Tok>, b: Seq<Tok>, n: int) -> bool {
    &&& 0 <= n
    &&& a.len() == n + 1
    &&& b.len() > n
    &&& a[n] is Eof
    &&& b[n] is Limit
    &&& forall|i: int| 0 <= i < n ==> #[trigger] b[i] == a[i]
}

proof fn lemma_atom(a: Seq<Tok>, b: Seq<Tok>, n: int, p: int)
    requires
        extends(a, b, n),
        0 <= p <= n,
        atom_at(a, p) is Ok,
    ensures
        atom_at(b, p) == atom_at(a, p),
        p < atom_at(a, p)->Ok_0.1 <= n,
    decreases n - p, 0int,
{
    assert(p < n);
    assert(tok(b, p) == tok(a, p));
    if tok(a, p) is LParen {
        lemma_or(a, b, n, p + 1);
    }
}

proof fn lemma_comparison(a: Seq<Tok>, b: Seq<Tok>, n: int, p: int)
    requires
        extends(a, b, n),
        0 <= p <= n,
        comparison_at(a, p) is Ok,
    ensures
        comparison_at(b, p) == comparison_at(a, p),
        p < comparison_at(a, p)->Ok_0.1 <= n,
    decreases n - p, 1int,
{
    lemma_atom(a, b, n, p);
    let q = atom_at(a, p)->Ok_0.1;
    if comparison_op(tok(a, q)) is Some {
        lemma_atom(a, b, n, q + 1);
    }
}

proof fn lemma_not(a: Seq<Tok>, b: Seq<Tok>, n: int, p: int)
    requires
        extends(a, b, n),
        0 <= p <= n,
        not_at(a, p) is Ok,
    ensures
        not_at(b, p) == not_at(a, p),
        p < not_at(a, p)->Ok_0.1 <= n,
    decreases n - p, 2int,
{
    if tok(a, p) is Not {
        lemma_not(a, b, n, p + 1);
    } else {
        lemma_comparison(a, b, n, p);
    }
}

proof fn lemma_and_rest(a: Seq<Tok>, b: Seq<Tok>, n: int, p: int, left: Ex)
    requires
        extends(a, b, n),
        0 <= p <= n,
        and_rest(a, p, left) is Ok,
    ensures
        and_rest(b, p, left) == and_rest(a, p, left),
        p <= and_rest(a, p, left)->Ok_0.1 <= n,
    decreases n - p, 3int,
{
    if tok(a, p) is And {
        lemma_not(a, b, n, p + 1);
        let (right, q) = not_at(a, p + 1)->Ok_0;
        lemma_and_rest(a, b, n, q, Ex::And(Box::new(left), Box::new(right)));
    }
}

proof fn lemma_and(a: Seq<Tok>, b: Seq<Tok>, n: int, p: int)
    requires
        extends(a, b, n),
        0 <= p <= n,
        and_at(a, p) is Ok,
    ensures
        and_at(b, p) == and_at(a, p),
        p < and_at(a, p)->Ok_0.1 <= n,
    decreases n - p, 4int,
{
    lemma_not(a, b, n, p);
    let (left, q) = not_at(a, p)->Ok_0;
    lemma_and_rest(a, b, n, q, left);
}

proof fn lemma_or_rest(a: Seq<Tok>, b: Seq<Tok>, n: int, p: int, left: Ex)
    requires
        extends(a, b, n),
        0 <= p <= n,
        or_rest(a, p, left) is Ok,
    ensures
        or_rest(b, p, left) == or_rest(a, p, left),
        p <= or_rest(a, p, left)->Ok_0.1 <= n,
    decreases n - p, 5int,
{
    if tok(a, p) is Or {
        lemma_and(a, b, n, p + 1);
        let (right, q) = and_at(a, p + 1)->Ok_0;
        lemma_or_rest(a, b, n, q, Ex::Or(Box::new(left), Box::new(right)));
    }
}

proof fn lemma_or(a: Seq<Tok>, b: Seq<Tok>, n: int, p: int)
    requires
        extends(a, b, n),
        0 <= p <= n,
        or_at(a, p) is Ok,
    ensures
        or_at(b, p) == or_at(a, p),
        p < or_at(a, p)->Ok_0.1 <= n,
    decreases n - p, 6int,
{
    lemma_and(a, b, n, p);
    let (left, q) = and_at(a, p)->Ok_0;
    lemma_or_rest(a, b, n, q, left);
}

proof fn lemma_prop(a: Seq<Tok>, b: Seq<Tok>, n: int, p: int)
    requires
        extends(a, b, n),
        0 <= p <= n,
        prop_at(a, p) is Ok,
    ensures
        prop_at(b, p) == prop_at(a, p),
        p < prop_at(a, p)->Ok_0.1 <= n,
{
    lemma_or(a, b, n, p + 2);
}

proof fn lemma_props_rest(a: Seq<Tok>, b: Seq<Tok>, n: int, p: int, acc: Exs)
    requires
        extends(a, b, n),
        0 <= p <= n,
        props_rest(a, p, acc) is Ok,
    ensures
        props_rest(b, p, acc) == props_rest(a, p, acc),
        p <= props_rest(a, p, acc)->Ok_0.1 <= n,
    decreases n - p,
{
    if tok(a, p) is Comma {
        lemma_prop(a, b, n, p + 1);
        let ((k, v), q) = prop_at(a, p + 1)->Ok_0;
        lemma_props_rest(a, b, n, q, exs_set(acc, k, v));
    }
}

proof fn lemma_props(a: Seq<Tok>, b: Seq<Tok>, n: int, p: int)
    requires
        extends(a, b, n),
        0 <= p <= n,
        props_at(a, p) is Ok,
    ensures
        props_at(b, p) == props_at(a, p),
        p < props_at(a, p)->Ok_0.1 <= n,
{
    let q = p + 1;
    if !(tok(a, q) is RBrace) {
        lemma_prop(a, b, n, q);
        let ((k, v), r) = prop_at(a, q)->Ok_0;
        lemma_props_rest(a, b, n, r, exs_set(Seq::empty(), k, v));
    }
}

proof fn lemma_node(a: Seq<Tok>, b: Seq<Tok>, n: int, p: int)
    requires
        extends(a, b, n),
        0 <= p <= n,
        node_at(a, p) is Ok,
    ensures
        node_at(b, p) == node_at(a, p),
        p < node_at(a, p)->Ok_0.1 <= n,
{
    assert(p < n);
    let (_, r) = opt_ident_at(a, p + 1);
    assert(r <= n);
    let (_, s) = opt_name_at(a, r)->Ok_0;
    assert(s <= n);
    if tok(a, s) is LBrace {
        lemma_props(a, b, n, s);
    }
    assert(opt_props_at(b, s) == opt_props_at(a, s));
}

proof fn lemma_edge(a: Seq<Tok>, b: Seq<Tok>, n: int, p: int)
    requires
        extends(a, b, n),
        0 <= p <= n,
        edge_at(a, p) is Ok,
    ensures
        edge_at(b, p) == edge_at(a, p),
        p < edge_at(a, p)->Ok_0.1 <= n,
{
    let left = tok(a, p) is Lt;
    let q = if left {
        p + 1
    } else {
        p
    };
    assert(q < n);
    assert(edge_body_at(b, q + 1) == edge_body_at(a, q + 1));
    let s = edge_body_at(a, q + 1)->Ok_0.1;
    assert(s <= n);
    assert(edge_end_at(b, s, left) == edge_end_at(a, s, left));
}

proof fn lemma_path_rest(a: Seq<Tok>, b: Seq<Tok>, n: int, p: int, acc: Seq<Elem>)
    requires
        extends(a, b, n),
        0 <= p <= n,
        path_rest(a, p, acc) is Ok,
    ensures
        path_rest(b, p, acc) == path_rest(a, p, acc),
        p <= path_rest(a, p, acc)->Ok_0.1 <= n,
    decreases n - p,
{
    if tok(a, p) is Dash || tok(a, p) is Lt {
        lemma_edge(a, b, n, p);
        let (edge, q) = edge_at(a, p)->Ok_0;
        lemma_node(a, b, n, q);
        let (node, r) = node_at(a, q)->Ok_0;
        lemma_path_rest(a, b, n, r, acc.push(Elem::Edge(edge)).push(Elem::Node(node)));
    }
}

proof fn lemma_path(a: Seq<Tok>, b: Seq<Tok>, n: int, p: int)
    requires
        extends(a, b, n),
        0 <= p <= n,
        path_at(a, p) is Ok,
    ensures
        path_at(b, p) == path_at(a, p),
        p < path_at(a, p)->Ok_0.1 <= n,
{
    lemma_node(a, b, n, p);
    let (node, q) = node_at(a, p)->Ok_0;
    lemma_path_rest(a, b, n, q, seq![Elem::Node(node)]);
}

proof fn lemma_item_atom(a: Seq<Tok>, b: Seq<Tok>, n: int, p: int)
    requires
        extends(a, b, n),
        0 <= p <= n,
        item_atom_at(a, p) is Ok,
    ensures
        item_atom_at(b, p) == item_atom_at(a, p),
        p < item_atom_at(a, p)->Ok_0.1 <= n,
{
}

proof fn lemma_item(a: Seq<Tok>, b: Seq<Tok>, n: int, p: int)
    requires
        extends(a, b, n),
        0 <= p <= n,
        item_at(a, p) is Ok,
    ensures
        item_at(b, p) == item_at(a, p),
        p < item_at(a, p)->Ok_0.1 <= n,
{
    if tok(a, p) is Count {
        lemma_item_atom(a, b, n, p + 2);
    } else {
        lemma_item_atom(a, b, n, p);
    }
    assert(plain_item_at(b, p) == plain_item_at(a, p));
    let q = plain_item_at(a, p)->Ok_0.1;
    assert(q <= n);
}

proof fn lemma_items_rest(a: Seq<Tok>, b: Seq<Tok>, n: int, p: int, acc: Seq<Item>)
    requires
        extends(a, b, n),
        0 <= p <= n,
        items_rest(a, p, acc) is Ok,
    ensures
        items_rest(b, p, acc) == items_rest(a, p, acc),
        p <= items_rest(a, p, acc)->Ok_0.1 <= n,
    decreases n - p,
{
    if tok(a, p) is Comma {
        lemma_item(a, b, n, p + 1);
        let (item, q) = item_at(a, p + 1)->Ok_0;
        lemma_items_rest(a, b, n, q, acc.push(item));
    }
}

proof fn lemma_where(a: Seq<Tok>, b: Seq<Tok>, n: int, p: int)
    requires
        extends(a, b, n),
        0 <= p <= n,
        where_at(a, p) is Ok,
    ensures
        where_at(b, p) == where_at(a, p),
        p <= where_at(a, p)->Ok_0.1 <= n,
{
    if tok(a, p) is Where {
        lemma_or(a, b, n, p + 1);
    }
}

/// `RETURN` without a limit up to the end of `a`, and with one in `b`.
proof fn lemma_return(a: Seq<Tok>, b: Seq<Tok>, n: int, p: int, k: i64)
    requires
        extends(a, b, n),
        0 <= p <= n,
        tok(b, n + 1) == Tok::IntLit(k),
        return_at(a, p) matches Ok((r, q)) && r.limit is None && q == n,
    ensures
        return_at(b, p) == Ok::<(Ret, int), (int, Seq<char>)>(
            (Ret { limit: Some(unsigned(k)), ..return_at(a, p)->Ok_0.0 }, n + 2),
        ),
{
    lemma_item(a, b, n, p + 1);
    let (first, q) = item_at(a, p + 1)->Ok_0;
    lemma_items_rest(a, b, n, q, seq![first]);
}

/// A statement without a limit ends within the tokens.
proof fn lemma_match_end(a: Seq<Tok>, b: Seq<Tok>, n: int)
    requires
        extends(a, b, n),
        match_at(a, 0) matches Ok((m, _)) && m.return_clause matches Some(r) && r.limit is None,
    ensures
        match_at(a, 0)->Ok_0.1 <= n,
        0 < match_at(a, 0)->Ok_0.1,
{
    reveal(match_at);
    lemma_path(a, b, n, 1);
    let (_, r) = path_at(a, 1)->Ok_0;
    lemma_where(a, b, n, r);
    let (_, s) = where_at(a, r)->Ok_0;
    assert(tok(a, s) is Return);
    lemma_item(a, b, n, s + 1);
    let (first, t) = item_at(a, s + 1)->Ok_0;
    lemma_items_rest(a, b, n, t, seq![first]);
}

/// A statement that ends where `a` does.
proof fn lemma_match(a: Seq<Tok>, b: Seq<Tok>, n: int, k: i64)
    requires
        extends(a, b, n),
        tok(b, n + 1) == Tok::IntLit(k),
        match_at(a, 0) matches Ok((m, _)) && m.return_clause matches Some(r) && r.limit is None,
        match_at(a, 0)->Ok_0.1 == n,
    ensures
        match_at(b, 0) == Ok::<(MatchStmt, int), (int, Seq<char>)>(
            (with_limit(match_at(a, 0)->Ok_0.0, unsigned(k)), n + 2),
        ),
{
    reveal(match_at);
    assert(tok(b, 0) == tok(a, 0));
    lemma_path(a, b, n, 1);
    let (_, r) = path_at(a, 1)->Ok_0;
    lemma_where(a, b, n, r);
    let (_, s) = where_at(a, r)->Ok_0;
    assert(tok(a, s) is Return);
    lemma_return(a, b, n, s, k);
}

/// A statement with a limit.
pub open spec fn with_limit(m: MatchStmt, k: u64) -> MatchStmt {
    MatchStmt {
        return_clause: match m.return_clause {
            Some(r) => Some(Ret { limit: Some(k), ..r }),
            None => None,
        },
        ..m
    }
}

proof fn lemma_statement_is_match(ts: Seq<Tok>, m: MatchStmt)
    requires
        statement_at(ts, 0) matches Ok((Stmt::Match(x), _)) && x == m,
    ensures
        tok(ts, 0) is Match,
        match_at(ts, 0) matches Ok((x, q)) && x == m && tok(ts, q) is Eof,
{
}

proof fn lemma_match_is_statement(ts: Seq<Tok>, m: MatchStmt, q: int)
    requires
        tok(ts, 0) is Match,
        match_at(ts, 0) == Ok::<(MatchStmt, int), (int, Seq<char>)>((m, q)),
        tok(ts, q) is Eof,
    ensures
        statement_at(ts, 0) == Ok::<(Stmt, int), (int, Seq<char>)>((Stmt::Match(m), q + 1)),
{
}

/// `LIMIT` behind a query without one gives the query that limit.
pub proof fn lemma_limit_parses(pre: Seq<Tok>, k: i64)
    requires
        forall|i: int| 0 <= i < pre.len() ==> !(#[trigger] pre[i] is Eof),
        statement_at(pre.push(Tok::Eof), 0) matches Ok((Stmt::Match(m), _)) && m.return_clause
            matches Some(r) && r.limit is None,
    ensures
        statement_at(pre + seq![Tok::Limit, Tok::IntLit(k), Tok::Eof], 0) == Ok::<
            (Stmt, int),
            (int, Seq<char>),
        >(
            (
                Stmt::Match(
                    with_limit(statement_at(pre.push(Tok::Eof), 0)->Ok_0.0->Match_0, unsigned(k)),
                ),
                pre.len() as int + 3,
            ),
        ),
{
    let a = pre.push(Tok::Eof);
    let b = pre + seq![Tok::Limit, Tok::IntLit(k), Tok::Eof];
    let n = pre.len() as int;
    let m = statement_at(a, 0)->Ok_0.0->Match_0;
    assert(extends(a, b, n));
    lemma_statement_is_match(a, m);
    let q = match_at(a, 0)->Ok_0.1;
    lemma_match_end(a, b, n);
    if q < n {
        assert(a[q] == pre[q]);
    }
    assert(b[0] == a[0]);
    assert(b[n + 1] == Tok::IntLit(k));
    assert(b[n + 2] is Eof);
    lemma_match(a, b, n, k);
    lemma_match_is_statement(b, with_limit(m, unsigned(k)), n + 2);
}

// ---------------------------------------------------------------------------
// The result
// ---------------------------------------------------------------------------

proof fn lemma_first_rows(g: GraphState, items: Seq<Item>, ms: Seq<EnvMap>, k: int)
    requires
        rows(g, items, ms) is Ok,
        0 <= k <= ms.len(),
    ensures
        rows(g, items, ms)->Ok_0.len() == ms.len(),
        rows(g, items, ms.take(k)) == Ok::<Seq<Seq<Val>>, CypherErr>(
            rows(g, items, ms)->Ok_0.take(k),
        ),
    decreases ms.len(),
{
    let all = rows(g, items, ms)->Ok_0;
    if ms.len() > 0 {
        let front = ms.drop_last();
        let rs = rows(g, items, front)->Ok_0;
        if k < ms.len() {
            lemma_first_rows(g, items, front, k);
            assert(front.take(k) =~= ms.take(k));
            assert(all.take(k) =~= rs.take(k));
        } else {
            lemma_first_rows(g, items, front, front.len() as int);
            assert(ms.take(k) =~= ms);
            assert(all.take(k) =~= all);
        }
    } else {
        assert(ms.take(k) =~= ms);
        assert(all.take(k) =~= all);
    }
}

/// A limit leaves the first rows of a result, as many as it says where there
/// are as many, and changes nothing else.
pub proof fn lemma_limit_takes_first_rows(g: GraphState, m: MatchStmt, k: u64)
    requires
        m.return_clause matches Some(r) && r.limit is None && !any_aggregate(r.items),
        run_match(g, m) is Ok,
    ensures
        ({
            let all = run_match(g, m)->Ok_0;
            run_match(g, with_limit(m, k)) == Ok::<QueryVal, CypherErr>(
                QueryVal { rows: limited(all.rows, Some(k)), ..all },
            )
        }),
{
    let ret = m.return_clause->0;
    let ms = filtered(g, m.where_clause, expand(g, m.pattern)->Ok_0);
    let n = if k < ms.len() {
        k as int
    } else {
        ms.len() as int
    };
    lemma_first_rows(g, ret.items, ms, n);
    let few = limited(ms, Some(k));
    assert(ms.take(n) =~= few);
    assert(limited(few, Some(k)) =~= few);
    let all = rows(g, ret.items, ms)->Ok_0;
    assert(all.take(n) =~= limited(all, Some(k)));
}

/// The tokens of a text end with the token for the end, and have it nowhere
/// else.
proof fn lemma_tokens_end(cs: Seq<char>, p: int)
    requires
        tokens_at(cs, p) is Ok,
    ensures
        ({
            let ts = tokens_at(cs, p)->Ok_0;
            &&& ts.len() > 0
            &&& ts.last() is Eof
            &&& forall|i: int| 0 <= i < ts.len() - 1 ==> !(#[trigger] ts[i] is Eof)
        }),
    decreases cs.len() - p,
{
    let (t, q) = tok_at(cs, space_end(cs, p))->Ok_0;
    if t !is Eof {
        lemma_tokens_end(cs, q);
    }
}

// ---------------------------------------------------------------------------
// The text
// ---------------------------------------------------------------------------

/// Whether `b` is `a` with something behind it that starts with a space.
spec fn spaced(a: Seq<char>, b: Seq<char>) -> bool {
    &&& a.len() < b.len()
    &&& b[a.len() as int] == ' '
    &&& forall|i: int| 0 <= i < a.len() ==> #[trigger] b[i] == a[i]
}

proof fn lemma_spaces(a: Seq<char>, b: Seq<char>, p: int)
    requires
        spaced(a, b),
        0 <= p <= a.len(),
    ensures
        p <= space_end(a, p) <= a.len(),
        space_end(a, p) < a.len() ==> space_end(b, p) == space_end(a, p),
        space_end(a, p) == a.len() ==> space_end(b, p) == space_end(b, a.len() as int),
    decreases a.len() - p,
{
    if p < a.len() {
        assert(b[p] == a[p]);
        if whitespace(a[p]) {
            lemma_spaces(a, b, p + 1);
        }
    }
}

proof fn lemma_digits(a: Seq<char>, b: Seq<char>, p: int)
    requires
        spaced(a, b),
        0 <= p <= a.len(),
    ensures
        p <= digits_end(a, p) <= a.len(),
        digits_end(b, p) == digits_end(a, p),
    decreases a.len() - p,
{
    if p < a.len() {
        assert(b[p] == a[p]);
        if is_digit(a[p]) {
            lemma_digits(a, b, p + 1);
        }
    }
}

proof fn lemma_word(a: Seq<char>, b: Seq<char>, p: int)
    requires
        spaced(a, b),
        0 <= p <= a.len(),
    ensures
        p <= word_end(a, p) <= a.len(),
        word_end(b, p) == word_end(a, p),
    decreases a.len() - p,
{
    if p < a.len() {
        assert(b[p] == a[p]);
        if in_word(a[p]) {
            lemma_word(a, b, p + 1);
        }
    }
}

proof fn lemma_quoted(a: Seq<char>, b: Seq<char>, p: int, quote: char, acc: Seq<char>)
    requires
        spaced(a, b),
        0 <= p,
        quoted(a, p, quote, acc) is Some,
    ensures
        quoted(b, p, quote, acc) == quoted(a, p, quote, acc),
        quoted(a, p, quote, acc) matches Some((_, q)) && p < q <= a.len(),
    decreases a.len() - p,
{
    assert(p < a.len());
    assert(b[p] == a[p]);
    if a[p] != quote {
        if a[p] == '\\' {
            assert(b[p + 1] == a[p + 1]);
            lemma_quoted(a, b, p + 2, quote, acc.push(a[p + 1]));
        } else {
            lemma_quoted(a, b, p + 1, quote, acc.push(a[p]));
        }
    }
}

proof fn lemma_number(a: Seq<char>, b: Seq<char>, p: int)
    requires
        spaced(a, b),
        0 <= p < a.len(),
        is_digit(a[p]),
        number_at(a, p) is Ok,
    ensures
        number_at(b, p) == number_at(a, p),
        p < number_at(a, p)->Ok_0.1 <= a.len(),
{
    lemma_digits(a, b, p);
    let x = digits_end(a, p);
    assert(x > p) by {
        lemma_digits(a, b, p + 1);
    }
    assert(b.subrange(p, x) =~= a.subrange(p, x));
    if x < a.len() && a[x] == '.' {
        assert(b[x] == a[x]);
        lemma_digits(a, b, x + 1);
        let y = digits_end(a, x + 1);
        assert(b.subrange(x + 1, y) =~= a.subrange(x + 1, y));
    } else if x < a.len() {
        assert(b[x] == a[x]);
    }
}

/// A token is the same whether or not something stands behind the text.
proof fn lemma_token(a: Seq<char>, b: Seq<char>, p: int)
    requires
        spaced(a, b),
        0 <= p < a.len(),
        tok_at(a, p) is Ok,
    ensures
        tok_at(b, p) == tok_at(a, p),
        p < tok_at(a, p)->Ok_0.1 <= a.len(),
        !(tok_at(a, p)->Ok_0.0 is Eof),
{
    let c = a[p];
    assert(b[p] == c);
    if p + 1 < a.len() {
        assert(b[p + 1] == a[p + 1]);
    }
    if c == '\'' || c == '"' {
        lemma_quoted(a, b, p + 1, c, Seq::empty());
    } else if is_digit(c) {
        lemma_number(a, b, p);
    } else if alphabetic(c) || c == '_' {
        lemma_word(a, b, p);
        let q = word_end(a, p);
        if in_word(c) {
            lemma_word(a, b, p + 1);
        }
        assert(b.subrange(p, q) =~= a.subrange(p, q));
    }
}

/// The tokens of a text with more behind it are its own, and those of what is
/// behind it.
proof fn lemma_tokens_appended(a: Seq<char>, b: Seq<char>, p: int)
    requires
        spaced(a, b),
        0 <= p <= a.len(),
        tokens_at(a, p) is Ok,
        tokens_at(b, a.len() as int) is Ok,
    ensures
        tokens_at(b, p) == Ok::<Seq<Tok>, Seq<char>>(
            tokens_at(a, p)->Ok_0.drop_last() + tokens_at(b, a.len() as int)->Ok_0,
        ),
    decreases a.len() - p,
{
    let rest = tokens_at(b, a.len() as int)->Ok_0;
    let s = space_end(a, p);
    lemma_spaces(a, b, p);
    if s < a.len() {
        lemma_token(a, b, s);
        let (t, q) = tok_at(a, s)->Ok_0;
        lemma_tokens_appended(a, b, q);
        let own = tokens_at(a, q)->Ok_0;
        lemma_tokens_end(a, q);
        assert((seq![t] + own).drop_last() + rest =~= seq![t] + (own.drop_last() + rest));
    } else {
        lemma_spaces_end(b, a.len() as int);
        assert(seq![Tok::Eof].drop_last() + rest =~= rest);
    }
}

proof fn lemma_spaces_end(cs: Seq<char>, p: int)
    requires
        0 <= p <= cs.len(),
    ensures
        p <= space_end(cs, p) <= cs.len(),
    decreases cs.len() - p,
{
    if p < cs.len() && whitespace(cs[p]) {
        lemma_spaces_end(cs, p + 1);
    }
}

/// A number in decimal is made of digits, and they write the number.
pub proof fn lemma_number_text(n: nat)
    ensures
        nat_text(n).len() > 0,
        forall|i: int| 0 <= i < nat_text(n).len() ==> is_digit(#[trigger] nat_text(n)[i]),
        digits_value(nat_text(n)) == n,
    decreases n,
{
    reveal_with_fuel(digits_value, 2);
    if n < 10 {
        assert(nat_text(n).drop_last() =~= Seq::empty());
    } else {
        lemma_number_text(n / 10);
        assert(nat_text(n).drop_last() =~= nat_text(n / 10));
    }
}

proof fn lemma_all_digits(cs: Seq<char>, p: int)
    requires
        0 <= p <= cs.len(),
        forall|i: int| p <= i < cs.len() ==> is_digit(#[trigger] cs[i]),
    ensures
        digits_end(cs, p) == cs.len(),
    decreases cs.len() - p,
{
    if p < cs.len() {
        lemma_all_digits(cs, p + 1);
    }
}

/// The word `LIMIT` is the token for it.
proof fn lemma_limit_word(cs: Seq<char>, p: int)
    requires
        0 <= p,
        p + 5 < cs.len(),
        cs.subrange(p, p + 5) == seq!['L', 'I', 'M', 'I', 'T'],
        cs[p + 5] == ' ',
    ensures
        space_end(cs, p) == p,
        tok_at(cs, p) == Ok::<(Tok, int), Seq<char>>((Tok::Limit, p + 5)),
{
    let w = cs.subrange(p, p + 5);
    assert(cs[p] == w[0] && cs[p + 1] == w[1] && cs[p + 2] == w[2] && cs[p + 3] == w[3] && cs[p + 4]
        == w[4]);
    assert(word_end(cs, p) == p + 5) by {
        reveal_with_fuel(word_end, 6);
    }
    assert(uppercase(w) =~= w) by {
        assert forall|i: int| 0 <= i < w.len() implies ascii(#[trigger] w[i]) by {}
    }
    reveal_strlit("MATCH");
    reveal_strlit("RETURN");
    reveal_strlit("WHERE");
    reveal_strlit("CREATE");
    reveal_strlit("DELETE");
    reveal_strlit("MERGE");
    reveal_strlit("LIMIT");
    assert("LIMIT"@ =~= w);
    assert("MATCH"@[0] != w[0]);
    assert("WHERE"@[0] != w[0]);
    assert("MERGE"@[0] != w[0]);
}

/// `LIMIT` and a number behind a text.
pub open spec fn limit_text(query: Seq<char>, k: i64) -> Seq<char> {
    query + " LIMIT "@ + int_text(k as int)
}

/// The tokens of `LIMIT` and a number behind a text.
proof fn lemma_limit_tokens(query: Seq<char>, k: i64)
    requires
        k >= 0,
    ensures
        spaced(query, limit_text(query, k)),
        tokens_at(limit_text(query, k), query.len() as int) == Ok::<Seq<Tok>, Seq<char>>(
            seq![Tok::Limit, Tok::IntLit(k), Tok::Eof],
        ),
{
    reveal_strlit(" LIMIT ");
    let cs = limit_text(query, k);
    let n = query.len() as int;
    let number = nat_text(k as nat);
    lemma_number_text(k as nat);
    assert(cs.subrange(n + 1, n + 6) =~= seq!['L', 'I', 'M', 'I', 'T']);
    lemma_limit_word(cs, n + 1);
    assert(space_end(cs, n) == n + 1) by {
        assert(cs[n] == ' ');
    }
    assert(cs[n + 6] == ' ');
    assert forall|i: int| n + 7 <= i < cs.len() implies is_digit(#[trigger] cs[i]) by {
        assert(cs[i] == number[i - n - 7]);
    }
    assert(cs[n + 7] == number[0]);
    lemma_all_digits(cs, n + 7);
    assert(cs.subrange(n + 7, cs.len() as int) =~= number);
    assert(space_end(cs, n + 7) == n + 7);
    assert(space_end(cs, n + 6) == n + 7);
    let end = cs.len() as int;
    assert(tok_at(cs, n + 7) == Ok::<(Tok, int), Seq<char>>((Tok::IntLit(k), end)));
    assert(tokens_at(cs, end) == Ok::<Seq<Tok>, Seq<char>>(seq![Tok::Eof]));
    assert(tokens_at(cs, n + 6) == Ok::<Seq<Tok>, Seq<char>>(
        seq![Tok::IntLit(k)] + seq![Tok::Eof],
    ));
    assert(seq![Tok::Limit] + (seq![Tok::IntLit(k)] + seq![Tok::Eof]) =~= seq![
        Tok::Limit,
        Tok::IntLit(k),
        Tok::Eof,
    ]);
}

/// `LIMIT` and a number behind a query writes the query with that limit.
pub proof fn lemma_limit_written(query: Seq<char>, m: MatchStmt, k: i64)
    requires
        parsed(query) == Ok::<Stmt, CypherErr>(Stmt::Match(m)),
        m.return_clause matches Some(r) && r.limit is None,
        k >= 0,
    ensures
        parsed(limit_text(query, k)) == Ok::<Stmt, CypherErr>(
            Stmt::Match(with_limit(m, k as u64)),
        ),
{
    let ts = tokens_at(query, 0)->Ok_0;
    let pre = ts.drop_last();
    lemma_tokens_end(query, 0);
    assert(pre.push(Tok::Eof) =~= ts);
    lemma_limit_tokens(query, k);
    lemma_tokens_appended(query, limit_text(query, k), 0);
    lemma_limit_parses(pre, k);
}

/// A query with ` LIMIT ` and a number behind it gives the first rows of what
/// the query gives without it, as many as the number says where there are as
/// many, under the same columns.
pub proof fn lemma_limited_query(g: GraphState, query: Seq<char>, m: MatchStmt, k: i64)
    requires
        parsed(query) == Ok::<Stmt, CypherErr>(Stmt::Match(m)),
        m.return_clause matches Some(r) && r.limit is None && !any_aggregate(r.items),
        run_read(g, Stmt::Match(m)) is Ok,
        k >= 0,
    ensures
        parsed(query + " LIMIT "@ + int_text(k as int)) matches Ok(s) && ({
            let all = run_read(g, Stmt::Match(m))->Ok_0;
            run_read(g, s) == Ok::<QueryVal, CypherErr>(
                QueryVal { rows: limited(all.rows, Some(k as u64)), ..all },
            )
        }),
{
    lemma_limit_written(query, m, k);
    lemma_limit_takes_first_rows(g, m, k as u64);
}

} // verus!
