//! What statement a sequence of tokens writes.

use crate::cypher::ast::{
    exs_set, CmpOp, EdgeDirection, EdgePat, Elem, Ex, Exs, Item, Lit, MatchStmt, NodePat, Ret,
    Stmt,
};
use crate::cypher::chars::debug_text;
use crate::cypher::lexer::Tok;
use crate::graph::codec::unsigned;
use crate::numtext::{float_debug_text, int_text, nat_text};
use vstd::prelude::*;

verus! {

/// A number for each kind of token.
pub open spec fn tok_kind(t: Tok) -> u8 {
    match t {
        Tok::Match => 0,
        Tok::Return => 1,
        Tok::Where => 2,
        Tok::Create => 3,
        Tok::Delete => 4,
        Tok::Merge => 5,
        Tok::Limit => 6,
        Tok::And => 7,
        Tok::Or => 8,
        Tok::Not => 9,
        Tok::Count => 10,
        Tok::As => 11,
        Tok::True => 12,
        Tok::False => 13,
        Tok::Null => 14,
        Tok::LParen => 15,
        Tok::RParen => 16,
        Tok::LBracket => 17,
        Tok::RBracket => 18,
        Tok::LBrace => 19,
        Tok::RBrace => 20,
        Tok::Colon => 21,
        Tok::Comma => 22,
        Tok::Dot => 23,
        Tok::Arrow => 24,
        Tok::Dash => 25,
        Tok::Gt => 26,
        Tok::Lt => 27,
        Tok::Gte => 28,
        Tok::Lte => 29,
        Tok::Eq => 30,
        Tok::Neq => 31,
        Tok::Ident(_) => 32,
        Tok::StringLit(_) => 33,
        Tok::IntLit(_) => 34,
        Tok::FloatLit(_) => 35,
        Tok::Eof => 36,
    }
}

/// A token as it is shown in messages.
pub open spec fn tok_text(t: Tok) -> Seq<char> {
    match t {
        Tok::Match => "Match"@,
        Tok::Return => "Return"@,
        Tok::Where => "Where"@,
        Tok::Create => "Create"@,
        Tok::Delete => "Delete"@,
        Tok::Merge => "Merge"@,
        Tok::Limit => "Limit"@,
        Tok::And => "And"@,
        Tok::Or => "Or"@,
        Tok::Not => "Not"@,
        Tok::Count => "Count"@,
        Tok::As => "As"@,
        Tok::True => "True"@,
        Tok::False => "False"@,
        Tok::Null => "Null"@,
        Tok::LParen => "LParen"@,
        Tok::RParen => "RParen"@,
        Tok::LBracket => "LBracket"@,
        Tok::RBracket => "RBracket"@,
        Tok::LBrace => "LBrace"@,
        Tok::RBrace => "RBrace"@,
        Tok::Colon => "Colon"@,
        Tok::Comma => "Comma"@,
        Tok::Dot => "Dot"@,
        Tok::Arrow => "Arrow"@,
        Tok::Dash => "Dash"@,
        Tok::Gt => "Gt"@,
        Tok::Lt => "Lt"@,
        Tok::Gte => "Gte"@,
        Tok::Lte => "Lte"@,
        Tok::Eq => "Eq"@,
        Tok::Neq => "Neq"@,
        Tok::Ident(s) => "Ident("@ + debug_text(s) + ")"@,
        Tok::StringLit(s) => "StringLit("@ + debug_text(s) + ")"@,
        Tok::IntLit(i) => "IntLit("@ + int_text(i as int) + ")"@,
        Tok::FloatLit(f) => "FloatLit("@ + float_debug_text(f) + ")"@,
        Tok::Eof => "Eof"@,
    }
}

/// What stands at a position, and the position behind it; or a position and
/// what is wrong there.
pub type Parsed<T> = Result<(T, int), (int, Seq<char>)>;

/// The message of a parse error.
pub open spec fn parse_message(p: int, m: Seq<char>) -> Seq<char> {
    "at position "@ + nat_text(p as nat) + ": "@ + m
}

/// The token at a position; behind the last, the token for the end.
pub open spec fn tok(ts: Seq<Tok>, p: int) -> Tok {
    if 0 <= p < ts.len() {
        ts[p]
    } else {
        Tok::Eof
    }
}

/// One token of a kind.
pub open spec fn expect_at(ts: Seq<Tok>, p: int, e: Tok) -> Result<int, (int, Seq<char>)> {
    if tok_kind(tok(ts, p)) == tok_kind(e) {
        Ok(p + 1)
    } else {
        Err((p + 1, "expected "@ + tok_text(e) + ", got "@ + tok_text(tok(ts, p))))
    }
}

/// An identifier.
pub open spec fn ident_at(ts: Seq<Tok>, p: int) -> Parsed<Seq<char>> {
    match tok(ts, p) {
        Tok::Ident(s) => Ok((s, p + 1)),
        t => Err((p + 1, "expected identifier, got "@ + tok_text(t))),
    }
}

/// Whether a sub-parse moved on inside the tokens.
pub open spec fn onward(ts: Seq<Tok>, p: int, q: int) -> bool {
    p < q <= ts.len()
}

/// An impossible outcome: a part of a statement that takes no token.
pub open spec fn stuck<T>(p: int) -> Parsed<T> {
    Err((p, Seq::empty()))
}

// ---------------------------------------------------------------------------
// Expressions
// ---------------------------------------------------------------------------

/// A literal, a property, or an expression in brackets.
pub open spec fn atom_at(ts: Seq<Tok>, p: int) -> Parsed<Ex>
    decreases ts.len() - p, 0int,
{
    match tok(ts, p) {
        Tok::IntLit(n) => Ok((Ex::Literal(Lit::Int(n)), p + 1)),
        Tok::FloatLit(f) => Ok((Ex::Literal(Lit::Float(f)), p + 1)),
        Tok::StringLit(s) => Ok((Ex::Literal(Lit::Str(s)), p + 1)),
        Tok::True => Ok((Ex::Literal(Lit::Bool(true)), p + 1)),
        Tok::False => Ok((Ex::Literal(Lit::Bool(false)), p + 1)),
        Tok::Null => Ok((Ex::Literal(Lit::Null), p + 1)),
        Tok::Ident(name) => if tok(ts, p + 1) is Dot {
            match ident_at(ts, p + 2) {
                Ok((prop, q)) => Ok((Ex::Property(name, prop), q)),
                Err(e) => Err(e),
            }
        } else {
            Err(
                (
                    p + 1,
                    "bare identifier '"@ + name
                        + "' not allowed in expressions; use property access like "@ + name
                        + ".prop"@,
                ),
            )
        },
        Tok::LParen => match or_at(ts, p + 1) {
            Ok((e, q)) => match expect_at(ts, q, Tok::RParen) {
                Ok(r) => Ok((e, r)),
                Err(x) => Err(x),
            },
            Err(x) => Err(x),
        },
        t => Err((p, "unexpected token in expression: "@ + tok_text(t))),
    }
}

/// The comparison that a token writes.
pub open spec fn comparison_op(t: Tok) -> Option<CmpOp> {
    match t {
        Tok::Eq => Some(CmpOp::Eq),
        Tok::Neq => Some(CmpOp::Neq),
        Tok::Lt => Some(CmpOp::Lt),
        Tok::Gt => Some(CmpOp::Gt),
        Tok::Lte => Some(CmpOp::Lte),
        Tok::Gte => Some(CmpOp::Gte),
        _ => None,
    }
}

/// An atom, or two that are compared.
pub open spec fn comparison_at(ts: Seq<Tok>, p: int) -> Parsed<Ex>
    decreases ts.len() - p, 1int,
{
    match atom_at(ts, p) {
        Err(e) => Err(e),
        Ok((left, q)) => match comparison_op(tok(ts, q)) {
            None => Ok((left, q)),
            Some(op) => if onward(ts, p, q) {
                match atom_at(ts, q + 1) {
                    Err(e) => Err(e),
                    Ok((right, r)) => Ok(
                        (Ex::Comparison(Box::new(left), op, Box::new(right)), r),
                    ),
                }
            } else {
                stuck(q)
            },
        },
    }
}

/// A comparison, or `NOT` in front of one.
pub open spec fn not_at(ts: Seq<Tok>, p: int) -> Parsed<Ex>
    decreases ts.len() - p, 2int,
{
    if tok(ts, p) is Not {
        match not_at(ts, p + 1) {
            Ok((e, q)) => Ok((Ex::Not(Box::new(e)), q)),
            Err(e) => Err(e),
        }
    } else {
        comparison_at(ts, p)
    }
}

/// Further operands of `AND`, which groups to the left.
pub open spec fn and_rest(ts: Seq<Tok>, p: int, left: Ex) -> Parsed<Ex>
    decreases ts.len() - p, 3int,
{
    if tok(ts, p) is And {
        match not_at(ts, p + 1) {
            Err(e) => Err(e),
            Ok((right, q)) => if onward(ts, p, q) {
                and_rest(ts, q, Ex::And(Box::new(left), Box::new(right)))
            } else {
                stuck(q)
            },
        }
    } else {
        Ok((left, p))
    }
}

/// Operands of `AND`.
pub open spec fn and_at(ts: Seq<Tok>, p: int) -> Parsed<Ex>
    decreases ts.len() - p, 4int,
{
    match not_at(ts, p) {
        Err(e) => Err(e),
        Ok((left, q)) => if onward(ts, p, q) {
            and_rest(ts, q, left)
        } else {
            stuck(q)
        },
    }
}

/// Further operands of `OR`, which groups to the left.
pub open spec fn or_rest(ts: Seq<Tok>, p: int, left: Ex) -> Parsed<Ex>
    decreases ts.len() - p, 5int,
{
    if tok(ts, p) is Or {
        match and_at(ts, p + 1) {
            Err(e) => Err(e),
            Ok((right, q)) => if onward(ts, p, q) {
                or_rest(ts, q, Ex::Or(Box::new(left), Box::new(right)))
            } else {
                stuck(q)
            },
        }
    } else {
        Ok((left, p))
    }
}

/// Operands of `OR`: any expression.
pub open spec fn or_at(ts: Seq<Tok>, p: int) -> Parsed<Ex>
    decreases ts.len() - p, 6int,
{
    match and_at(ts, p) {
        Err(e) => Err(e),
        Ok((left, q)) => if onward(ts, p, q) {
            or_rest(ts, q, left)
        } else {
            stuck(q)
        },
    }
}

// ---------------------------------------------------------------------------
// Paths
// ---------------------------------------------------------------------------

/// A name, a colon and an expression.
pub open spec fn prop_at(ts: Seq<Tok>, p: int) -> Parsed<(Seq<char>, Ex)> {
    match ident_at(ts, p) {
        Err(e) => Err(e),
        Ok((key, q)) => match expect_at(ts, q, Tok::Colon) {
            Err(e) => Err(e),
            Ok(r) => match or_at(ts, r) {
                Err(e) => Err(e),
                Ok((v, s)) => Ok(((key, v), s)),
            },
        },
    }
}

/// Further properties, each behind a comma.
pub open spec fn props_rest(ts: Seq<Tok>, p: int, acc: Exs) -> Parsed<Exs>
    decreases ts.len() - p,
{
    if tok(ts, p) is Comma {
        match prop_at(ts, p + 1) {
            Err(e) => Err(e),
            Ok(((k, v), q)) => if onward(ts, p, q) {
                props_rest(ts, q, exs_set(acc, k, v))
            } else {
                stuck(q)
            },
        }
    } else {
        Ok((acc, p))
    }
}

/// Properties in braces.
pub open spec fn props_at(ts: Seq<Tok>, p: int) -> Parsed<Exs> {
    match expect_at(ts, p, Tok::LBrace) {
        Err(e) => Err(e),
        Ok(q) => {
            let inner: Parsed<Exs> = if tok(ts, q) is RBrace {
                Ok((Seq::empty(), q))
            } else {
                match prop_at(ts, q) {
                    Err(e) => Err(e),
                    Ok(((k, v), r)) => props_rest(ts, r, exs_set(Seq::empty(), k, v)),
                }
            };
            match inner {
                Err(e) => Err(e),
                Ok((es, r)) => match expect_at(ts, r, Tok::RBrace) {
                    Err(e) => Err(e),
                    Ok(s) => Ok((es, s)),
                },
            }
        },
    }
}

/// An identifier, if one is there.
pub open spec fn opt_ident_at(ts: Seq<Tok>, p: int) -> (Option<Seq<char>>, int) {
    match tok(ts, p) {
        Tok::Ident(s) => (Some(s), p + 1),
        _ => (None, p),
    }
}

/// An identifier behind a colon, if a colon is there.
pub open spec fn opt_name_at(ts: Seq<Tok>, p: int) -> Parsed<Option<Seq<char>>> {
    if tok(ts, p) is Colon {
        match ident_at(ts, p + 1) {
            Err(e) => Err(e),
            Ok((s, q)) => Ok((Some(s), q)),
        }
    } else {
        Ok((None, p))
    }
}

/// Properties in braces, if a brace is there.
pub open spec fn opt_props_at(ts: Seq<Tok>, p: int) -> Parsed<Exs> {
    if tok(ts, p) is LBrace {
        props_at(ts, p)
    } else {
        Ok((Seq::empty(), p))
    }
}

/// A node of a path.
pub open spec fn node_at(ts: Seq<Tok>, p: int) -> Parsed<NodePat> {
    match expect_at(ts, p, Tok::LParen) {
        Err(e) => Err(e),
        Ok(q) => {
            let (variable, r) = opt_ident_at(ts, q);
            match opt_name_at(ts, r) {
                Err(e) => Err(e),
                Ok((label, s)) => match opt_props_at(ts, s) {
                    Err(e) => Err(e),
                    Ok((properties, t)) => match expect_at(ts, t, Tok::RParen) {
                        Err(e) => Err(e),
                        Ok(u) => Ok((NodePat { variable, label, properties }, u)),
                    },
                },
            }
        },
    }
}

/// The variable and the type of an edge in brackets, if a bracket is there.
pub open spec fn edge_body_at(ts: Seq<Tok>, p: int) -> Parsed<
    (Option<Seq<char>>, Option<Seq<char>>),
> {
    if tok(ts, p) is LBracket {
        let (variable, q) = opt_ident_at(ts, p + 1);
        match opt_name_at(ts, q) {
            Err(e) => Err(e),
            Ok((edge_type, r)) => match expect_at(ts, r, Tok::RBracket) {
                Err(e) => Err(e),
                Ok(s) => Ok(((variable, edge_type), s)),
            },
        }
    } else {
        Ok(((None, None), p))
    }
}

/// The end of an edge, which says its direction.
pub open spec fn edge_end_at(ts: Seq<Tok>, p: int, left: bool) -> Parsed<EdgeDirection> {
    if left {
        match expect_at(ts, p, Tok::Dash) {
            Err(e) => Err(e),
            Ok(q) => Ok((EdgeDirection::Left, q)),
        }
    } else if tok(ts, p) is Arrow {
        Ok((EdgeDirection::Right, p + 1))
    } else if tok(ts, p) is Dash {
        Ok((EdgeDirection::Both, p + 1))
    } else {
        Ok((EdgeDirection::Both, p))
    }
}

/// An edge of a path.
pub open spec fn edge_at(ts: Seq<Tok>, p: int) -> Parsed<EdgePat> {
    let left = tok(ts, p) is Lt;
    let q = if left {
        p + 1
    } else {
        p
    };
    match expect_at(ts, q, Tok::Dash) {
        Err(e) => Err(e),
        Ok(r) => match edge_body_at(ts, r) {
            Err(e) => Err(e),
            Ok(((variable, edge_type), s)) => match edge_end_at(ts, s, left) {
                Err(e) => Err(e),
                Ok((direction, t)) => Ok((EdgePat { variable, edge_type, direction }, t)),
            },
        },
    }
}

/// Further edges of a path, each with the node behind it.
pub open spec fn path_rest(ts: Seq<Tok>, p: int, acc: Seq<Elem>) -> Parsed<Seq<Elem>>
    decreases ts.len() - p,
{
    if tok(ts, p) is Dash || tok(ts, p) is Lt {
        match edge_at(ts, p) {
            Err(e) => Err(e),
            Ok((edge, q)) => match node_at(ts, q) {
                Err(e) => Err(e),
                Ok((node, r)) => if onward(ts, p, r) {
                    path_rest(ts, r, acc.push(Elem::Edge(edge)).push(Elem::Node(node)))
                } else {
                    stuck(r)
                },
            },
        }
    } else {
        Ok((acc, p))
    }
}

/// A path.
pub open spec fn path_at(ts: Seq<Tok>, p: int) -> Parsed<Seq<Elem>> {
    match node_at(ts, p) {
        Err(e) => Err(e),
        Ok((node, q)) => path_rest(ts, q, seq![Elem::Node(node)]),
    }
}

// ---------------------------------------------------------------------------
// Clauses
// ---------------------------------------------------------------------------

/// A variable, or a property of one.
pub open spec fn item_atom_at(ts: Seq<Tok>, p: int) -> Parsed<Item> {
    match ident_at(ts, p) {
        Err(e) => Err(e),
        Ok((name, q)) => if tok(ts, q) is Dot {
            match ident_at(ts, q + 1) {
                Err(e) => Err(e),
                Ok((prop, r)) => Ok((Item::Property(name, prop), r)),
            }
        } else {
            Ok((Item::Variable(name), q))
        },
    }
}

/// An item without an alias.
pub open spec fn plain_item_at(ts: Seq<Tok>, p: int) -> Parsed<Item> {
    if tok(ts, p) is Count {
        match expect_at(ts, p + 1, Tok::LParen) {
            Err(e) => Err(e),
            Ok(q) => match item_atom_at(ts, q) {
                Err(e) => Err(e),
                Ok((inner, r)) => match expect_at(ts, r, Tok::RParen) {
                    Err(e) => Err(e),
                    Ok(s) => Ok((Item::FunctionCall("count"@, Box::new(inner)), s)),
                },
            },
        }
    } else {
        item_atom_at(ts, p)
    }
}

/// An item of `RETURN`.
pub open spec fn item_at(ts: Seq<Tok>, p: int) -> Parsed<Item> {
    match plain_item_at(ts, p) {
        Err(e) => Err(e),
        Ok((item, q)) => if tok(ts, q) is As {
            match ident_at(ts, q + 1) {
                Err(e) => Err(e),
                Ok((alias, r)) => Ok((Item::Alias(Box::new(item), alias), r)),
            }
        } else {
            Ok((item, q))
        },
    }
}

/// Further items, each behind a comma.
pub open spec fn items_rest(ts: Seq<Tok>, p: int, acc: Seq<Item>) -> Parsed<Seq<Item>>
    decreases ts.len() - p,
{
    if tok(ts, p) is Comma {
        match item_at(ts, p + 1) {
            Err(e) => Err(e),
            Ok((item, q)) => if onward(ts, p, q) {
                items_rest(ts, q, acc.push(item))
            } else {
                stuck(q)
            },
        }
    } else {
        Ok((acc, p))
    }
}

/// `LIMIT`, if it is there.
pub open spec fn limit_at(ts: Seq<Tok>, p: int) -> Parsed<Option<u64>> {
    if tok(ts, p) is Limit {
        match tok(ts, p + 1) {
            Tok::IntLit(n) => Ok((Some(unsigned(n)), p + 2)),
            t => Err((p + 2, "expected integer after LIMIT, got "@ + tok_text(t))),
        }
    } else {
        Ok((None, p))
    }
}

/// `RETURN`.
pub open spec fn return_at(ts: Seq<Tok>, p: int) -> Parsed<Ret> {
    match expect_at(ts, p, Tok::Return) {
        Err(e) => Err(e),
        Ok(q) => match item_at(ts, q) {
            Err(e) => Err(e),
            Ok((first, r)) => match items_rest(ts, r, seq![first]) {
                Err(e) => Err(e),
                Ok((items, s)) => match limit_at(ts, s) {
                    Err(e) => Err(e),
                    Ok((limit, t)) => Ok((Ret { items, limit }, t)),
                },
            },
        },
    }
}

/// Further names, each behind a comma.
pub open spec fn names_rest(ts: Seq<Tok>, p: int, acc: Seq<Seq<char>>) -> Parsed<Seq<Seq<char>>>
    decreases ts.len() - p,
{
    if tok(ts, p) is Comma {
        match ident_at(ts, p + 1) {
            Err(e) => Err(e),
            Ok((name, q)) => if onward(ts, p, q) {
                names_rest(ts, q, acc.push(name))
            } else {
                stuck(q)
            },
        }
    } else {
        Ok((acc, p))
    }
}

/// `DELETE`.
pub open spec fn delete_at(ts: Seq<Tok>, p: int) -> Parsed<Seq<Seq<char>>> {
    match expect_at(ts, p, Tok::Delete) {
        Err(e) => Err(e),
        Ok(q) => match ident_at(ts, q) {
            Err(e) => Err(e),
            Ok((first, r)) => names_rest(ts, r, seq![first]),
        },
    }
}

/// `WHERE`, if it is there.
pub open spec fn where_at(ts: Seq<Tok>, p: int) -> Parsed<Option<Ex>> {
    if tok(ts, p) is Where {
        match or_at(ts, p + 1) {
            Err(e) => Err(e),
            Ok((e, q)) => Ok((Some(e), q)),
        }
    } else {
        Ok((None, p))
    }
}

/// `RETURN` or `DELETE`, if one is there.
pub open spec fn outcome_at(ts: Seq<Tok>, p: int) -> Parsed<
    (Option<Ret>, Option<Seq<Seq<char>>>),
> {
    if tok(ts, p) is Return {
        match return_at(ts, p) {
            Err(e) => Err(e),
            Ok((r, q)) => Ok(((Some(r), None), q)),
        }
    } else if tok(ts, p) is Delete {
        match delete_at(ts, p) {
            Err(e) => Err(e),
            Ok((d, q)) => Ok(((None, Some(d)), q)),
        }
    } else {
        Ok(((None, None), p))
    }
}

/// `MATCH` with what follows it.
#[verifier::opaque]
pub open spec fn match_at(ts: Seq<Tok>, p: int) -> Parsed<MatchStmt> {
    match expect_at(ts, p, Tok::Match) {
        Err(e) => Err(e),
        Ok(q) => match path_at(ts, q) {
            Err(e) => Err(e),
            Ok((pattern, r)) => match where_at(ts, r) {
                Err(e) => Err(e),
                Ok((where_clause, s)) => match outcome_at(ts, s) {
                    Err(e) => Err(e),
                    Ok(((return_clause, delete_clause), t)) => Ok(
                        (MatchStmt { pattern, where_clause, return_clause, delete_clause }, t),
                    ),
                },
            },
        },
    }
}

/// A statement without what marks its end.
pub open spec fn clause_at(ts: Seq<Tok>, p: int) -> Parsed<Stmt> {
    match tok(ts, p) {
        Tok::Match => match match_at(ts, p) {
            Err(e) => Err(e),
            Ok((m, q)) => Ok((Stmt::Match(m), q)),
        },
        Tok::Create => match path_at(ts, p + 1) {
            Err(e) => Err(e),
            Ok((c, q)) => Ok((Stmt::Create(c), q)),
        },
        Tok::Merge => match node_at(ts, p + 1) {
            Err(e) => Err(e),
            Ok((m, q)) => Ok((Stmt::Merge(m), q)),
        },
        _ => Err((p, "expected MATCH, CREATE, or MERGE"@)),
    }
}

/// A statement, behind which nothing stands.
pub open spec fn statement_at(ts: Seq<Tok>, p: int) -> Parsed<Stmt> {
    match clause_at(ts, p) {
        Err(e) => Err(e),
        Ok((s, q)) => match expect_at(ts, q, Tok::Eof) {
            Err(e) => Err(e),
            Ok(r) => Ok((s, r)),
        },
    }
}

} // verus!
