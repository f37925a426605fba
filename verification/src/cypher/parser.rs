//! From tokens to statements.

use crate::cypher::{CypherErr, CypherError};
use crate::cypher::ast::{
    elems_view, items_view, CmpOp, CreateClause, EdgeDirection, EdgePattern, Expr, ExprMap,
    LiteralValue, MatchClause, MergeClause, NodePattern, Pattern, PatternElement, ReturnClause,
    ReturnItem, Statement,
};
use crate::cypher::chars::debug_str;
use crate::cypher::grammar::{
    and_at, and_rest, atom_at, comparison_at, delete_at, edge_at, edge_body_at, expect_at,
    ident_at, item_at, item_atom_at, items_rest, limit_at, match_at, names_rest, node_at, not_at,
    opt_ident_at, opt_name_at, opt_props_at, or_at, or_rest, parse_message, path_at, path_rest,
    plain_item_at, prop_at, props_at, props_rest, return_at, statement_at, tok, tok_kind, tok_text,
    where_at, Parsed,
};
use crate::cypher::lexer::{toks, Tok, Token};
use crate::numtext::{push_float_debug, push_int, push_number};
use crate::text::{copy_str, push_text, texts};
use vstd::prelude::*;

verus! {

/// Reads a statement from tokens.
pub struct Parser {
    pub tokens: Vec<Token>,
    pub pos: usize,
}

/// Whether a parse gave what the tokens write, or the error that they call for,
/// and ended where it should.
pub open spec fn agrees<T: View>(r: Result<T, CypherError>, pos: usize, e: Parsed<T::V>) -> bool {
    match (r, e) {
        (Ok(x), Ok((v, q))) => x@ == v && pos == q,
        (Err(c), Err((q, m))) => c@ == CypherErr::Parse(parse_message(q, m)) && pos == q,
        _ => false,
    }
}

/// The same for a part that may be missing.
pub open spec fn agrees_opt<T: View>(
    r: Result<Option<T>, CypherError>,
    pos: usize,
    e: Parsed<Option<T::V>>,
) -> bool {
    match (r, e) {
        (Ok(x), Ok((v, q))) => pos == q && match (x, v) {
            (Some(a), Some(b)) => a@ == b,
            (None, None) => true,
            _ => false,
        },
        (Err(c), Err((q, m))) => c@ == CypherErr::Parse(parse_message(q, m)) && pos == q,
        _ => false,
    }
}

fn kind(t: &Token) -> (r: u8)
    ensures
        r == tok_kind(t@),
{
    match t {
        Token::Match => 0,
        Token::Return => 1,
        Token::Where => 2,
        Token::Create => 3,
        Token::Delete => 4,
        Token::Merge => 5,
        Token::Limit => 6,
        Token::And => 7,
        Token::Or => 8,
        Token::Not => 9,
        Token::Count => 10,
        Token::As => 11,
        Token::True => 12,
        Token::False => 13,
        Token::Null => 14,
        Token::LParen => 15,
        Token::RParen => 16,
        Token::LBracket => 17,
        Token::RBracket => 18,
        Token::LBrace => 19,
        Token::RBrace => 20,
        Token::Colon => 21,
        Token::Comma => 22,
        Token::Dot => 23,
        Token::Arrow => 24,
        Token::Dash => 25,
        Token::Gt => 26,
        Token::Lt => 27,
        Token::Gte => 28,
        Token::Lte => 29,
        Token::Eq => 30,
        Token::Neq => 31,
        Token::Ident(_) => 32,
        Token::StringLit(_) => 33,
        Token::IntLit(_) => 34,
        Token::FloatLit(_) => 35,
        Token::Eof => 36,
    }
}

/// A token as it is shown in messages.
pub fn token_text(t: &Token) -> (r: String)
    ensures
        r@ == tok_text(t@),
{
    match t {
        Token::Match => copy_str("Match"),
        Token::Return => copy_str("Return"),
        Token::Where => copy_str("Where"),
        Token::Create => copy_str("Create"),
        Token::Delete => copy_str("Delete"),
        Token::Merge => copy_str("Merge"),
        Token::Limit => copy_str("Limit"),
        Token::And => copy_str("And"),
        Token::Or => copy_str("Or"),
        Token::Not => copy_str("Not"),
        Token::Count => copy_str("Count"),
        Token::As => copy_str("As"),
        Token::True => copy_str("True"),
        Token::False => copy_str("False"),
        Token::Null => copy_str("Null"),
        Token::LParen => copy_str("LParen"),
        Token::RParen => copy_str("RParen"),
        Token::LBracket => copy_str("LBracket"),
        Token::RBracket => copy_str("RBracket"),
        Token::LBrace => copy_str("LBrace"),
        Token::RBrace => copy_str("RBrace"),
        Token::Colon => copy_str("Colon"),
        Token::Comma => copy_str("Comma"),
        Token::Dot => copy_str("Dot"),
        Token::Arrow => copy_str("Arrow"),
        Token::Dash => copy_str("Dash"),
        Token::Gt => copy_str("Gt"),
        Token::Lt => copy_str("Lt"),
        Token::Gte => copy_str("Gte"),
        Token::Lte => copy_str("Lte"),
        Token::Eq => copy_str("Eq"),
        Token::Neq => copy_str("Neq"),
        Token::Ident(s) => {
            let mut r = copy_str("Ident(");
            push_text(&mut r, debug_str(s.as_str()).as_str());
            push_text(&mut r, ")");
            r
        },
        Token::StringLit(s) => {
            let mut r = copy_str("StringLit(");
            push_text(&mut r, debug_str(s.as_str()).as_str());
            push_text(&mut r, ")");
            r
        },
        Token::IntLit(s) => {
            let mut r = copy_str("IntLit(");
            push_int(&mut r, *s);
            push_text(&mut r, ")");
            r
        },
        Token::FloatLit(s) => {
            let mut r = copy_str("FloatLit(");
            push_float_debug(&mut r, *s);
            push_text(&mut r, ")");
            r
        },
        Token::Eof => copy_str("Eof"),
    }
}

impl Parser {
    /// The tokens, as values.
    pub open spec fn ts(&self) -> Seq<Tok> {
        toks(self.tokens@)
    }

    /// Whether the position lies in the tokens.
    pub open spec fn wf(&self) -> bool {
        &&& self.pos <= self.tokens@.len()
        &&& self.tokens@.len() + 2 <= usize::MAX
    }

    /// A parser at the first of some tokens.
    pub fn new(tokens: Vec<Token>) -> (r: Self)
        ensures
            r.tokens == tokens,
            r.pos == 0,
    {
        Parser { tokens, pos: 0 }
    }

    /// Reads the statement that the tokens from the position on write.
    pub fn parse(&mut self) -> (r: Result<Statement, CypherError>)
        requires
            old(self).wf(),
        ensures
            final(self).tokens == old(self).tokens,
            agrees(r, final(self).pos, statement_at(old(self).ts(), old(self).pos as int)),
            r matches Ok(s) ==> s.width() <= old(self).tokens@.len(),
    {
        let stmt = match self.peek() {
            Token::Match => match self.parse_match() {
                Ok(m) => Statement::Match(m),
                Err(e) => {
                    return Err(e);
                },
            },
            Token::Create => match self.parse_create() {
                Ok(c) => Statement::Create(c),
                Err(e) => {
                    return Err(e);
                },
            },
            Token::Merge => match self.parse_merge() {
                Ok(m) => Statement::Merge(m),
                Err(e) => {
                    return Err(e);
                },
            },
            _ => {
                return Err(self.error("expected MATCH, CREATE, or MERGE"));
            },
        };
        match self.expect(Token::Eof) {
            Ok(_) => {},
            Err(e) => {
                return Err(e);
            },
        }
        Ok(stmt)
    }

    fn peek(&self) -> (r: Token)
        ensures
            r@ == tok(self.ts(), self.pos as int),
    {
        if self.pos < self.tokens.len() {
            self.tokens[self.pos].clone()
        } else {
            Token::Eof
        }
    }

    fn peek_is(&self, t: Token) -> (r: bool)
        ensures
            r == (tok_kind(tok(self.ts(), self.pos as int)) == tok_kind(t@)),
    {
        if self.pos < self.tokens.len() {
            kind(&self.tokens[self.pos]) == kind(&t)
        } else {
            kind(&Token::Eof) == kind(&t)
        }
    }

    fn advance(&mut self) -> (r: Token)
        requires
            old(self).pos < usize::MAX,
        ensures
            final(self).tokens == old(self).tokens,
            final(self).pos == old(self).pos + 1,
            r@ == tok(old(self).ts(), old(self).pos as int),
    {
        let t = self.peek();
        self.pos = self.pos + 1;
        t
    }

    fn error(&self, msg: &str) -> (r: CypherError)
        ensures
            r@ == CypherErr::Parse(parse_message(self.pos as int, msg@)),
    {
        let mut s = copy_str("at position ");
        push_number(&mut s, self.pos as u64);
        push_text(&mut s, ": ");
        push_text(&mut s, msg);
        CypherError::Parse(s)
    }

    fn expect(&mut self, expected: Token) -> (r: Result<(), CypherError>)
        requires
            old(self).wf(),
        ensures
            final(self).tokens == old(self).tokens,
            final(self).pos == old(self).pos + 1,
            match (r, expect_at(old(self).ts(), old(self).pos as int, expected@)) {
                (Ok(_), Ok(q)) => true,
                (Err(c), Err((q, m))) => c@ == CypherErr::Parse(parse_message(q, m)) && q == old(
                    self,
                ).pos + 1,
                _ => false,
            },
            r is Ok && expected@ !is Eof ==> final(self).pos <= old(self).tokens@.len(),
    {
        let t = self.advance();
        if kind(&t) == kind(&expected) {
            Ok(())
        } else {
            let mut m = copy_str("expected ");
            push_text(&mut m, token_text(&expected).as_str());
            push_text(&mut m, ", got ");
            push_text(&mut m, token_text(&t).as_str());
            Err(self.error(m.as_str()))
        }
    }

    /// Reads an identifier.
    fn expect_ident(&mut self) -> (r: Result<String, CypherError>)
        requires
            old(self).wf(),
        ensures
            final(self).tokens == old(self).tokens,
            agrees(r, final(self).pos, ident_at(old(self).ts(), old(self).pos as int)),
            r is Ok ==> old(self).pos < final(self).pos <= old(self).tokens@.len(),
    {
        match self.advance() {
            Token::Ident(s) => Ok(s),
            other => {
                let mut m = copy_str("expected identifier, got ");
                push_text(&mut m, token_text(&other).as_str());
                Err(self.error(m.as_str()))
            },
        }
    }

    /// Reads a literal, a property, or an expression in brackets.
    fn parse_atom(&mut self) -> (r: Result<Expr, CypherError>)
        requires
            old(self).wf(),
        ensures
            final(self).tokens == old(self).tokens,
            agrees(r, final(self).pos, atom_at(old(self).ts(), old(self).pos as int)),
            r is Ok ==> old(self).pos < final(self).pos <= old(self).tokens@.len(),
        decreases old(self).tokens@.len() - old(self).pos, 0int,
    {
        match self.peek() {
            Token::IntLit(n) => {
                let _ = self.advance();
                Ok(Expr::Literal(LiteralValue::Int(n)))
            },
            Token::FloatLit(f) => {
                let _ = self.advance();
                Ok(Expr::Literal(LiteralValue::Float(f)))
            },
            Token::StringLit(s) => {
                let _ = self.advance();
                Ok(Expr::Literal(LiteralValue::String(s)))
            },
            Token::True => {
                let _ = self.advance();
                Ok(Expr::Literal(LiteralValue::Bool(true)))
            },
            Token::False => {
                let _ = self.advance();
                Ok(Expr::Literal(LiteralValue::Bool(false)))
            },
            Token::Null => {
                let _ = self.advance();
                Ok(Expr::Literal(LiteralValue::Null))
            },
            Token::Ident(name) => {
                let _ = self.advance();
                if self.peek_is(Token::Dot) {
                    let _ = self.advance();
                    match self.expect_ident() {
                        Ok(prop) => Ok(Expr::Property(name, prop)),
                        Err(e) => Err(e),
                    }
                } else {
                    let mut m = copy_str("bare identifier '");
                    push_text(&mut m, name.as_str());
                    push_text(
                        &mut m,
                        "' not allowed in expressions; use property access like ",
                    );
                    push_text(&mut m, name.as_str());
                    push_text(&mut m, ".prop");
                    Err(self.error(m.as_str()))
                }
            },
            Token::LParen => {
                let _ = self.advance();
                let inner = match self.parse_or_expr() {
                    Ok(x) => x,
                    Err(e) => {
                        return Err(e);
                    },
                };
                match self.expect(Token::RParen) {
                    Ok(_) => Ok(inner),
                    Err(e) => Err(e),
                }
            },
            t => {
                let mut m = copy_str("unexpected token in expression: ");
                push_text(&mut m, token_text(&t).as_str());
                Err(self.error(m.as_str()))
            },
        }
    }

    /// Reads an atom, or two that are compared.
    fn parse_comparison(&mut self) -> (r: Result<Expr, CypherError>)
        requires
            old(self).wf(),
        ensures
            final(self).tokens == old(self).tokens,
            agrees(r, final(self).pos, comparison_at(old(self).ts(), old(self).pos as int)),
            r is Ok ==> old(self).pos < final(self).pos <= old(self).tokens@.len(),
        decreases old(self).tokens@.len() - old(self).pos, 1int,
    {
        let left = match self.parse_atom() {
            Ok(x) => x,
            Err(e) => {
                return Err(e);
            },
        };
        let op = match self.peek() {
            Token::Eq => Some(CmpOp::Eq),
            Token::Neq => Some(CmpOp::Neq),
            Token::Lt => Some(CmpOp::Lt),
            Token::Gt => Some(CmpOp::Gt),
            Token::Lte => Some(CmpOp::Lte),
            Token::Gte => Some(CmpOp::Gte),
            _ => None,
        };
        match op {
            Some(op) => {
                let _ = self.advance();
                match self.parse_atom() {
                    Ok(right) => Ok(Expr::Comparison(Box::new(left), op, Box::new(right))),
                    Err(e) => Err(e),
                }
            },
            None => Ok(left),
        }
    }

    /// Reads a comparison, or `NOT` in front of one.
    fn parse_not_expr(&mut self) -> (r: Result<Expr, CypherError>)
        requires
            old(self).wf(),
        ensures
            final(self).tokens == old(self).tokens,
            agrees(r, final(self).pos, not_at(old(self).ts(), old(self).pos as int)),
            r is Ok ==> old(self).pos < final(self).pos <= old(self).tokens@.len(),
        decreases old(self).tokens@.len() - old(self).pos, 2int,
    {
        if self.peek_is(Token::Not) {
            let _ = self.advance();
            match self.parse_not_expr() {
                Ok(inner) => Ok(Expr::Not(Box::new(inner))),
                Err(e) => Err(e),
            }
        } else {
            self.parse_comparison()
        }
    }

    /// Reads operands of `AND`.
    fn parse_and_expr(&mut self) -> (r: Result<Expr, CypherError>)
        requires
            old(self).wf(),
        ensures
            final(self).tokens == old(self).tokens,
            agrees(r, final(self).pos, and_at(old(self).ts(), old(self).pos as int)),
            r is Ok ==> old(self).pos < final(self).pos <= old(self).tokens@.len(),
        decreases old(self).tokens@.len() - old(self).pos, 4int,
    {
        let first = match self.parse_not_expr() {
            Ok(x) => x,
            Err(e) => {
                return Err(e);
            },
        };
        let mut left = first;
        while self.peek_is(Token::And)
            invariant
                old(self).pos < self.pos <= self.tokens@.len(),
                self.wf(),
                self.tokens == old(self).tokens,
                and_at(old(self).ts(), old(self).pos as int) == and_rest(
                    self.ts(),
                    self.pos as int,
                    left@,
                ),
            decreases self.tokens@.len() - self.pos,
        {
            let _ = self.advance();
            match self.parse_not_expr() {
                Ok(right) => {
                    left = Expr::And(Box::new(left), Box::new(right));
                },
                Err(e) => {
                    return Err(e);
                },
            }
        }
        Ok(left)
    }

    /// Reads operands of `OR`.
    fn parse_or_expr(&mut self) -> (r: Result<Expr, CypherError>)
        requires
            old(self).wf(),
        ensures
            final(self).tokens == old(self).tokens,
            agrees(r, final(self).pos, or_at(old(self).ts(), old(self).pos as int)),
            r is Ok ==> old(self).pos < final(self).pos <= old(self).tokens@.len(),
        decreases old(self).tokens@.len() - old(self).pos, 6int,
    {
        let first = match self.parse_and_expr() {
            Ok(x) => x,
            Err(e) => {
                return Err(e);
            },
        };
        let mut left = first;
        while self.peek_is(Token::Or)
            invariant
                old(self).pos < self.pos <= self.tokens@.len(),
                self.wf(),
                self.tokens == old(self).tokens,
                or_at(old(self).ts(), old(self).pos as int) == or_rest(
                    self.ts(),
                    self.pos as int,
                    left@,
                ),
            decreases self.tokens@.len() - self.pos,
        {
            let _ = self.advance();
            match self.parse_and_expr() {
                Ok(right) => {
                    left = Expr::Or(Box::new(left), Box::new(right));
                },
                Err(e) => {
                    return Err(e);
                },
            }
        }
        Ok(left)
    }

    /// Reads an expression.
    fn parse_expr(&mut self) -> (r: Result<Expr, CypherError>)
        requires
            old(self).wf(),
        ensures
            final(self).tokens == old(self).tokens,
            agrees(r, final(self).pos, or_at(old(self).ts(), old(self).pos as int)),
            r is Ok ==> old(self).pos < final(self).pos <= old(self).tokens@.len(),
    {
        self.parse_or_expr()
    }

    /// Reads a name, a colon and an expression.
    fn parse_property(&mut self) -> (r: Result<(String, Expr), CypherError>)
        requires
            old(self).wf(),
        ensures
            final(self).tokens == old(self).tokens,
            match (r, prop_at(old(self).ts(), old(self).pos as int)) {
                (Ok((k, e)), Ok(((name, v), q))) => k@ == name && e@ == v && final(self).pos == q,
                (Err(c), Err((q, m))) => c@ == CypherErr::Parse(parse_message(q, m)) && final(self).pos == q,
                _ => false,
            },
            r is Ok ==> old(self).pos < final(self).pos <= old(self).tokens@.len(),
    {
        let key = match self.expect_ident() {
            Ok(x) => x,
            Err(e) => {
                return Err(e);
            },
        };
        match self.expect(Token::Colon) {
            Ok(_) => {},
            Err(e) => {
                return Err(e);
            },
        }
        let value = match self.parse_expr() {
            Ok(x) => x,
            Err(e) => {
                return Err(e);
            },
        };
        Ok((key, value))
    }

    /// Reads properties in braces.
    fn parse_properties(&mut self) -> (r: Result<ExprMap, CypherError>)
        requires
            old(self).wf(),
        ensures
            final(self).tokens == old(self).tokens,
            agrees(r, final(self).pos, props_at(old(self).ts(), old(self).pos as int)),
            r is Ok ==> old(self).pos < final(self).pos <= old(self).tokens@.len(),
    {
        match self.expect(Token::LBrace) {
            Ok(_) => {},
            Err(e) => {
                return Err(e);
            },
        }
        let mut props = ExprMap::new();
        if !self.peek_is(Token::RBrace) {
            let ghost at = self.pos as int;
            match self.parse_property() {
                Ok((key, value)) => {
                    props.insert(key, value);
                },
                Err(e) => {
                    return Err(e);
                },
            }
            let ghost from = self.pos as int;
            let ghost first = props@;
            while self.peek_is(Token::Comma)
                invariant
                    old(self).pos < self.pos <= self.tokens@.len(),
                    self.wf(),
                    self.tokens == old(self).tokens,
                    props_rest(old(self).ts(), from, first) == props_rest(
                        self.ts(),
                        self.pos as int,
                        props@,
                    ),
                    match props_rest(old(self).ts(), from, first) {
                        Err(e) => props_at(old(self).ts(), old(self).pos as int) == Err::<
                            (crate::cypher::ast::Exs, int),
                            (int, Seq<char>),
                        >(e),
                        Ok(_) => true,
                    },
                decreases self.tokens@.len() - self.pos,
            {
                let _ = self.advance();
                match self.parse_property() {
                    Ok((key, value)) => {
                        props.insert(key, value);
                    },
                    Err(e) => {
                        return Err(e);
                    },
                }
            }
        }
        match self.expect(Token::RBrace) {
            Ok(_) => {},
            Err(e) => {
                return Err(e);
            },
        }
        Ok(props)
    }

    /// Reads an identifier, if one is there.
    fn opt_ident(&mut self) -> (r: Option<String>)
        requires
            old(self).wf(),
        ensures
            final(self).tokens == old(self).tokens,
            opt_ident_at(old(self).ts(), old(self).pos as int) == (
                crate::cypher::ast::opt_string(r),
                final(self).pos as int,
            ),
            old(self).pos <= final(self).pos <= old(self).tokens@.len(),
    {
        match self.peek() {
            Token::Ident(s) => {
                let _ = self.advance();
                Some(s)
            },
            _ => None,
        }
    }

    /// Reads an identifier behind a colon, if a colon is there.
    fn opt_name(&mut self) -> (r: Result<Option<String>, CypherError>)
        requires
            old(self).wf(),
        ensures
            final(self).tokens == old(self).tokens,
            agrees_opt(r, final(self).pos, opt_name_at(old(self).ts(), old(self).pos as int)),
            r is Ok ==> old(self).pos <= final(self).pos <= old(self).tokens@.len(),
    {
        if self.peek_is(Token::Colon) {
            let _ = self.advance();
            match self.expect_ident() {
                Ok(s) => Ok(Some(s)),
                Err(e) => Err(e),
            }
        } else {
            Ok(None)
        }
    }

    /// Reads properties in braces, if a brace is there.
    fn opt_properties(&mut self) -> (r: Result<ExprMap, CypherError>)
        requires
            old(self).wf(),
        ensures
            final(self).tokens == old(self).tokens,
            agrees(r, final(self).pos, opt_props_at(old(self).ts(), old(self).pos as int)),
            r is Ok ==> old(self).pos <= final(self).pos <= old(self).tokens@.len(),
    {
        if self.peek_is(Token::LBrace) {
            self.parse_properties()
        } else {
            Ok(ExprMap::new())
        }
    }

    /// Reads a node of a path.
    fn parse_node_pattern(&mut self) -> (r: Result<NodePattern, CypherError>)
        requires
            old(self).wf(),
        ensures
            final(self).tokens == old(self).tokens,
            agrees(r, final(self).pos, node_at(old(self).ts(), old(self).pos as int)),
            r is Ok ==> old(self).pos < final(self).pos <= old(self).tokens@.len(),
    {
        match self.expect(Token::LParen) {
            Ok(_) => {},
            Err(e) => {
                return Err(e);
            },
        }
        let variable = self.opt_ident();
        let label = match self.opt_name() {
            Ok(x) => x,
            Err(e) => {
                return Err(e);
            },
        };
        let properties = match self.opt_properties() {
            Ok(x) => x,
            Err(e) => {
                return Err(e);
            },
        };
        match self.expect(Token::RParen) {
            Ok(_) => {},
            Err(e) => {
                return Err(e);
            },
        }
        Ok(NodePattern { variable, label, properties })
    }

    /// Reads the variable and the type of an edge, if a bracket is there.
    fn parse_edge_body(&mut self) -> (r: Result<(Option<String>, Option<String>), CypherError>)
        requires
            old(self).wf(),
        ensures
            final(self).tokens == old(self).tokens,
            match (r, edge_body_at(old(self).ts(), old(self).pos as int)) {
                (Ok((v, t)), Ok(((a, b), q))) => crate::cypher::ast::opt_string(v) == a
                    && crate::cypher::ast::opt_string(t) == b && final(self).pos == q,
                (Err(c), Err((q, m))) => c@ == CypherErr::Parse(parse_message(q, m)) && final(self).pos == q,
                _ => false,
            },
            r is Ok ==> old(self).pos <= final(self).pos <= old(self).tokens@.len(),
    {
        if !self.peek_is(Token::LBracket) {
            return Ok((None, None));
        }
        let _ = self.advance();
        let variable = self.opt_ident();
        let edge_type = match self.opt_name() {
            Ok(x) => x,
            Err(e) => {
                return Err(e);
            },
        };
        match self.expect(Token::RBracket) {
            Ok(_) => {},
            Err(e) => {
                return Err(e);
            },
        }
        Ok((variable, edge_type))
    }

    /// Reads an edge of a path.
    fn parse_edge_pattern(&mut self) -> (r: Result<EdgePattern, CypherError>)
        requires
            old(self).wf(),
        ensures
            final(self).tokens == old(self).tokens,
            agrees(r, final(self).pos, edge_at(old(self).ts(), old(self).pos as int)),
            r is Ok ==> old(self).pos < final(self).pos <= old(self).tokens@.len(),
    {
        let left_arrow = self.peek_is(Token::Lt);
        if left_arrow {
            let _ = self.advance();
        }
        match self.expect(Token::Dash) {
            Ok(_) => {},
            Err(e) => {
                return Err(e);
            },
        }
        let (variable, edge_type) = match self.parse_edge_body() {
            Ok(x) => x,
            Err(e) => {
                return Err(e);
            },
        };
        let direction = if left_arrow {
            match self.expect(Token::Dash) {
                Ok(_) => EdgeDirection::Left,
                Err(e) => {
                    return Err(e);
                },
            }
        } else if self.peek_is(Token::Arrow) {
            let _ = self.advance();
            EdgeDirection::Right
        } else if self.peek_is(Token::Dash) {
            let _ = self.advance();
            EdgeDirection::Both
        } else {
            EdgeDirection::Both
        };
        Ok(EdgePattern { variable, edge_type, direction })
    }

    /// Reads a path.
    fn parse_pattern(&mut self) -> (r: Result<Pattern, CypherError>)
        requires
            old(self).wf(),
        ensures
            final(self).tokens == old(self).tokens,
            agrees(r, final(self).pos, path_at(old(self).ts(), old(self).pos as int)),
            r is Ok ==> old(self).pos < final(self).pos <= old(self).tokens@.len(),
            r matches Ok(p) ==> p.elements@.len() <= final(self).pos - old(self).pos,
    {
        let first = match self.parse_node_pattern() {
            Ok(x) => x,
            Err(e) => {
                return Err(e);
            },
        };
        let mut elements: Vec<PatternElement> = Vec::new();
        let ghost n = first@;
        elements.push(PatternElement::Node(first));
        assert(elems_view(elements@) =~= seq![crate::cypher::ast::Elem::Node(n)]);
        while self.peek_is(Token::Dash) || self.peek_is(Token::Lt)
            invariant
                old(self).pos < self.pos <= self.tokens@.len(),
                self.wf(),
                self.tokens == old(self).tokens,
                elements@.len() <= self.pos - old(self).pos,
                path_at(old(self).ts(), old(self).pos as int) == path_rest(
                    self.ts(),
                    self.pos as int,
                    elems_view(elements@),
                ),
            decreases self.tokens@.len() - self.pos,
        {
            let ghost before = elements@;
            let edge = match self.parse_edge_pattern() {
                Ok(x) => x,
                Err(e) => {
                    return Err(e);
                },
            };
            let node = match self.parse_node_pattern() {
                Ok(x) => x,
                Err(e) => {
                    return Err(e);
                },
            };
            let ghost ev = crate::cypher::ast::Elem::Edge(edge@);
            let ghost nv = crate::cypher::ast::Elem::Node(node@);
            elements.push(PatternElement::Edge(edge));
            elements.push(PatternElement::Node(node));
            assert(elems_view(elements@) =~= elems_view(before).push(ev).push(nv));
        }
        Ok(Pattern { elements })
    }

    /// Reads a variable, or a property of one.
    fn parse_return_item_atom(&mut self) -> (r: Result<ReturnItem, CypherError>)
        requires
            old(self).wf(),
        ensures
            final(self).tokens == old(self).tokens,
            agrees(r, final(self).pos, item_atom_at(old(self).ts(), old(self).pos as int)),
            r is Ok ==> old(self).pos < final(self).pos <= old(self).tokens@.len(),
    {
        let name = match self.expect_ident() {
            Ok(x) => x,
            Err(e) => {
                return Err(e);
            },
        };
        if self.peek_is(Token::Dot) {
            let _ = self.advance();
            match self.expect_ident() {
                Ok(prop) => Ok(ReturnItem::Property(name, prop)),
                Err(e) => Err(e),
            }
        } else {
            Ok(ReturnItem::Variable(name))
        }
    }

    /// Reads an item without an alias.
    fn parse_plain_item(&mut self) -> (r: Result<ReturnItem, CypherError>)
        requires
            old(self).wf(),
        ensures
            final(self).tokens == old(self).tokens,
            agrees(r, final(self).pos, plain_item_at(old(self).ts(), old(self).pos as int)),
            r is Ok ==> old(self).pos < final(self).pos <= old(self).tokens@.len(),
    {
        if self.peek_is(Token::Count) {
            let _ = self.advance();
            match self.expect(Token::LParen) {
                Ok(_) => {},
                Err(e) => {
                    return Err(e);
                },
            }
            let inner = match self.parse_return_item_atom() {
                Ok(x) => x,
                Err(e) => {
                    return Err(e);
                },
            };
            match self.expect(Token::RParen) {
                Ok(_) => {},
                Err(e) => {
                    return Err(e);
                },
            }
            Ok(ReturnItem::FunctionCall(copy_str("count"), Box::new(inner)))
        } else {
            self.parse_return_item_atom()
        }
    }

    /// Reads an item of `RETURN`.
    fn parse_return_item(&mut self) -> (r: Result<ReturnItem, CypherError>)
        requires
            old(self).wf(),
        ensures
            final(self).tokens == old(self).tokens,
            agrees(r, final(self).pos, item_at(old(self).ts(), old(self).pos as int)),
            r is Ok ==> old(self).pos < final(self).pos <= old(self).tokens@.len(),
    {
        let item = match self.parse_plain_item() {
            Ok(x) => x,
            Err(e) => {
                return Err(e);
            },
        };
        if self.peek_is(Token::As) {
            let _ = self.advance();
            match self.expect_ident() {
                Ok(alias) => Ok(ReturnItem::Alias(Box::new(item), alias)),
                Err(e) => Err(e),
            }
        } else {
            Ok(item)
        }
    }

    /// Reads `LIMIT`, if it is there.
    fn parse_limit(&mut self) -> (r: Result<Option<u64>, CypherError>)
        requires
            old(self).wf(),
        ensures
            final(self).tokens == old(self).tokens,
            match (r, limit_at(old(self).ts(), old(self).pos as int)) {
                (Ok(n), Ok((m, q))) => n == m && final(self).pos == q,
                (Err(c), Err((q, m))) => c@ == CypherErr::Parse(parse_message(q, m)) && final(self).pos == q,
                _ => false,
            },
            r is Ok ==> old(self).pos <= final(self).pos <= old(self).tokens@.len(),
    {
        if self.peek_is(Token::Limit) {
            let _ = self.advance();
            match self.advance() {
                Token::IntLit(n) => {
                    let k: u64 = if n >= 0 {
                        n as u64
                    } else {
                        (n as i128 + 0x1_0000_0000_0000_0000) as u64
                    };
                    Ok(Some(k))
                },
                other => {
                    let mut m = copy_str("expected integer after LIMIT, got ");
                    push_text(&mut m, token_text(&other).as_str());
                    Err(self.error(m.as_str()))
                },
            }
        } else {
            Ok(None)
        }
    }

    /// Reads `RETURN`.
    fn parse_return(&mut self) -> (r: Result<ReturnClause, CypherError>)
        requires
            old(self).wf(),
        ensures
            final(self).tokens == old(self).tokens,
            agrees(r, final(self).pos, return_at(old(self).ts(), old(self).pos as int)),
            r is Ok ==> old(self).pos < final(self).pos <= old(self).tokens@.len(),
    {
        match self.expect(Token::Return) {
            Ok(_) => {},
            Err(e) => {
                return Err(e);
            },
        }
        let first = match self.parse_return_item() {
            Ok(x) => x,
            Err(e) => {
                return Err(e);
            },
        };
        let mut items: Vec<ReturnItem> = Vec::new();
        let ghost v = first@;
        items.push(first);
        assert(items_view(items@) =~= seq![v]);
        let ghost from = self.pos as int;
        while self.peek_is(Token::Comma)
            invariant
                old(self).pos < self.pos <= self.tokens@.len(),
                self.wf(),
                self.tokens == old(self).tokens,
                items_rest(old(self).ts(), from, seq![v]) == items_rest(
                    self.ts(),
                    self.pos as int,
                    items_view(items@),
                ),
                match items_rest(old(self).ts(), from, seq![v]) {
                    Err(e) => return_at(old(self).ts(), old(self).pos as int) == Err::<
                        (crate::cypher::ast::Ret, int),
                        (int, Seq<char>),
                    >(e),
                    Ok(_) => true,
                },
            decreases self.tokens@.len() - self.pos,
        {
            let _ = self.advance();
            let ghost before = items@;
            match self.parse_return_item() {
                Ok(item) => {
                    let ghost w = item@;
                    items.push(item);
                    assert(items_view(items@) =~= items_view(before).push(w));
                },
                Err(e) => {
                    return Err(e);
                },
            }
        }
        let limit = match self.parse_limit() {
            Ok(x) => x,
            Err(e) => {
                return Err(e);
            },
        };
        Ok(ReturnClause { items, limit })
    }

    /// Reads `DELETE`.
    fn parse_delete(&mut self) -> (r: Result<Vec<String>, CypherError>)
        requires
            old(self).wf(),
        ensures
            final(self).tokens == old(self).tokens,
            match (r, delete_at(old(self).ts(), old(self).pos as int)) {
                (Ok(v), Ok((s, q))) => texts(v@) == s && final(self).pos == q,
                (Err(c), Err((q, m))) => c@ == CypherErr::Parse(parse_message(q, m)) && final(self).pos == q,
                _ => false,
            },
            r is Ok ==> old(self).pos < final(self).pos <= old(self).tokens@.len(),
    {
        match self.expect(Token::Delete) {
            Ok(_) => {},
            Err(e) => {
                return Err(e);
            },
        }
        let first = match self.expect_ident() {
            Ok(x) => x,
            Err(e) => {
                return Err(e);
            },
        };
        let mut names: Vec<String> = Vec::new();
        let ghost v = first@;
        names.push(first);
        assert(texts(names@) =~= seq![v]);
        while self.peek_is(Token::Comma)
            invariant
                old(self).pos < self.pos <= self.tokens@.len(),
                self.wf(),
                self.tokens == old(self).tokens,
                delete_at(old(self).ts(), old(self).pos as int) == names_rest(
                    self.ts(),
                    self.pos as int,
                    texts(names@),
                ),
            decreases self.tokens@.len() - self.pos,
        {
            let _ = self.advance();
            let ghost before = names@;
            match self.expect_ident() {
                Ok(name) => {
                    let ghost w = name@;
                    names.push(name);
                    assert(texts(names@) =~= texts(before).push(w));
                },
                Err(e) => {
                    return Err(e);
                },
            }
        }
        Ok(names)
    }

    /// Reads `WHERE`, if it is there.
    fn parse_where(&mut self) -> (r: Result<Option<Expr>, CypherError>)
        requires
            old(self).wf(),
        ensures
            final(self).tokens == old(self).tokens,
            agrees_opt(r, final(self).pos, where_at(old(self).ts(), old(self).pos as int)),
            r is Ok ==> old(self).pos <= final(self).pos <= old(self).tokens@.len(),
    {
        if self.peek_is(Token::Where) {
            let _ = self.advance();
            match self.parse_expr() {
                Ok(e) => Ok(Some(e)),
                Err(e) => Err(e),
            }
        } else {
            Ok(None)
        }
    }

    /// Reads `MATCH` with what follows it.
    fn parse_match(&mut self) -> (r: Result<MatchClause, CypherError>)
        requires
            old(self).wf(),
        ensures
            final(self).tokens == old(self).tokens,
            agrees(r, final(self).pos, match_at(old(self).ts(), old(self).pos as int)),
            r is Ok ==> old(self).pos < final(self).pos <= old(self).tokens@.len(),
    {
        reveal(match_at);
        match self.expect(Token::Match) {
            Ok(_) => {},
            Err(e) => {
                return Err(e);
            },
        }
        let pattern = match self.parse_pattern() {
            Ok(x) => x,
            Err(e) => {
                return Err(e);
            },
        };
        let where_clause = match self.parse_where() {
            Ok(x) => x,
            Err(e) => {
                return Err(e);
            },
        };
        let mut return_clause: Option<ReturnClause> = None;
        let mut delete_clause: Option<Vec<String>> = None;
        match self.peek() {
            Token::Return => match self.parse_return() {
                Ok(r) => {
                    return_clause = Some(r);
                },
                Err(e) => {
                    return Err(e);
                },
            },
            Token::Delete => match self.parse_delete() {
                Ok(d) => {
                    delete_clause = Some(d);
                },
                Err(e) => {
                    return Err(e);
                },
            },
            _ => {},
        }
        Ok(MatchClause { pattern, where_clause, return_clause, delete_clause })
    }

    /// Reads `CREATE`.
    fn parse_create(&mut self) -> (r: Result<CreateClause, CypherError>)
        requires
            old(self).wf(),
            tok(old(self).ts(), old(self).pos as int) is Create,
        ensures
            final(self).tokens == old(self).tokens,
            match (r, path_at(old(self).ts(), old(self).pos + 1)) {
                (Ok(c), Ok((p, q))) => c.pattern@ == p && final(self).pos == q,
                (Err(c), Err((q, m))) => c@ == CypherErr::Parse(parse_message(q, m)) && final(self).pos == q,
                _ => false,
            },
            r matches Ok(c) ==> final(self).pos <= old(self).tokens@.len()
                && c.pattern.elements@.len() <= old(self).tokens@.len(),
    {
        match self.expect(Token::Create) {
            Ok(_) => {},
            Err(e) => {
                return Err(e);
            },
        }
        let pattern = match self.parse_pattern() {
            Ok(x) => x,
            Err(e) => {
                return Err(e);
            },
        };
        Ok(CreateClause { pattern })
    }

    /// Reads `MERGE`.
    fn parse_merge(&mut self) -> (r: Result<MergeClause, CypherError>)
        requires
            old(self).wf(),
            tok(old(self).ts(), old(self).pos as int) is Merge,
        ensures
            final(self).tokens == old(self).tokens,
            match (r, node_at(old(self).ts(), old(self).pos + 1)) {
                (Ok(c), Ok((p, q))) => c.pattern@ == p && final(self).pos == q,
                (Err(c), Err((q, m))) => c@ == CypherErr::Parse(parse_message(q, m)) && final(self).pos == q,
                _ => false,
            },
            r is Ok ==> final(self).pos <= old(self).tokens@.len(),
    {
        match self.expect(Token::Merge) {
            Ok(_) => {},
            Err(e) => {
                return Err(e);
            },
        }
        let pattern = match self.parse_node_pattern() {
            Ok(x) => x,
            Err(e) => {
                return Err(e);
            },
        };
        Ok(MergeClause { pattern })
    }
}

} // verus!
