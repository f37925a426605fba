//! From text to tokens.

use crate::cypher::{CypherErr, CypherError};
use crate::cypher::chars::{
    alphabetic, alphanumeric, chars_of, is_alphabetic, is_alphanumeric, is_whitespace, text_of,
    to_uppercase, uppercase, whitespace,
};
use crate::float::Float;
use crate::numtext::{decimal_float, decimal_to_float, digits_value, is_digit};
use crate::text::{copy_str, str_equal};
use vstd::prelude::*;

verus! {

/// A token of the query language.
#[derive(Debug, PartialEq)]
pub enum Token {
    Match,
    Return,
    Where,
    Create,
    Delete,
    Merge,
    Limit,
    And,
    Or,
    Not,
    Count,
    As,
    True,
    False,
    Null,
    LParen,
    RParen,
    LBracket,
    RBracket,
    LBrace,
    RBrace,
    Colon,
    Comma,
    Dot,
    /// `->`
    Arrow,
    /// `-`
    Dash,
    Gt,
    Lt,
    Gte,
    Lte,
    Eq,
    /// `<>`
    Neq,
    Ident(String),
    StringLit(String),
    IntLit(i64),
    FloatLit(Float),
    Eof,
}

/// A token, as a value.
pub enum Tok {
    Match,
    Return,
    Where,
    Create,
    Delete,
    Merge,
    Limit,
    And,
    Or,
    Not,
    Count,
    As,
    True,
    False,
    Null,
    LParen,
    RParen,
    LBracket,
    RBracket,
    LBrace,
    RBrace,
    Colon,
    Comma,
    Dot,
    Arrow,
    Dash,
    Gt,
    Lt,
    Gte,
    Lte,
    Eq,
    Neq,
    Ident(Seq<char>),
    StringLit(Seq<char>),
    IntLit(i64),
    FloatLit(u64),
    Eof,
}

impl View for Token {
    type V = Tok;

    open spec fn view(&self) -> Tok {
        match self {
            Token::Match => Tok::Match,
            Token::Return => Tok::Return,
            Token::Where => Tok::Where,
            Token::Create => Tok::Create,
            Token::Delete => Tok::Delete,
            Token::Merge => Tok::Merge,
            Token::Limit => Tok::Limit,
            Token::And => Tok::And,
            Token::Or => Tok::Or,
            Token::Not => Tok::Not,
            Token::Count => Tok::Count,
            Token::As => Tok::As,
            Token::True => Tok::True,
            Token::False => Tok::False,
            Token::Null => Tok::Null,
            Token::LParen => Tok::LParen,
            Token::RParen => Tok::RParen,
            Token::LBracket => Tok::LBracket,
            Token::RBracket => Tok::RBracket,
            Token::LBrace => Tok::LBrace,
            Token::RBrace => Tok::RBrace,
            Token::Colon => Tok::Colon,
            Token::Comma => Tok::Comma,
            Token::Dot => Tok::Dot,
            Token::Arrow => Tok::Arrow,
            Token::Dash => Tok::Dash,
            Token::Gt => Tok::Gt,
            Token::Lt => Tok::Lt,
            Token::Gte => Tok::Gte,
            Token::Lte => Tok::Lte,
            Token::Eq => Tok::Eq,
            Token::Neq => Tok::Neq,
            Token::Ident(s) => Tok::Ident(s@),
            Token::StringLit(s) => Tok::StringLit(s@),
            Token::IntLit(i) => Tok::IntLit(*i),
            Token::FloatLit(f) => Tok::FloatLit(f.bits),
            Token::Eof => Tok::Eof,
        }
    }
}

impl Clone for Token {
    fn clone(&self) -> (r: Self)
        ensures
            r@ == self@,
    {
        match self {
            Token::Match => Token::Match,
            Token::Return => Token::Return,
            Token::Where => Token::Where,
            Token::Create => Token::Create,
            Token::Delete => Token::Delete,
            Token::Merge => Token::Merge,
            Token::Limit => Token::Limit,
            Token::And => Token::And,
            Token::Or => Token::Or,
            Token::Not => Token::Not,
            Token::Count => Token::Count,
            Token::As => Token::As,
            Token::True => Token::True,
            Token::False => Token::False,
            Token::Null => Token::Null,
            Token::LParen => Token::LParen,
            Token::RParen => Token::RParen,
            Token::LBracket => Token::LBracket,
            Token::RBracket => Token::RBracket,
            Token::LBrace => Token::LBrace,
            Token::RBrace => Token::RBrace,
            Token::Colon => Token::Colon,
            Token::Comma => Token::Comma,
            Token::Dot => Token::Dot,
            Token::Arrow => Token::Arrow,
            Token::Dash => Token::Dash,
            Token::Gt => Token::Gt,
            Token::Lt => Token::Lt,
            Token::Gte => Token::Gte,
            Token::Lte => Token::Lte,
            Token::Eq => Token::Eq,
            Token::Neq => Token::Neq,
            Token::Ident(s) => Token::Ident(copy_str(s.as_str())),
            Token::StringLit(s) => Token::StringLit(copy_str(s.as_str())),
            Token::IntLit(i) => Token::IntLit(*i),
            Token::FloatLit(f) => Token::FloatLit(*f),
            Token::Eof => Token::Eof,
        }
    }
}

/// Tokens, as values.
pub open spec fn toks(v: Seq<Token>) -> Seq<Tok> {
    Seq::new(v.len(), |i: int| v[i]@)
}

// ---------------------------------------------------------------------------
// What the tokens of a text are
// ---------------------------------------------------------------------------

/// Where the white space from `p` on ends.
pub open spec fn space_end(cs: Seq<char>, p: int) -> int
    decreases cs.len() - p,
{
    if 0 <= p < cs.len() && whitespace(cs[p]) {
        space_end(cs, p + 1)
    } else {
        p
    }
}

/// Where the digits from `p` on end.
pub open spec fn digits_end(cs: Seq<char>, p: int) -> int
    decreases cs.len() - p,
{
    if 0 <= p < cs.len() && is_digit(cs[p]) {
        digits_end(cs, p + 1)
    } else {
        p
    }
}

/// Whether a character can stand in a word.
pub open spec fn in_word(c: char) -> bool {
    alphanumeric(c) || c == '_'
}

/// Where the word from `p` on ends.
pub open spec fn word_end(cs: Seq<char>, p: int) -> int
    decreases cs.len() - p,
{
    if 0 <= p < cs.len() && in_word(cs[p]) {
        word_end(cs, p + 1)
    } else {
        p
    }
}

/// The rest of a string literal from `p` on, behind `acc`, up to its closing
/// quote, and the position behind that. A backslash lets the character behind
/// it stand for itself.
pub open spec fn quoted(cs: Seq<char>, p: int, quote: char, acc: Seq<char>) -> Option<
    (Seq<char>, int),
>
    decreases cs.len() - p,
{
    if !(0 <= p < cs.len()) {
        None
    } else if cs[p] == quote {
        Some((acc, p + 1))
    } else if cs[p] == '\\' {
        if p + 1 < cs.len() {
            quoted(cs, p + 2, quote, acc.push(cs[p + 1]))
        } else {
            None
        }
    } else {
        quoted(cs, p + 1, quote, acc.push(cs[p]))
    }
}

/// The token of a word, by its upper case: a keyword or an identifier.
pub open spec fn word_tok(upper: Seq<char>, word: Seq<char>) -> Tok {
    if upper == "MATCH"@ {
        Tok::Match
    } else if upper == "RETURN"@ {
        Tok::Return
    } else if upper == "WHERE"@ {
        Tok::Where
    } else if upper == "CREATE"@ {
        Tok::Create
    } else if upper == "DELETE"@ {
        Tok::Delete
    } else if upper == "MERGE"@ {
        Tok::Merge
    } else if upper == "LIMIT"@ {
        Tok::Limit
    } else if upper == "AND"@ {
        Tok::And
    } else if upper == "OR"@ {
        Tok::Or
    } else if upper == "NOT"@ {
        Tok::Not
    } else if upper == "COUNT"@ {
        Tok::Count
    } else if upper == "AS"@ {
        Tok::As
    } else if upper == "TRUE"@ {
        Tok::True
    } else if upper == "FALSE"@ {
        Tok::False
    } else if upper == "NULL"@ {
        Tok::Null
    } else {
        Tok::Ident(word)
    }
}

/// A token that starts at `p`, and the position behind it, or a message.
pub type Lexed = Result<(Tok, int), Seq<char>>;

/// The number that starts at `p`: digits, which may be followed by a point and
/// further digits.
pub open spec fn number_at(cs: Seq<char>, p: int) -> Lexed {
    let a = digits_end(cs, p);
    if a < cs.len() && cs[a] == '.' {
        let b = digits_end(cs, a + 1);
        let digits = cs.subrange(p, a) + cs.subrange(a + 1, b);
        Ok((Tok::FloatLit(decimal_float(digits, (b - a - 1) as nat)), b))
    } else if digits_value(cs.subrange(p, a)) > i64::MAX {
        Err("number too large to fit in target type"@)
    } else {
        Ok((Tok::IntLit(digits_value(cs.subrange(p, a)) as i64), a))
    }
}

/// The string literal that starts at `p`.
pub open spec fn string_at(cs: Seq<char>, p: int) -> Lexed {
    match quoted(cs, p + 1, cs[p], Seq::empty()) {
        Some((s, q)) => Ok((Tok::StringLit(s), q)),
        None => Err("unterminated string"@),
    }
}

/// The word that starts at `p`.
pub open spec fn word_at(cs: Seq<char>, p: int) -> Lexed {
    let q = word_end(cs, p);
    let word = cs.subrange(p, q);
    Ok((word_tok(uppercase(word), word), q))
}

/// The token that starts at `p`, where no white space is.
pub open spec fn tok_at(cs: Seq<char>, p: int) -> Lexed {
    if p >= cs.len() {
        Ok((Tok::Eof, p))
    } else {
        let c = cs[p];
        let next = |x: char| p + 1 < cs.len() && cs[p + 1] == x;
        if c == '(' {
            Ok((Tok::LParen, p + 1))
        } else if c == ')' {
            Ok((Tok::RParen, p + 1))
        } else if c == '[' {
            Ok((Tok::LBracket, p + 1))
        } else if c == ']' {
            Ok((Tok::RBracket, p + 1))
        } else if c == '{' {
            Ok((Tok::LBrace, p + 1))
        } else if c == '}' {
            Ok((Tok::RBrace, p + 1))
        } else if c == ':' {
            Ok((Tok::Colon, p + 1))
        } else if c == ',' {
            Ok((Tok::Comma, p + 1))
        } else if c == '.' {
            Ok((Tok::Dot, p + 1))
        } else if c == '=' {
            Ok((Tok::Eq, p + 1))
        } else if c == '-' {
            if next('>') {
                Ok((Tok::Arrow, p + 2))
            } else {
                Ok((Tok::Dash, p + 1))
            }
        } else if c == '>' {
            if next('=') {
                Ok((Tok::Gte, p + 2))
            } else {
                Ok((Tok::Gt, p + 1))
            }
        } else if c == '<' {
            if next('=') {
                Ok((Tok::Lte, p + 2))
            } else if next('>') {
                Ok((Tok::Neq, p + 2))
            } else {
                Ok((Tok::Lt, p + 1))
            }
        } else if c == '\'' || c == '"' {
            string_at(cs, p)
        } else if is_digit(c) {
            number_at(cs, p)
        } else if alphabetic(c) || c == '_' {
            word_at(cs, p)
        } else {
            Err("unexpected character: '"@.push(c).push('\''))
        }
    }
}

/// The tokens from `p` on, with the one for the end, or the first message.
pub open spec fn tokens_at(cs: Seq<char>, p: int) -> Result<Seq<Tok>, Seq<char>>
    decreases cs.len() - p,
{
    match tok_at(cs, space_end(cs, p)) {
        Err(m) => Err(m),
        Ok((t, q)) => if t is Eof {
            Ok(seq![Tok::Eof])
        } else if p < q <= cs.len() {
            match tokens_at(cs, q) {
                Err(m) => Err(m),
                Ok(rest) => Ok(seq![t] + rest),
            }
        } else {
            Err(Seq::empty())
        },
    }
}

/// Tokens in front of further tokens.
pub open spec fn in_front(a: Seq<Tok>, r: Result<Seq<Tok>, Seq<char>>) -> Result<
    Seq<Tok>,
    Seq<char>,
> {
    match r {
        Ok(s) => Ok(a + s),
        Err(m) => Err(m),
    }
}

proof fn lemma_space_end(cs: Seq<char>, p: int)
    requires
        0 <= p <= cs.len(),
    ensures
        p <= space_end(cs, p) <= cs.len(),
    decreases cs.len() - p,
{
    if p < cs.len() && whitespace(cs[p]) {
        lemma_space_end(cs, p + 1);
    }
}

// ---------------------------------------------------------------------------
// The lexer
// ---------------------------------------------------------------------------

/// Reads tokens from a text.
pub struct Lexer {
    pub input: Vec<char>,
    pub pos: usize,
}

/// Whether reading one token gave what the text says.
pub open spec fn lexed(r: Result<Token, CypherError>, pos: usize, e: Lexed) -> bool {
    match (r, e) {
        (Ok(t), Ok((v, q))) => t@ == v && pos == q,
        (Err(c), Err(m)) => c@ == CypherErr::Lex(m),
        _ => false,
    }
}

impl Lexer {
    /// Whether the position lies in the text.
    pub open spec fn wf(&self) -> bool {
        self.pos <= self.input@.len()
    }

    /// A lexer at the start of a text.
    pub fn new(input: &str) -> (r: Self)
        ensures
            r.wf(),
            r.input@ == input@,
            r.pos == 0,
    {
        Lexer { input: chars_of(input), pos: 0 }
    }

    /// Reads all tokens from the position on, the last of which marks the end.
    pub fn tokenize(&mut self) -> (r: Result<Vec<Token>, CypherError>)
        requires
            old(self).wf(),
        ensures
            final(self).wf(),
            final(self).input == old(self).input,
            match (r, tokens_at(old(self).input@, old(self).pos as int)) {
                (Ok(v), Ok(s)) => toks(v@) == s && v@.len() <= old(self).input@.len() - old(
                    self,
                ).pos + 1 && final(self).pos == old(self).input@.len(),
                (Err(c), Err(m)) => c@ == CypherErr::Lex(m),
                _ => false,
            },
    {
        let mut tokens: Vec<Token> = Vec::new();
        let ghost cs = self.input@;
        let ghost start = self.pos as int;
        assert(toks(tokens@) =~= Seq::empty());
        proof {
            let e = tokens_at(cs, start);
            match e {
                Ok(s) => assert(Seq::<Tok>::empty() + s =~= s),
                Err(_) => {},
            }
        }
        loop
            invariant
                self.wf(),
                self.input@ == cs,
                self.input == old(self).input,
                start == old(self).pos,
                start <= self.pos,
                tokens@.len() <= self.pos - start,
                tokens_at(cs, start) == in_front(toks(tokens@), tokens_at(cs, self.pos as int)),
            decreases cs.len() - self.pos,
        {
            let ghost p = self.pos as int;
            proof {
                lemma_space_end(cs, p);
            }
            let tok = match self.next_token() {
                Ok(t) => t,
                Err(e) => {
                    return Err(e);
                },
            };
            let ghost before = tokens@;
            match tok {
                Token::Eof => {
                    tokens.push(Token::Eof);
                    assert(toks(tokens@) =~= toks(before) + seq![Tok::Eof]);
                    return Ok(tokens);
                },
                t => {
                    let ghost v = t@;
                    tokens.push(t);
                    proof {
                        assert(toks(tokens@) =~= toks(before).push(v));
                        match tokens_at(cs, self.pos as int) {
                            Ok(s) => assert(toks(before) + (seq![v] + s) =~= toks(before).push(v)
                                + s),
                            Err(_) => {},
                        }
                    }
                },
            }
        }
    }

    fn peek_is(&self, c: char) -> (r: bool)
        ensures
            r == (self.pos < self.input@.len() && self.input@[self.pos as int] == c),
    {
        self.pos < self.input.len() && self.input[self.pos] == c
    }

    fn skip_whitespace(&mut self)
        requires
            old(self).wf(),
        ensures
            final(self).wf(),
            final(self).input == old(self).input,
            final(self).pos == space_end(old(self).input@, old(self).pos as int),
            final(self).pos >= old(self).pos,
    {
        while self.pos < self.input.len() && is_whitespace(self.input[self.pos])
            invariant
                self.wf(),
                self.input == old(self).input,
                self.pos >= old(self).pos,
                space_end(old(self).input@, old(self).pos as int) == space_end(
                    self.input@,
                    self.pos as int,
                ),
            decreases self.input@.len() - self.pos,
        {
            self.pos = self.pos + 1;
        }
    }

    fn one(&mut self, t: Token) -> (r: Result<Token, CypherError>)
        requires
            old(self).pos < old(self).input@.len(),
        ensures
            final(self).input == old(self).input,
            final(self).pos == old(self).pos + 1,
            r == Ok::<Token, CypherError>(t),
    {
        assert(self.input.len() == self.input@.len());
        self.pos = self.pos + 1;
        Ok(t)
    }

    /// Reads one token.
    fn next_token(&mut self) -> (r: Result<Token, CypherError>)
        requires
            old(self).wf(),
        ensures
            final(self).wf(),
            final(self).input == old(self).input,
            lexed(
                r,
                final(self).pos,
                tok_at(old(self).input@, space_end(old(self).input@, old(self).pos as int)),
            ),
            r matches Ok(t) ==> {
                &&& final(self).pos >= old(self).pos
                &&& t@ is Eof ==> final(self).pos == old(self).input@.len()
                &&& t@ !is Eof ==> final(self).pos > old(self).pos
            },
    {
        self.skip_whitespace();
        if self.pos >= self.input.len() {
            return Ok(Token::Eof);
        }
        let ch: char = self.input[self.pos];
        if ch == '(' {
            self.one(Token::LParen)
        } else if ch == ')' {
            self.one(Token::RParen)
        } else if ch == '[' {
            self.one(Token::LBracket)
        } else if ch == ']' {
            self.one(Token::RBracket)
        } else if ch == '{' {
            self.one(Token::LBrace)
        } else if ch == '}' {
            self.one(Token::RBrace)
        } else if ch == ':' {
            self.one(Token::Colon)
        } else if ch == ',' {
            self.one(Token::Comma)
        } else if ch == '.' {
            self.one(Token::Dot)
        } else if ch == '=' {
            self.one(Token::Eq)
        } else if ch == '-' {
            self.pos = self.pos + 1;
            if self.peek_is('>') {
                self.one(Token::Arrow)
            } else {
                Ok(Token::Dash)
            }
        } else if ch == '>' {
            self.pos = self.pos + 1;
            if self.peek_is('=') {
                self.one(Token::Gte)
            } else {
                Ok(Token::Gt)
            }
        } else if ch == '<' {
            self.pos = self.pos + 1;
            if self.peek_is('=') {
                self.one(Token::Lte)
            } else if self.peek_is('>') {
                self.one(Token::Neq)
            } else {
                Ok(Token::Lt)
            }
        } else if ch == '\'' || ch == '"' {
            self.read_string()
        } else if '0' <= ch && ch <= '9' {
            self.read_number()
        } else if is_alphabetic(ch) || ch == '_' {
            self.read_ident_or_keyword()
        } else {
            let mut m = copy_str("unexpected character: '");
            m.push(ch);
            m.push('\'');
            Err(CypherError::Lex(m))
        }
    }

    /// Reads a string literal, whose quote is at the position.
    fn read_string(&mut self) -> (r: Result<Token, CypherError>)
        requires
            old(self).pos < old(self).input@.len(),
        ensures
            final(self).wf(),
            final(self).input == old(self).input,
            lexed(r, final(self).pos, string_at(old(self).input@, old(self).pos as int)),
            r matches Ok(t) ==> t@ is StringLit && final(self).pos > old(self).pos,
    {
        let quote: char = self.input[self.pos];
        assert(self.input.len() == self.input@.len());
        self.pos = self.pos + 1;
        let mut s: String = String::new();
        assert(s@ =~= Seq::empty());
        while self.pos < self.input.len()
            invariant
                old(self).pos < self.pos <= self.input@.len(),
                self.input == old(self).input,
                quote == old(self).input@[old(self).pos as int],
                quoted(self.input@, old(self).pos + 1, quote, Seq::empty()) == quoted(
                    self.input@,
                    self.pos as int,
                    quote,
                    s@,
                ),
            decreases self.input@.len() - self.pos,
        {
            let c: char = self.input[self.pos];
            self.pos = self.pos + 1;
            if c == quote {
                return Ok(Token::StringLit(s));
            }
            if c == '\\' {
                if self.pos >= self.input.len() {
                    return Err(CypherError::Lex(copy_str("unterminated string")));
                }
                s.push(self.input[self.pos]);
                self.pos = self.pos + 1;
            } else {
                s.push(c);
            }
        }
        Err(CypherError::Lex(copy_str("unterminated string")))
    }

    /// Reads a number, whose first digit is at the position.
    fn read_number(&mut self) -> (r: Result<Token, CypherError>)
        requires
            old(self).pos < old(self).input@.len(),
            is_digit(old(self).input@[old(self).pos as int]),
        ensures
            final(self).wf(),
            final(self).input == old(self).input,
            lexed(r, final(self).pos, number_at(old(self).input@, old(self).pos as int)),
            r matches Ok(t) ==> t@ !is Eof && final(self).pos > old(self).pos,
    {
        let ghost cs = self.input@;
        let ghost p = self.pos as int;
        let mut digits: Vec<char> = Vec::new();
        self.take_digits(&mut digits);
        let ghost a = self.pos as int;
        assert(digits@ =~= cs.subrange(p, a));
        if self.peek_is('.') {
            assert(self.input.len() == self.input@.len());
            self.pos = self.pos + 1;
            let from: usize = self.pos;
            self.take_digits(&mut digits);
            assert(digits@ =~= cs.subrange(p, a) + cs.subrange(a + 1, self.pos as int));
            let places: u64 = (self.pos - from) as u64;
            Ok(Token::FloatLit(decimal_to_float(&digits, places)))
        } else {
            match digits_to_int(&digits) {
                Some(n) => Ok(Token::IntLit(n)),
                None => Err(CypherError::Lex(copy_str("number too large to fit in target type"))),
            }
        }
    }

    /// Moves over digits, which are appended to `digits`.
    fn take_digits(&mut self, digits: &mut Vec<char>)
        requires
            old(self).wf(),
            forall|i: int| 0 <= i < old(digits)@.len() ==> is_digit(#[trigger] old(digits)@[i]),
        ensures
            final(self).wf(),
            final(self).input == old(self).input,
            final(self).pos == digits_end(old(self).input@, old(self).pos as int),
            final(self).pos >= old(self).pos,
            old(self).pos < old(self).input@.len() && is_digit(
                old(self).input@[old(self).pos as int],
            ) ==> final(self).pos > old(self).pos,
            final(digits)@ == old(digits)@ + old(self).input@.subrange(
                old(self).pos as int,
                final(self).pos as int,
            ),
            forall|i: int| 0 <= i < final(digits)@.len() ==> is_digit(#[trigger] final(digits)@[i]),
    {
        assert(digits@ =~= old(digits)@ + old(self).input@.subrange(
            old(self).pos as int,
            self.pos as int,
        ));
        while self.pos < self.input.len() && '0' <= self.input[self.pos] && self.input[self.pos]
            <= '9'
            invariant
                self.wf(),
                self.input == old(self).input,
                self.pos >= old(self).pos,
                digits_end(old(self).input@, old(self).pos as int) == digits_end(
                    self.input@,
                    self.pos as int,
                ),
                digits@ == old(digits)@ + old(self).input@.subrange(
                    old(self).pos as int,
                    self.pos as int,
                ),
                forall|i: int| 0 <= i < digits@.len() ==> is_digit(#[trigger] digits@[i]),
            decreases self.input@.len() - self.pos,
        {
            digits.push(self.input[self.pos]);
            self.pos = self.pos + 1;
            assert(digits@ =~= old(digits)@ + old(self).input@.subrange(
                old(self).pos as int,
                self.pos as int,
            ));
        }
    }

    /// Reads a word, whose first character is at the position.
    fn read_ident_or_keyword(&mut self) -> (r: Result<Token, CypherError>)
        requires
            old(self).pos < old(self).input@.len(),
            alphabetic(old(self).input@[old(self).pos as int]) || old(self).input@[old(
                self,
            ).pos as int] == '_',
        ensures
            final(self).wf(),
            final(self).input == old(self).input,
            lexed(r, final(self).pos, word_at(old(self).input@, old(self).pos as int)),
            r matches Ok(t) ==> t@ !is Eof && final(self).pos > old(self).pos,
    {
        let from: usize = self.pos;
        while self.pos < self.input.len() && (is_alphanumeric(self.input[self.pos])
            || self.input[self.pos] == '_')
            invariant
                self.wf(),
                self.input == old(self).input,
                from == old(self).pos,
                self.pos >= from,
                word_end(self.input@, from as int) == word_end(self.input@, self.pos as int),
            decreases self.input@.len() - self.pos,
        {
            self.pos = self.pos + 1;
        }
        let word = text_of(&self.input, from, self.pos);
        let upper = to_uppercase(word.as_str());
        Ok(keyword(upper.as_str(), word))
    }
}

/// The integer that digits write, where it fits.
fn digits_to_int(digits: &Vec<char>) -> (r: Option<i64>)
    requires
        forall|i: int| 0 <= i < digits@.len() ==> is_digit(#[trigger] digits@[i]),
    ensures
        match r {
            Some(n) => n == digits_value(digits@),
            None => digits_value(digits@) > i64::MAX,
        },
{
    let mut n: i128 = 0;
    let mut i: usize = 0;
    while i < digits.len()
        invariant
            i <= digits@.len(),
            forall|j: int| 0 <= j < digits@.len() ==> is_digit(#[trigger] digits@[j]),
            n == digits_value(digits@.take(i as int)),
            0 <= n <= i64::MAX,
        decreases digits@.len() - i,
    {
        assert(is_digit(digits@[i as int]));
        assert(digits@.take(i + 1).drop_last() =~= digits@.take(i as int));
        n = n * 10 + (digits[i] as u32 - 48) as i128;
        i = i + 1;
        if n > i64::MAX as i128 {
            proof {
                lemma_digits_grow(digits@, i as int);
            }
            return None;
        }
    }
    assert(digits@.take(i as int) =~= digits@);
    Some(n as i64)
}

proof fn lemma_digits_grow(s: Seq<char>, i: int)
    requires
        0 <= i <= s.len(),
    ensures
        digits_value(s.take(i)) <= digits_value(s),
    decreases s.len() - i,
{
    if i == s.len() {
        assert(s.take(i) =~= s);
    } else {
        lemma_digits_grow(s, i + 1);
        assert(s.take(i + 1).drop_last() =~= s.take(i));
    }
}

/// The token of a word: a keyword where its upper case is one, else an
/// identifier.
pub fn keyword(upper: &str, word: String) -> (r: Token)
    ensures
        r@ == word_tok(upper@, word@),
{
    if str_equal(upper, "MATCH") {
        Token::Match
    } else if str_equal(upper, "RETURN") {
        Token::Return
    } else if str_equal(upper, "WHERE") {
        Token::Where
    } else if str_equal(upper, "CREATE") {
        Token::Create
    } else if str_equal(upper, "DELETE") {
        Token::Delete
    } else if str_equal(upper, "MERGE") {
        Token::Merge
    } else if str_equal(upper, "LIMIT") {
        Token::Limit
    } else if str_equal(upper, "AND") {
        Token::And
    } else if str_equal(upper, "OR") {
        Token::Or
    } else if str_equal(upper, "NOT") {
        Token::Not
    } else if str_equal(upper, "COUNT") {
        Token::Count
    } else if str_equal(upper, "AS") {
        Token::As
    } else if str_equal(upper, "TRUE") {
        Token::True
    } else if str_equal(upper, "FALSE") {
        Token::False
    } else if str_equal(upper, "NULL") {
        Token::Null
    } else {
        Token::Ident(word)
    }
}

} // verus!
