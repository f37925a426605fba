//! How tokens are spelled, and that what is spelled is what is read.

use crate::cypher::ast::Stmt;
use crate::cypher::chars::{alphabetic, ascii, uppercase, whitespace};
use crate::cypher::CypherErr;
use crate::cypher::lexer::{
    digits_end, in_word, number_at, quoted, space_end, tok_at, tokens_at, word_end, word_tok, Tok,
};
use crate::cypher::limits::lemma_number_text;
use crate::cypher::notation::{clause_toks, lemma_parsed_as_written, stmt_toks, writable};
use crate::cypher::query::parsed;
use crate::float::{distance, lemma_nearest_is_nearest, magnitude, INFINITY_BITS, SIGN_BIT};
use crate::numtext::{decimal_float, digits_value, is_digit, lemma_pow10_pos, nat_text, pow10};
use vstd::arithmetic::power2::pow2;
use vstd::prelude::*;

verus! {

/// How a keyword is spelled.
pub open spec fn keyword_text(t: Tok) -> Option<Seq<char>> {
    match t {
        Tok::Match => Some("MATCH"@),
        Tok::Return => Some("RETURN"@),
        Tok::Where => Some("WHERE"@),
        Tok::Create => Some("CREATE"@),
        Tok::Delete => Some("DELETE"@),
        Tok::Merge => Some("MERGE"@),
        Tok::Limit => Some("LIMIT"@),
        Tok::And => Some("AND"@),
        Tok::Or => Some("OR"@),
        Tok::Not => Some("NOT"@),
        Tok::Count => Some("COUNT"@),
        Tok::As => Some("AS"@),
        Tok::True => Some("TRUE"@),
        Tok::False => Some("FALSE"@),
        Tok::Null => Some("NULL"@),
        _ => None,
    }
}

/// Whether a text spells a keyword.
pub open spec fn is_keyword(w: Seq<char>) -> bool {
    ||| w == "MATCH"@
    ||| w == "RETURN"@
    ||| w == "WHERE"@
    ||| w == "CREATE"@
    ||| w == "DELETE"@
    ||| w == "MERGE"@
    ||| w == "LIMIT"@
    ||| w == "AND"@
    ||| w == "OR"@
    ||| w == "NOT"@
    ||| w == "COUNT"@
    ||| w == "AS"@
    ||| w == "TRUE"@
    ||| w == "FALSE"@
    ||| w == "NULL"@
}

/// How a text is spelled between quotes: with a backslash in front of each
/// such quote and each backslash.
pub open spec fn escaped(s: Seq<char>, quote: char) -> Seq<char>
    decreases s.len(),
{
    if s.len() == 0 {
        Seq::empty()
    } else if s[0] == quote || s[0] == '\\' {
        seq!['\\', s[0]] + escaped(s.skip(1), quote)
    } else {
        seq![s[0]] + escaped(s.skip(1), quote)
    }
}

/// How a text is spelled.
pub open spec fn in_quotes(s: Seq<char>, quote: char) -> Seq<char> {
    seq![quote] + escaped(s, quote) + seq![quote]
}

/// How a token is spelled.
pub open spec fn tok_chars(t: Tok) -> Seq<char> {
    match t {
        Tok::LParen => seq!['('],
        Tok::RParen => seq![')'],
        Tok::LBracket => seq!['['],
        Tok::RBracket => seq![']'],
        Tok::LBrace => seq!['{'],
        Tok::RBrace => seq!['}'],
        Tok::Colon => seq![':'],
        Tok::Comma => seq![','],
        Tok::Dot => seq!['.'],
        Tok::Arrow => seq!['-', '>'],
        Tok::Dash => seq!['-'],
        Tok::Gt => seq!['>'],
        Tok::Lt => seq!['<'],
        Tok::Gte => seq!['>', '='],
        Tok::Lte => seq!['<', '='],
        Tok::Eq => seq!['='],
        Tok::Neq => seq!['<', '>'],
        Tok::Ident(w) => w,
        Tok::StringLit(s) => in_quotes(s, '\''),
        Tok::IntLit(n) => nat_text(n as nat),
        _ => if keyword_text(t) is Some {
            keyword_text(t)->0
        } else {
            Seq::empty()
        },
    }
}

/// Whether a text is a name: a word that starts with a letter or an underscore,
/// and is no keyword in whatever case.
pub open spec fn is_name(w: Seq<char>) -> bool {
    &&& w.len() > 0
    &&& alphabetic(w[0]) || w[0] == '_'
    &&& !whitespace(w[0])
    &&& forall|i: int| 0 <= i < w.len() ==> in_word(#[trigger] w[i])
    &&& !is_keyword(uppercase(w))
}

/// Whether a token can be spelled: an identifier is a name, and an integer is
/// not negative. Numbers with a point are not among these.
pub open spec fn spellable(t: Tok) -> bool {
    match t {
        Tok::Ident(w) => is_name(w),
        Tok::IntLit(n) => n >= 0,
        Tok::FloatLit(_) => false,
        Tok::Eof => false,
        _ => true,
    }
}

/// Tokens from `i` on, each with a space behind it.
pub open spec fn spelled(ts: Seq<Tok>, i: int) -> Seq<char>
    decreases ts.len() - i,
{
    if i >= ts.len() {
        Seq::empty()
    } else {
        tok_chars(ts[i]) + (seq![' '] + spelled(ts, i + 1))
    }
}

/// Whether characters stand at a position, with a space behind them.
#[verifier::opaque]
spec fn stands(cs: Seq<char>, p: int, s: Seq<char>) -> bool {
    &&& 0 <= p
    &&& p + s.len() < cs.len()
    &&& cs.subrange(p, p + s.len()) == s
    &&& cs[p + s.len()] == ' '
}

proof fn lemma_stands(cs: Seq<char>, p: int, s: Seq<char>)
    requires
        stands(cs, p, s),
    ensures
        0 <= p,
        p + s.len() < cs.len(),
        forall|i: int| 0 <= i < s.len() ==> cs[p + i] == #[trigger] s[i],
        cs[p + s.len()] == ' ',
        cs.subrange(p, p + s.len()) == s,
{
    reveal(stands);
    assert forall|i: int| 0 <= i < s.len() implies cs[p + i] == #[trigger] s[i] by {
        assert(cs.subrange(p, p + s.len())[i] == s[i]);
    }
}

proof fn lemma_word_stands(cs: Seq<char>, p: int, q: int, s: Seq<char>)
    requires
        stands(cs, p, s),
        p <= q <= p + s.len(),
        forall|i: int| 0 <= i < s.len() ==> in_word(#[trigger] s[i]),
    ensures
        word_end(cs, q) == p + s.len(),
    decreases p + s.len() - q,
{
    lemma_stands(cs, p, s);
    if q < p + s.len() {
        assert(in_word(s[q - p]));
        lemma_word_stands(cs, p, q + 1, s);
    }
}

proof fn lemma_digits_stand(cs: Seq<char>, p: int, q: int, s: Seq<char>)
    requires
        stands(cs, p, s),
        p <= q <= p + s.len(),
        forall|i: int| 0 <= i < s.len() ==> is_digit(#[trigger] s[i]),
    ensures
        digits_end(cs, q) == p + s.len(),
    decreases p + s.len() - q,
{
    lemma_stands(cs, p, s);
    if q < p + s.len() {
        assert(is_digit(s[q - p]));
        lemma_digits_stand(cs, p, q + 1, s);
    }
}

/// Whether characters stand at a position.
#[verifier::opaque]
spec fn here(cs: Seq<char>, p: int, s: Seq<char>) -> bool {
    &&& 0 <= p
    &&& p + s.len() <= cs.len()
    &&& cs.subrange(p, p + s.len()) == s
}

proof fn lemma_here(cs: Seq<char>, p: int, a: Seq<char>, b: Seq<char>)
    requires
        here(cs, p, a + b),
    ensures
        here(cs, p, a),
        here(cs, p + a.len(), b),
        0 <= p,
        p + a.len() + b.len() <= cs.len(),
        forall|i: int| 0 <= i < a.len() ==> cs[p + i] == #[trigger] a[i],
{
    reveal(here);
    let s = cs.subrange(p, p + (a + b).len());
    assert(cs.subrange(p, p + a.len()) =~= s.subrange(0, a.len() as int));
    assert(cs.subrange(p + a.len(), p + a.len() + b.len()) =~= s.subrange(
        a.len() as int,
        (a.len() + b.len()) as int,
    ));
    assert((a + b).subrange(0, a.len() as int) =~= a);
    assert((a + b).subrange(a.len() as int, (a.len() + b.len()) as int) =~= b);
    assert forall|i: int| 0 <= i < a.len() implies cs[p + i] == #[trigger] a[i] by {
        assert(cs.subrange(p, p + a.len())[i] == a[i]);
    }
}

/// A text between quotes is read back.
proof fn lemma_quoted_back(cs: Seq<char>, p: int, s: Seq<char>, quote: char, acc: Seq<char>)
    requires
        here(cs, p, escaped(s, quote) + seq![quote]),
        quote != '\\',
    ensures
        quoted(cs, p, quote, acc) == Some((acc + s, p + escaped(s, quote).len() + 1)),
    decreases s.len(),
{
    let end = seq![quote];
    lemma_here(cs, p, escaped(s, quote), end);
    if s.len() == 0 {
        assert(escaped(s, quote) + end =~= end + Seq::<char>::empty());
        lemma_here(cs, p, end, Seq::empty());
        assert(cs[p] == end[0]);
        assert(acc + s =~= acc);
    } else {
        let rest = s.skip(1);
        let c = s[0];
        let front = if c == quote || c == '\\' {
            seq!['\\', c]
        } else {
            seq![c]
        };
        assert(escaped(s, quote) + end =~= front + (escaped(rest, quote) + end));
        lemma_here(cs, p, front, escaped(rest, quote) + end);
        assert(cs[p + 0] == front[0]);
        if c == quote || c == '\\' {
            assert(cs[p + 1] == front[1]);
        }
        lemma_quoted_back(cs, p + front.len(), rest, quote, acc.push(c));
        assert(acc.push(c) + rest =~= acc + s);
    }
}

proof fn lemma_keyword_letters(t: Tok, i: int)
    requires
        keyword_text(t) is Some,
        0 <= i < keyword_text(t)->0.len(),
    ensures
        'A' <= keyword_text(t)->0[i] <= 'Z',
{
    reveal_strlit("MATCH");
    reveal_strlit("RETURN");
    reveal_strlit("WHERE");
    reveal_strlit("CREATE");
    reveal_strlit("DELETE");
    reveal_strlit("MERGE");
    reveal_strlit("LIMIT");
    reveal_strlit("AND");
    reveal_strlit("OR");
    reveal_strlit("NOT");
    reveal_strlit("COUNT");
    reveal_strlit("AS");
    reveal_strlit("TRUE");
    reveal_strlit("FALSE");
    reveal_strlit("NULL");
    let w = keyword_text(t)->0;
    assert(i == 0 || i == 1 || i == 2 || i == 3 || i == 4 || i == 5);
    if i == 0 {
        assert('A' <= w[0] <= 'Z');
    } else if i == 1 {
        assert('A' <= w[1] <= 'Z');
    } else if i == 2 {
        assert('A' <= w[2] <= 'Z');
    } else if i == 3 {
        assert('A' <= w[3] <= 'Z');
    } else if i == 4 {
        assert('A' <= w[4] <= 'Z');
    } else {
        assert('A' <= w[5] <= 'Z');
    }
}

proof fn lemma_keyword_tok(t: Tok)
    requires
        keyword_text(t) is Some,
    ensures
        ({
            let w = keyword_text(t)->0;
            &&& w.len() > 0
            &&& forall|i: int| 0 <= i < w.len() ==> 'A' <= #[trigger] w[i] <= 'Z'
            &&& word_tok(w, w) == t
        }),
{
    let w = keyword_text(t)->0;
    assert forall|i: int| 0 <= i < w.len() implies 'A' <= #[trigger] w[i] <= 'Z' by {
        lemma_keyword_letters(t, i);
    }
    reveal_strlit("MATCH");
    reveal_strlit("RETURN");
    reveal_strlit("WHERE");
    reveal_strlit("CREATE");
    reveal_strlit("DELETE");
    reveal_strlit("MERGE");
    reveal_strlit("LIMIT");
    reveal_strlit("AND");
    reveal_strlit("OR");
    reveal_strlit("NOT");
    reveal_strlit("COUNT");
    reveal_strlit("AS");
    reveal_strlit("TRUE");
    reveal_strlit("FALSE");
    reveal_strlit("NULL");
    assert("WHERE"@[0] != "MATCH"@[0]);
    assert("CREATE"@[0] != "RETURN"@[0]);
    assert("DELETE"@[0] != "RETURN"@[0]);
    assert("DELETE"@[0] != "CREATE"@[0]);
    assert("MERGE"@[1] != "MATCH"@[1]);
    assert("MERGE"@[0] != "WHERE"@[0]);
    assert("LIMIT"@[0] != "MATCH"@[0]);
    assert("LIMIT"@[0] != "WHERE"@[0]);
    assert("LIMIT"@[0] != "MERGE"@[0]);
    assert("NOT"@[0] != "AND"@[0]);
    assert("COUNT"@[0] != "MATCH"@[0]);
    assert("COUNT"@[0] != "WHERE"@[0]);
    assert("COUNT"@[0] != "MERGE"@[0]);
    assert("COUNT"@[0] != "LIMIT"@[0]);
    assert("AS"@[0] != "OR"@[0]);
    assert("FALSE"@[0] != "MATCH"@[0]);
    assert("FALSE"@[0] != "WHERE"@[0]);
    assert("FALSE"@[0] != "MERGE"@[0]);
    assert("FALSE"@[0] != "LIMIT"@[0]);
    assert("FALSE"@[0] != "COUNT"@[0]);
    assert("NULL"@[0] != "TRUE"@[0]);
    match t {
        Tok::Match => {
            assert(word_tok("MATCH"@, "MATCH"@) == Tok::Match);
        },
        Tok::Return => {
            assert(word_tok("RETURN"@, "RETURN"@) == Tok::Return);
        },
        Tok::Where => {
            assert(word_tok("WHERE"@, "WHERE"@) == Tok::Where);
        },
        Tok::Create => {
            assert(word_tok("CREATE"@, "CREATE"@) == Tok::Create);
        },
        Tok::Delete => {
            assert(word_tok("DELETE"@, "DELETE"@) == Tok::Delete);
        },
        Tok::Merge => {
            assert(word_tok("MERGE"@, "MERGE"@) == Tok::Merge);
        },
        Tok::Limit => {
            assert(word_tok("LIMIT"@, "LIMIT"@) == Tok::Limit);
        },
        Tok::And => {
            assert(word_tok("AND"@, "AND"@) == Tok::And);
        },
        Tok::Or => {
            assert(word_tok("OR"@, "OR"@) == Tok::Or);
        },
        Tok::Not => {
            assert(word_tok("NOT"@, "NOT"@) == Tok::Not);
        },
        Tok::Count => {
            assert("COUNT"@.len() != "CREATE"@.len());
            assert(word_tok("COUNT"@, "COUNT"@) == Tok::Count);
        },
        Tok::As => {
            assert("AS"@.len() != "AND"@.len());
            assert(word_tok("AS"@, "AS"@) == Tok::As);
        },
        Tok::True => {
            assert(word_tok("TRUE"@, "TRUE"@) == Tok::True);
        },
        Tok::False => {
            assert(word_tok("FALSE"@, "FALSE"@) == Tok::False);
        },
        Tok::Null => {
            assert("NULL"@.len() != "NOT"@.len());
            assert(word_tok("NULL"@, "NULL"@) == Tok::Null);
        },
        _ => {},
    }
}

proof fn lemma_keyword_spelled(t: Tok, cs: Seq<char>, p: int)
    requires
        keyword_text(t) is Some,
        stands(cs, p, keyword_text(t)->0),
    ensures
        tok_at(cs, p) == Ok::<(Tok, int), Seq<char>>((t, p + keyword_text(t)->0.len())),
        !whitespace(cs[p]),
        keyword_text(t)->0.len() > 0,
{
    let w = keyword_text(t)->0;
    lemma_keyword_tok(t);
    lemma_stands(cs, p, w);
    assert('A' <= w[0] <= 'Z');
    assert(cs[p + 0] == w[0]);
    assert forall|i: int| 0 <= i < w.len() implies in_word(#[trigger] w[i]) by {
        assert('A' <= w[i] <= 'Z');
    }
    lemma_word_stands(cs, p, p, w);
    assert(uppercase(w) =~= w) by {
        assert forall|i: int| 0 <= i < w.len() implies ascii(#[trigger] w[i]) by {
            assert('A' <= w[i] <= 'Z');
        }
    }
}

proof fn lemma_name_spelled(w: Seq<char>, cs: Seq<char>, p: int)
    requires
        is_name(w),
        stands(cs, p, w),
    ensures
        tok_at(cs, p) == Ok::<(Tok, int), Seq<char>>((Tok::Ident(w), p + w.len())),
        !whitespace(cs[p]),
{
    lemma_stands(cs, p, w);
    assert(cs[p + 0] == w[0]);
    lemma_word_stands(cs, p, p, w);
    assert(word_tok(uppercase(w), w) == Tok::Ident(w));
}

proof fn lemma_int_spelled(n: i64, cs: Seq<char>, p: int)
    requires
        n >= 0,
        stands(cs, p, nat_text(n as nat)),
    ensures
        tok_at(cs, p) == Ok::<(Tok, int), Seq<char>>((Tok::IntLit(n), p + nat_text(n as nat).len())),
        !whitespace(cs[p]),
        nat_text(n as nat).len() > 0,
{
    let s = nat_text(n as nat);
    lemma_number_text(n as nat);
    lemma_stands(cs, p, s);
    assert(is_digit(s[0]));
    assert(cs[p + 0] == s[0]);
    lemma_digits_stand(cs, p, p, s);
    assert(number_at(cs, p) == Ok::<(Tok, int), Seq<char>>((Tok::IntLit(n), p + s.len())));
}

/// A text in single or in double quotes is read back.
proof fn lemma_string_spelled(s: Seq<char>, quote: char, cs: Seq<char>, p: int)
    requires
        quote == '\'' || quote == '"',
        stands(cs, p, in_quotes(s, quote)),
    ensures
        tok_at(cs, p) == Ok::<(Tok, int), Seq<char>>(
            (Tok::StringLit(s), p + in_quotes(s, quote).len()),
        ),
        !whitespace(cs[p]),
{
    let all = in_quotes(s, quote);
    lemma_stands(cs, p, all);
    assert(cs[p + 0] == all[0]);
    assert(here(cs, p, seq![quote] + (escaped(s, quote) + seq![quote]))) by {
        reveal(here);
        assert(all =~= seq![quote] + (escaped(s, quote) + seq![quote]));
    }
    lemma_here(cs, p, seq![quote], escaped(s, quote) + seq![quote]);
    lemma_quoted_back(cs, p + 1, s, quote, Seq::empty());
    assert(Seq::<char>::empty() + s =~= s);
}

/// A text in single or in double quotes, with nothing else around it but a
/// space, is read as that text.
pub proof fn lemma_string_read_back(s: Seq<char>, quote: char)
    requires
        quote == '\'' || quote == '"',
    ensures
        tokens_at(in_quotes(s, quote) + seq![' '], 0) == Ok::<Seq<Tok>, Seq<char>>(
            seq![Tok::StringLit(s), Tok::Eof],
        ),
{
    let q = in_quotes(s, quote);
    let cs = q + seq![' '];
    assert(stands(cs, 0, q)) by {
        reveal(stands);
        assert(cs.subrange(0, q.len() as int) =~= q);
    }
    lemma_string_spelled(s, quote, cs, 0);
    assert(space_end(cs, 0) == 0);
    let n = q.len() as int;
    assert(cs[n] == ' ');
    assert(space_end(cs, n + 1) == n + 1);
    assert(space_end(cs, n) == n + 1);
    assert(tokens_at(cs, n) == Ok::<Seq<Tok>, Seq<char>>(seq![Tok::Eof]));
    assert(seq![Tok::StringLit(s)] + seq![Tok::Eof] =~= seq![Tok::StringLit(s), Tok::Eof]);
}

/// A number with a point is read as a number that is nearest to what its digits
/// write: of all numbers with a point none is closer, where it is not too large.
pub proof fn lemma_decimal_read(a: Seq<char>, b: Seq<char>, x: u64) -> (f: u64)
    requires
        a.len() > 0,
        forall|i: int| 0 <= i < a.len() ==> is_digit(#[trigger] a[i]),
        forall|i: int| 0 <= i < b.len() ==> is_digit(#[trigger] b[i]),
        x < SIGN_BIT,
    ensures
        tokens_at(a + seq!['.'] + b + seq![' '], 0) == Ok::<Seq<Tok>, Seq<char>>(
            seq![Tok::FloatLit(f), Tok::Eof],
        ),
        f < INFINITY_BITS ==> distance(
            (magnitude(f) * pow10(b.len())) as int,
            (digits_value(a + b) * pow2(1074)) as int,
        ) <= distance(
            (magnitude(x) * pow10(b.len())) as int,
            (digits_value(a + b) * pow2(1074)) as int,
        ),
{
    let cs = a + seq!['.'] + b + seq![' '];
    let m = a.len() as int;
    let n = m + 1 + b.len();
    lemma_digits_up_to(cs, 0, m);
    lemma_digits_up_to(cs, m + 1, n);
    assert(cs[m] == '.');
    assert(cs[n] == ' ');
    assert(cs.subrange(0, m) =~= a);
    assert(cs.subrange(m + 1, n) =~= b);
    assert(is_digit(a[0]) && cs[0] == a[0]);
    assert(space_end(cs, 0) == 0);
    let f = decimal_float(a + b, b.len());
    assert(tok_at(cs, 0) == Ok::<(Tok, int), Seq<char>>((Tok::FloatLit(f), n)));
    assert(space_end(cs, n + 1) == n + 1);
    assert(space_end(cs, n) == n + 1);
    assert(tokens_at(cs, n) == Ok::<Seq<Tok>, Seq<char>>(seq![Tok::Eof]));
    assert(seq![Tok::FloatLit(f)] + seq![Tok::Eof] =~= seq![Tok::FloatLit(f), Tok::Eof]);
    lemma_pow10_pos(b.len());
    if f < INFINITY_BITS {
        lemma_nearest_is_nearest(digits_value(a + b), pow10(b.len()), x);
    }
    f
}

proof fn lemma_digits_up_to(cs: Seq<char>, p: int, q: int)
    requires
        0 <= p <= q < cs.len(),
        forall|i: int| p <= i < q ==> is_digit(#[trigger] cs[i]),
        !is_digit(cs[q]),
    ensures
        digits_end(cs, p) == q,
    decreases q - p,
{
    if p < q {
        lemma_digits_up_to(cs, p + 1, q);
    }
}

/// A token that is spelled at a position is read there.
proof fn lemma_tok_spelled(t: Tok, cs: Seq<char>, p: int)
    requires
        spellable(t),
        stands(cs, p, tok_chars(t)),
    ensures
        tok_at(cs, p) == Ok::<(Tok, int), Seq<char>>((t, p + tok_chars(t).len())),
        !whitespace(cs[p]),
        tok_chars(t).len() > 0,
{
    match t {
        Tok::Ident(w) => {
            lemma_name_spelled(w, cs, p);
        },
        Tok::IntLit(n) => {
            lemma_int_spelled(n, cs, p);
        },
        Tok::StringLit(s) => {
            lemma_string_spelled(s, '\'', cs, p);
        },
        _ => {
            if keyword_text(t) is Some {
                lemma_keyword_spelled(t, cs, p);
            } else {
                let s = tok_chars(t);
                lemma_stands(cs, p, s);
                assert(cs[p + 0] == s[0]);
                if s.len() == 2 {
                    assert(cs[p + 1] == s[1]);
                }
            }
        },
    }
}

/// The tokens from `i` on are read from where they are spelled, or from the
/// space in front of that.
proof fn lemma_spelled(ts: Seq<Tok>, i: int, cs: Seq<char>, s: int, p: int)
    requires
        forall|j: int| 0 <= j < ts.len() ==> spellable(#[trigger] ts[j]),
        0 <= i <= ts.len(),
        0 <= s <= p <= cs.len(),
        s == p || (s == p - 1 && cs[s] == ' '),
        cs.subrange(p, cs.len() as int) == spelled(ts, i),
    ensures
        tokens_at(cs, s) == Ok::<Seq<Tok>, Seq<char>>(ts.skip(i) + seq![Tok::Eof]),
    decreases ts.len() - i,
{
    if i == ts.len() {
        assert(p == cs.len());
        assert(space_end(cs, p) == p);
        assert(space_end(cs, s) == p);
        assert(ts.skip(i) + seq![Tok::Eof] =~= seq![Tok::Eof]);
    } else {
        let t = ts[i];
        let c = tok_chars(t);
        let q = p + c.len();
        let rest = spelled(ts, i + 1);
        let all = cs.subrange(p, cs.len() as int);
        assert(all == c + (seq![' '] + rest));
        assert(stands(cs, p, c)) by {
            reveal(stands);
            assert(cs.subrange(p, q) =~= all.subrange(0, c.len() as int));
            assert(all.subrange(0, c.len() as int) =~= c);
            assert(cs[q] == all[c.len() as int]);
        }
        lemma_tok_spelled(t, cs, p);
        lemma_stands(cs, p, c);
        assert(space_end(cs, p) == p);
        assert(space_end(cs, s) == p);
        assert(cs.subrange(q + 1, cs.len() as int) =~= rest) by {
            assert(cs.subrange(q + 1, cs.len() as int) =~= all.subrange(
                c.len() as int + 1,
                all.len() as int,
            ));
            assert(all.subrange(c.len() as int + 1, all.len() as int) =~= rest);
        }
        lemma_spelled(ts, i + 1, cs, q, q + 1);
        assert(seq![t] + (ts.skip(i + 1) + seq![Tok::Eof]) =~= ts.skip(i) + seq![Tok::Eof]);
    }
}

/// What is read is what is spelled: a text of spelled tokens is read as those
/// tokens, and the one for the end.
pub proof fn lemma_read_as_spelled(ts: Seq<Tok>)
    requires
        forall|j: int| 0 <= j < ts.len() ==> spellable(#[trigger] ts[j]),
    ensures
        tokens_at(spelled(ts, 0), 0) == Ok::<Seq<Tok>, Seq<char>>(ts + seq![Tok::Eof]),
{
    let cs = spelled(ts, 0);
    assert(cs.subrange(0, cs.len() as int) =~= cs);
    lemma_spelled(ts, 0, cs, 0, 0);
    assert(ts.skip(0) =~= ts);
}

/// The text of a statement means that statement.
pub proof fn lemma_text_means_statement(s: Stmt)
    requires
        writable(s),
        forall|j: int| 0 <= j < clause_toks(s).len() ==> spellable(#[trigger] clause_toks(s)[j]),
    ensures
        parsed(spelled(clause_toks(s), 0)) == Ok::<Stmt, CypherErr>(s),
{
    lemma_read_as_spelled(clause_toks(s));
    lemma_parsed_as_written(s);
    assert(stmt_toks(s) == clause_toks(s) + seq![Tok::Eof]);
}

} // verus!
