//! The interactive shell: what a line of input asks for, and how a result is
//! shown.

use crate::cypher::chars::{chars_of, is_whitespace, text_of, to_uppercase, uppercase, whitespace};
use crate::cypher::executor::{row_view, QueryResult, QueryStats};
use crate::cypher::query::{QueryVal, Stats};
use crate::graph::types::{Val, Value};
use crate::numtext::{float_text, int_text, nat_text, push_float, push_int, push_number};
use crate::text::{push_text, texts};
use vstd::prelude::*;

verus! {

// ---------------------------------------------------------------------------
// Input
// ---------------------------------------------------------------------------

/// What a line of input asks for.
#[derive(Debug, Clone, PartialEq, Eq)]
pub enum Command {
    /// The line is blank.
    Skip,
    /// The session ends.
    Quit,
    /// A query for a read-only transaction.
    Read(String),
    /// A query for a read-write transaction.
    Write(String),
}

/// What a line of input asks for, as a value.
pub enum CommandVal {
    Skip,
    Quit,
    Read(Seq<char>),
    Write(Seq<char>),
}

impl View for Command {
    type V = CommandVal;

    open spec fn view(&self) -> CommandVal {
        match self {
            Command::Skip => CommandVal::Skip,
            Command::Quit => CommandVal::Quit,
            Command::Read(q) => CommandVal::Read(q@),
            Command::Write(q) => CommandVal::Write(q@),
        }
    }
}

/// A text without the white space in front.
pub open spec fn trimmed_front(s: Seq<char>) -> Seq<char>
    decreases s.len(),
{
    if s.len() > 0 && whitespace(s[0]) {
        trimmed_front(s.subrange(1, s.len() as int))
    } else {
        s
    }
}

/// A text without the white space at the end.
pub open spec fn trimmed_back(s: Seq<char>) -> Seq<char>
    decreases s.len(),
{
    if s.len() > 0 && whitespace(s.last()) {
        trimmed_back(s.drop_last())
    } else {
        s
    }
}

/// A text without the white space around it.
pub open spec fn trimmed(s: Seq<char>) -> Seq<char> {
    trimmed_back(trimmed_front(s))
}

/// The lower case of a letter of ASCII; other characters stay.
pub open spec fn ascii_lower(c: char) -> char {
    if 'A' <= c <= 'Z' {
        (c as u32 + 32) as char
    } else {
        c
    }
}

/// Whether two texts are the same but for the case of ASCII letters.
pub open spec fn same_word(s: Seq<char>, t: Seq<char>) -> bool {
    &&& s.len() == t.len()
    &&& forall|i: int| 0 <= i < s.len() ==> ascii_lower(#[trigger] s[i]) == ascii_lower(t[i])
}

/// Whether `t` stands in `s` at position `i`.
pub open spec fn stands_at(s: Seq<char>, t: Seq<char>, i: int) -> bool {
    0 <= i && i + t.len() <= s.len() && s.subrange(i, i + t.len()) == t
}

/// Whether a query, given in upper case, needs a read-write transaction.
pub open spec fn writes(upper: Seq<char>) -> bool {
    ||| stands_at(upper, "CREATE"@, 0)
    ||| stands_at(upper, "DELETE"@, 0)
    ||| stands_at(upper, "MERGE"@, 0)
    ||| stands_at(upper, "MATCH"@, 0) && exists|i: int| stands_at(upper, "DELETE"@, i)
}

/// What a line of input asks for.
pub open spec fn command(line: Seq<char>) -> CommandVal {
    let query = trimmed(line);
    if query.len() == 0 {
        CommandVal::Skip
    } else if same_word(query, "quit"@) || same_word(query, "exit"@) {
        CommandVal::Quit
    } else if writes(uppercase(query)) {
        CommandVal::Write(query)
    } else {
        CommandVal::Read(query)
    }
}

proof fn lemma_trimmed_front(s: Seq<char>, n: int)
    requires
        0 <= n <= s.len(),
        forall|i: int| 0 <= i < n ==> whitespace(#[trigger] s[i]),
        n < s.len() ==> !whitespace(s[n]),
    ensures
        trimmed_front(s) == s.subrange(n, s.len() as int),
    decreases n,
{
    if n > 0 {
        let t = s.subrange(1, s.len() as int);
        assert forall|i: int| 0 <= i < n - 1 implies whitespace(#[trigger] t[i]) by {
            assert(t[i] == s[i + 1]);
        }
        lemma_trimmed_front(t, n - 1);
        assert(t.subrange(n - 1, t.len() as int) =~= s.subrange(n, s.len() as int));
    } else {
        assert(s.subrange(0, s.len() as int) =~= s);
    }
}

proof fn lemma_trimmed_back(s: Seq<char>, n: int)
    requires
        0 <= n <= s.len(),
        forall|i: int| n <= i < s.len() ==> whitespace(#[trigger] s[i]),
        n > 0 ==> !whitespace(s[n - 1]),
    ensures
        trimmed_back(s) == s.subrange(0, n),
    decreases s.len() - n,
{
    if n < s.len() {
        lemma_trimmed_back(s.drop_last(), n);
        assert(s.drop_last().subrange(0, n) =~= s.subrange(0, n));
    } else {
        assert(s.subrange(0, n) =~= s);
    }
}

/// Trimming takes white space from both ends and nothing else, and leaves none
/// there.
pub proof fn lemma_trimmed(s: Seq<char>) -> (r: (int, int))
    ensures
        0 <= r.0 <= r.1 <= s.len(),
        trimmed(s) == s.subrange(r.0, r.1),
        forall|i: int| 0 <= i < s.len() && !(r.0 <= i < r.1) ==> whitespace(#[trigger] s[i]),
        trimmed(s).len() > 0 ==> !whitespace(trimmed(s)[0]) && !whitespace(trimmed(s).last()),
{
    let a = lemma_space_in_front(s, 0);
    lemma_trimmed_front(s, a);
    let t = s.subrange(a, s.len() as int);
    let b = lemma_space_at_end(t, t.len() as int);
    lemma_trimmed_back(t, b);
    assert(t.subrange(0, b) =~= s.subrange(a, a + b));
    assert forall|i: int| 0 <= i < s.len() && !(a <= i < a + b) implies whitespace(
        #[trigger] s[i],
    ) by {
        if i >= a {
            assert(t[i - a] == s[i]);
        }
    }
    if b > 0 {
        assert(t[0] == s[a]);
        assert(t[b - 1] == s[a + b - 1]);
    }
    (a, a + b)
}

/// Where the white space in front ends.
proof fn lemma_space_in_front(s: Seq<char>, i: int) -> (n: int)
    requires
        0 <= i <= s.len(),
        forall|j: int| 0 <= j < i ==> whitespace(#[trigger] s[j]),
    ensures
        i <= n <= s.len(),
        forall|j: int| 0 <= j < n ==> whitespace(#[trigger] s[j]),
        n < s.len() ==> !whitespace(s[n]),
    decreases s.len() - i,
{
    if i < s.len() && whitespace(s[i]) {
        lemma_space_in_front(s, i + 1)
    } else {
        i
    }
}

/// Where the white space at the end starts.
proof fn lemma_space_at_end(s: Seq<char>, i: int) -> (n: int)
    requires
        0 <= i <= s.len(),
        forall|j: int| i <= j < s.len() ==> whitespace(#[trigger] s[j]),
    ensures
        0 <= n <= i,
        forall|j: int| n <= j < s.len() ==> whitespace(#[trigger] s[j]),
        n > 0 ==> !whitespace(s[n - 1]),
    decreases i,
{
    if i > 0 && whitespace(s[i - 1]) {
        lemma_space_at_end(s, i - 1)
    } else {
        i
    }
}

/// A text without the white space around it.
fn trim(line: &str) -> (r: Vec<char>)
    ensures
        r@ == trimmed(line@),
{
    let chars = chars_of(line);
    let mut from: usize = 0;
    while from < chars.len() && is_whitespace(chars[from])
        invariant
            from <= chars@.len(),
            forall|i: int| 0 <= i < from ==> whitespace(#[trigger] chars@[i]),
        ensures
            from <= chars@.len(),
            forall|i: int| 0 <= i < from ==> whitespace(#[trigger] chars@[i]),
            from < chars@.len() ==> !whitespace(chars@[from as int]),
        decreases chars@.len() - from,
    {
        from = from + 1;
    }
    let mut to: usize = chars.len();
    while to > from && is_whitespace(chars[to - 1])
        invariant
            from <= to <= chars@.len(),
            forall|i: int| to <= i < chars@.len() ==> whitespace(#[trigger] chars@[i]),
        ensures
            from <= to <= chars@.len(),
            forall|i: int| to <= i < chars@.len() ==> whitespace(#[trigger] chars@[i]),
            to > from ==> !whitespace(chars@[to - 1]),
        decreases to,
    {
        to = to - 1;
    }
    let mut r: Vec<char> = Vec::new();
    let mut i: usize = from;
    assert(r@ =~= chars@.subrange(from as int, from as int));
    while i < to
        invariant
            from <= i <= to <= chars@.len(),
            r@ == chars@.subrange(from as int, i as int),
        decreases to - i,
    {
        r.push(chars[i]);
        i = i + 1;
        assert(r@ =~= chars@.subrange(from as int, i as int));
    }
    proof {
        lemma_trimmed_front(chars@, from as int);
        let front = chars@.subrange(from as int, chars@.len() as int);
        lemma_trimmed_back(front, to - from);
        assert(front.subrange(0, to - from) =~= r@);
    }
    r
}

fn to_lower(c: char) -> (r: char)
    ensures
        r == ascii_lower(c),
{
    if 'A' <= c && c <= 'Z' {
        (c as u8 + 32) as char
    } else {
        c
    }
}

fn is_word(s: &Vec<char>, word: &str) -> (r: bool)
    ensures
        r == same_word(s@, word@),
{
    let w = chars_of(word);
    if s.len() != w.len() {
        return false;
    }
    let mut i: usize = 0;
    while i < s.len()
        invariant
            i <= s@.len(),
            s@.len() == w@.len(),
            w@ == word@,
            forall|j: int| 0 <= j < i ==> ascii_lower(#[trigger] s@[j]) == ascii_lower(w@[j]),
        decreases s@.len() - i,
    {
        if to_lower(s[i]) != to_lower(w[i]) {
            assert(ascii_lower(s@[i as int]) != ascii_lower(word@[i as int]));
            return false;
        }
        i = i + 1;
    }
    true
}

fn is_at(s: &Vec<char>, t: &Vec<char>, at: usize) -> (r: bool)
    requires
        at <= s@.len(),
    ensures
        r == stands_at(s@, t@, at as int),
{
    if s.len() - at < t.len() {
        return false;
    }
    let mut i: usize = 0;
    while i < t.len()
        invariant
            i <= t@.len(),
            at + t@.len() <= s@.len() <= usize::MAX,
            forall|j: int| 0 <= j < i ==> s@[at + j] == #[trigger] t@[j],
        decreases t@.len() - i,
    {
        if s[at + i] != t[i] {
            assert(s@.subrange(at as int, at + t@.len())[i as int] != t@[i as int]);
            return false;
        }
        i = i + 1;
    }
    assert(s@.subrange(at as int, at + t@.len()) =~= t@);
    true
}

fn is_in(s: &Vec<char>, t: &Vec<char>) -> (r: bool)
    ensures
        r == exists|i: int| stands_at(s@, t@, i),
{
    let mut i: usize = 0;
    while i < s.len()
        invariant
            i <= s@.len(),
            forall|j: int| 0 <= j < i ==> !stands_at(s@, t@, j),
        decreases s@.len() - i,
    {
        if is_at(s, t, i) {
            return true;
        }
        i = i + 1;
    }
    is_at(s, t, i)
}

/// Whether a query, given in upper case, needs a read-write transaction.
pub fn needs_write(upper: &str) -> (r: bool)
    ensures
        r == writes(upper@),
{
    let s = chars_of(upper);
    let delete = chars_of("DELETE");
    is_at(&s, &chars_of("CREATE"), 0) || is_at(&s, &delete, 0) || is_at(&s, &chars_of("MERGE"), 0)
        || (is_at(&s, &chars_of("MATCH"), 0) && is_in(&s, &delete))
}

/// What a line of input asks for.
pub fn command_of(line: &str) -> (r: Command)
    ensures
        r@ == command(line@),
{
    let chars = trim(line);
    if chars.len() == 0 {
        return Command::Skip;
    }
    if is_word(&chars, "quit") || is_word(&chars, "exit") {
        return Command::Quit;
    }
    let query = text_of(&chars, 0, chars.len());
    assert(query@ =~= chars@);
    let upper = to_uppercase(query.as_str());
    if needs_write(upper.as_str()) {
        Command::Write(query)
    } else {
        Command::Read(query)
    }
}

// ---------------------------------------------------------------------------
// Output
// ---------------------------------------------------------------------------

/// The width of the rule below a column's name.
pub const RULE_WIDTH: usize = 16;

/// How a value is shown.
pub open spec fn shown(v: Val) -> Seq<char> {
    match v {
        Val::Null => "null"@,
        Val::Bool(b) => if b {
            "true"@
        } else {
            "false"@
        },
        Val::Int(i) => int_text(i as int),
        Val::Float(b) => float_text(b),
        Val::Str(s) => "\""@ + s + "\""@,
    }
}

/// Texts with a separator between them.
pub open spec fn joined(parts: Seq<Seq<char>>, sep: Seq<char>) -> Seq<char>
    decreases parts.len(),
{
    if parts.len() == 0 {
        Seq::empty()
    } else if parts.len() == 1 {
        parts[0]
    } else {
        joined(parts.drop_last(), sep) + sep + parts.last()
    }
}

/// How a row is shown.
pub open spec fn shown_row(row: Seq<Val>) -> Seq<char> {
    joined(row.map_values(|v: Val| shown(v)), "\t"@)
}

/// The rule below the names of `n` columns.
pub open spec fn rule(n: int) -> Seq<char> {
    Seq::new((n * RULE_WIDTH) as nat, |i: int| '-')
}

/// The line that counts the rows.
pub open spec fn row_count(n: nat) -> Seq<char> {
    "("@ + nat_text(n) + " row"@ + (if n == 1 {
        Seq::empty()
    } else {
        "s"@
    }) + ")"@
}

/// The lines of the rows of a result.
pub open spec fn table_lines(r: QueryVal) -> Seq<Seq<char>> {
    if r.columns.len() == 0 {
        Seq::empty()
    } else {
        seq![joined(r.columns, "\t"@), rule(r.columns.len() as int)] + r.rows.map_values(
            |row: Seq<Val>| shown_row(row),
        ) + seq![row_count(r.rows.len())]
    }
}

/// What is said of a count, if it is not zero.
pub open spec fn count_part(n: nat, what: Seq<char>) -> Seq<Seq<char>> {
    if n > 0 {
        seq![nat_text(n) + what]
    } else {
        Seq::empty()
    }
}

/// What is said of the changes that a statement made.
pub open spec fn change_parts(s: Stats) -> Seq<Seq<char>> {
    count_part(s.nodes_created, " node(s) created"@) + count_part(
        s.edges_created,
        " edge(s) created"@,
    ) + count_part(s.nodes_deleted, " node(s) deleted"@) + count_part(
        s.edges_deleted,
        " edge(s) deleted"@,
    )
}

/// The line of the changes that a statement made, where it made any.
pub open spec fn change_lines(s: Stats) -> Seq<Seq<char>> {
    if change_parts(s).len() > 0 {
        seq![joined(change_parts(s), ", "@)]
    } else {
        Seq::empty()
    }
}

/// The lines in which a result is shown.
pub open spec fn result_text(r: QueryVal) -> Seq<Seq<char>> {
    table_lines(r) + change_lines(r.stats)
}

/// A result is shown with the names of its columns, a rule below them, a line
/// for each row and the number of rows; where there are no columns, with none of
/// these. What a statement changed stands in one line behind that, and in none
/// where it changed nothing.
pub proof fn lemma_result_shown(r: QueryVal)
    ensures
        ({
            let lines = result_text(r);
            let n: int = if r.columns.len() > 0 {
                r.rows.len() as int + 3
            } else {
                0
            };
            let changed = r.stats.nodes_created + r.stats.edges_created + r.stats.nodes_deleted
                + r.stats.edges_deleted > 0;
            &&& lines.len() == (if changed {
                n + 1
            } else {
                n
            })
            &&& r.columns.len() > 0 ==> {
                &&& lines[0] == joined(r.columns, "\t"@)
                &&& lines[1].len() == r.columns.len() * RULE_WIDTH
                &&& forall|i: int| 0 <= i < r.rows.len() ==> lines[i + 2] == #[trigger] shown_row(
                    r.rows[i],
                )
                &&& lines[n - 1] == row_count(r.rows.len())
            }
        }),
{
    let s = r.stats;
    assert(change_parts(s).len() == (if s.nodes_created > 0 {
        1int
    } else {
        0
    }) + (if s.edges_created > 0 {
        1int
    } else {
        0
    }) + (if s.nodes_deleted > 0 {
        1int
    } else {
        0
    }) + (if s.edges_deleted > 0 {
        1int
    } else {
        0
    }));
    if r.columns.len() > 0 {
        let k = r.columns.len() as int;
        assert(k * RULE_WIDTH >= 0) by (nonlinear_arith)
            requires
                k >= 0,
        ;
        assert forall|i: int| 0 <= i < r.rows.len() implies result_text(r)[i + 2]
            == #[trigger] shown_row(r.rows[i]) by {
            assert(table_lines(r)[i + 2] == shown_row(r.rows[i]));
        }
    }
}

/// Every change is told: how many nodes and edges were created and deleted, in
/// that order, and none of which there are no changes.
pub proof fn lemma_changes_told(s: Stats)
    ensures
        ({
            let a: int = if s.nodes_created > 0 {
                1
            } else {
                0
            };
            let b: int = if s.edges_created > 0 {
                a + 1
            } else {
                a
            };
            let c: int = if s.nodes_deleted > 0 {
                b + 1
            } else {
                b
            };
            let d: int = if s.edges_deleted > 0 {
                c + 1
            } else {
                c
            };
            let parts = change_parts(s);
            &&& parts.len() == d
            &&& s.nodes_created > 0 ==> parts[0] == nat_text(s.nodes_created)
                + " node(s) created"@
            &&& s.edges_created > 0 ==> parts[a] == nat_text(s.edges_created)
                + " edge(s) created"@
            &&& s.nodes_deleted > 0 ==> parts[b] == nat_text(s.nodes_deleted)
                + " node(s) deleted"@
            &&& s.edges_deleted > 0 ==> parts[c] == nat_text(s.edges_deleted)
                + " edge(s) deleted"@
        }),
{
}

/// How a value is shown.
pub fn format_value(v: &Value) -> (r: String)
    ensures
        r@ == shown(v@),
{
    let mut s: String = String::new();
    match v {
        Value::Null => push_text(&mut s, "null"),
        Value::Bool(b) => if *b {
            push_text(&mut s, "true")
        } else {
            push_text(&mut s, "false")
        },
        Value::Int(i) => push_int(&mut s, *i),
        Value::Float(f) => push_float(&mut s, *f),
        Value::String(t) => {
            push_text(&mut s, "\"");
            push_text(&mut s, t.as_str());
            push_text(&mut s, "\"");
        },
    }
    assert(s@ =~= shown(v@));
    s
}

fn join(parts: &Vec<String>, sep: &str) -> (r: String)
    ensures
        r@ == joined(texts(parts@), sep@),
{
    let mut s: String = String::new();
    let ghost all = texts(parts@);
    let mut i: usize = 0;
    assert(s@ =~= joined(all.take(0), sep@));
    while i < parts.len()
        invariant
            i <= parts@.len(),
            all == texts(parts@),
            s@ == joined(all.take(i as int), sep@),
        decreases parts@.len() - i,
    {
        if i > 0 {
            push_text(&mut s, sep);
        }
        push_text(&mut s, parts[i].as_str());
        proof {
            let next = all.take(i + 1);
            assert(next.drop_last() =~= all.take(i as int));
            assert(next.last() == parts@[i as int]@);
            if i == 0 {
                assert(s@ =~= next[0]);
            }
        }
        i = i + 1;
    }
    assert(all.take(all.len() as int) =~= all);
    s
}

fn format_row(row: &Vec<Value>) -> (r: String)
    ensures
        r@ == shown_row(row_view(row@)),
{
    let mut cells: Vec<String> = Vec::new();
    let mut i: usize = 0;
    while i < row.len()
        invariant
            i <= row@.len(),
            cells@.len() == i,
            forall|j: int| 0 <= j < i ==> (#[trigger] cells@[j])@ == shown(row@[j]@),
        decreases row@.len() - i,
    {
        cells.push(format_value(&row[i]));
        i = i + 1;
    }
    assert(texts(cells@) =~= row_view(row@).map_values(|v: Val| shown(v)));
    join(&cells, "\t")
}

fn dashes(n: usize) -> (r: String)
    requires
        n * RULE_WIDTH <= usize::MAX,
    ensures
        r@ == rule(n as int),
{
    let mut s: String = String::new();
    let mut i: usize = 0;
    let total: usize = n * RULE_WIDTH;
    while i < total
        invariant
            i <= total,
            s@ == Seq::new(i as nat, |k: int| '-'),
        decreases total - i,
    {
        s.push('-');
        i = i + 1;
        assert(s@ =~= Seq::new(i as nat, |k: int| '-'));
    }
    s
}

fn count_line(n: usize) -> (r: String)
    ensures
        r@ == row_count(n as nat),
{
    let mut s: String = String::new();
    push_text(&mut s, "(");
    push_number(&mut s, n as u64);
    push_text(&mut s, " row");
    if n != 1 {
        push_text(&mut s, "s");
    }
    push_text(&mut s, ")");
    assert(s@ =~= row_count(n as nat));
    s
}

fn push_count(parts: &mut Vec<String>, n: u64, what: &str)
    ensures
        texts(final(parts)@) == texts(old(parts)@) + count_part(n as nat, what@),
{
    if n > 0 {
        let mut s: String = String::new();
        push_number(&mut s, n);
        push_text(&mut s, what);
        assert(s@ =~= nat_text(n as nat) + what@);
        parts.push(s);
    }
    assert(texts(parts@) =~= texts(old(parts)@) + count_part(n as nat, what@));
}

fn format_changes(s: &QueryStats) -> (r: Vec<String>)
    ensures
        texts(r@) == change_parts(s@),
{
    let mut parts: Vec<String> = Vec::new();
    push_count(&mut parts, s.nodes_created, " node(s) created");
    push_count(&mut parts, s.edges_created, " edge(s) created");
    push_count(&mut parts, s.nodes_deleted, " node(s) deleted");
    push_count(&mut parts, s.edges_deleted, " edge(s) deleted");
    assert(texts(parts@) =~= change_parts(s@));
    parts
}

/// The lines in which a result is shown: the names of the columns, a rule, the
/// rows and their number, where there are columns; then the changes, where
/// there are any.
pub fn result_lines(result: &QueryResult) -> (r: Vec<String>)
    requires
        result.columns@.len() * RULE_WIDTH <= usize::MAX,
    ensures
        texts(r@) == result_text(result@),
{
    let mut lines: Vec<String> = Vec::new();
    if result.columns.len() > 0 {
        lines.push(join(&result.columns, "\t"));
        lines.push(dashes(result.columns.len()));
        let ghost head = seq![joined(result@.columns, "\t"@), rule(result@.columns.len() as int)];
        assert(texts(lines@) =~= head);
        let ghost shown_rows = result@.rows.map_values(|row: Seq<Val>| shown_row(row));
        let mut i: usize = 0;
        assert(texts(lines@) =~= head + shown_rows.take(0));
        while i < result.rows.len()
            invariant
                i <= result.rows@.len(),
                shown_rows == result@.rows.map_values(|row: Seq<Val>| shown_row(row)),
                texts(lines@) == head + shown_rows.take(i as int),
            decreases result.rows@.len() - i,
        {
            let ghost before = lines@;
            lines.push(format_row(&result.rows[i]));
            proof {
                assert(shown_rows[i as int] == shown_row(row_view(result.rows@[i as int]@)));
                assert(texts(lines@) =~= texts(before).push(shown_rows[i as int]));
                assert(shown_rows.take(i + 1) =~= shown_rows.take(i as int).push(
                    shown_rows[i as int],
                ));
                assert(texts(lines@) =~= head + shown_rows.take(i + 1));
            }
            i = i + 1;
        }
        let ghost before = lines@;
        lines.push(count_line(result.rows.len()));
        proof {
            assert(shown_rows.take(shown_rows.len() as int) =~= shown_rows);
            assert(texts(lines@) =~= texts(before).push(row_count(result@.rows.len())));
        }
    }
    assert(texts(lines@) =~= table_lines(result@));
    let parts = format_changes(&result.stats);
    let ghost before = lines@;
    assert(texts(parts@).len() == parts@.len());
    if parts.len() > 0 {
        lines.push(join(&parts, ", "));
    }
    assert(texts(lines@) =~= table_lines(result@) + change_lines(result@.stats));
    lines
}

} // verus!
