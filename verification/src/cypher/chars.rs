//! Classes of characters.

use vstd::prelude::*;

verus! {

/// What `char::is_whitespace` says of a character beyond ASCII.
pub uninterp spec fn wide_whitespace(c: char) -> bool;

/// What `char::is_alphabetic` says of a character beyond ASCII.
pub uninterp spec fn wide_alphabetic(c: char) -> bool;

/// What `char::is_alphanumeric` says of a character beyond ASCII.
pub uninterp spec fn wide_alphanumeric(c: char) -> bool;

/// What `str::to_uppercase` makes of a text that is not all ASCII.
pub uninterp spec fn wide_uppercase(s: Seq<char>) -> Seq<char>;

/// What the `Debug` of `str` makes of a text.
pub uninterp spec fn debug_text(s: Seq<char>) -> Seq<char>;

/// Whether a character is one of ASCII.
pub open spec fn ascii(c: char) -> bool {
    (c as u32) < 128
}

/// Whether a character is one of the letters of ASCII.
pub open spec fn ascii_letter(c: char) -> bool {
    'a' <= c <= 'z' || 'A' <= c <= 'Z'
}

/// The upper case of a letter of ASCII; other characters stay.
pub open spec fn ascii_upper(c: char) -> char {
    if 'a' <= c <= 'z' {
        (c as u32 - 32) as char
    } else {
        c
    }
}

/// Whether a character is white space. Of those of ASCII, the space and the
/// characters from the tab to the carriage return are.
pub open spec fn whitespace(c: char) -> bool {
    if ascii(c) {
        c == ' ' || 9 <= c as u32 <= 13
    } else {
        wide_whitespace(c)
    }
}

/// Whether a character is alphabetic. Of those of ASCII, the letters are.
pub open spec fn alphabetic(c: char) -> bool {
    if ascii(c) {
        ascii_letter(c)
    } else {
        wide_alphabetic(c)
    }
}

/// Whether a character is alphanumeric. Whatever is alphabetic is, and of ASCII
/// the digits are too.
pub open spec fn alphanumeric(c: char) -> bool {
    alphabetic(c) || if ascii(c) {
        '0' <= c <= '9'
    } else {
        wide_alphanumeric(c)
    }
}

/// The upper case of a text. A text of ASCII keeps its length, and each of its
/// letters becomes the upper-case one.
pub open spec fn uppercase(s: Seq<char>) -> Seq<char> {
    if forall|i: int| 0 <= i < s.len() ==> ascii(#[trigger] s[i]) {
        s.map_values(|c: char| ascii_upper(c))
    } else {
        wide_uppercase(s)
    }
}

/// `char::is_whitespace`. Of the characters of ASCII, the space and those from
/// the tab to the carriage return are white space; of any other character the
/// result is named.
#[verifier::external_body]
pub(crate) fn is_whitespace(c: char) -> (r: bool)
    ensures
        r == whitespace(c),
        !ascii(c) ==> r == wide_whitespace(c),
{
    c.is_whitespace()
}

/// `char::is_alphabetic`. Of the characters of ASCII, the letters are
/// alphabetic; of any other character the result is named.
#[verifier::external_body]
pub(crate) fn is_alphabetic(c: char) -> (r: bool)
    ensures
        r == alphabetic(c),
        !ascii(c) ==> r == wide_alphabetic(c),
{
    c.is_alphabetic()
}

/// `char::is_alphanumeric`. What is alphabetic is alphanumeric; of the
/// characters of ASCII, the letters and the digits are; of any other character
/// the result is named.
#[verifier::external_body]
pub(crate) fn is_alphanumeric(c: char) -> (r: bool)
    ensures
        r == alphanumeric(c),
        !ascii(c) ==> r == wide_alphanumeric(c),
{
    c.is_alphanumeric()
}

/// `str::to_uppercase`. A text of ASCII keeps its length, and each of its
/// letters becomes the upper-case one; of any other text the result is named.
#[verifier::external_body]
pub(crate) fn to_uppercase(s: &str) -> (r: String)
    ensures
        r@ == uppercase(s@),
        (exists|i: int| 0 <= i < s@.len() && !ascii(#[trigger] s@[i])) ==> r@ == wide_uppercase(
            s@,
        ),
{
    s.to_uppercase()
}

/// `Debug` of `str`: the text in double quotes, with escapes.
#[verifier::external_body]
pub(crate) fn debug_str(s: &str) -> (r: String)
    ensures
        r@ == debug_text(s@),
{
    format!("{:?}", s)
}

/// The characters of a text.
pub fn chars_of(s: &str) -> (r: Vec<char>)
    ensures
        r@ == s@,
{
    let mut r: Vec<char> = Vec::new();
    for c in it: s.chars()
        invariant
            it.seq() == s@,
            r@ == s@.take(it.index() as int),
    {
        r.push(c);
        assert(r@ =~= s@.take(it.index() as int + 1));
    }
    assert(s@.take(s@.len() as int) =~= s@);
    r
}

/// A text of some characters.
pub fn text_of(v: &Vec<char>, from: usize, to: usize) -> (r: String)
    requires
        from <= to <= v@.len(),
    ensures
        r@ == v@.subrange(from as int, to as int),
{
    let mut r: String = String::new();
    let mut i: usize = from;
    assert(r@ =~= v@.subrange(from as int, from as int));
    while i < to
        invariant
            from <= i <= to <= v@.len(),
            r@ == v@.subrange(from as int, i as int),
        decreases to - i,
    {
        r.push(v[i]);
        i = i + 1;
        assert(r@ =~= v@.subrange(from as int, i as int));
    }
    r
}

} // verus!
