//! Byte-level building blocks: little- and big-endian integers, and the
//! lexicographic order on byte strings that every key comparison uses.

use vstd::prelude::*;

verus! {

/// The number stored in two bytes at `off`, least significant byte first.
pub open spec fn le16(s: Seq<u8>, off: int) -> int {
    s[off] as int + 256 * (s[off + 1] as int)
}

/// The number stored in four bytes at `off`, least significant byte first.
pub open spec fn le32(s: Seq<u8>, off: int) -> int {
    s[off] as int + 256 * (s[off + 1] as int) + 65536 * (s[off + 2] as int) + 16777216 * (
    s[off + 3] as int)
}

/// The number stored in eight bytes at `off`, least significant byte first.
pub open spec fn le64(s: Seq<u8>, off: int) -> int {
    le32(s, off) + 4294967296 * le32(s, off + 4)
}

/// The number stored in four bytes at `off`, most significant byte first.
pub open spec fn be32(s: Seq<u8>, off: int) -> int {
    s[off + 3] as int + 256 * (s[off + 2] as int) + 65536 * (s[off + 1] as int) + 16777216 * (
    s[off] as int)
}

/// The number stored in eight bytes at `off`, most significant byte first.
pub open spec fn be64(s: Seq<u8>, off: int) -> int {
    be32(s, off + 4) + 4294967296 * be32(s, off)
}

/// Four bytes holding `v`, least significant byte first.
#[verifier::opaque]
pub open spec fn le32_bytes(v: u32) -> Seq<u8> {
    seq![(v % 256) as u8, (v / 256 % 256) as u8, (v / 65536 % 256) as u8, (v / 16777216) as u8]
}

/// Eight bytes holding `v`, least significant byte first.
#[verifier::opaque]
pub open spec fn le64_bytes(v: u64) -> Seq<u8> {
    le32_bytes((v % 4294967296) as u32) + le32_bytes((v / 4294967296) as u32)
}

/// Four bytes holding `v`, most significant byte first.
#[verifier::opaque]
pub open spec fn be32_bytes(v: u32) -> Seq<u8> {
    seq![(v / 16777216) as u8, (v / 65536 % 256) as u8, (v / 256 % 256) as u8, (v % 256) as u8]
}

/// Eight bytes holding `v`, most significant byte first.
#[verifier::opaque]
pub open spec fn be64_bytes(v: u64) -> Seq<u8> {
    be32_bytes((v / 4294967296) as u32) + be32_bytes((v % 4294967296) as u32)
}

/// Lengths of encoded numbers.
pub broadcast proof fn lemma_le32_len(v: u32)
    ensures
        #[trigger] le32_bytes(v).len() == 4,
{
    reveal(le32_bytes);
}

pub broadcast proof fn lemma_le64_len(v: u64)
    ensures
        #[trigger] le64_bytes(v).len() == 8,
{
    reveal(le32_bytes);
    reveal(le64_bytes);
}

pub broadcast proof fn lemma_be32_len(v: u32)
    ensures
        #[trigger] be32_bytes(v).len() == 4,
{
    reveal(be32_bytes);
}

pub broadcast proof fn lemma_be64_len(v: u64)
    ensures
        #[trigger] be64_bytes(v).len() == 8,
{
    reveal(be32_bytes);
    reveal(be64_bytes);
}

/// The lengths of encoded numbers.
pub broadcast group group_byte_lengths {
    lemma_le32_len,
    lemma_le64_len,
    lemma_be32_len,
    lemma_be64_len,
}

pub proof fn lemma_le32_round_trip(v: u32)
    ensures
        le32_bytes(v).len() == 4,
        le32(le32_bytes(v), 0) == v,
{
    reveal(le32_bytes);
}

proof fn lemma_four_digits(v: u32, a: int, b: int, c: int, d: int)
    requires
        v == a + 256 * b + 65536 * c + 16777216 * d,
        0 <= a < 256,
        0 <= b < 256,
        0 <= c < 256,
        0 <= d < 256,
    ensures
        v % 256 == a,
        v / 256 % 256 == b,
        v / 65536 % 256 == c,
        v / 16777216 == d,
{
    assert(v / 256 == b + 256 * c + 65536 * d);
    assert(v / 65536 == c + 256 * d);
}

pub proof fn lemma_le32_inverse(s: Seq<u8>, off: int)
    requires
        0 <= off,
        off + 4 <= s.len(),
    ensures
        0 <= le32(s, off) < 4294967296,
        le32_bytes(le32(s, off) as u32) == s.subrange(off, off + 4),
{
    reveal(le32_bytes);
    let v = le32(s, off) as u32;
    lemma_four_digits(v, s[off] as int, s[off + 1] as int, s[off + 2] as int, s[off + 3] as int);
    assert(le32_bytes(v) =~= s.subrange(off, off + 4));
}

pub proof fn lemma_le64_round_trip(v: u64)
    ensures
        le64_bytes(v).len() == 8,
        le64(le64_bytes(v), 0) == v,
{
    reveal(le64_bytes);
    let lo = (v % 4294967296) as u32;
    let hi = (v / 4294967296) as u32;
    lemma_le32_round_trip(lo);
    lemma_le32_round_trip(hi);
    let s = le64_bytes(v);
    assert(le32(s, 0) == le32(le32_bytes(lo), 0));
    assert(le32(s, 4) == le32(le32_bytes(hi), 0));
}

proof fn lemma_two_halves(v: u64, lo: int, hi: int)
    requires
        v == lo + 4294967296 * hi,
        0 <= lo < 4294967296,
        0 <= hi < 4294967296,
    ensures
        v % 4294967296 == lo,
        v / 4294967296 == hi,
{
}

pub proof fn lemma_be32_round_trip(v: u32)
    ensures
        be32_bytes(v).len() == 4,
        be32(be32_bytes(v), 0) == v,
{
    reveal(be32_bytes);
}

pub proof fn lemma_be64_round_trip(v: u64)
    ensures
        be64_bytes(v).len() == 8,
        be64(be64_bytes(v), 0) == v,
{
    reveal(be64_bytes);
    let lo = (v % 4294967296) as u32;
    let hi = (v / 4294967296) as u32;
    lemma_be32_round_trip(lo);
    lemma_be32_round_trip(hi);
    let s = be64_bytes(v);
    assert(be32(s, 0) == be32(be32_bytes(hi), 0));
    assert(be32(s, 4) == be32(be32_bytes(lo), 0));
}

pub proof fn lemma_be32_inverse(s: Seq<u8>, off: int)
    requires
        0 <= off,
        off + 4 <= s.len(),
    ensures
        0 <= be32(s, off) < 4294967296,
        be32_bytes(be32(s, off) as u32) == s.subrange(off, off + 4),
{
    reveal(be32_bytes);
    let v = be32(s, off) as u32;
    lemma_four_digits(v, s[off + 3] as int, s[off + 2] as int, s[off + 1] as int, s[off] as int);
    assert(be32_bytes(v) =~= s.subrange(off, off + 4));
}

pub proof fn lemma_be64_inverse(s: Seq<u8>, off: int)
    requires
        0 <= off,
        off + 8 <= s.len(),
    ensures
        0 <= be64(s, off) < 18446744073709551616,
        be64_bytes(be64(s, off) as u64) == s.subrange(off, off + 8),
{
    reveal(be64_bytes);
    lemma_be32_inverse(s, off);
    lemma_be32_inverse(s, off + 4);
    lemma_two_halves(be64(s, off) as u64, be32(s, off + 4), be32(s, off));
    assert(s.subrange(off, off + 4) + s.subrange(off + 4, off + 8) =~= s.subrange(off, off + 8));
}

/// Appends the bytes of `src` to `dst`.
pub fn append_bytes(dst: &mut Vec<u8>, src: &[u8])
    ensures
        final(dst)@ == old(dst)@ + src@,
{
    dst.extend_from_slice(src);
    assert(dst@ =~= old(dst)@ + src@);
}

/// A copy of `src` in a vector of its own.
pub fn copy_bytes(src: &[u8]) -> (r: Vec<u8>)
    ensures
        r@ == src@,
{
    vstd::slice::slice_to_vec(src)
}

/// Reads a 32-bit integer, least significant byte first.
pub fn read_le32(s: &[u8], off: usize) -> (r: u32)
    requires
        off + 4 <= s@.len(),
    ensures
        r == le32(s@, off as int),
{
    s[off] as u32 + 256 * (s[off + 1] as u32) + 65536 * (s[off + 2] as u32) + 16777216 * (
    s[off + 3] as u32)
}

/// Reads a 64-bit integer, least significant byte first.
pub fn read_le64(s: &[u8], off: usize) -> (r: u64)
    requires
        off + 8 <= s@.len(),
    ensures
        r == le64(s@, off as int),
{
    assert(s.len() == s@.len());
    let lo: u32 = read_le32(s, off);
    let hi: u32 = read_le32(s, off + 4);
    lo as u64 + 4294967296 * (hi as u64)
}

/// Reads a 64-bit integer, most significant byte first.
pub fn read_be64(s: &[u8], off: usize) -> (r: u64)
    requires
        off + 8 <= s@.len(),
    ensures
        r == be64(s@, off as int),
{
    assert(s.len() == s@.len());
    let hi: u32 = s[off + 3] as u32 + 256 * (s[off + 2] as u32) + 65536 * (s[off + 1] as u32)
        + 16777216 * (s[off] as u32);
    let lo: u32 = s[off + 7] as u32 + 256 * (s[off + 6] as u32) + 65536 * (s[off + 5] as u32)
        + 16777216 * (s[off + 4] as u32);
    lo as u64 + 4294967296 * (hi as u64)
}

/// Appends a 32-bit integer, least significant byte first.
pub fn push_le32(dst: &mut Vec<u8>, v: u32)
    ensures
        final(dst)@ == old(dst)@ + le32_bytes(v),
{
    proof {
        reveal(le32_bytes);
    }
    dst.push((v % 256) as u8);
    dst.push((v / 256 % 256) as u8);
    dst.push((v / 65536 % 256) as u8);
    dst.push((v / 16777216) as u8);
    assert(dst@ =~= old(dst)@ + le32_bytes(v));
}

/// Appends a 64-bit integer, least significant byte first.
pub fn push_le64(dst: &mut Vec<u8>, v: u64)
    ensures
        final(dst)@ == old(dst)@ + le64_bytes(v),
{
    proof {
        reveal(le64_bytes);
    }
    push_le32(dst, (v % 4294967296) as u32);
    push_le32(dst, (v / 4294967296) as u32);
    assert(dst@ =~= old(dst)@ + le64_bytes(v));
}

/// Strict lexicographic order on byte strings: the first differing byte
/// decides, and a proper prefix comes first.
pub open spec fn key_lt(a: Seq<u8>, b: Seq<u8>) -> bool
    decreases a.len(),
{
    if b.len() == 0 {
        false
    } else if a.len() == 0 {
        true
    } else if a[0] != b[0] {
        a[0] < b[0]
    } else {
        key_lt(a.drop_first(), b.drop_first())
    }
}

/// Lexicographic order on byte strings, equality included.
pub open spec fn key_le(a: Seq<u8>, b: Seq<u8>) -> bool {
    a == b || key_lt(a, b)
}

/// Byte strings with fronts of one length are ordered by their fronts, and
/// where those are equal by what follows.
pub proof fn lemma_key_parts(p: Seq<u8>, q: Seq<u8>, x: Seq<u8>, y: Seq<u8>)
    requires
        p.len() == q.len(),
    ensures
        key_lt(p + x, q + y) <==> key_lt(p, q) || (p == q && key_lt(x, y)),
    decreases p.len(),
{
    if p.len() == 0 {
        assert(p + x =~= x);
        assert(q + y =~= y);
        assert(p =~= q);
    } else {
        let a = p + x;
        let b = q + y;
        assert(a.drop_first() =~= p.drop_first() + x);
        assert(b.drop_first() =~= q.drop_first() + y);
        lemma_key_parts(p.drop_first(), q.drop_first(), x, y);
        assert(p == q <==> p[0] == q[0] && p.drop_first() == q.drop_first()) by {
            assert(p =~= seq![p[0]] + p.drop_first());
            assert(q =~= seq![q[0]] + q.drop_first());
        }
    }
}

/// Numbers are ordered as their bytes are, most significant byte first.
pub proof fn lemma_be32_order(a: u32, b: u32)
    ensures
        key_lt(be32_bytes(a), be32_bytes(b)) <==> a < b,
{
    lemma_be32_round_trip(a);
    lemma_be32_round_trip(b);
    let p = be32_bytes(a);
    let q = be32_bytes(b);
    let p1 = p.drop_first();
    let q1 = q.drop_first();
    let p2 = p1.drop_first();
    let q2 = q1.drop_first();
    let p3 = p2.drop_first();
    let q3 = q2.drop_first();
    assert(p1[0] == p[1] && p2[0] == p[2] && p3[0] == p[3]);
    assert(q1[0] == q[1] && q2[0] == q[2] && q3[0] == q[3]);
    assert(!key_lt(p3.drop_first(), q3.drop_first()));
    assert(key_lt(p3, q3) <==> p[3] < q[3]);
    assert(key_lt(p2, q2) <==> (p[2] < q[2] || (p[2] == q[2] && p[3] < q[3])));
    assert(key_lt(p1, q1) <==> (p[1] < q[1] || (p[1] == q[1] && key_lt(p2, q2))));
    assert(key_lt(p, q) <==> (p[0] < q[0] || (p[0] == q[0] && key_lt(p1, q1))));
    assert(be32(p, 0) == a && be32(q, 0) == b);
}

/// Numbers are ordered as their bytes are, most significant byte first.
pub proof fn lemma_be64_order(a: u64, b: u64)
    ensures
        key_lt(be64_bytes(a), be64_bytes(b)) <==> a < b,
{
    reveal(be64_bytes);
    let ah = (a / 4294967296) as u32;
    let al = (a % 4294967296) as u32;
    let bh = (b / 4294967296) as u32;
    let bl = (b % 4294967296) as u32;
    lemma_be32_round_trip(ah);
    lemma_be32_round_trip(bh);
    lemma_key_parts(be32_bytes(ah), be32_bytes(bh), be32_bytes(al), be32_bytes(bl));
    lemma_be32_order(ah, bh);
    lemma_be32_order(al, bl);
}

pub proof fn lemma_key_irreflexive(a: Seq<u8>)
    ensures
        !key_lt(a, a),
    decreases a.len(),
{
    if a.len() > 0 {
        lemma_key_irreflexive(a.drop_first());
    }
}

pub proof fn lemma_key_asymmetric(a: Seq<u8>, b: Seq<u8>)
    requires
        key_lt(a, b),
    ensures
        !key_lt(b, a),
        a != b,
    decreases a.len(),
{
    if a.len() > 0 && a[0] == b[0] {
        lemma_key_asymmetric(a.drop_first(), b.drop_first());
    }
}

pub proof fn lemma_key_transitive(a: Seq<u8>, b: Seq<u8>, c: Seq<u8>)
    requires
        key_lt(a, b),
        key_lt(b, c),
    ensures
        key_lt(a, c),
    decreases a.len(),
{
    if a.len() > 0 && a[0] == b[0] && b[0] == c[0] {
        lemma_key_transitive(a.drop_first(), b.drop_first(), c.drop_first());
    }
}

pub proof fn lemma_key_total(a: Seq<u8>, b: Seq<u8>)
    ensures
        key_lt(a, b) || a == b || key_lt(b, a),
    decreases a.len(),
{
    if a.len() == 0 && b.len() == 0 {
        assert(a =~= b);
    } else if a.len() > 0 && b.len() > 0 && a[0] == b[0] {
        lemma_key_total(a.drop_first(), b.drop_first());
        if a.drop_first() == b.drop_first() {
            assert(a =~= seq![a[0]] + a.drop_first());
            assert(b =~= seq![b[0]] + b.drop_first());
        }
    }
}

/// The three outcomes of a key comparison.
#[derive(Debug, Clone, Copy, PartialEq, Eq, Structural)]
pub enum KeyOrder {
    Less,
    Equal,
    Greater,
}

/// The order of two byte strings, as a value.
pub open spec fn key_order(a: Seq<u8>, b: Seq<u8>) -> KeyOrder {
    if a == b {
        KeyOrder::Equal
    } else if key_lt(a, b) {
        KeyOrder::Less
    } else {
        KeyOrder::Greater
    }
}

/// Compares two byte strings lexicographically.
pub fn compare_keys(a: &[u8], b: &[u8]) -> (r: KeyOrder)
    ensures
        r == key_order(a@, b@),
        r is Less <==> key_lt(a@, b@),
        r is Equal <==> a@ == b@,
        r is Greater <==> key_lt(b@, a@),
{
    let mut i: usize = 0;
    proof {
        assert(a@.subrange(0, a@.len() as int) =~= a@);
        assert(b@.subrange(0, b@.len() as int) =~= b@);
        lemma_key_total(a@, b@);
    }
    while i < a.len() && i < b.len()
        invariant
            i <= a@.len(),
            i <= b@.len(),
            a@.subrange(0, i as int) =~= b@.subrange(0, i as int),
            key_lt(a@, b@) == key_lt(
                a@.subrange(i as int, a@.len() as int),
                b@.subrange(i as int, b@.len() as int),
            ),
            key_lt(b@, a@) == key_lt(
                b@.subrange(i as int, b@.len() as int),
                a@.subrange(i as int, a@.len() as int),
            ),
            key_lt(a@, b@) || a@ == b@ || key_lt(b@, a@),
        decreases a@.len() - i,
    {
        let ghost ra = a@.subrange(i as int, a@.len() as int);
        let ghost rb = b@.subrange(i as int, b@.len() as int);
        proof {
            assert(ra.drop_first() =~= a@.subrange(i + 1, a@.len() as int));
            assert(rb.drop_first() =~= b@.subrange(i + 1, b@.len() as int));
            assert(ra[0] == a@[i as int] && rb[0] == b@[i as int]);
        }
        if a[i] < b[i] {
            proof {
                lemma_key_asymmetric(a@, b@);
            }
            return KeyOrder::Less;
        }
        if a[i] > b[i] {
            proof {
                lemma_key_asymmetric(b@, a@);
            }
            return KeyOrder::Greater;
        }
        proof {
            assert(a@.subrange(0, i + 1) =~= b@.subrange(0, i + 1)) by {
                assert forall|j: int| 0 <= j < i + 1 implies a@[j] == b@[j] by {
                    if j < i {
                        assert(a@.subrange(0, i as int)[j] == b@.subrange(0, i as int)[j]);
                    }
                }
            }
        }
        i = i + 1;
    }
    if i < b.len() {
        proof {
            lemma_key_asymmetric(a@, b@);
        }
        KeyOrder::Less
    } else if i < a.len() {
        proof {
            lemma_key_asymmetric(b@, a@);
        }
        KeyOrder::Greater
    } else {
        proof {
            assert(a@ =~= b@) by {
                assert(a@.subrange(0, i as int) =~= a@);
                assert(b@.subrange(0, i as int) =~= b@);
            }
            lemma_key_irreflexive(a@);
        }
        KeyOrder::Equal
    }
}

/// Whether `a` comes strictly before `b`.
pub fn key_less(a: &[u8], b: &[u8]) -> (r: bool)
    ensures
        r == key_lt(a@, b@),
{
    matches!(compare_keys(a, b), KeyOrder::Less)
}

/// Whether two byte strings are the same.
pub fn bytes_equal(a: &[u8], b: &[u8]) -> (r: bool)
    ensures
        r == (a@ == b@),
{
    matches!(compare_keys(a, b), KeyOrder::Equal)
}

} // verus!
