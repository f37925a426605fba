//! Double-precision numbers, held and computed by their IEEE 754 bits.

use crate::bignum::{big, copy, divide, less, mul_add, shift};
use crate::bytes::KeyOrder;
use vstd::arithmetic::power2::{
    lemma2_to64, lemma2_to64_rest, lemma_pow2_adds, lemma_pow2_pos, lemma_pow2_strictly_increases,
    lemma_pow2_unfold, pow2,
};
use vstd::prelude::*;

verus! {

/// A double-precision number, held by its IEEE 754 bits.
#[derive(Debug, Clone, Copy)]
pub struct Float {
    pub bits: u64,
}

/// The bits of positive infinity.
pub const INFINITY_BITS: u64 = 0x7ff0_0000_0000_0000;

/// The bit that holds the sign.
pub const SIGN_BIT: u64 = 0x8000_0000_0000_0000;

/// The weight of the exponent field, which is also the weight of the leading
/// bit of a significand.
pub const EXPONENT_UNIT: u64 = 0x10_0000_0000_0000;

/// The bits without the sign.
pub open spec fn unsigned_bits(b: u64) -> u64 {
    if b < SIGN_BIT {
        b
    } else {
        (b - SIGN_BIT) as u64
    }
}

/// Whether the bits are those of no number.
pub open spec fn is_nan(b: u64) -> bool {
    unsigned_bits(b) > INFINITY_BITS
}

/// The absolute value that bits without a sign stand for, in units of the
/// smallest positive number. Infinity counts as the number that would follow
/// the largest.
pub open spec fn magnitude(b: u64) -> nat {
    let s = b as nat / EXPONENT_UNIT as nat;
    let f = b as nat % EXPONENT_UNIT as nat;
    if s == 0 {
        f
    } else {
        (EXPONENT_UNIT as nat + f) * pow2((s - 1) as nat)
    }
}

/// The value that bits stand for, in units of the smallest positive number.
pub open spec fn float_value(b: u64) -> int {
    if b < SIGN_BIT {
        magnitude(b) as int
    } else {
        -(magnitude(unsigned_bits(b)) as int)
    }
}

/// How two numbers compare; they do not where one is no number.
pub open spec fn float_compare(a: u64, b: u64) -> Option<KeyOrder> {
    if is_nan(a) || is_nan(b) {
        None
    } else if float_value(a) < float_value(b) {
        Some(KeyOrder::Less)
    } else if float_value(a) == float_value(b) {
        Some(KeyOrder::Equal)
    } else {
        Some(KeyOrder::Greater)
    }
}

/// Whether two numbers are equal; zero equals minus zero, and what is no number
/// equals nothing.
pub open spec fn float_equal(a: u64, b: u64) -> bool {
    float_compare(a, b) == Some(KeyOrder::Equal)
}

proof fn lemma_magnitude_step(a: u64)
    requires
        a < SIGN_BIT,
    ensures
        magnitude(a) < magnitude((a + 1) as u64),
{
    let u = EXPONENT_UNIT as int;
    let s = a as int / u;
    let f = a as int % u;
    assert(a == s * u + f && 0 <= f < u) by (nonlinear_arith)
        requires
            u == 0x10_0000_0000_0000,
            s == a as int / u,
            f == a as int % u,
    ;
    assert(0 <= s) by (nonlinear_arith)
        requires
            u == 0x10_0000_0000_0000,
            s == a as int / u,
            a as int >= 0,
    ;
    if f + 1 < u {
        assert((a + 1) / u == s && (a + 1) % u == f + 1) by (nonlinear_arith)
            requires
                u == 0x10_0000_0000_0000,
                a == s * u + f,
                0 <= f,
                f + 1 < u,
        ;
        if s > 0 {
            let p = pow2((s - 1) as nat) as int;
            lemma_pow2_pos((s - 1) as nat);
            assert((u + f) * p < (u + f + 1) * p) by (nonlinear_arith)
                requires
                    p > 0,
            ;
        }
    } else {
        assert((a + 1) / u == s + 1 && (a + 1) % u == 0) by (nonlinear_arith)
            requires
                u == 0x10_0000_0000_0000,
                a == s * u + f,
                f + 1 == u,
        ;
        lemma2_to64();
        if s > 0 {
            let p = pow2((s - 1) as nat) as int;
            lemma_pow2_pos((s - 1) as nat);
            lemma_pow2_unfold(s as nat);
            assert((u + f) * p < (u + 0) * (2 * p)) by (nonlinear_arith)
                requires
                    p > 0,
                    f + 1 == u,
            ;
        }
    }
}

/// Larger bits stand for larger absolute values.
pub proof fn lemma_magnitude_increases(a: u64, b: u64)
    requires
        a < b <= SIGN_BIT,
    ensures
        magnitude(a) < magnitude(b),
    decreases b - a,
{
    let c = (b - 1) as u64;
    lemma_magnitude_step(c);
    if a < c {
        lemma_magnitude_increases(a, c);
    }
}

proof fn lemma_magnitude_zero(a: u64)
    requires
        a < SIGN_BIT,
    ensures
        magnitude(a) == 0 <==> a == 0,
{
    if a > 0 {
        lemma_magnitude_increases(0, a);
    }
}

/// Compares two numbers.
pub fn compare_floats(a: Float, b: Float) -> (r: Option<KeyOrder>)
    ensures
        r == float_compare(a.bits, b.bits),
{
    let x: u64 = if a.bits < SIGN_BIT {
        a.bits
    } else {
        a.bits - SIGN_BIT
    };
    let y: u64 = if b.bits < SIGN_BIT {
        b.bits
    } else {
        b.bits - SIGN_BIT
    };
    if x > INFINITY_BITS || y > INFINITY_BITS {
        return None;
    }
    proof {
        lemma_magnitude_zero(x);
        lemma_magnitude_zero(y);
        if x < y {
            lemma_magnitude_increases(x, y);
        }
        if y < x {
            lemma_magnitude_increases(y, x);
        }
    }
    let a_minus = a.bits >= SIGN_BIT;
    let b_minus = b.bits >= SIGN_BIT;
    if a_minus != b_minus {
        if x == 0 && y == 0 {
            Some(KeyOrder::Equal)
        } else if a_minus {
            Some(KeyOrder::Less)
        } else {
            Some(KeyOrder::Greater)
        }
    } else if x == y {
        Some(KeyOrder::Equal)
    } else if (x < y) != a_minus {
        Some(KeyOrder::Less)
    } else {
        Some(KeyOrder::Greater)
    }
}

impl PartialEq for Float {
    fn eq(&self, other: &Self) -> (r: bool) {
        match compare_floats(*self, *other) {
            Some(KeyOrder::Equal) => true,
            _ => false,
        }
    }
}

impl vstd::std_specs::cmp::PartialEqSpecImpl for Float {
    open spec fn obeys_eq_spec() -> bool {
        true
    }

    open spec fn eq_spec(&self, other: &Self) -> bool {
        float_equal(self.bits, other.bits)
    }
}

// ---------------------------------------------------------------------------
// Rounding
// ---------------------------------------------------------------------------

/// The integer nearest to `a / b`, the even one of two.
pub open spec fn half_even(a: nat, b: nat) -> nat {
    let q = a / b;
    let r = a % b;
    if 2 * r < b || (2 * r == b && q % 2 == 0) {
        q
    } else {
        q + 1
    }
}

/// Whether `n / d` is below the number whose significand has one bit more than
/// fits, at exponent `s`.
pub open spec fn below(n: nat, d: nat, s: nat) -> bool {
    n * pow2(1074) < pow2(53 + s) * d
}

/// The least exponent at which the significand of `n / d` fits.
pub open spec fn exponent_of(n: nat, d: nat) -> nat {
    choose|s: nat| #[trigger] below(n, d, s) && (s == 0 || !below(n, d, (s - 1) as nat))
}

/// The bits of the double nearest to `n / d`, the even one of two; infinity for
/// what is too large.
pub open spec fn nearest(n: nat, d: nat) -> u64 {
    let s = exponent_of(n, d);
    let v = s * EXPONENT_UNIT as nat + half_even(n * pow2(1074), pow2(s) * d);
    if v >= INFINITY_BITS {
        INFINITY_BITS
    } else {
        v as u64
    }
}

/// The double nearest to an integer.
pub open spec fn float_of_int(i: i64) -> u64 {
    if i >= 0 {
        nearest(i as nat, 1)
    } else {
        (SIGN_BIT + nearest((-(i as int)) as nat, 1)) as u64
    }
}

/// A fit at one exponent is a fit at every larger one.
pub proof fn lemma_below_mono(n: nat, d: nat, s: nat, t: nat)
    requires
        below(n, d, s),
        s <= t,
    ensures
        below(n, d, t),
{
    if s < t {
        lemma_pow2_strictly_increases(53 + s, 53 + t);
        assert(pow2(53 + s) * d <= pow2(53 + t) * d) by (nonlinear_arith)
            requires
                pow2(53 + s) < pow2(53 + t),
        ;
    }
}

/// The least exponent is the only one at which the significand fits but not
/// at the exponent before it.
pub proof fn lemma_exponent_unique(n: nat, d: nat, s: nat)
    requires
        below(n, d, s),
        s == 0 || !below(n, d, (s - 1) as nat),
    ensures
        exponent_of(n, d) == s,
{
    let t = exponent_of(n, d);
    assert(below(n, d, t) && (t == 0 || !below(n, d, (t - 1) as nat)));
    if t < s {
        lemma_below_mono(n, d, t, (s - 1) as nat);
    }
    if s < t {
        lemma_below_mono(n, d, s, (t - 1) as nat);
    }
}

/// Scaling both sides of a ratio does not change where it rounds to.
pub proof fn lemma_half_even_scale(a: nat, b: nat, k: nat)
    requires
        b > 0,
        k > 0,
    ensures
        half_even(a * k, b * k) == half_even(a, b),
{
    let q = a / b;
    let r = a % b;
    assert(a == q * b + r && r < b && r >= 0 && q >= 0) by (nonlinear_arith)
        requires
            b > 0,
            q == a / b,
            r == a % b,
    ;
    assert(b * k > 0 && r * k < b * k && a * k == q * (b * k) + r * k && r * k >= 0)
        by (nonlinear_arith)
        requires
            b > 0,
            k > 0,
            a == q * b + r,
            0 <= r < b,
    ;
    vstd::arithmetic::div_mod::lemma_fundamental_div_mod_converse(
        (a * k) as int,
        (b * k) as int,
        q as int,
        (r * k) as int,
    );
    assert((2 * r < b) == (2 * (r * k) < b * k) && (2 * r == b) == (2 * (r * k) == b * k))
        by (nonlinear_arith)
        requires
            k > 0,
    ;
}

/// Rounds `a / b` to the nearest integer, the even one of two.
fn round_half_even(a: u128, b: u128) -> (r: u128)
    requires
        0 < b < 0x8000_0000_0000_0000_0000_0000_0000_0000,
        a / b < u128::MAX,
    ensures
        r == half_even(a as nat, b as nat),
{
    let q: u128 = a / b;
    let rem: u128 = a % b;
    assert(rem < b) by (nonlinear_arith)
        requires
            rem == a % b,
            b > 0,
    ;
    if 2 * rem < b || (2 * rem == b && q % 2 == 0) {
        q
    } else {
        q + 1
    }
}

proof fn lemma_int_exponent(a: nat, len: nat)
    requires
        1 <= len,
        pow2((len - 1) as nat) <= a < pow2(len),
    ensures
        exponent_of(a, 1) == len + 1021,
        half_even(a * pow2(1074), pow2((len + 1021) as nat) * 1) == half_even(
            a * pow2(53),
            pow2(len),
        ),
{
    let s = (len + 1021) as nat;
    let k = pow2(1074);
    lemma_pow2_pos(1074);
    lemma_pow2_adds(len, 1074);
    lemma_pow2_adds((len - 1) as nat, 1074);
    assert(53 + s == len + 1074);
    assert(53 + (s - 1) as nat == (len - 1) as nat + 1074);
    assert(a * k < pow2(len) * k) by (nonlinear_arith)
        requires
            a < pow2(len),
            k > 0,
    ;
    assert(pow2((len - 1) as nat) * k <= a * k) by (nonlinear_arith)
        requires
            pow2((len - 1) as nat) <= a,
            k > 0,
    ;
    assert(below(a, 1, s));
    assert(!below(a, 1, (s - 1) as nat));
    lemma_exponent_unique(a, 1, s);
    let c = pow2(1021);
    lemma_pow2_pos(1021);
    lemma_pow2_adds(53, 1021);
    lemma_pow2_adds(len, 1021);
    lemma_pow2_pos(len);
    assert(pow2(53) * c == k);
    assert(pow2(len) * c == pow2(s));
    assert((a * pow2(53)) * c == a * k) by (nonlinear_arith)
        requires
            pow2(53) * c == k,
    ;
    lemma_half_even_scale(a * pow2(53), pow2(len), c);
}

/// The double nearest to an unsigned integer.
fn unsigned_to_float(a: u64) -> (r: u64)
    requires
        a <= SIGN_BIT,
    ensures
        r == nearest(a as nat, 1),
        r < SIGN_BIT,
{
    proof {
        lemma2_to64();
        lemma2_to64_rest();
    }
    if a == 0 {
        proof {
            lemma_pow2_pos(53);
            lemma_exponent_unique(0, 1, 0);
        }
        return 0;
    }
    let mut len: u64 = 1;
    let mut top: u128 = 2;
    while top <= a as u128
        invariant
            1 <= len <= 64,
            top == pow2(len as nat),
            pow2((len - 1) as nat) <= a,
            a <= SIGN_BIT,
            pow2(63) == SIGN_BIT,
            pow2(64) == 0x1_0000_0000_0000_0000,
        decreases 64 - len,
    {
        proof {
            if len == 64 {
                assert(false);
            }
            lemma_pow2_unfold((len + 1) as nat);
            if len >= 64 {
            } else if len < 63 {
                lemma_pow2_strictly_increases((len + 1) as nat, 64);
            }
        }
        top = top * 2;
        len = len + 1;
    }
    let wide: u128 = (a as u128) * 0x20_0000_0000_0000;
    assert(wide == a as nat * pow2(53)) by {
        assert(pow2(53) == 0x20_0000_0000_0000);
    }
    assert(wide / top <= 0x20_0000_0000_0000) by (nonlinear_arith)
        requires
            wide == a as int * 0x20_0000_0000_0000,
            (a as int) < top as int,
            top > 0,
    ;
    let q: u128 = round_half_even(wide, top);
    proof {
        lemma_int_exponent(a as nat, len as nat);
    }
    let exponent: u64 = len + 1021;
    assert(q <= 0x20_0000_0000_0001);
    exponent * EXPONENT_UNIT + q as u64
}

/// The double nearest to an integer.
pub fn int_to_float(i: i64) -> (r: Float)
    ensures
        r.bits == float_of_int(i),
{
    if i >= 0 {
        Float { bits: unsigned_to_float(i as u64) }
    } else {
        let a: u64 = (0i128 - i as i128) as u64;
        Float { bits: SIGN_BIT + unsigned_to_float(a) }
    }
}

// ---------------------------------------------------------------------------
// Ratios
// ---------------------------------------------------------------------------

proof fn lemma_pow2_above(n: nat)
    ensures
        pow2(n) > n,
    decreases n,
{
    lemma2_to64();
    if n > 0 {
        lemma_pow2_above((n - 1) as nat);
        lemma_pow2_unfold(n);
    }
}

proof fn lemma_least_exponent(n: nat, d: nat, s: nat)
    requires
        below(n, d, s),
    ensures
        exists|t: nat| #[trigger] below(n, d, t) && (t == 0 || !below(n, d, (t - 1) as nat)),
    decreases s,
{
    if s > 0 && below(n, d, (s - 1) as nat) {
        lemma_least_exponent(n, d, (s - 1) as nat);
    }
}

/// Every ratio has an exponent at which its significand fits.
proof fn lemma_exponent(n: nat, d: nat)
    requires
        d > 0,
    ensures
        below(n, d, exponent_of(n, d)),
        exponent_of(n, d) == 0 || !below(n, d, (exponent_of(n, d) - 1) as nat),
{
    let s = n * pow2(1074);
    lemma_pow2_above(53 + s);
    assert(pow2(53 + s) * d >= pow2(53 + s)) by (nonlinear_arith)
        requires
            d > 0,
    ;
    assert(below(n, d, s));
    lemma_least_exponent(n, d, s);
}

proof fn lemma_too_large(n: nat, d: nat)
    requires
        d > 0,
        !below(n, d, 2046),
    ensures
        nearest(n, d) == INFINITY_BITS,
{
    lemma_exponent(n, d);
    let s = exponent_of(n, d);
    if s <= 2046 {
        lemma_below_mono(n, d, s, 2046);
    }
}

/// The double nearest to a ratio.
pub fn ratio_to_float(n: &Vec<u32>, d: &Vec<u32>) -> (r: Float)
    requires
        big(d@) > 0,
    ensures
        r.bits == nearest(big(n@), big(d@)),
        r.bits <= INFINITY_BITS,
{
    let ghost nn = big(n@);
    let ghost dd = big(d@);
    let mut num: Vec<u32> = copy(n);
    shift(&mut num, 1074);
    let mut den: Vec<u32> = copy(d);
    let mut limit: Vec<u32> = copy(d);
    shift(&mut limit, 53);
    let mut s: u64 = 0;
    proof {
        lemma2_to64();
        assert(dd * pow2(53) == pow2(53) * dd) by (nonlinear_arith);
        assert(dd * pow2(0) == pow2(0) * dd) by (nonlinear_arith);
    }
    while !less(&num, &limit)
        invariant
            nn == big(n@),
            dd == big(d@),
            dd > 0,
            s <= 2046,
            big(num@) == nn * pow2(1074),
            big(den@) == pow2(s as nat) * dd,
            big(limit@) == pow2((53 + s) as nat) * dd,
            s == 0 || !below(nn, dd, (s - 1) as nat),
        ensures
            below(nn, dd, s as nat),
        decreases 2047 - s,
    {
        assert(!below(nn, dd, s as nat));
        if s == 2046 {
            proof {
                lemma_too_large(nn, dd);
            }
            return Float { bits: INFINITY_BITS };
        }
        mul_add(&mut den, 2, 0);
        mul_add(&mut limit, 2, 0);
        proof {
            lemma_pow2_unfold((s + 1) as nat);
            lemma_pow2_unfold((53 + s + 1) as nat);
            let p = pow2(s as nat);
            let q = pow2((53 + s) as nat);
            assert(p * dd * 2 == (2 * p) * dd) by (nonlinear_arith);
            assert(q * dd * 2 == (2 * q) * dd) by (nonlinear_arith);
        }
        s = s + 1;
    }
    proof {
        lemma_exponent_unique(nn, dd, s as nat);
        lemma_pow2_pos(s as nat);
        lemma_pow2_adds(53, s as nat);
        lemma_pow2_strictly_increases(53, 62);
        let a = big(num@) as int;
        let b = big(den@) as int;
        let p = pow2(s as nat) as int;
        assert(b > 0) by (nonlinear_arith)
            requires
                b == p * dd,
                p > 0,
                dd > 0,
        ;
        let l = pow2(53) as int;
        assert(pow2((53 + s) as nat) * dd == b * l) by (nonlinear_arith)
            requires
                b == p * dd,
                pow2((53 + s) as nat) == l * p,
        ;
        assert(a < b * l);
        assert(b * l <= b * pow2(62)) by (nonlinear_arith)
            requires
                b > 0,
                l < pow2(62),
        ;
        assert(a / b < l) by (nonlinear_arith)
            requires
                a < b * l,
                b > 0,
        ;
        lemma2_to64_rest();
    }
    let (q, rest) = divide(&num, &den);
    let mut twice: Vec<u32> = rest;
    mul_add(&mut twice, 2, 0);
    let down = less(&twice, &den);
    let up = less(&den, &twice);
    let rounded: u64 = if down || (!up && q % 2 == 0) {
        q
    } else {
        q + 1
    };
    assert(rounded == half_even(big(num@), big(den@)));
    let bits: u64 = s * EXPONENT_UNIT + rounded;
    if bits >= INFINITY_BITS {
        Float { bits: INFINITY_BITS }
    } else {
        Float { bits }
    }
}

// ---------------------------------------------------------------------------
// What rounding gives
// ---------------------------------------------------------------------------

/// The absolute value of bits that are put together from an exponent and a
/// significand.
proof fn lemma_put_together(s: nat, h: nat)
    requires
        h <= 2 * EXPONENT_UNIT,
        s == 0 || h >= EXPONENT_UNIT,
        s * EXPONENT_UNIT as nat + h < SIGN_BIT,
    ensures
        magnitude((s * EXPONENT_UNIT as nat + h) as u64) == h * pow2(s),
{
    let u = EXPONENT_UNIT as int;
    let v = s * u + h;
    lemma2_to64();
    if s == 0 && h < u {
        vstd::arithmetic::div_mod::lemma_fundamental_div_mod_converse(v, u, 0, h as int);
        assert(h * pow2(0) == h) by (nonlinear_arith)
            requires
                pow2(0) == 1,
        ;
    } else if h < 2 * u {
        assert(v == (s + 1) * u + (h - u)) by (nonlinear_arith)
            requires
                v == s * u + h,
        ;
        vstd::arithmetic::div_mod::lemma_fundamental_div_mod_converse(v, u, s as int + 1, h - u);
    } else {
        assert(v == (s + 2) * u + 0) by (nonlinear_arith)
            requires
                v == s * u + h,
                h == 2 * u,
        ;
        vstd::arithmetic::div_mod::lemma_fundamental_div_mod_converse(v, u, s as int + 2, 0);
        lemma_pow2_unfold((s + 1) as nat);
        assert(u * pow2((s + 1) as nat) == h * pow2(s)) by (nonlinear_arith)
            requires
                pow2((s + 1) as nat) == 2 * pow2(s),
                h == 2 * u,
        ;
    }
}

/// The distance of two numbers.
pub open spec fn distance(a: int, b: int) -> int {
    if a <= b {
        b - a
    } else {
        a - b
    }
}

/// Rounding a ratio goes to a nearest integer.
proof fn lemma_half_even_nearest(a: nat, b: nat, k: int)
    requires
        b > 0,
    ensures
        distance((half_even(a, b) * b) as int, a as int) <= distance(k * b, a as int),
{
    let q = (a / b) as int;
    let r = (a % b) as int;
    let c = b as int;
    assert(a == q * c + r && 0 <= r < c) by (nonlinear_arith)
        requires
            c > 0,
            q == a as int / c,
            r == a as int % c,
    ;
    assert((q + 1) * c == q * c + c) by (nonlinear_arith);
    if k <= q {
        assert(k * c <= q * c) by (nonlinear_arith)
            requires
                k <= q,
                c > 0,
        ;
    } else {
        assert(k * c >= (q + 1) * c) by (nonlinear_arith)
            requires
                k >= q + 1,
                c > 0,
        ;
    }
}

/// A number is a multiple of the unit at an exponent, or less than any whose
/// significand is full there.
proof fn lemma_multiple_or_less(x: u64, s: nat) -> (k: int)
    requires
        x < SIGN_BIT,
    ensures
        magnitude(x) == k * pow2(s) || (s > 0 && magnitude(x) < EXPONENT_UNIT * pow2(s)),
{
    let u = EXPONENT_UNIT as int;
    let t = x as int / u;
    let f = x as int % u;
    assert(0 <= f < u && 0 <= t) by (nonlinear_arith)
        requires
            u == 0x10_0000_0000_0000,
            t == x as int / u,
            f == x as int % u,
            x as int >= 0,
    ;
    lemma2_to64();
    lemma_pow2_pos(s);
    let p = pow2(s) as int;
    if s == 0 {
        assert(magnitude(x) == magnitude(x) * pow2(0)) by (nonlinear_arith)
            requires
                pow2(0) == 1,
        ;
        magnitude(x) as int
    } else if t == 0 {
        assert(f < u * p) by (nonlinear_arith)
            requires
                f < u,
                p >= 1,
                u > 0,
        ;
        0
    } else if t - 1 >= s {
        let e = (t - 1 - s) as nat;
        lemma_pow2_adds(e, s);
        assert(e + s == t - 1);
        assert((u + f) * pow2((t - 1) as nat) == ((u + f) * pow2(e)) * p) by (nonlinear_arith)
            requires
                pow2((t - 1) as nat) == pow2(e) * p,
        ;
        (u + f) * pow2(e)
    } else {
        let o = pow2((t - 1) as nat) as int;
        let w = pow2((s - 1) as nat) as int;
        lemma_pow2_pos((t - 1) as nat);
        if t - 1 < s - 1 {
            lemma_pow2_strictly_increases((t - 1) as nat, (s - 1) as nat);
        }
        lemma_pow2_unfold(s);
        assert((u + f) * o < u * p) by (nonlinear_arith)
            requires
                0 < o <= w,
                p == 2 * w,
                0 <= f < u,
        ;
        0
    }
}

/// The significand of a ratio at its exponent.
proof fn lemma_significand(n: nat, d: nat)
    requires
        d > 0,
    ensures
        ({
            let s = exponent_of(n, d);
            let h = half_even(n * pow2(1074), pow2(s) * d);
            &&& pow2(s) * d > 0
            &&& h <= 2 * EXPONENT_UNIT
            &&& s > 0 ==> h >= EXPONENT_UNIT && EXPONENT_UNIT * (pow2(s) * d) <= n * pow2(1074)
        }),
{
    lemma_exponent(n, d);
    let s = exponent_of(n, d);
    let a = (n * pow2(1074)) as int;
    let c = (pow2(s) * d) as int;
    let u = EXPONENT_UNIT as int;
    lemma_pow2_pos(s);
    assert(c > 0) by (nonlinear_arith)
        requires
            c == pow2(s) * d,
            pow2(s) > 0,
            d > 0,
    ;
    lemma2_to64_rest();
    lemma_pow2_adds(53, s);
    assert(pow2(53) == 2 * u);
    assert(a < (2 * u) * c) by (nonlinear_arith)
        requires
            a < pow2((53 + s) as nat) * d,
            pow2((53 + s) as nat) == pow2(53) * pow2(s),
            pow2(53) == 2 * u,
            c == pow2(s) * d,
    ;
    let q = a / c;
    assert(q < 2 * u) by (nonlinear_arith)
        requires
            a < (2 * u) * c,
            c > 0,
            q == a / c,
    ;
    if s > 0 {
        lemma_pow2_adds(52, s);
        assert(53 + (s - 1) as nat == 52 + s);
        assert(pow2(52) == u);
        assert(u * c <= a) by (nonlinear_arith)
            requires
                a >= pow2((52 + s) as nat) * d,
                pow2((52 + s) as nat) == pow2(52) * pow2(s),
                pow2(52) == u,
                c == pow2(s) * d,
        ;
        assert(q >= u) by (nonlinear_arith)
            requires
                u * c <= a,
                c > 0,
                q == a / c,
        ;
    }
}

/// Rounding gives a nearest number: of all numbers with a point none is closer
/// to `n / d`, where what is rounded to is not infinite.
pub proof fn lemma_nearest_is_nearest(n: nat, d: nat, x: u64)
    requires
        d > 0,
        x < SIGN_BIT,
        nearest(n, d) < INFINITY_BITS,
    ensures
        distance((magnitude(nearest(n, d)) * d) as int, (n * pow2(1074)) as int) <= distance(
            (magnitude(x) * d) as int,
            (n * pow2(1074)) as int,
        ),
{
    let s = exponent_of(n, d);
    let a = n * pow2(1074);
    let c = pow2(s) * d;
    let h = half_even(a, c);
    let u = EXPONENT_UNIT as int;
    lemma_significand(n, d);
    lemma_put_together(s, h);
    let m = magnitude(nearest(n, d));
    assert(m * d == h * c) by (nonlinear_arith)
        requires
            m == h * pow2(s),
            c == pow2(s) * d,
    ;
    let k = lemma_multiple_or_less(x, s);
    let y = magnitude(x) as int;
    if y == k * pow2(s) {
        lemma_half_even_nearest(a, c, k);
        assert(y * d == k * c) by (nonlinear_arith)
            requires
                y == k * pow2(s),
                c == pow2(s) * d,
        ;
    } else {
        lemma_half_even_nearest(a, c, u);
        assert(y * d <= u * c) by (nonlinear_arith)
            requires
                y < u * pow2(s),
                c == pow2(s) * d,
                d > 0,
        ;
    }
}

/// An integer of at most 53 bits is itself among the numbers with a point, and
/// its sign is kept.
pub proof fn lemma_small_int_is_exact(i: i64)
    requires
        -0x20_0000_0000_0000 <= i <= 0x20_0000_0000_0000,
    ensures
        float_value(float_of_int(i)) == i * pow2(1074),
        !is_nan(float_of_int(i)),
{
    let a: nat = if i >= 0 {
        i as nat
    } else {
        (-(i as int)) as nat
    };
    lemma_small_nat_is_exact(a);
    if i < 0 {
        assert(i * pow2(1074) == -(a * pow2(1074))) by (nonlinear_arith)
            requires
                a == -(i as int),
        ;
    }
}

proof fn lemma_small_nat_is_exact(a: nat)
    requires
        a <= 0x20_0000_0000_0000,
    ensures
        magnitude(nearest(a, 1)) == a * pow2(1074),
        nearest(a, 1) < INFINITY_BITS,
{
    lemma2_to64();
    lemma2_to64_rest();
    if a == 0 {
        lemma_pow2_pos(53);
        lemma_exponent_unique(0, 1, 0);
        assert(0 * pow2(1074) == 0) by (nonlinear_arith);
        assert(half_even(0, pow2(0) * 1) == 0);
    } else {
        let len = lemma_bit_length(a, 54);
        let s = (len + 1021) as nat;
        lemma_int_exponent(a, len);
        lemma_pow2_pos(len);
        lemma_pow2_adds((len - 1) as nat, (54 - len) as nat);
        assert(((len - 1) as nat) + ((54 - len) as nat) == 53);
        let (w, o) = (pow2((len - 1) as nat), pow2((54 - len) as nat));
        lemma_pow2_unfold(len);
        let h = half_even(a * pow2(53), pow2(len));
        lemma_pow2_unfold(54);
        assert(w * o == pow2(53));
        if len < 54 {
            lemma_pow2_unfold((54 - len) as nat);
            assert(o % 2 == 0);
        } else {
            assert(a == 0x20_0000_0000_0000);
        }
        lemma_exact_half(a, w, o);
        lemma_significand(a, 1);
        assert(pow2(s) * 1 == pow2(s));
        assert(s * EXPONENT_UNIT + h < INFINITY_BITS) by {
            assert(s <= 1075);
            assert(s * EXPONENT_UNIT <= 1075 * EXPONENT_UNIT) by (nonlinear_arith)
                requires
                    s <= 1075,
            ;
        }
        lemma_put_together(s, h);
        lemma_pow2_adds(len, 1021);
        lemma_pow2_adds(53, 1021);
        assert(h * pow2(s) == a * pow2(1074)) by (nonlinear_arith)
            requires
                h * pow2(len) == a * pow2(53),
                pow2(s) == pow2(len) * pow2(1021),
                pow2(1074) == pow2(53) * pow2(1021),
        ;
    }
}

/// A number times `w * o`, in units of `2 * w`, where that comes out even.
proof fn lemma_exact_half(a: nat, w: nat, o: nat)
    requires
        w > 0,
        w <= a < 2 * w,
        o > 0,
        o % 2 == 0 || a % 2 == 0,
    ensures
        half_even(a * (w * o), 2 * w) * (2 * w) == a * (w * o),
{
    let q: int = if o % 2 == 0 {
        a * (o as int / 2)
    } else {
        (a as int / 2) * o
    };
    assert(q * (2 * w) == a * (w * o)) by (nonlinear_arith)
        requires
            (o % 2 == 0 && q == a * (o as int / 2)) || (a % 2 == 0 && q == (a as int / 2) * o),
    ;
    vstd::arithmetic::div_mod::lemma_fundamental_div_mod_converse(
        (a * (w * o)) as int,
        (2 * w) as int,
        q,
        0,
    );
}

/// The number of bits of a number.
proof fn lemma_bit_length(a: nat, top: nat) -> (len: nat)
    requires
        0 < a < pow2(top),
    ensures
        1 <= len <= top,
        pow2((len - 1) as nat) <= a < pow2(len),
    decreases top,
{
    lemma2_to64();
    if top == 0 {
        1
    } else if a >= pow2((top - 1) as nat) {
        top
    } else {
        lemma_bit_length(a, (top - 1) as nat)
    }
}

} // verus!
