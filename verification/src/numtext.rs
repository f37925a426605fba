//! Numbers as text.

use crate::bignum::{big, copy, divide, less, mul_add, shift, zero};
use crate::float::{
    is_nan, lemma_magnitude_increases, magnitude, nearest, ratio_to_float, unsigned_bits, Float,
    EXPONENT_UNIT, INFINITY_BITS, SIGN_BIT,
};
use vstd::arithmetic::power2::{
    lemma2_to64, lemma2_to64_rest, lemma_pow2_adds, lemma_pow2_pos, lemma_pow2_strictly_increases,
    lemma_pow2_unfold, pow2,
};
use vstd::prelude::*;

verus! {

// ---------------------------------------------------------------------------
// Integers
// ---------------------------------------------------------------------------

/// The character of a decimal digit.
pub open spec fn digit_char(d: nat) -> char {
    (48 + d) as char
}

/// A natural number in decimal.
pub open spec fn nat_text(n: nat) -> Seq<char>
    decreases n,
{
    if n < 10 {
        seq![digit_char(n)]
    } else {
        nat_text(n / 10).push(digit_char(n % 10))
    }
}

/// An integer in decimal.
pub open spec fn int_text(i: int) -> Seq<char> {
    if i < 0 {
        seq!['-'] + nat_text((-i) as nat)
    } else {
        nat_text(i as nat)
    }
}

fn to_digit(d: u64) -> (r: char)
    requires
        d < 10,
    ensures
        r == digit_char(d as nat),
{
    let b: u8 = 48 + d as u8;
    b as char
}

/// Appends a number in decimal.
pub fn push_number(s: &mut String, n: u64)
    ensures
        final(s)@ == old(s)@ + nat_text(n as nat),
    decreases n,
{
    if n >= 10 {
        push_number(s, n / 10);
    }
    s.push(to_digit(n % 10));
    assert(s@ =~= old(s)@ + nat_text(n as nat));
}

/// Appends an integer in decimal.
pub fn push_int(s: &mut String, i: i64)
    ensures
        final(s)@ == old(s)@ + int_text(i as int),
{
    if i < 0 {
        s.push('-');
        let a: u64 = (0i128 - i as i128) as u64;
        push_number(s, a);
        assert(s@ =~= old(s)@ + int_text(i as int));
    } else {
        push_number(s, i as u64);
    }
}

// ---------------------------------------------------------------------------
// Powers of ten
// ---------------------------------------------------------------------------

/// Ten to the power of `k`.
pub open spec fn pow10(k: nat) -> nat
    decreases k,
{
    if k == 0 {
        1
    } else {
        10 * pow10((k - 1) as nat)
    }
}

proof fn lemma_pow10_zero(x: nat)
    ensures
        pow10(0) == 1,
        x * pow10(0) == x,
        pow10(0) * x == x,
        pow10(1) == 10,
{
    assert(pow10(1) == 10 * pow10(0));
    assert(x * 1 == x && 1 * x == x) by (nonlinear_arith);
}

pub proof fn lemma_pow10_pos(k: nat)
    ensures
        pow10(k) > 0,
    decreases k,
{
    if k > 0 {
        lemma_pow10_pos((k - 1) as nat);
    }
}

proof fn lemma_pow10_adds(a: nat, b: nat)
    ensures
        pow10(a + b) == pow10(a) * pow10(b),
    decreases a,
{
    lemma_pow10_zero(pow10(b));
    if a > 0 {
        let c = (a - 1) as nat;
        lemma_pow10_adds(c, b);
        assert((a + b - 1) as nat == c + b);
        let x = pow10(c);
        let y = pow10(b);
        assert(10 * (x * y) == (10 * x) * y) by (nonlinear_arith);
    }
}

/// Multiplies by a power of ten.
fn times_pow10(n: &mut Vec<u32>, k: u64)
    ensures
        big(final(n)@) == big(old(n)@) * pow10(k as nat),
{
    let ghost s = big(n@);
    let mut i: u64 = 0;
    proof {
        lemma_pow10_zero(s);
    }
    while i < k
        invariant
            i <= k,
            big(n@) == s * pow10(i as nat),
        decreases k - i,
    {
        mul_add(n, 10, 0);
        proof {
            let p = pow10(i as nat);
            assert(s * p * 10 == s * (10 * p)) by (nonlinear_arith);
        }
        i = i + 1;
    }
}

// ---------------------------------------------------------------------------
// Decimals to doubles
// ---------------------------------------------------------------------------

/// The value of a decimal digit.
pub open spec fn digit_value(c: char) -> nat {
    (c as nat - 48) as nat
}

/// Whether a character is a decimal digit.
pub open spec fn is_digit(c: char) -> bool {
    '0' <= c <= '9'
}

/// The number that decimal digits write.
pub open spec fn digits_value(s: Seq<char>) -> nat
    decreases s.len(),
{
    if s.len() == 0 {
        0
    } else {
        digits_value(s.drop_last()) * 10 + digit_value(s.last())
    }
}

/// The double nearest to the number that digits write, the last `places` of
/// them behind the decimal point.
pub open spec fn decimal_float(s: Seq<char>, places: nat) -> u64 {
    nearest(digits_value(s), pow10(places))
}

/// The double nearest to a decimal.
pub fn decimal_to_float(digits: &Vec<char>, places: u64) -> (r: Float)
    requires
        forall|i: int| 0 <= i < digits@.len() ==> is_digit(#[trigger] digits@[i]),
    ensures
        r.bits == decimal_float(digits@, places as nat),
{
    let mut n: Vec<u32> = zero();
    let mut i: usize = 0;
    while i < digits.len()
        invariant
            i <= digits@.len(),
            forall|j: int| 0 <= j < digits@.len() ==> is_digit(#[trigger] digits@[j]),
            big(n@) == digits_value(digits@.take(i as int)),
        decreases digits@.len() - i,
    {
        assert(is_digit(digits@[i as int]));
        let d: u32 = digits[i] as u32 - 48;
        mul_add(&mut n, 10, d);
        proof {
            assert(digits@.take(i + 1).drop_last() =~= digits@.take(i as int));
        }
        i = i + 1;
    }
    assert(digits@.take(i as int) =~= digits@);
    let mut d: Vec<u32> = zero();
    mul_add(&mut d, 0, 1);
    times_pow10(&mut d, places);
    proof {
        lemma_pow10_pos(places as nat);
        assert(1 * pow10(places as nat) == pow10(places as nat)) by (nonlinear_arith);
    }
    ratio_to_float(&n, &d)
}

// ---------------------------------------------------------------------------
// Doubles to decimals
// ---------------------------------------------------------------------------

/// Whether `m` units of the smallest positive double are at least ten to the
/// power of `e`.
pub open spec fn at_least(m: nat, e: int) -> bool {
    if e >= 0 {
        m >= pow2(1074) * pow10(e as nat)
    } else {
        m * pow10((-e) as nat) >= pow2(1074)
    }
}

/// The least power of ten above `m` units.
pub open spec fn decimal_point(m: nat) -> int {
    choose|e: int| !#[trigger] at_least(m, e) && at_least(m, e - 1)
}

/// `m` units times ten to the power of `k`, as a ratio.
pub open spec fn scaled(m: nat, k: int) -> (nat, nat) {
    if k >= 0 {
        (m * pow10(k as nat), pow2(1074))
    } else {
        (m, pow2(1074) * pow10((-k) as nat))
    }
}

/// The double nearest to `c` times ten to the power of `e`.
pub open spec fn read_back(c: nat, e: int) -> u64 {
    if e >= 0 {
        nearest(c * pow10(e as nat), 1)
    } else {
        nearest(c, pow10((-e) as nat))
    }
}

/// Of the two decimals with `n` digits around a double, the nearer one of those
/// that read back as it: its digits and its power of ten.
pub open spec fn with_digits(b: u64, n: nat) -> Option<(nat, int)> {
    let m = magnitude(b);
    let e = decimal_point(m) - n;
    let (num, den) = scaled(m, -e);
    let c = num / den;
    let low = read_back(c, e) == b;
    let high = read_back(c + 1, e) == b;
    if low && (!high || 2 * (num % den) < den) {
        Some((c, e))
    } else if high {
        Some((c + 1, e))
    } else {
        None
    }
}

/// The decimal with the fewest digits that reads back as a double: its digits
/// and its power of ten. Seventeen digits are the most.
pub open spec fn shortest(b: u64, n: nat) -> (nat, int)
    decreases 17 - n,
{
    match with_digits(b, n) {
        Some(r) => r,
        None => if n >= 17 {
            let e = decimal_point(magnitude(b)) - n;
            let (num, den) = scaled(magnitude(b), -e);
            (num / den, e)
        } else {
            shortest(b, n + 1)
        },
    }
}

/// A number of zeros.
pub open spec fn zeros(k: nat) -> Seq<char> {
    Seq::new(k, |i: int| '0')
}

/// `c` times ten to the power of `e`, written without an exponent.
pub open spec fn decimal_text(c: nat, e: int) -> Seq<char>
    decreases c,
{
    if e >= 0 {
        nat_text(c) + zeros(e as nat)
    } else if c > 0 && c % 10 == 0 {
        decimal_text(c / 10, e + 1)
    } else {
        let d = nat_text(c);
        let k = -e;
        if d.len() > k {
            d.take(d.len() - k) + seq!['.'] + d.skip(d.len() - k)
        } else {
            seq!['0', '.'] + zeros((k - d.len()) as nat) + d
        }
    }
}

/// A double as text: the fewest digits that read back as it, without an
/// exponent.
pub open spec fn float_text(b: u64) -> Seq<char> {
    let u = unsigned_bits(b);
    if is_nan(b) {
        "NaN"@
    } else {
        let t = if u == INFINITY_BITS {
            "inf"@
        } else if u == 0 {
            seq!['0']
        } else {
            decimal_text(shortest(u, 1).0, shortest(u, 1).1)
        };
        if b >= SIGN_BIT {
            seq!['-'] + t
        } else {
            t
        }
    }
}

proof fn lemma_at_least_mono(m: nat, e: int, f: int)
    requires
        at_least(m, e),
        f <= e,
    ensures
        at_least(m, f),
    decreases e - f,
{
    if f < e {
        let p = pow2(1074);
        lemma_pow2_pos(1074);
        if e > 0 {
            let x = pow10((e - 1) as nat);
            assert(p * (10 * x) >= p * x) by (nonlinear_arith)
                requires
                    p > 0,
                    x >= 0,
            ;
            if e == 1 {
                lemma_pow10_zero(m);
                lemma_pow10_zero(p);
            }
            assert(at_least(m, e - 1));
        } else {
            let x = pow10((-e) as nat);
            assert((-(e - 1)) as nat == (-e) as nat + 1);
            assert(m * (10 * x) >= m * x) by (nonlinear_arith)
                requires
                    x >= 0,
                    m >= 0,
            ;
            if e == 0 {
                lemma_pow10_zero(m);
                lemma_pow10_zero(p);
            }
            assert(at_least(m, e - 1));
        }
        lemma_at_least_mono(m, e - 1, f);
    }
}

proof fn lemma_point_unique(m: nat, e: int)
    requires
        !at_least(m, e),
        at_least(m, e - 1),
    ensures
        decimal_point(m) == e,
{
    let f = decimal_point(m);
    assert(!at_least(m, f) && at_least(m, f - 1));
    if f < e {
        lemma_at_least_mono(m, e - 1, f);
    }
    if e < f {
        lemma_at_least_mono(m, f - 1, e);
    }
}

proof fn lemma_pow2_order(a: nat, b: nat)
    requires
        pow2(a) < pow2(b),
    ensures
        a < b,
{
    if b < a {
        lemma_pow2_strictly_increases(b, a);
    }
}

/// The digits of a double that is neither zero nor infinite, as a big number.
fn big_magnitude(b: u64) -> (r: Vec<u32>)
    requires
        0 < b < INFINITY_BITS,
    ensures
        big(r@) == magnitude(b),
        0 < magnitude(b) < pow2(2100),
{
    let s: u64 = b / EXPONENT_UNIT;
    let f: u64 = b % EXPONENT_UNIT;
    let top: u64 = if s == 0 {
        f
    } else {
        EXPONENT_UNIT + f
    };
    let mut r: Vec<u32> = zero();
    mul_add(&mut r, 0, (top / 0x1_0000_0000) as u32);
    // Two steps of sixteen bits move the upper digit up by one place.
    mul_add(&mut r, 0x1_0000, 0);
    mul_add(&mut r, 0x1_0000, 0);
    let ghost upper = big(r@);
    add_small(&mut r, (top % 0x1_0000_0000) as u32);
    assert(big(r@) == top);
    if s > 0 {
        shift(&mut r, s - 1);
    }
    proof {
        lemma_magnitude_increases(0, b);
        lemma_magnitude_increases(b, INFINITY_BITS);
        assert(magnitude(INFINITY_BITS) == EXPONENT_UNIT * pow2(2046));
        lemma2_to64();
        lemma2_to64_rest();
        lemma_pow2_adds(52, 2046);
        lemma_pow2_strictly_increases(2098, 2100);
    }
    r
}

/// Adds a digit.
fn add_small(n: &mut Vec<u32>, a: u32)
    ensures
        big(final(n)@) == big(old(n)@) + a,
{
    mul_add(n, 1, a);
}

/// The least power of ten above a double.
fn find_point(v: &Vec<u32>) -> (r: i64)
    requires
        0 < big(v@) < pow2(2100),
    ensures
        r == decimal_point(big(v@)),
        !at_least(big(v@), r as int),
        -1100 < r < 2200,
{
    let ghost m = big(v@);
    let ghost p = pow2(1074);
    let mut unit: Vec<u32> = zero();
    mul_add(&mut unit, 0, 1);
    shift(&mut unit, 1074);
    proof {
        lemma2_to64();
        lemma_pow2_pos(1074);
        lemma_pow10_zero(m);
        lemma_pow10_zero(p);
        assert(1 * p == p) by (nonlinear_arith);
    }
    if less(v, &unit) {
        let mut a: Vec<u32> = copy(v);
        let mut k: i64 = 0;
        mul_add(&mut a, 10, 0);
        while less(&a, &unit)
            invariant
                big(unit@) == pow2(1074),
                m > 0,
                0 <= k < 1080,
                big(a@) == m * pow10((k + 1) as nat),
                big(a@) > pow2(k as nat),
                !at_least(m, -k),
            decreases 1080 - k,
        {
            proof {
                lemma_pow2_order(k as nat, 1074);
                lemma_pow2_unfold((k + 1) as nat);
                let x = pow10((k + 1) as nat);
                assert(m * x * 10 == m * (10 * x)) by (nonlinear_arith);
                assert((-(-(k + 1))) as nat == (k + 1) as nat);
                assert(!at_least(m, -(k + 1)));
            }
            mul_add(&mut a, 10, 0);
            k = k + 1;
        }
        proof {
            assert((-(-k - 1)) as nat == (k + 1) as nat);
            lemma_point_unique(m, -(k as int));
        }
        0 - k
    } else {
        let mut b: Vec<u32> = copy(&unit);
        let mut k: i64 = 0;
        mul_add(&mut b, 10, 0);
        proof {
            lemma_pow2_strictly_increases(0, 1074);
        }
        while !less(v, &b)
            invariant
                m == big(v@),
                m < pow2(2100),
                0 <= k < 2110,
                p == pow2(1074),
                big(b@) == p * pow10((k + 1) as nat),
                big(b@) > pow2(k as nat),
                at_least(m, k as int),
            decreases 2110 - k,
        {
            proof {
                lemma_pow2_order(k as nat, 2100);
                lemma_pow2_unfold((k + 1) as nat);
                let x = pow10((k + 1) as nat);
                assert(p * x * 10 == p * (10 * x)) by (nonlinear_arith);
                assert(at_least(m, k + 1));
            }
            mul_add(&mut b, 10, 0);
            k = k + 1;
        }
        proof {
            assert(!at_least(m, k + 1));
            lemma_point_unique(m, k + 1);
        }
        k + 1
    }
}

proof fn lemma_pow10_17()
    ensures
        pow10(17) == 100_000_000_000_000_000,
{
    reveal_with_fuel(pow10, 18);
}

proof fn lemma_pow10_mono(a: nat, b: nat)
    requires
        a <= b,
    ensures
        pow10(a) <= pow10(b),
    decreases b,
{
    if a < b {
        lemma_pow10_mono(a, (b - 1) as nat);
    }
}

/// A number scaled to `n` digits before the point is below ten to the power
/// of `n`.
proof fn lemma_scaled_bound(m: nat, n: nat)
    requires
        !at_least(m, decimal_point(m)),
        n <= 17,
    ensures
        ({
            let (num, den) = scaled(m, n - decimal_point(m));
            den > 0 && num < den * pow10(n) && den * pow10(n) <= den * 100_000_000_000_000_000
        }),
{
    let e = decimal_point(m);
    let k = n - e;
    let p = pow2(1074);
    let t = pow10(n);
    lemma_pow2_pos(1074);
    lemma_pow10_pos(n);
    let (num, den) = scaled(m, k);
    if k >= 0 {
        if e >= 0 {
            let x = pow10(e as nat);
            let y = pow10(k as nat);
            lemma_pow10_adds(e as nat, k as nat);
            lemma_pow10_pos(k as nat);
            assert(m * y < p * (x * y)) by (nonlinear_arith)
                requires
                    m < p * x,
                    y > 0,
            ;
        } else {
            let x = pow10((-e) as nat);
            lemma_pow10_adds(n, (-e) as nat);
            assert(k as nat == n + (-e) as nat);
            assert(m * (t * x) < p * t) by (nonlinear_arith)
                requires
                    m * x < p,
                    t > 0,
            ;
        }
    } else {
        let x = pow10((-k) as nat);
        lemma_pow10_adds((-k) as nat, n);
        lemma_pow10_pos((-k) as nat);
        assert(e as nat == (-k) as nat + n);
        assert(p * (x * t) == (p * x) * t) by (nonlinear_arith);
        assert(p * x > 0) by (nonlinear_arith)
            requires
                p > 0,
                x > 0,
        ;
    }
    lemma_pow10_mono(n, 17);
    lemma_pow10_17();
    assert(den * t <= den * 100_000_000_000_000_000) by (nonlinear_arith)
        requires
            den > 0,
            t <= 100_000_000_000_000_000,
    ;
}

/// The double nearest to `c` times ten to the power of `e`.
fn read_decimal(c: u64, e: i64) -> (r: u64)
    requires
        -10000 < e < 10000,
    ensures
        r == read_back(c as nat, e as int),
{
    let mut n: Vec<u32> = zero();
    mul_add(&mut n, 0, (c / 0x1_0000_0000) as u32);
    mul_add(&mut n, 0x1_0000, 0);
    mul_add(&mut n, 0x1_0000, 0);
    add_small(&mut n, (c % 0x1_0000_0000) as u32);
    assert(big(n@) == c);
    let mut d: Vec<u32> = zero();
    mul_add(&mut d, 0, 1);
    if e >= 0 {
        times_pow10(&mut n, e as u64);
    } else {
        times_pow10(&mut d, (0 - e) as u64);
        proof {
            lemma_pow10_pos((-e) as nat);
            assert(1 * pow10((-e) as nat) == pow10((-e) as nat)) by (nonlinear_arith);
        }
    }
    ratio_to_float(&n, &d).bits
}

/// The digits and the power of ten of the shortest decimal.
fn find_shortest(b: u64) -> (r: (u64, i64))
    requires
        0 < b < INFINITY_BITS,
    ensures
        (r.0 as nat, r.1 as int) == shortest(b, 1),
        -10000 < r.1 < 10000,
        r.0 <= 100_000_000_000_000_000,
{
    let v = big_magnitude(b);
    let ghost m = magnitude(b);
    let point: i64 = find_point(&v);
    let mut unit: Vec<u32> = zero();
    mul_add(&mut unit, 0, 1);
    shift(&mut unit, 1074);
    assert(1 * pow2(1074) == pow2(1074)) by (nonlinear_arith);
    let mut n: i64 = 1;
    loop
        invariant
            0 < b < INFINITY_BITS,
            big(v@) == m,
            m == magnitude(b),
            point == decimal_point(m),
            !at_least(m, point as int),
            -1100 < point < 2200,
            big(unit@) == pow2(1074),
            1 <= n <= 17,
            shortest(b, 1) == shortest(b, n as nat),
        decreases 17 - n,
    {
        let e: i64 = point - n;
        let mut num: Vec<u32> = copy(&v);
        let mut den: Vec<u32> = copy(&unit);
        if e <= 0 {
            times_pow10(&mut num, (0 - e) as u64);
        } else {
            times_pow10(&mut den, e as u64);
        }
        proof {
            assert(scaled(m, -(e as int)) == (big(num@), big(den@)));
            lemma_scaled_bound(m, n as nat);
            assert(n as nat - decimal_point(m) == -(e as int));
            lemma2_to64_rest();
            let dd = big(den@) as int;
            assert(dd * 100_000_000_000_000_000 <= dd * pow2(62)) by (nonlinear_arith)
                requires
                    dd > 0,
                    pow2(62) == 0x4000_0000_0000_0000,
            ;
            let nn = big(num@) as int;
            assert(nn / dd < 100_000_000_000_000_000) by (nonlinear_arith)
                requires
                    nn < dd * 100_000_000_000_000_000,
                    dd > 0,
            ;
        }
        let (c, rest) = divide(&num, &den);
        let mut twice: Vec<u32> = rest;
        mul_add(&mut twice, 2, 0);
        let nearer = less(&twice, &den);
        let low = read_decimal(c, e) == b;
        let high = read_decimal(c + 1, e) == b;
        if low && (!high || nearer) {
            return (c, e);
        }
        if high {
            return (c + 1, e);
        }
        if n >= 17 {
            return (c, e);
        }
        n = n + 1;
    }
}

fn push_zeros(s: &mut String, k: u64)
    ensures
        final(s)@ == old(s)@ + zeros(k as nat),
{
    let mut i: u64 = 0;
    assert(s@ =~= old(s)@ + zeros(0));
    while i < k
        invariant
            i <= k,
            s@ == old(s)@ + zeros(i as nat),
        decreases k - i,
    {
        s.push('0');
        i = i + 1;
        assert(s@ =~= old(s)@ + zeros(i as nat));
    }
}

/// The decimal digits of a number.
fn number_digits(n: u64) -> (r: Vec<char>)
    ensures
        r@ == nat_text(n as nat),
        1 <= r@.len() <= 20,
    decreases n,
{
    if n < 10 {
        let mut r: Vec<char> = Vec::new();
        r.push(to_digit(n));
        assert(r@ =~= nat_text(n as nat));
        r
    } else {
        let mut r = number_digits(n / 10);
        proof {
            lemma_pow10_17();
            assert(pow10(19) == 10 * pow10(18) && pow10(18) == 10 * pow10(17));
            lemma_digits_len((n / 10) as nat, 19);
        }
        r.push(to_digit(n % 10));
        r
    }
}

proof fn lemma_digits_len(n: nat, k: nat)
    requires
        k >= 1,
        n < pow10(k),
    ensures
        1 <= nat_text(n).len() <= k,
    decreases n,
{
    if n >= 10 {
        if k == 1 {
            assert(pow10(0) == 1);
        }
        lemma_digits_len(n / 10, (k - 1) as nat);
    }
}

fn push_chars(s: &mut String, d: &Vec<char>, from: usize, to: usize)
    requires
        from <= to <= d@.len(),
    ensures
        final(s)@ == old(s)@ + d@.subrange(from as int, to as int),
{
    let mut i: usize = from;
    assert(s@ =~= old(s)@ + d@.subrange(from as int, from as int));
    while i < to
        invariant
            from <= i <= to <= d@.len(),
            s@ == old(s)@ + d@.subrange(from as int, i as int),
        decreases to - i,
    {
        s.push(d[i]);
        i = i + 1;
        assert(s@ =~= old(s)@ + d@.subrange(from as int, i as int));
    }
}

/// Appends `c` times ten to the power of `e`, written without an exponent.
fn push_decimal(s: &mut String, c: u64, e: i64)
    requires
        -10000 < e < 10000,
    ensures
        final(s)@ == old(s)@ + decimal_text(c as nat, e as int),
    decreases c,
{
    if e >= 0 {
        push_number(s, c);
        push_zeros(s, e as u64);
        assert(s@ =~= old(s)@ + decimal_text(c as nat, e as int));
    } else if c > 0 && c % 10 == 0 {
        push_decimal(s, c / 10, e + 1);
    } else {
        let d = number_digits(c);
        let k: usize = (0 - e) as usize;
        if d.len() > k {
            let cut: usize = d.len() - k;
            push_chars(s, &d, 0, cut);
            s.push('.');
            push_chars(s, &d, cut, d.len());
            assert(d@.subrange(0, cut as int) =~= d@.take(cut as int));
            assert(d@.subrange(cut as int, d@.len() as int) =~= d@.skip(cut as int));
        } else {
            s.push('0');
            s.push('.');
            push_zeros(s, (k - d.len()) as u64);
            push_chars(s, &d, 0, d.len());
            assert(d@.subrange(0, d@.len() as int) =~= d@);
        }
        assert(s@ =~= old(s)@ + decimal_text(c as nat, e as int));
    }
}

/// Appends a double as text.
pub fn push_float(s: &mut String, f: Float)
    ensures
        final(s)@ == old(s)@ + float_text(f.bits),
{
    let u: u64 = if f.bits < SIGN_BIT {
        f.bits
    } else {
        f.bits - SIGN_BIT
    };
    if u > INFINITY_BITS {
        s.push('N');
        s.push('a');
        s.push('N');
        proof {
            reveal_strlit("NaN");
            assert(s@ =~= old(s)@ + "NaN"@);
        }
        return;
    }
    if f.bits >= SIGN_BIT {
        s.push('-');
    }
    if u == INFINITY_BITS {
        s.push('i');
        s.push('n');
        s.push('f');
        proof {
            reveal_strlit("inf");
        }
    } else if u == 0 {
        s.push('0');
    } else {
        let (c, e) = find_shortest(u);
        push_decimal(s, c, e);
    }
    assert(s@ =~= old(s)@ + float_text(f.bits));
}

/// A decimal without the zeros at its end.
pub open spec fn stripped(c: nat, e: int) -> (nat, int)
    decreases c,
{
    if c > 0 && c % 10 == 0 {
        stripped(c / 10, e + 1)
    } else {
        (c, e)
    }
}

/// `c` times ten to the power of `e`, written with an exponent.
pub open spec fn exponent_text(c: nat, e: int) -> Seq<char> {
    let d = nat_text(c);
    let front = if d.len() > 1 {
        d.take(1) + seq!['.'] + d.skip(1)
    } else {
        d
    };
    front + seq!['e'] + int_text(d.len() + e - 1)
}

/// A double as it is shown in messages: with an exponent where it is very large
/// or very small, and else with a decimal point in any case.
pub open spec fn float_debug_text(b: u64) -> Seq<char> {
    let u = unsigned_bits(b);
    if is_nan(b) || u == INFINITY_BITS {
        float_text(b)
    } else {
        let t = if u == 0 {
            seq!['0', '.', '0']
        } else {
            positive_debug_text(u)
        };
        if b >= SIGN_BIT {
            seq!['-'] + t
        } else {
            t
        }
    }
}

fn strip(c: u64, e: i64) -> (r: (u64, i64))
    requires
        -10000 < e,
        e + c < 0x4000_0000_0000_0000,
    ensures
        (r.0 as nat, r.1 as int) == stripped(c as nat, e as int),
        e <= r.1 <= e + c,
        r.0 <= c,
    decreases c,
{
    if c > 0 && c % 10 == 0 {
        strip(c / 10, e + 1)
    } else {
        (c, e)
    }
}

/// Appends `c` times ten to the power of `e`, written with an exponent.
fn push_exponent(s: &mut String, c: u64, e: i64)
    requires
        -10000 < e < 0x4000_0000_0000_0000,
    ensures
        final(s)@ == old(s)@ + exponent_text(c as nat, e as int),
{
    let d = number_digits(c);
    push_chars(s, &d, 0, 1);
    assert(d@.subrange(0, 1) =~= d@.take(1));
    if d.len() > 1 {
        s.push('.');
        push_chars(s, &d, 1, d.len());
        assert(d@.subrange(1, d@.len() as int) =~= d@.skip(1));
    } else {
        assert(d@.take(1) =~= d@);
    }
    s.push('e');
    push_int(s, d.len() as i64 + e - 1);
    assert(s@ =~= old(s)@ + exponent_text(c as nat, e as int));
}

/// The text of a finite number above zero in messages.
pub open spec fn positive_debug_text(u: u64) -> Seq<char> {
    let (c, e) = stripped(shortest(u, 1).0, shortest(u, 1).1);
    let p = decimal_point(magnitude(u));
    if p >= 17 || p <= -4 {
        exponent_text(c, e)
    } else if e >= 0 {
        decimal_text(c, e) + seq!['.', '0']
    } else {
        decimal_text(c, e)
    }
}

#[verifier::rlimit(50)]
fn push_positive_debug(s: &mut String, u: u64)
    requires
        0 < u < INFINITY_BITS,
    ensures
        final(s)@ == old(s)@ + positive_debug_text(u),
{
    let v = big_magnitude(u);
    let p: i64 = find_point(&v);
    let (c0, e0) = find_shortest(u);
    let (c, e) = strip(c0, e0);
    if p >= 17 || p <= -4 {
        push_exponent(s, c, e);
    } else if e >= 0 {
        push_number(s, c);
        push_zeros(s, e as u64);
        assert(s@ =~= old(s)@ + decimal_text(c as nat, e as int));
        s.push('.');
        s.push('0');
        assert(s@ =~= old(s)@ + positive_debug_text(u));
    } else {
        push_decimal(s, c, e);
    }
}

/// Appends a double as it is shown in messages.
pub fn push_float_debug(s: &mut String, f: Float)
    ensures
        final(s)@ == old(s)@ + float_debug_text(f.bits),
{
    let u: u64 = if f.bits < SIGN_BIT {
        f.bits
    } else {
        f.bits - SIGN_BIT
    };
    if u >= INFINITY_BITS {
        push_float(s, f);
        return;
    }
    if f.bits >= SIGN_BIT {
        s.push('-');
    }
    if u == 0 {
        s.push('0');
        s.push('.');
        s.push('0');
    } else {
        push_positive_debug(s, u);
    }
    assert(s@ =~= old(s)@ + float_debug_text(f.bits));
}

} // verus!
