//! Natural numbers of any size, as digits to the base 2^32, least significant
//! first.

use vstd::arithmetic::power2::{lemma2_to64, lemma_pow2_adds, lemma_pow2_pos, pow2};
use vstd::prelude::*;

verus! {

/// The weight of digit `i`.
pub open spec fn weight(i: nat) -> nat {
    pow2(32 * i)
}

/// Digit `i`, zero behind the last.
pub open spec fn digit(s: Seq<u32>, i: int) -> nat {
    if 0 <= i < s.len() {
        s[i] as nat
    } else {
        0
    }
}

/// The number that the first `k` digits stand for.
pub open spec fn low(s: Seq<u32>, k: nat) -> nat
    decreases k,
{
    if k == 0 {
        0
    } else {
        low(s, (k - 1) as nat) + digit(s, k - 1) * weight((k - 1) as nat)
    }
}

/// The number that digits stand for.
pub open spec fn big(s: Seq<u32>) -> nat {
    low(s, s.len())
}

proof fn lemma_weight(i: nat)
    ensures
        weight(i) > 0,
        weight(i + 1) == 0x1_0000_0000 * weight(i),
        weight(0) == 1,
{
    lemma2_to64();
    lemma_pow2_pos(32 * i);
    lemma_pow2_adds(32, 32 * i);
    assert(32 * (i + 1) == 32 + 32 * i);
}

proof fn lemma_low_bound(s: Seq<u32>, k: nat)
    ensures
        low(s, k) < weight(k),
    decreases k,
{
    lemma_weight(0);
    if k > 0 {
        let j = (k - 1) as nat;
        lemma_low_bound(s, j);
        lemma_weight(j);
        let d = digit(s, j as int);
        let w = weight(j);
        assert(low(s, j) + d * w < 0x1_0000_0000 * w) by (nonlinear_arith)
            requires
                low(s, j) < w,
                d <= 0xffff_ffff,
        ;
    }
}

proof fn lemma_low_same(a: Seq<u32>, b: Seq<u32>, k: nat)
    requires
        forall|i: int| 0 <= i < k ==> #[trigger] digit(a, i) == digit(b, i),
    ensures
        low(a, k) == low(b, k),
    decreases k,
{
    if k > 0 {
        assert(digit(a, k - 1) == digit(b, k - 1));
        lemma_low_same(a, b, (k - 1) as nat);
    }
}

proof fn lemma_low_long(s: Seq<u32>, k: nat)
    requires
        k >= s.len(),
    ensures
        low(s, k) == big(s),
    decreases k,
{
    if k > s.len() {
        lemma_low_long(s, (k - 1) as nat);
        assert(digit(s, k - 1) * weight((k - 1) as nat) == 0) by (nonlinear_arith)
            requires
                digit(s, k - 1) == 0,
        ;
    }
}

/// The number zero.
pub fn zero() -> (r: Vec<u32>)
    ensures
        big(r@) == 0,
{
    Vec::new()
}

/// A copy.
pub fn copy(a: &Vec<u32>) -> (r: Vec<u32>)
    ensures
        r@ == a@,
{
    let mut r: Vec<u32> = Vec::new();
    let mut i: usize = 0;
    while i < a.len()
        invariant
            i <= a@.len(),
            r@ == a@.take(i as int),
        decreases a@.len() - i,
    {
        r.push(a[i]);
        i = i + 1;
        assert(r@ =~= a@.take(i as int));
    }
    assert(a@.take(i as int) =~= a@);
    r
}

/// Multiplies by a digit and adds one.
pub fn mul_add(n: &mut Vec<u32>, m: u32, a: u32)
    ensures
        big(final(n)@) == big(old(n)@) * m + a,
{
    let ghost s = n@;
    let mut carry: u64 = a as u64;
    let mut i: usize = 0;
    proof {
        lemma_weight(0);
        assert(low(s, 0) * m == 0) by (nonlinear_arith)
            requires
                low(s, 0) == 0,
        ;
    }
    while i < n.len()
        invariant
            i <= n@.len(),
            n@.len() == s.len(),
            carry <= u32::MAX,
            forall|j: int| i <= j < s.len() ==> n@[j] == s[j],
            low(n@, i as nat) + carry * weight(i as nat) == low(s, i as nat) * m + a,
        decreases n@.len() - i,
    {
        let ghost before = n@;
        let d: u64 = n[i] as u64;
        assert(d * m + carry <= 0xffff_ffff * 0xffff_ffff + 0xffff_ffff) by (nonlinear_arith)
            requires
                d <= 0xffff_ffff,
                m <= 0xffff_ffff,
                carry <= 0xffff_ffff,
        ;
        let t: u64 = d * (m as u64) + carry;
        let lo: u64 = t % 0x1_0000_0000;
        let hi: u64 = t / 0x1_0000_0000;
        n[i] = lo as u32;
        proof {
            let w = weight(i as nat) as int;
            lemma_weight(i as nat);
            lemma_low_same(before, n@, i as nat);
            assert(lo as u32 == lo);
            assert(low(n@, (i + 1) as nat) == low(n@, i as nat) + lo * w);
            assert(low(s, (i + 1) as nat) == low(s, i as nat) + d * w);
            let x = low(n@, i as nat) as int;
            let y = low(s, i as nat) as int;
            assert(x + lo * w + hi * (0x1_0000_0000 * w) == (y + d * w) * m + a)
                by (nonlinear_arith)
                requires
                    x + carry * w == y * m + a,
                    lo + hi * 0x1_0000_0000 == d * m + carry,
            ;
        }
        carry = hi;
        i = i + 1;
    }
    let ghost done = n@;
    if carry > 0 {
        n.push(carry as u32);
        proof {
            lemma_low_same(done, n@, s.len());
            assert(low(n@, (s.len() + 1) as nat) == low(n@, s.len()) + carry * weight(s.len()));
        }
    } else {
        assert(carry * weight(s.len()) == 0) by (nonlinear_arith)
            requires
                carry == 0,
        ;
    }
}

fn digit_at(a: &Vec<u32>, i: usize) -> (r: u32)
    ensures
        r == digit(a@, i as int),
{
    if i < a.len() {
        a[i]
    } else {
        0
    }
}

proof fn lemma_low_less(a: Seq<u32>, b: Seq<u32>, i: nat, n: nat)
    requires
        i < n,
        digit(a, i as int) < digit(b, i as int),
        forall|j: int| i < j < n ==> #[trigger] digit(a, j) == digit(b, j),
    ensures
        low(a, n) < low(b, n),
    decreases n,
{
    let k = (n - 1) as nat;
    if i == k {
        lemma_low_bound(a, k);
        let w = weight(k) as int;
        let x = digit(a, k as int) as int;
        let y = digit(b, k as int) as int;
        assert(low(a, k) + x * w < low(b, k) + y * w) by (nonlinear_arith)
            requires
                low(a, k) < w,
                x + 1 <= y,
                low(b, k) >= 0,
        ;
    } else {
        lemma_low_less(a, b, i, k);
        assert(digit(a, k as int) == digit(b, k as int));
    }
}

/// Whether one number is less than another.
pub fn less(a: &Vec<u32>, b: &Vec<u32>) -> (r: bool)
    ensures
        r == (big(a@) < big(b@)),
{
    let n: usize = if a.len() > b.len() {
        a.len()
    } else {
        b.len()
    };
    proof {
        lemma_low_long(a@, n as nat);
        lemma_low_long(b@, n as nat);
    }
    let mut i: usize = n;
    while i > 0
        invariant
            i <= n,
            forall|j: int| i <= j < n ==> #[trigger] digit(a@, j) == digit(b@, j),
            low(a@, n as nat) == big(a@),
            low(b@, n as nat) == big(b@),
        decreases i,
    {
        i = i - 1;
        let x: u32 = digit_at(a, i);
        let y: u32 = digit_at(b, i);
        if x < y {
            proof {
                lemma_low_less(a@, b@, i as nat, n as nat);
            }
            return true;
        }
        if y < x {
            proof {
                lemma_low_less(b@, a@, i as nat, n as nat);
            }
            return false;
        }
    }
    proof {
        lemma_low_same(a@, b@, n as nat);
    }
    false
}

/// Subtracts a number that is not larger.
pub fn subtract(a: &mut Vec<u32>, b: &Vec<u32>)
    requires
        big(b@) <= big(old(a)@),
    ensures
        big(final(a)@) == big(old(a)@) - big(b@),
{
    let ghost s = a@;
    while a.len() < b.len()
        invariant
            big(a@) == big(s),
        decreases b@.len() - a@.len(),
    {
        let ghost before = a@;
        a.push(0);
        proof {
            lemma_low_same(before, a@, before.len());
            assert(digit(a@, before.len() as int) * weight(before.len()) == 0)
                by (nonlinear_arith)
                requires
                    digit(a@, before.len() as int) == 0,
            ;
            assert(big(a@) == low(a@, before.len()) + digit(a@, before.len() as int) * weight(
                before.len(),
            ));
        }
    }
    let ghost p = a@;
    let mut borrow: u64 = 0;
    let mut i: usize = 0;
    proof {
        lemma_weight(0);
    }
    while i < a.len()
        invariant
            i <= a@.len(),
            a@.len() == p.len(),
            b@.len() <= p.len(),
            borrow <= 1,
            forall|j: int| i <= j < p.len() ==> a@[j] == p[j],
            low(a@, i as nat) + low(b@, i as nat) == low(p, i as nat) + borrow * weight(
                i as nat,
            ),
        decreases a@.len() - i,
    {
        let ghost before = a@;
        let x: u64 = a[i] as u64;
        let y: u64 = digit_at(b, i) as u64 + borrow;
        let (d, next): (u64, u64) = if x >= y {
            (x - y, 0)
        } else {
            (x + 0x1_0000_0000 - y, 1)
        };
        a[i] = d as u32;
        proof {
            let w = weight(i as nat) as int;
            lemma_weight(i as nat);
            lemma_low_same(before, a@, i as nat);
            assert(d as u32 == d);
            let e = digit(b@, i as int) as int;
            let la = low(a@, i as nat) as int;
            let lb = low(b@, i as nat) as int;
            let lp = low(p, i as nat) as int;
            assert(la + d * w + (lb + e * w) == lp + x * w + next * (0x1_0000_0000 * w))
                by (nonlinear_arith)
                requires
                    la + lb == lp + borrow * w,
                    d + e + borrow == x + next * 0x1_0000_0000,
            ;
        }
        borrow = next;
        i = i + 1;
    }
    proof {
        lemma_low_long(b@, p.len());
        lemma_low_bound(a@, p.len());
        let w = weight(p.len()) as int;
        if borrow == 1 {
            assert(borrow * w == w) by (nonlinear_arith)
                requires
                    borrow == 1,
            ;
            assert(false);
        }
        assert(borrow * w == 0) by (nonlinear_arith)
            requires
                borrow == 0,
        ;
    }
}

/// Doubles a number `k` times.
pub fn shift(n: &mut Vec<u32>, k: u64)
    ensures
        big(final(n)@) == big(old(n)@) * pow2(k as nat),
{
    let ghost s = big(n@);
    let mut i: u64 = 0;
    proof {
        lemma2_to64();
    }
    while i < k
        invariant
            i <= k,
            big(n@) == s * pow2(i as nat),
        decreases k - i,
    {
        mul_add(n, 2, 0);
        proof {
            vstd::arithmetic::power2::lemma_pow2_unfold((i + 1) as nat);
            let p = pow2(i as nat);
            assert(s * p * 2 == s * (2 * p)) by (nonlinear_arith);
        }
        i = i + 1;
    }
}

/// Divides, where the quotient has at most 62 bits.
pub fn divide(n: &Vec<u32>, d: &Vec<u32>) -> (r: (u64, Vec<u32>))
    requires
        big(d@) > 0,
        big(n@) < big(d@) * pow2(62),
    ensures
        r.0 == big(n@) / big(d@),
        big(r.1@) == big(n@) % big(d@),
        r.0 < pow2(62),
{
    let ghost nn = big(n@) as int;
    let ghost dd = big(d@) as int;
    let mut multiples: Vec<Vec<u32>> = Vec::new();
    let mut m: Vec<u32> = copy(d);
    let mut j: usize = 0;
    proof {
        lemma2_to64();
        vstd::arithmetic::power2::lemma2_to64_rest();
    }
    while j < 62
        invariant
            j <= 62,
            multiples@.len() == j,
            dd == big(d@),
            big(m@) == dd * pow2(j as nat),
            forall|i: int|
                0 <= i < j ==> big((#[trigger] multiples@[i])@) == dd * pow2(i as nat),
        decreases 62 - j,
    {
        multiples.push(copy(&m));
        mul_add(&mut m, 2, 0);
        proof {
            vstd::arithmetic::power2::lemma_pow2_unfold((j + 1) as nat);
            let p = pow2(j as nat) as int;
            assert(dd * p * 2 == dd * (2 * p)) by (nonlinear_arith);
        }
        j = j + 1;
    }
    let mut rest: Vec<u32> = copy(n);
    let mut q: u64 = 0;
    let mut bit: u64 = 0x4000_0000_0000_0000;
    proof {
        assert(dd * q == 0) by (nonlinear_arith)
            requires
                q == 0,
        ;
    }
    while j > 0
        invariant
            j <= 62,
            dd > 0,
            multiples@.len() == 62,
            bit == pow2(j as nat),
            bit <= 0x4000_0000_0000_0000,
            q + bit <= 0x4000_0000_0000_0000,
            nn == dd * q + big(rest@),
            big(rest@) < dd * pow2(j as nat),
            forall|i: int|
                0 <= i < 62 ==> big((#[trigger] multiples@[i])@) == dd * pow2(i as nat),
        decreases j,
    {
        proof {
            vstd::arithmetic::power2::lemma_pow2_unfold(j as nat);
            let p = pow2((j - 1) as nat) as int;
            assert(dd * (2 * p) == dd * p + dd * p) by (nonlinear_arith);
        }
        j = j - 1;
        bit = bit / 2;
        if !less(&rest, &multiples[j]) {
            subtract(&mut rest, &multiples[j]);
            proof {
                assert(dd * (q + bit) == dd * q + dd * bit) by (nonlinear_arith);
            }
            q = q + bit;
        }
    }
    proof {
        assert(dd * 1 == dd);
        assert(nn == q * dd + big(rest@)) by (nonlinear_arith)
            requires
                nn == dd * q + big(rest@),
        ;
        vstd::arithmetic::div_mod::lemma_fundamental_div_mod_converse(
            nn,
            dd,
            q as int,
            big(rest@) as int,
        );
    }
    (q, rest)
}

} // verus!
