//! Decimal fixed-point scalars.
//!
//! A scalar is an `i64` holding a number of billionths: the raw value `ONE`
//! stands for 1. Each operation computes the exact result, rounds it toward
//! negative infinity to the nearest billionth and saturates it to
//! `[-i64::MAX, i64::MAX]`.

use vstd::prelude::*;
use vstd::arithmetic::div_mod::*;
use vstd::arithmetic::mul::*;

verus! {

/// The raw value that stands for 1.
pub const ONE: i64 = 1_000_000_000;

/// The raw value that stands for 1/2.
pub const HALF: i64 = 500_000_000;

/// Saturates an exact value to the symmetric range `[-i64::MAX, i64::MAX]`,
/// so that negating a result never saturates again.
pub open spec fn clamp_i64(x: int) -> int {
    if x < -i64::MAX {
        -i64::MAX
    } else if x > i64::MAX {
        i64::MAX as int
    } else {
        x
    }
}

/// Floor of `n / d` for any nonzero `d`.
pub open spec fn floor_div(n: int, d: int) -> int {
    if d > 0 {
        n / d
    } else {
        (-n) / (-d)
    }
}

/// Saturating sum.
pub open spec fn fx_add(a: i64, b: i64) -> i64 {
    clamp_i64(a + b) as i64
}

/// Saturating difference.
pub open spec fn fx_sub(a: i64, b: i64) -> i64 {
    clamp_i64(a - b) as i64
}

/// Saturating negation.
pub open spec fn fx_neg(a: i64) -> i64 {
    clamp_i64(-a) as i64
}

/// Product, rounded down to a billionth and saturated.
pub open spec fn fx_mul(a: i64, b: i64) -> i64 {
    clamp_i64(floor_div(a * b, ONE as int)) as i64
}

/// Quotient, rounded down to a billionth and saturated; 0 when `b` is 0.
pub open spec fn fx_div(a: i64, b: i64) -> i64 {
    if b == 0 {
        0
    } else {
        clamp_i64(floor_div(a * ONE, b as int)) as i64
    }
}

/// The smaller of two scalars.
pub open spec fn fx_min(a: i64, b: i64) -> i64 {
    if a <= b {
        a
    } else {
        b
    }
}

/// The larger of two scalars.
pub open spec fn fx_max(a: i64, b: i64) -> i64 {
    if a >= b {
        a
    } else {
        b
    }
}

/// `r` is the integer square root of `n`.
pub open spec fn is_isqrt(n: int, r: int) -> bool {
    0 <= r && r * r <= n && n < (r + 1) * (r + 1)
}

/// The integer square root of a nonnegative `n`.
pub open spec fn isqrt(n: int) -> int {
    choose|r: int| is_isqrt(n, r)
}

/// Square root, rounded down to a billionth; 0 for a nonpositive argument.
pub open spec fn fx_sqrt(a: i64) -> i64 {
    if a <= 0 {
        0
    } else {
        isqrt(a * ONE) as i64
    }
}

proof fn lemma_isqrt_unique(n: int, r: int, s: int)
    requires
        is_isqrt(n, r),
        is_isqrt(n, s),
    ensures
        r == s,
{
    if r < s {
        assert((r + 1) * (r + 1) <= s * s) by (nonlinear_arith)
            requires
                0 <= r,
                r + 1 <= s,
        ;
    } else if s < r {
        assert((s + 1) * (s + 1) <= r * r) by (nonlinear_arith)
            requires
                0 <= s,
                s + 1 <= r,
        ;
    }
}

/// A value that satisfies `is_isqrt` is the one `isqrt` names.
pub proof fn lemma_isqrt_is(n: int, r: int)
    requires
        is_isqrt(n, r),
    ensures
        isqrt(n) == r,
{
    assert(is_isqrt(n, isqrt(n)));
    lemma_isqrt_unique(n, r, isqrt(n));
}

/// Every nonnegative integer has an integer square root.
pub proof fn lemma_isqrt_exists(n: int)
    requires
        n >= 0,
    ensures
        exists|r: int| #[trigger] is_isqrt(n, r),
        is_isqrt(n, isqrt(n)),
    decreases n,
{
    if n == 0 {
        assert(is_isqrt(0, 0));
    } else {
        lemma_isqrt_exists(n - 1);
        let r = choose|r: int| #[trigger] is_isqrt(n - 1, r);
        if (r + 1) * (r + 1) <= n {
            assert((r + 1) * (r + 1) < (r + 2) * (r + 2)) by (nonlinear_arith)
                requires
                    r >= 0,
            ;
            assert(is_isqrt(n, r + 1));
        } else {
            assert(is_isqrt(n, r));
        }
    }
}

/// The square root of a scalar is a nonnegative scalar.
pub proof fn lemma_sqrt_nonneg(a: i64)
    ensures
        fx_sqrt(a) >= 0,
        a > 0 ==> is_isqrt(a * ONE, fx_sqrt(a) as int),
{
    if a > 0 {
        let n = a * ONE;
        assert(0 < n < 0x4000_0000_0000_0000_0000_0000) by (nonlinear_arith)
            requires
                0 < a <= 0x7fff_ffff_ffff_ffff,
                n == a * ONE,
        ;
        lemma_isqrt_exists(n);
        let r = isqrt(n);
        assert(is_isqrt(n, r));
        if r >= 0x8000_0000_0000 {
            assert(r * r >= 0x4000_0000_0000_0000_0000_0000) by (nonlinear_arith)
                requires
                    r >= 0x8000_0000_0000,
            ;
        }
    }
}

pub(crate) fn clamp_wide(x: i128) -> (r: i64)
    ensures
        r == clamp_i64(x as int),
{
    if x < -(i64::MAX as i128) {
        -i64::MAX
    } else if x > i64::MAX as i128 {
        i64::MAX
    } else {
        x as i64
    }
}

/// Floor division by a positive divisor.
pub(crate) fn floor_div_wide(n: i128, d: i128) -> (r: i128)
    requires
        d > 0,
    ensures
        r == floor_div(n as int, d as int),
{
    if n >= 0 {
        n / d
    } else {
        let m: i128 = -(n + 1);
        let q: i128 = m / d;
        proof {
            lemma_fundamental_div_mod(m as int, d as int);
            lemma_fundamental_div_mod(n as int, d as int);
            let nn = n as int;
            let dd = d as int;
            let qq = q as int;
            let rr = m as int % dd;
            assert(m as int == dd * qq + rr);
            assert(nn == dd * (-qq - 1) + (dd - 1 - rr)) by (nonlinear_arith)
                requires
                    m as int == dd * qq + rr,
                    nn == -(m as int) - 1,
            ;
            lemma_div_mod_unique(nn, dd, -qq - 1, dd - 1 - rr);
        }
        -q - 1
    }
}

pub proof fn lemma_div_mod_unique(n: int, d: int, q: int, r: int)
    requires
        d > 0,
        0 <= r < d,
        n == d * q + r,
    ensures
        n / d == q,
        n % d == r,
{
    lemma_fundamental_div_mod(n, d);
    let q2 = n / d;
    let r2 = n % d;
    assert(0 <= r2 < d);
    if q2 < q {
        assert(d * q2 + d <= d * q) by (nonlinear_arith)
            requires
                q2 + 1 <= q,
                d > 0,
        ;
    } else if q2 > q {
        assert(d * q + d <= d * q2) by (nonlinear_arith)
            requires
                q + 1 <= q2,
                d > 0,
        ;
    }
}

pub(crate) proof fn lemma_wide_product(a: i64, b: i64)
    ensures
        -0x4000_0000_0000_0000_0000_0000_0000_0000 <= a * b <= 0x4000_0000_0000_0000_0000_0000_0000_0000,
{
    assert(-0x4000_0000_0000_0000_0000_0000_0000_0000 <= a * b <= 0x4000_0000_0000_0000_0000_0000_0000_0000)
        by (nonlinear_arith)
        requires
            -0x8000_0000_0000_0000 <= a <= 0x8000_0000_0000_0000,
            -0x8000_0000_0000_0000 <= b <= 0x8000_0000_0000_0000,
    ;
}

/// Saturating sum of two scalars.
pub fn add_fx(a: i64, b: i64) -> (r: i64)
    ensures
        r == fx_add(a, b),
{
    clamp_wide(a as i128 + b as i128)
}

/// Saturating difference of two scalars.
pub fn sub_fx(a: i64, b: i64) -> (r: i64)
    ensures
        r == fx_sub(a, b),
{
    clamp_wide(a as i128 - b as i128)
}

/// Saturating negation of a scalar.
pub fn neg_fx(a: i64) -> (r: i64)
    ensures
        r == fx_neg(a),
{
    clamp_wide(-(a as i128))
}

/// Product of two scalars.
pub fn mul_fx(a: i64, b: i64) -> (r: i64)
    ensures
        r == fx_mul(a, b),
{
    proof {
        lemma_wide_product(a, b);
    }
    let p: i128 = a as i128 * b as i128;
    clamp_wide(floor_div_wide(p, ONE as i128))
}

/// Quotient of two scalars; 0 when the divisor is 0.
pub fn div_fx(a: i64, b: i64) -> (r: i64)
    ensures
        r == fx_div(a, b),
{
    if b == 0 {
        return 0;
    }
    proof {
        lemma_wide_product(a, ONE);
    }
    let n: i128 = a as i128 * ONE as i128;
    if b > 0 {
        clamp_wide(floor_div_wide(n, b as i128))
    } else {
        clamp_wide(floor_div_wide(-n, -(b as i128)))
    }
}

/// The smaller of two scalars.
pub fn min_fx(a: i64, b: i64) -> (r: i64)
    ensures
        r == fx_min(a, b),
{
    if a <= b {
        a
    } else {
        b
    }
}

/// The larger of two scalars.
pub fn max_fx(a: i64, b: i64) -> (r: i64)
    ensures
        r == fx_max(a, b),
{
    if a >= b {
        a
    } else {
        b
    }
}

/// Integer square root of any `u128`, by bisection.
pub(crate) fn isqrt_full(n: u128) -> (r: u128)
    ensures
        is_isqrt(n as int, r as int),
        r < 0x1_0000_0000_0000_0000,
{
    let mut lo: u128 = 0;
    let mut hi: u128 = 0x1_0000_0000_0000_0000;
    assert(n < hi * hi);
    while hi - lo > 1
        invariant
            lo < hi <= 0x1_0000_0000_0000_0000,
            lo * lo <= n,
            n < hi * hi,
        decreases hi - lo,
    {
        let mid: u128 = lo + (hi - lo) / 2;
        assert(mid * mid < 0x1_0000_0000_0000_0000_0000_0000_0000_0000) by (nonlinear_arith)
            requires
                mid < 0x1_0000_0000_0000_0000,
        ;
        if mid * mid <= n {
            lo = mid;
        } else {
            hi = mid;
        }
    }
    assert(hi == lo + 1);
    lo
}

/// Integer square root by bisection.
pub(crate) fn isqrt_wide(n: u128) -> (r: u128)
    requires
        n < 0x4000_0000_0000_0000_0000_0000,
    ensures
        is_isqrt(n as int, r as int),
        r < 0x8000_0000_0000,
{
    let mut lo: u128 = 0;
    let mut hi: u128 = 0x8000_0000_0000;
    assert(hi * hi == 0x4000_0000_0000_0000_0000_0000);
    while hi - lo > 1
        invariant
            lo < hi <= 0x8000_0000_0000,
            lo * lo <= n,
            n < hi * hi,
        decreases hi - lo,
    {
        let mid: u128 = lo + (hi - lo) / 2;
        assert(mid * mid <= 0x4000_0000_0000_0000_0000_0000) by (nonlinear_arith)
            requires
                mid <= 0x8000_0000_0000,
        ;
        if mid * mid <= n {
            lo = mid;
        } else {
            hi = mid;
        }
    }
    assert(hi == lo + 1);
    lo
}

/// Square root of a scalar; 0 for a nonpositive argument.
pub fn sqrt_fx(a: i64) -> (r: i64)
    ensures
        r == fx_sqrt(a),
        r >= 0,
{
    if a <= 0 {
        return 0;
    }
    assert(a * ONE < 0x4000_0000_0000_0000_0000_0000) by (nonlinear_arith)
        requires
            0 < a <= 0x7fff_ffff_ffff_ffff,
    ;
    let n: u128 = a as u128 * ONE as u128;
    let r = isqrt_wide(n);
    proof {
        lemma_isqrt_is(a * ONE, r as int);
    }
    r as i64
}

} // verus!
