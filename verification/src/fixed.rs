//! Fixed-point scalars.
//!
//! A scalar holds a real value `v` as the integer `v * SCALE`, rounded toward
//! negative infinity.  All products and quotients are computed in `i128`, so
//! the operations below are exact integer functions of their inputs; their
//! specifications (`mul_fx`, `div_fx`, `sqrt_fx`) are the reference for every
//! contract in the crate.

use vstd::arithmetic::div_mod::{
    lemma_div_is_ordered, lemma_div_multiples_vanish, lemma_fundamental_div_mod,
};
use vstd::prelude::*;

verus! {

/// Number of integer units that represent the real value 1.0.
pub const SCALE: i64 = 65536;

/// The scaled product `(a * b) / SCALE`, rounded toward negative infinity.
pub open spec fn mul_fx(a: int, b: int) -> int {
    (a * b) / (SCALE as int)
}

/// The scaled quotient `(a * SCALE) / b`, rounded toward negative infinity.
pub open spec fn div_fx(a: int, b: int) -> int {
    (a * (SCALE as int)) / b
}

/// Largest `r` with `r * r <= n`.
pub open spec fn sqrt_floor(n: nat) -> nat
    decreases n,
{
    if n == 0 {
        0
    } else {
        let p = sqrt_floor((n - 1) as nat);
        if (p + 1) * (p + 1) <= n {
            p + 1
        } else {
            p
        }
    }
}

/// Square root of a non-negative scaled value, as a scaled value.
pub open spec fn sqrt_fx(x: int) -> int {
    sqrt_floor((x * (SCALE as int)) as nat) as int
}

/// `x` forced into the interval `[lo, hi]`.
pub open spec fn clamp_fx(x: int, lo: int, hi: int) -> int {
    if x < lo {
        lo
    } else if x > hi {
        hi
    } else {
        x
    }
}

/// `sqrt_floor(n)` is indeed the floor of the square root.
pub proof fn lemma_sqrt_floor_bounds(n: nat)
    ensures
        sqrt_floor(n) * sqrt_floor(n) <= n,
        n < (sqrt_floor(n) + 1) * (sqrt_floor(n) + 1),
    decreases n,
{
    reveal_with_fuel(sqrt_floor, 2);
    if n == 0 {
        let s = sqrt_floor(n);
        assert(s == 0);
        assert((s + 1) * (s + 1) == 1) by (nonlinear_arith)
            requires
                s == 0nat,
        ;
        assert(n < (sqrt_floor(n) + 1) * (sqrt_floor(n) + 1));
    } else {
        lemma_sqrt_floor_bounds((n - 1) as nat);
        let p = sqrt_floor((n - 1) as nat);
        assert(p * p <= n - 1);
        assert((n - 1) < (p + 1) * (p + 1));
        if (p + 1) * (p + 1) <= n {
            assert(sqrt_floor(n) == p + 1);
            assert(n < (p + 2) * (p + 2)) by (nonlinear_arith)
                requires
                    (n - 1) < (p + 1) * (p + 1),
            ;
            assert(sqrt_floor(n) * sqrt_floor(n) <= n);
            assert(n < (sqrt_floor(n) + 1) * (sqrt_floor(n) + 1));
        } else {
            assert(sqrt_floor(n) == p);
            assert(sqrt_floor(n) * sqrt_floor(n) <= n);
            assert(n < (sqrt_floor(n) + 1) * (sqrt_floor(n) + 1));
        }
    }
}

/// No integer other than `sqrt_floor(n)` satisfies the square-root bounds.
pub proof fn lemma_sqrt_floor_unique(n: nat, r: nat)
    requires
        r * r <= n,
        n < (r + 1) * (r + 1),
    ensures
        sqrt_floor(n) == r,
{
    lemma_sqrt_floor_bounds(n);
    let s = sqrt_floor(n);
    if s < r {
        assert((s + 1) * (s + 1) <= r * r) by (nonlinear_arith)
            requires
                s + 1 <= r,
        ;
    }
    if r < s {
        assert((r + 1) * (r + 1) <= s * s) by (nonlinear_arith)
            requires
                r + 1 <= s,
        ;
    }
}

/// A product is bounded by the product of bounds.
pub proof fn lemma_mul_range(a: int, b: int, bound_a: int, bound_b: int)
    by (nonlinear_arith)
    requires
        -bound_a <= a <= bound_a,
        -bound_b <= b <= bound_b,
        0 <= bound_a,
        0 <= bound_b,
    ensures
        -(bound_a * bound_b) <= a * b <= bound_a * bound_b,
{
}

/// Floor division by a positive divisor shrinks a bounded dividend.
pub proof fn lemma_div_mag(n: int, d: int, m: int)
    requires
        0 < d,
        -m <= n <= m,
        0 <= m,
    ensures
        -(m / d) - 1 <= n / d <= m / d,
{
    lemma_div_is_ordered(n, m, d);
    lemma_div_is_ordered(-m, n, d);
    lemma_fundamental_div_mod(m, d);
    let q = m / d;
    let r = m % d;
    assert(0 <= r < d) by {
        vstd::arithmetic::div_mod::lemma_mod_bound(m, d);
    }
    if r == 0 {
        assert(d * (-q) == -(d * q)) by (nonlinear_arith);
        vstd::arithmetic::div_mod::lemma_fundamental_div_mod_converse(-m, d, -q, 0);
    } else {
        assert(d * (-q - 1) == -(d * q) - d) by (nonlinear_arith);
        vstd::arithmetic::div_mod::lemma_fundamental_div_mod_converse(-m, d, -q - 1, d - r);
    }
}

/// Range of a scaled product from ranges of its factors.
pub proof fn lemma_mul_fx_range(a: int, b: int, bound_a: int, bound_b: int)
    requires
        -bound_a <= a <= bound_a,
        -bound_b <= b <= bound_b,
        0 <= bound_a,
        0 <= bound_b,
    ensures
        -(bound_a * bound_b / (SCALE as int)) - 1 <= mul_fx(a, b) <= bound_a * bound_b / (
        SCALE as int),
{
    lemma_mul_range(a, b, bound_a, bound_b);
    lemma_div_mag(a * b, SCALE as int, bound_a * bound_b);
}

/// Range of a scaled quotient from a range of the dividend.
pub proof fn lemma_div_fx_range(a: int, d: int, bound: int)
    requires
        0 < d,
        -bound <= a <= bound,
        0 <= bound,
    ensures
        -(bound * (SCALE as int) / d) - 1 <= div_fx(a, d) <= bound * (SCALE as int) / d,
{
    lemma_mul_range(a, SCALE as int, bound, SCALE as int);
    lemma_div_mag(a * (SCALE as int), d, bound * (SCALE as int));
}

/// Attenuating one non-negative scaled factor by another at most one keeps it
/// between zero and either factor.
pub proof fn lemma_color_attenuate(a: int, b: int)
    requires
        0 <= a <= SCALE as int,
        0 <= b <= SCALE as int,
    ensures
        0 <= mul_fx(a, b) <= a,
        mul_fx(a, b) <= b,
{
    let s = SCALE as int;
    assert(0 <= a * b) by (nonlinear_arith)
        requires
            0 <= a,
            0 <= b,
    ;
    vstd::arithmetic::div_mod::lemma_div_pos_is_pos(a * b, s);
    assert(a * b <= s * a) by (nonlinear_arith)
        requires
            0 <= a,
            0 <= b <= s,
    ;
    assert(a * b <= s * b) by (nonlinear_arith)
        requires
            0 <= a <= s,
            0 <= b,
    ;
    lemma_div_is_ordered(a * b, s * a, s);
    lemma_div_is_ordered(a * b, s * b, s);
    lemma_div_multiples_vanish(a, s);
    lemma_div_multiples_vanish(b, s);
}

/// A dividend of at least `d * k` divides to at least `k`.
pub proof fn lemma_div_ge_multiple(n: int, d: int, k: int)
    requires
        0 < d,
        0 <= k,
        n >= d * k,
    ensures
        n / d >= k,
{
    lemma_div_is_ordered(d * k, n, d);
    lemma_div_multiples_vanish(k, d);
}

/// Division by a positive divisor, rounded toward negative infinity, on `i128`.
pub fn div_floor_i128(n: i128, d: i128) -> (r: i128)
    requires
        0 < d,
        n > i128::MIN + d,
    ensures
        r == n as int / d as int,
{
    if n >= 0 {
        n / d
    } else {
        let q = (-n + d - 1) / d;
        proof {
            let ni = n as int;
            let di = d as int;
            let qi = q as int;
            assert(qi == (-ni + di - 1) / di);
            lemma_fundamental_div_mod(-ni + di - 1, di);
            let m = (-ni + di - 1) % di;
            assert(0 <= m < di) by {
                vstd::arithmetic::div_mod::lemma_mod_bound(-ni + di - 1, di);
            }
            assert(-ni + di - 1 == di * qi + m);
            assert(di * (-qi) == -(di * qi)) by (nonlinear_arith);
            assert(ni == di * (-qi) + (di - 1 - m));
            assert(0 <= di - 1 - m < di);
            vstd::arithmetic::div_mod::lemma_fundamental_div_mod_converse(ni, di, -qi, di - 1 - m);
        }
        -q
    }
}

/// The scaled product of two scalars; exact per `mul_fx`.
pub fn fx_mul(a: i64, b: i64) -> (r: i64)
    requires
        i64::MIN <= mul_fx(a as int, b as int) <= i64::MAX,
    ensures
        r == mul_fx(a as int, b as int),
{
    let p: i128 = (a as i128) * (b as i128);
    let q = div_floor_i128(p, SCALE as i128);
    q as i64
}

/// The scaled quotient of two scalars (positive divisor); exact per `div_fx`.
pub fn fx_div(a: i64, b: i64) -> (r: i64)
    requires
        0 < b,
        i64::MIN <= div_fx(a as int, b as int) <= i64::MAX,
    ensures
        r == div_fx(a as int, b as int),
{
    let p: i128 = (a as i128) * (SCALE as i128);
    let q = div_floor_i128(p, b as i128);
    q as i64
}

/// Floor of the square root of `n`.
pub fn isqrt_u128(n: u128) -> (r: u64)
    ensures
        (r as int) * (r as int) <= n as int,
        n < (r as int + 1) * (r as int + 1),
{
    let mut lo: u64 = 0;
    let mut hi: u64 = u64::MAX;
    if n < u64::MAX as u128 {
        // keep (hi + 1)^2 > n cheap to establish
        hi = n as u64;
        proof {
            assert((hi as int + 1) * (hi as int + 1) > n as int) by (nonlinear_arith)
                requires
                    n as int <= hi as int,
            ;
        }
    } else {
        proof {
            assert((hi as int + 1) * (hi as int + 1) > n as int) by (nonlinear_arith)
                requires
                    hi as int + 1 == 0x1_0000_0000_0000_0000,
                    n as int <= u128::MAX,
            ;
        }
    }
    while lo < hi
        invariant
            (lo as int) * (lo as int) <= n as int,
            (n as int) < (hi as int + 1) * (hi as int + 1),
            lo <= hi,
        decreases hi - lo,
    {
        let mid = lo + (hi - lo) / 2;
        proof {
            assert((mid as int + 1) * (mid as int + 1) <= u128::MAX) by (nonlinear_arith)
                requires
                    mid as int + 1 <= 0xFFFF_FFFF_FFFF_FFFF,
            ;
        }
        let sq: u128 = (mid as u128 + 1) * (mid as u128 + 1);
        if sq <= n {
            lo = mid + 1;
        } else {
            hi = mid;
        }
    }
    lo
}

/// Square root of a non-negative scaled scalar; exact per `sqrt_fx`.
pub fn fx_sqrt(x: i64) -> (r: i64)
    requires
        0 <= x,
    ensures
        r == sqrt_fx(x as int),
        0 <= r,
{
    proof {
        assert((x as int) * (SCALE as int) < 0x1_0000_0000_0000_0000_0000) by (nonlinear_arith)
            requires
                0 <= x as int <= i64::MAX,
                SCALE as int == 65536,
        ;
    }
    let n: u128 = (x as u128) * (SCALE as u128);
    let s = isqrt_u128(n);
    proof {
        lemma_sqrt_floor_unique(n as nat, s as nat);
        assert((n as int) < 0x1_0000_0000_0000_0000_0000);
        assert((s as int) < 0x100_0000_0000) by (nonlinear_arith)
            requires
                (s as int) * (s as int) <= n as int,
                (n as int) < 0x1_0000_0000_0000_0000_0000,
        ;
    }
    s as i64
}

} // verus!
