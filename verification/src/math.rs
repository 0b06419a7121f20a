//! Integer arithmetic the simulation is built on: a floor square root for
//! Euclidean distances and a truncating signed division for the scaled
//! vector operations (reflection, penetration push-back).

use vstd::prelude::*;
use vstd::arithmetic::div_mod::{
    lemma_div_nonincreasing, lemma_div_pos_is_pos, lemma_fundamental_div_mod,
    lemma_mod_division_less_than_divisor,
};

verus! {

/// Magnitude up to which a resolver accepts its numeric inputs (2^40).
/// A body whose coordinates, velocity or radius exceed it is left alone for
/// that step: all intermediate products then fit comfortably in `i128`.
pub const COORD_LIMIT: i128 = 1099511627776;

/// Magnitude up to which a resolver writes a computed result back (2^44).
pub const STORE_LIMIT: i128 = 17592186044416;

/// Magnitude up to which a spawn direction sample is accepted (2^20).  A
/// sample is scaled by `COORD_LIMIT` before it is normalized, so that the
/// divisor is at least `COORD_LIMIT` — never smaller than a starting speed —
/// and the spawned speed stays within a few units of the configured one for
/// every admissible sample, however short.
pub const DIR_LIMIT: i128 = 1048576;

pub open spec fn in_coord_range(n: int) -> bool {
    -COORD_LIMIT <= n <= COORD_LIMIT
}

pub open spec fn in_store_range(n: int) -> bool {
    -STORE_LIMIT <= n <= STORE_LIMIT
}

/// Floor of the square root of `n` (0 for negative arguments, which the
/// simulation never produces).
pub open spec fn sqrt_floor(n: int) -> int
    decreases n,
{
    if n <= 0 {
        0
    } else {
        let r: int = sqrt_floor(n - 1);
        if (r + 1) * (r + 1) <= n {
            r + 1
        } else {
            r
        }
    }
}

/// `sqrt_floor(n)` is the unique `r >= 0` with `r*r <= n < (r+1)*(r+1)`.
pub proof fn lemma_sqrt_floor_bounds(n: int)
    requires
        0 <= n,
    ensures
        0 <= sqrt_floor(n),
        sqrt_floor(n) * sqrt_floor(n) <= n,
        n < (sqrt_floor(n) + 1) * (sqrt_floor(n) + 1),
    decreases n,
{
    if n == 0 {
    } else {
        lemma_sqrt_floor_bounds(n - 1);
        let r: int = sqrt_floor(n - 1);
        if (r + 1) * (r + 1) <= n {
            assert(n < (r + 2) * (r + 2)) by (nonlinear_arith)
                requires n - 1 < (r + 1) * (r + 1), r >= 0;
        }
    }
}

pub proof fn lemma_sqrt_floor_unique(n: int, r: int)
    requires
        0 <= r,
        r * r <= n,
        n < (r + 1) * (r + 1),
    ensures
        r == sqrt_floor(n),
{
    lemma_sqrt_floor_bounds(n);
    let s: int = sqrt_floor(n);
    if r < s {
        assert((r + 1) * (r + 1) <= s * s) by (nonlinear_arith)
            requires 0 <= r + 1 <= s;
        assert(false);
    } else if s < r {
        assert((s + 1) * (s + 1) <= r * r) by (nonlinear_arith)
            requires 0 <= s + 1 <= r;
        assert(false);
    }
}

/// If `n` is at most `m` squared, its root is at most `m`.
pub proof fn lemma_sqrt_floor_le(n: int, m: int)
    requires
        0 <= n,
        0 <= m,
        n <= m * m,
    ensures
        sqrt_floor(n) <= m,
{
    lemma_sqrt_floor_bounds(n);
    let s: int = sqrt_floor(n);
    if m < s {
        assert((m + 1) * (m + 1) <= s * s) by (nonlinear_arith)
            requires 0 <= m + 1 <= s;
        assert(m * m < (m + 1) * (m + 1)) by (nonlinear_arith)
            requires 0 <= m;
        assert(false);
    }
}

/// If `m` squared is at most `n`, the root of `n` is at least `m`.
pub proof fn lemma_sqrt_floor_ge(n: int, m: int)
    requires
        0 <= m,
        m * m <= n,
    ensures
        m <= sqrt_floor(n),
{
    lemma_sqrt_floor_bounds(n);
    let s: int = sqrt_floor(n);
    if s < m {
        assert((s + 1) * (s + 1) <= m * m) by (nonlinear_arith)
            requires 0 <= s + 1 <= m;
        assert(false);
    }
}

/// Floor square root, by binary search.
pub fn isqrt(n: u128) -> (r: u128)
    requires
        n < 0x40000000000000000000000000000000u128,
    ensures
        r == sqrt_floor(n as int),
{
    if n == 0 {
        proof {
            lemma_sqrt_floor_unique(0, 0);
        }
        return 0;
    }
    let mut lo: u128 = 0;
    let mut hi: u128 = 0x8000000000000000;
    assert(n < hi * hi) by (nonlinear_arith)
        requires n < 0x40000000000000000000000000000000u128, hi == 0x8000000000000000u128;
    while lo + 1 < hi
        invariant
            lo < hi <= 0x8000000000000000u128,
            lo * lo <= n,
            n < hi * hi,
        decreases hi - lo,
    {
        let mid: u128 = lo + (hi - lo) / 2;
        assert(lo < mid < hi);
        assert(mid * mid < 0x40000000000000000000000000000000u128) by (nonlinear_arith)
            requires mid < 0x8000000000000000u128;
        if mid * mid <= n {
            lo = mid;
        } else {
            hi = mid;
        }
    }
    proof {
        lemma_sqrt_floor_unique(n as int, lo as int);
    }
    lo
}

/// A product of bounded factors is bounded by the product of the bounds.
pub proof fn lemma_abs_mul_le(a: int, b: int, ca: int, cb: int)
    requires
        -ca <= a <= ca,
        -cb <= b <= cb,
        0 <= ca,
        0 <= cb,
    ensures
        -(ca * cb) <= a * b <= ca * cb,
{
    assert(-(ca * cb) <= a * b <= ca * cb) by (nonlinear_arith)
        requires -ca <= a <= ca, -cb <= b <= cb, 0 <= ca, 0 <= cb;
}

/// Division that rounds toward zero, as Rust's `/` does; the divisor is
/// taken positive.
pub open spec fn div_trunc(a: int, d: int) -> int {
    if a >= 0 {
        a / d
    } else {
        -((-a) / d)
    }
}

/// A truncating quotient never passes the dividend and lands within one
/// divisor of it: `|a - d * div_trunc(a, d)| <= d - 1`, on the dividend's
/// side of zero.
pub proof fn lemma_div_trunc_bounds(a: int, d: int)
    requires
        1 <= d,
    ensures
        a >= 0 ==> 0 <= d * div_trunc(a, d) <= a && 0 <= div_trunc(a, d) <= a,
        a < 0 ==> a <= d * div_trunc(a, d) <= 0 && a <= div_trunc(a, d) <= 0,
        a - (d - 1) <= d * div_trunc(a, d) <= a + (d - 1),
{
    if a >= 0 {
        let q: int = a / d;
        lemma_fundamental_div_mod(a, d);
        lemma_mod_division_less_than_divisor(a, d);
        lemma_div_pos_is_pos(a, d);
        lemma_div_nonincreasing(a, d);
        assert(q <= d * q) by (nonlinear_arith)
            requires 0 <= q, 1 <= d;
    } else {
        let q: int = (-a) / d;
        lemma_fundamental_div_mod(-a, d);
        lemma_mod_division_less_than_divisor(-a, d);
        lemma_div_pos_is_pos(-a, d);
        lemma_div_nonincreasing(-a, d);
        assert(q <= d * q) by (nonlinear_arith)
            requires 0 <= q, 1 <= d;
        assert(div_trunc(a, d) == -q);
        assert(d * div_trunc(a, d) == -(d * q)) by (nonlinear_arith)
            requires div_trunc(a, d) == -q;
    }
}

/// Truncating signed division on machine integers.
pub fn div_trunc_i128(a: i128, d: i128) -> (q: i128)
    requires
        1 <= d,
        a > i128::MIN,
    ensures
        q == div_trunc(a as int, d as int),
{
    proof {
        lemma_div_trunc_bounds(a as int, d as int);
    }
    if a >= 0 {
        let qu: u128 = (a as u128) / (d as u128);
        qu as i128
    } else {
        let na: u128 = (-a) as u128;
        let qu: u128 = na / (d as u128);
        -(qu as i128)
    }
}


/// Truncating division is odd in its dividend.
pub proof fn lemma_div_trunc_neg(a: int, d: int)
    requires
        1 <= d,
    ensures
        div_trunc(-a, d) == -div_trunc(a, d),
{
    if a == 0 {
        lemma_div_trunc_bounds(0, d);
        assert(div_trunc(0, d) == 0) by (nonlinear_arith)
            requires 0 <= d * div_trunc(0, d) <= 0, 1 <= d;
    }
}

} // verus!
