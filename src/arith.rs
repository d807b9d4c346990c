//! Fixed-point quantities and the integer helpers they need.
use vstd::arithmetic::div_mod::{lemma_fundamental_div_mod, lemma_mod_pos_bound};
use vstd::prelude::*;

verus! {

/// Number of fixed-point units in one length unit, one speed unit and one second.
pub const SCALE: u64 = 1000;

/// Gravitational constant in real units.
pub const GRAVITY: u64 = 1000;

/// Bound on the magnitude of each position and velocity component, in fixed-point units.
pub const VALUE_LIMIT: i64 = 1_000_000_000_000;

/// Bound on a frame's elapsed time, in fixed-point units (thousandths of a second).
pub const DT_LIMIT: u64 = 1_000_000;

/// Bound on the total mass of a population.
pub const MASS_LIMIT: u64 = 1_000_000_000;

/// Bound on the total of the squared radii of a population, in squared fixed-point units.
pub const AREA_LIMIT: u64 = 1_000_000_000_000_000_000;

/// `v` held to `[-VALUE_LIMIT, VALUE_LIMIT]`.
pub open spec fn clamp_value(v: int) -> int {
    if v > VALUE_LIMIT {
        VALUE_LIMIT as int
    } else if v < -VALUE_LIMIT {
        -VALUE_LIMIT
    } else {
        v
    }
}

/// Division that rounds toward zero, as machine division does.
pub open spec fn div_trunc(n: int, d: int) -> int {
    if n >= 0 {
        n / d
    } else {
        -((-n) / d)
    }
}

/// `r` is the integer square root of `n`.
pub open spec fn is_root(n: int, r: int) -> bool {
    0 <= r && r * r <= n < (r + 1) * (r + 1)
}

/// The integer square root of `n` (the largest `r` with `r * r <= n`).
pub open spec fn sqrt_floor(n: int) -> int {
    choose|r: int| is_root(n, r)
}

/// Two integer square roots of one number are equal.
pub proof fn lemma_root_unique(n: int, r1: int, r2: int)
    requires
        is_root(n, r1),
        is_root(n, r2),
    ensures
        r1 == r2,
{
    if r1 < r2 {
        assert((r1 + 1) * (r1 + 1) <= r2 * r2) by (nonlinear_arith)
            requires
                0 <= r1,
                r1 + 1 <= r2,
        ;
    } else if r2 < r1 {
        assert((r2 + 1) * (r2 + 1) <= r1 * r1) by (nonlinear_arith)
            requires
                0 <= r2,
                r2 + 1 <= r1,
        ;
    }
}

/// Every non-negative number has an integer square root.
pub proof fn lemma_root_exists(n: int)
    requires
        n >= 0,
    ensures
        is_root(n, sqrt_floor(n)),
    decreases n,
{
    if n == 0 {
        assert(is_root(0, 0));
    } else {
        lemma_root_exists(n - 1);
        let r = sqrt_floor(n - 1);
        if n < (r + 1) * (r + 1) {
            assert(is_root(n, r));
        } else {
            assert(is_root(n, r + 1)) by (nonlinear_arith)
                requires
                    0 <= r,
                    n - 1 < (r + 1) * (r + 1),
                    n >= (r + 1) * (r + 1),
            ;
        }
    }
}

/// A witness of the root is the root that `sqrt_floor` names.
pub proof fn lemma_sqrt_floor(n: int, r: int)
    requires
        is_root(n, r),
    ensures
        sqrt_floor(n) == r,
{
    let s = sqrt_floor(n);
    assert(is_root(n, s));
    lemma_root_unique(n, r, s);
}

/// Quotient and remainder bounds of a division by a positive number.
pub proof fn lemma_div_bounds(n: int, d: int)
    requires
        n >= 0,
        d > 0,
    ensures
        0 <= n / d,
        d * (n / d) <= n < d * (n / d) + d,
{
    lemma_fundamental_div_mod(n, d);
    lemma_mod_pos_bound(n, d);
    let q = n / d;
    let m = n % d;
    assert(0 <= q) by (nonlinear_arith)
        requires
            n == d * q + m,
            0 <= m < d,
            n >= 0,
    ;
}

/// Multiplying back a truncated quotient misses the dividend by less than the divisor.
pub proof fn lemma_div_trunc_error(n: int, d: int)
    requires
        d > 0,
    ensures
        -d < d * div_trunc(n, d) - n < d,
        n >= 0 ==> div_trunc(n, d) >= 0,
        n <= 0 ==> div_trunc(n, d) <= 0,
{
    if n >= 0 {
        lemma_div_bounds(n, d);
    } else {
        lemma_div_bounds(-n, d);
        assert(d * div_trunc(n, d) == -(d * ((-n) / d))) by (nonlinear_arith)
            requires
                div_trunc(n, d) == -((-n) / d),
        ;
    }
}

/// A truncated quotient of a value within `d * [-b, b]` lies within `[-b, b]`.
pub proof fn lemma_div_trunc_bound(n: int, d: int, b: int)
    requires
        d > 0,
        b >= 0,
        -d * b <= n <= d * b,
    ensures
        -b <= div_trunc(n, d) <= b,
{
    lemma_div_trunc_error(n, d);
    let q = div_trunc(n, d);
    assert(-b <= q <= b) by (nonlinear_arith)
        requires
            d > 0,
            -d < d * q - n < d,
            -d * b <= n <= d * b,
    ;
}

/// `v` held to `[-VALUE_LIMIT, VALUE_LIMIT]`.
pub fn clamp(v: i128) -> (r: i64)
    ensures
        r == clamp_value(v as int),
{
    if v > VALUE_LIMIT as i128 {
        VALUE_LIMIT
    } else if v < -(VALUE_LIMIT as i128) {
        -VALUE_LIMIT
    } else {
        v as i64
    }
}

/// Division of `n` by a positive `d`, rounding toward zero.
pub fn div_toward_zero(n: i128, d: u128) -> (r: i128)
    requires
        d > 0,
        n > i128::MIN,
    ensures
        r == div_trunc(n as int, d as int),
{
    if n >= 0 {
        let q: u128 = (n as u128) / d;
        proof {
            lemma_div_bounds(n as int, d as int);
        }
        q as i128
    } else {
        let m: u128 = (-n) as u128;
        let q: u128 = m / d;
        proof {
            lemma_div_bounds(m as int, d as int);
        }
        -(q as i128)
    }
}

/// Integer square root: the largest `r` with `r * r <= n`.
pub fn isqrt(n: u128) -> (r: u128)
    ensures
        is_root(n as int, r as int),
        r == sqrt_floor(n as int),
        r < 0x1_0000_0000_0000_0000,
{
    let mut lo: u128 = 0;
    let mut hi: u128 = 0x1_0000_0000_0000_0000;
    while hi - lo > 1
        invariant
            lo < hi <= 0x1_0000_0000_0000_0000,
            lo * lo <= n,
            n < hi * hi,
        decreases hi - lo,
    {
        let mid: u128 = lo + (hi - lo) / 2;
        assert(mid * mid < 0x1_0000_0000_0000_0000 * 0x1_0000_0000_0000_0000) by (nonlinear_arith)
            requires
                mid < 0x1_0000_0000_0000_0000,
        ;
        assert(mid * mid <= u128::MAX) by (nonlinear_arith)
            requires
                mid <= 0xffff_ffff_ffff_ffff,
        ;
        if mid * mid <= n {
            lo = mid;
        } else {
            hi = mid;
        }
    }
    assert(hi == lo + 1);
    proof {
        lemma_sqrt_floor(n as int, lo as int);
    }
    lo
}

} // verus!
