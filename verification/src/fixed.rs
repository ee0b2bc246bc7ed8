//! Fixed-point arithmetic helpers.
//!
//! Fractional quantities are carried as `i64` values scaled by [`FX_ONE`]:
//! one whole unit corresponds to `1_000_000`, so a value holds six decimal
//! digits of fraction. Division helpers round the way machine floating-point
//! conversions in the driver expect: truncation toward zero, or rounding to
//! the nearest integer with ties away from zero.

use vstd::prelude::*;

verus! {

/// One whole unit of the fixed-point encoding.
pub const FX_ONE: i64 = 1_000_000;

/// Quotient of `a / d` rounded toward zero (the machine's signed division).
pub open spec fn trunc_div(a: int, d: int) -> int {
    if a >= 0 {
        a / d
    } else {
        -((-a) / d)
    }
}

/// Quotient of `a / d` rounded to the nearest integer, ties away from zero.
pub open spec fn round_div(a: int, d: int) -> int {
    if a >= 0 {
        (2 * a + d) / (2 * d)
    } else {
        -((2 * (-a) + d) / (2 * d))
    }
}

/// Truncating division on `i64`, computed over magnitudes so that only
/// unsigned machine division is needed.
pub fn div_trunc(a: i64, d: i64) -> (q: i64)
    requires
        0 < d,
        -0x4000_0000_0000_0000 <= a <= 0x4000_0000_0000_0000,
    ensures
        q == trunc_div(a as int, d as int),
        0 <= a ==> 0 <= q <= a,
        a < 0 ==> a <= q <= 0,
{
    if a >= 0 {
        let q = (a as u64) / (d as u64);
        q as i64
    } else {
        let m = -a;
        let q = (m as u64) / (d as u64);
        -(q as i64)
    }
}

/// Rounding division on `i64`, ties away from zero.
pub fn div_round(a: i64, d: i64) -> (q: i64)
    requires
        0 < d <= 0x1000_0000_0000_0000,
        -0x1000_0000_0000_0000 <= a <= 0x1000_0000_0000_0000,
    ensures
        q == round_div(a as int, d as int),
{
    if a >= 0 {
        let q = ((2 * a + d) as u64) / ((2 * d) as u64);
        proof {
            assert(0 <= (2 * a + d) / (2 * d) <= 2 * a + d) by (nonlinear_arith)
                requires 0 < d, 0 <= a;
        }
        q as i64
    } else {
        let m = -a;
        let q = ((2 * m + d) as u64) / ((2 * d) as u64);
        proof {
            assert(0 <= (2 * m + d) / (2 * d) <= 2 * m + d) by (nonlinear_arith)
                requires 0 < d, 0 <= m;
        }
        -(q as i64)
    }
}

/// Integer square root of a double-width value: the greatest `r` with
/// `r * r <= n`.
pub fn isqrt128(n: u128) -> (r: u128)
    ensures
        r * r <= n < (r + 1) * (r + 1),
{
    let mut lo: u128 = 0;
    let mut hi: u128 = 0x1_0000_0000_0000_0000;
    proof {
        assert(hi * hi > n);
    }
    while lo + 1 < hi
        invariant
            lo < hi <= 0x1_0000_0000_0000_0000u128,
            lo * lo <= n,
            hi * hi > n,
        decreases hi - lo,
    {
        let mid = lo + (hi - lo) / 2;
        proof {
            assert(lo < mid < hi);
            assert(mid * mid < 0xFFFF_FFFF_FFFF_FFFF_FFFF_FFFF_FFFF_FFFFu128) by (nonlinear_arith)
                requires mid < 0x1_0000_0000_0000_0000u128;
        }
        if mid * mid <= n {
            lo = mid;
        } else {
            hi = mid;
        }
    }
    lo
}

/// Integer square root: the greatest `r` with `r * r <= n`.
pub fn isqrt64(n: u64) -> (r: u64)
    ensures
        r * r <= n < (r + 1) * (r + 1),
{
    let mut lo: u64 = 0;
    let mut hi: u64 = 0x1_0000_0000;
    proof {
        assert(hi * hi > n);
    }
    while lo + 1 < hi
        invariant
            lo < hi <= 0x1_0000_0000,
            lo * lo <= n,
            hi * hi > n,
        decreases hi - lo,
    {
        let mid = lo + (hi - lo) / 2;
        proof {
            assert(lo < mid < hi);
            assert(mid * mid < 0xFFFF_FFFF_FFFF_FFFF) by (nonlinear_arith)
                requires mid < 0x1_0000_0000;
        }
        if mid * mid <= n {
            lo = mid;
        } else {
            hi = mid;
        }
    }
    lo
}

} // verus!
