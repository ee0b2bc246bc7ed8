//! Fixed-point trigonometry.
//!
//! The placement formulas of the tree generator need the sine and cosine of
//! two angles: the fan angle around the parent's axis (anywhere in a full
//! turn) and the tilt away from it (a quarter turn at most). Both are
//! evaluated here as truncated Taylor polynomials over the fixed-point
//! encoding of [`crate::fixed::FX_ONE`] units per radian unit. The contracts
//! pin each result to the polynomial's exact integer value, so every caller
//! computes the same number the specification names.

use vstd::prelude::*;
use crate::fixed::FX_ONE;

verus! {

/// A quarter turn, in fixed-point radians.
pub const HALF_PI_FX: i64 = 1_570_796;

/// A half turn, in fixed-point radians.
pub const PI_FX: i64 = 3_141_593;

/// A full turn, in fixed-point radians.
pub const TWO_PI_FX: i64 = 6_283_185;

/// Largest argument the quadrant polynomials accept; slightly above a
/// quarter turn so every reduced angle fits.
pub const QUADRANT_MAX_FX: i64 = 1_600_000;

/// Taylor polynomial for sine on the first quadrant, evaluated over the
/// fixed-point encoding with truncating division at every step.
pub open spec fn sin_poly(x: int) -> int {
    let x2 = (x * x) / (FX_ONE as int);
    let x3 = (x2 * x) / (FX_ONE as int);
    let x5 = (x3 * x2) / (FX_ONE as int);
    let x7 = (x5 * x2) / (FX_ONE as int);
    let x9 = (x7 * x2) / (FX_ONE as int);
    x - x3 / 6 + x5 / 120 - x7 / 5040 + x9 / 362880
}

/// Taylor polynomial for cosine on the first quadrant.
pub open spec fn cos_poly(x: int) -> int {
    let x2 = (x * x) / (FX_ONE as int);
    let x4 = (x2 * x2) / (FX_ONE as int);
    let x6 = (x4 * x2) / (FX_ONE as int);
    let x8 = (x6 * x2) / (FX_ONE as int);
    FX_ONE - x2 / 2 + x4 / 24 - x6 / 720 + x8 / 40320
}

/// Sine over a full turn, by quadrant reduction to [`sin_poly`].
pub open spec fn sin_full(t: int) -> int {
    if t <= HALF_PI_FX {
        sin_poly(t)
    } else if t <= PI_FX {
        sin_poly(PI_FX - t)
    } else if t <= PI_FX + HALF_PI_FX {
        -sin_poly(t - PI_FX)
    } else {
        -sin_poly(TWO_PI_FX - t)
    }
}

/// Cosine over a full turn, by quadrant reduction to [`cos_poly`].
pub open spec fn cos_full(t: int) -> int {
    if t <= HALF_PI_FX {
        cos_poly(t)
    } else if t <= PI_FX {
        -cos_poly(PI_FX - t)
    } else if t <= PI_FX + HALF_PI_FX {
        -cos_poly(t - PI_FX)
    } else {
        cos_poly(TWO_PI_FX - t)
    }
}

proof fn lemma_div_le(a: int, b: int, d: int)
    requires
        0 <= a <= b,
        1 <= d,
    ensures
        0 <= a / d <= b / d,
{
    vstd::arithmetic::div_mod::lemma_div_is_ordered(a, b, d);
    vstd::arithmetic::div_mod::lemma_div_pos_is_pos(a, d);
}

/// Powers of the argument used by both quadrant polynomials, with the
/// coarse bounds the callers need for overflow reasoning.
fn poly_powers(x: i64) -> (p: (u64, u64, u64, u64, u64))
    requires
        0 <= x <= QUADRANT_MAX_FX,
    ensures
        p.0 == (x * x) / (FX_ONE as int),
        p.1 == (p.0 * x) / (FX_ONE as int),
        p.2 == (p.1 * p.0) / (FX_ONE as int),
        p.3 == (p.2 * p.0) / (FX_ONE as int),
        p.4 == (p.3 * p.0) / (FX_ONE as int),
        p.0 <= 2_560_000,
        p.1 <= 4_096_000,
        p.2 <= 10_485_760,
        p.3 <= 26_843_546,
        p.4 <= 68_719_478,
{
    let xu = x as u64;
    proof {
        assert(xu * xu <= 2_560_000_000_000) by (nonlinear_arith)
            requires xu <= 1_600_000;
        lemma_div_le(xu * xu, 2_560_000_000_000, 1_000_000);
    }
    let x2 = (xu * xu) / 1_000_000;
    proof {
        assert(x2 * xu <= 4_096_000_000_000) by (nonlinear_arith)
            requires x2 <= 2_560_000 && xu <= 1_600_000;
        lemma_div_le(x2 * xu, 4_096_000_000_000, 1_000_000);
    }
    let x3 = (x2 * xu) / 1_000_000;
    proof {
        assert(x3 * x2 <= 10_485_760_000_000) by (nonlinear_arith)
            requires x3 <= 4_096_000 && x2 <= 2_560_000;
        lemma_div_le(x3 * x2, 10_485_760_000_000, 1_000_000);
    }
    let x5 = (x3 * x2) / 1_000_000;
    proof {
        assert(x5 * x2 <= 26_843_545_600_000) by (nonlinear_arith)
            requires x5 <= 10_485_760 && x2 <= 2_560_000;
        lemma_div_le(x5 * x2, 26_843_545_600_000, 1_000_000);
    }
    let x7 = (x5 * x2) / 1_000_000;
    proof {
        assert(x7 * x2 <= 68_719_477_760_000) by (nonlinear_arith)
            requires x7 <= 26_843_546 && x2 <= 2_560_000;
        lemma_div_le(x7 * x2, 68_719_477_760_000, 1_000_000);
    }
    let x9 = (x7 * x2) / 1_000_000;
    (x2, x3, x5, x7, x9)
}

/// Sine on the first quadrant: exactly the value of [`sin_poly`].
pub fn sin_quadrant(x: i64) -> (r: i64)
    requires
        0 <= x <= QUADRANT_MAX_FX,
    ensures
        r == sin_poly(x as int),
        -8_000_000 <= r <= 8_000_000,
{
    let (x2, x3, x5, x7, x9) = poly_powers(x);
    proof {
        lemma_div_le(x3 as int, 4_096_000, 6);
        lemma_div_le(x5 as int, 10_485_760, 120);
        lemma_div_le(x7 as int, 26_843_546, 5040);
        lemma_div_le(x9 as int, 68_719_478, 362880);
    }
    let t1 = (x3 / 6) as i64;
    let t2 = (x5 / 120) as i64;
    let t3 = (x7 / 5040) as i64;
    let t4 = (x9 / 362880) as i64;
    x - t1 + t2 - t3 + t4
}

/// Cosine on the first quadrant: exactly the value of [`cos_poly`].
pub fn cos_quadrant(x: i64) -> (r: i64)
    requires
        0 <= x <= QUADRANT_MAX_FX,
    ensures
        r == cos_poly(x as int),
        -8_000_000 <= r <= 8_000_000,
{
    let xu = x as u64;
    proof {
        assert(xu * xu <= 2_560_000_000_000) by (nonlinear_arith)
            requires xu <= 1_600_000;
        lemma_div_le(xu * xu, 2_560_000_000_000, 1_000_000);
    }
    let x2 = (xu * xu) / 1_000_000;
    proof {
        assert(x2 * x2 <= 6_553_600_000_000) by (nonlinear_arith)
            requires x2 <= 2_560_000;
        lemma_div_le(x2 * x2, 6_553_600_000_000, 1_000_000);
    }
    let x4 = (x2 * x2) / 1_000_000;
    proof {
        assert(x4 * x2 <= 16_777_216_000_000) by (nonlinear_arith)
            requires x4 <= 6_553_600 && x2 <= 2_560_000;
        lemma_div_le(x4 * x2, 16_777_216_000_000, 1_000_000);
    }
    let x6 = (x4 * x2) / 1_000_000;
    proof {
        assert(x6 * x2 <= 42_949_672_960_000) by (nonlinear_arith)
            requires x6 <= 16_777_216 && x2 <= 2_560_000;
        lemma_div_le(x6 * x2, 42_949_672_960_000, 1_000_000);
    }
    let x8 = (x6 * x2) / 1_000_000;
    proof {
        lemma_div_le(x2 as int, 2_560_000, 2);
        lemma_div_le(x4 as int, 6_553_600, 24);
        lemma_div_le(x6 as int, 16_777_216, 720);
        lemma_div_le(x8 as int, 42_949_673, 40320);
    }
    let t1 = (x2 / 2) as i64;
    let t2 = (x4 / 24) as i64;
    let t3 = (x6 / 720) as i64;
    let t4 = (x8 / 40320) as i64;
    FX_ONE - t1 + t2 - t3 + t4
}

/// Sine of an angle anywhere in the first full turn.
pub fn sin_fx(t: i64) -> (r: i64)
    requires
        0 <= t < TWO_PI_FX,
    ensures
        r == sin_full(t as int),
        -8_000_000 <= r <= 8_000_000,
{
    if t <= HALF_PI_FX {
        sin_quadrant(t)
    } else if t <= PI_FX {
        sin_quadrant(PI_FX - t)
    } else if t <= PI_FX + HALF_PI_FX {
        -sin_quadrant(t - PI_FX)
    } else {
        -sin_quadrant(TWO_PI_FX - t)
    }
}

/// Cosine of an angle anywhere in the first full turn.
pub fn cos_fx(t: i64) -> (r: i64)
    requires
        0 <= t < TWO_PI_FX,
    ensures
        r == cos_full(t as int),
        -8_000_000 <= r <= 8_000_000,
{
    if t <= HALF_PI_FX {
        cos_quadrant(t)
    } else if t <= PI_FX {
        -cos_quadrant(PI_FX - t)
    } else if t <= PI_FX + HALF_PI_FX {
        -cos_quadrant(t - PI_FX)
    } else {
        cos_quadrant(TWO_PI_FX - t)
    }
}

} // verus!
