//! The bounded parameter space of a tree shape, and a smooth random walk
//! over it.
//!
//! A [`Params`] record holds the seven human-meaningful shape fields, each
//! confined to its own closed interval. A [`ParamsVector`] is the same point
//! of parameter space written as seven components normalized to one
//! fixed-point unit per half-interval: a component of `-FX_ONE` sits at a
//! field's lower bound, `FX_ONE` at its upper bound. A vector with a
//! magnitude is a velocity (it is renormalized to that Euclidean length);
//! one without is a position (it is clamped componentwise, and clamping
//! reflects the velocity that pushed it past a wall).

use vstd::prelude::*;
use crate::fixed::{FX_ONE, trunc_div, round_div, div_trunc, div_round, isqrt128, isqrt64};

verus! {

/// Number of fields of a parameter record, and of components of a vector.
pub const NUM_PARAMS: usize = 7;

/// Fewest branches spawned per node.
pub const CHILDREN_MIN: u8 = 3;

/// Most branches spawned per node.
pub const CHILDREN_MAX: u8 = 6;

/// Shallowest recursion depth.
pub const LEVELS_MIN: u8 = 2;

/// Deepest recursion depth.
pub const LEVELS_MAX: u8 = 5;

/// Lower bound of the child-spacing blend factor.
pub const TRANSLATION_FACTOR_MIN: i64 = 0;

/// Upper bound of the child-spacing blend factor (one whole unit).
pub const TRANSLATION_FACTOR_MAX: i64 = 1_000_000;

/// Lower bound of the deviation angle from the parent branch.
pub const ANGLE_MIN: i64 = 0;

/// Upper bound of the deviation angle: a quarter turn in fixed-point radians.
pub const ANGLE_MAX: i64 = 1_570_796;

/// Lower bound of the per-level size multiplier.
pub const SCALE_MIN: i64 = 400_000;

/// Upper bound of the per-level size multiplier.
pub const SCALE_MAX: i64 = 800_000;

/// Lower bound of the branch radius.
pub const BASE_RADIUS_MIN: i64 = 100_000;

/// Upper bound of the branch radius.
pub const BASE_RADIUS_MAX: i64 = 300_000;

/// Lower bound of the leaf radius.
pub const LEAF_RADIUS_MIN: i64 = 100_000;

/// Upper bound of the leaf radius.
pub const LEAF_RADIUS_MAX: i64 = 500_000;

/// Euclidean length every velocity vector is kept at.
pub const PARAMS_VELOCITY_MAG: i64 = 500_000;

/// Euclidean length each random acceleration is scaled to.
pub const PARAMS_ACCELERATION_MAG: i64 = 50_000;

/// Largest component magnitude the vector operations accept; far outside
/// the nominal interval, this only keeps the fixed-point products inside
/// `i64`.
pub const MAX_COMPONENT: i64 = 1_000_000_000_000;

/// Largest field magnitude the inverse remap accepts: a machine limit
/// chosen so that every component it produces stays within
/// [`MAX_COMPONENT`] and can be remapped back.
pub const MAX_FIELD: i64 = 99_000_000_000;

/// Guard-digit factor renormalization computes with: components and the
/// length are both scaled by this power of two before the ratio is taken,
/// so even a vector only a few units long is rescaled to its target
/// magnitude precisely.
pub const NORM_SCALE: i64 = 1_048_576;

/// The bounded, human-facing description of one tree shape. Fractional
/// fields are fixed-point values scaled by [`FX_ONE`].
#[derive(Clone, Copy, Debug, PartialEq, Eq)]
pub struct Params {
    /// Branches spawned per node; the generator needs more than one.
    pub children: u8,
    /// Recursion depth; the generator needs at least one level.
    pub levels: u8,
    /// Blends child spacing along the parent axis, in `[0, FX_ONE]`.
    pub child_translation_factor: i64,
    /// Deviation angle of children from the parent axis, in `[0, ANGLE_MAX]`.
    pub angle_from_parent_branch: i64,
    /// Size multiplier applied per level, in `[SCALE_MIN, SCALE_MAX]`.
    pub child_scale: i64,
    /// Branch radius, in `[BASE_RADIUS_MIN, BASE_RADIUS_MAX]`.
    pub base_radius: i64,
    /// Leaf radius, in `[LEAF_RADIUS_MIN, LEAF_RADIUS_MAX]`.
    pub leaf_radius: i64,
}

impl Params {
    /// Every field lies within its closed bound interval.
    pub open spec fn in_bounds(self) -> bool {
        &&& CHILDREN_MIN <= self.children <= CHILDREN_MAX
        &&& LEVELS_MIN <= self.levels <= LEVELS_MAX
        &&& TRANSLATION_FACTOR_MIN <= self.child_translation_factor <= TRANSLATION_FACTOR_MAX
        &&& ANGLE_MIN <= self.angle_from_parent_branch <= ANGLE_MAX
        &&& SCALE_MIN <= self.child_scale <= SCALE_MAX
        &&& BASE_RADIUS_MIN <= self.base_radius <= BASE_RADIUS_MAX
        &&& LEAF_RADIUS_MIN <= self.leaf_radius <= LEAF_RADIUS_MAX
    }

    /// The five fractional fields lie within their intervals; the integer
    /// fields are unrestricted. This is all the placement arithmetic of
    /// the generator needs.
    pub open spec fn fields_in_bounds(self) -> bool {
        &&& TRANSLATION_FACTOR_MIN <= self.child_translation_factor <= TRANSLATION_FACTOR_MAX
        &&& ANGLE_MIN <= self.angle_from_parent_branch <= ANGLE_MAX
        &&& SCALE_MIN <= self.child_scale <= SCALE_MAX
        &&& BASE_RADIUS_MIN <= self.base_radius <= BASE_RADIUS_MAX
        &&& LEAF_RADIUS_MIN <= self.leaf_radius <= LEAF_RADIUS_MAX
    }

    /// The fractional fields stray at most one whole unit outside their
    /// intervals; integer fields are unrestricted. Wide enough for every
    /// record the library hands out, tight enough for the remap arithmetic.
    pub open spec fn near_bounds(self) -> bool {
        &&& TRANSLATION_FACTOR_MIN - FX_ONE <= self.child_translation_factor
            <= TRANSLATION_FACTOR_MAX + FX_ONE
        &&& ANGLE_MIN - FX_ONE <= self.angle_from_parent_branch <= ANGLE_MAX + FX_ONE
        &&& SCALE_MIN - FX_ONE <= self.child_scale <= SCALE_MAX + FX_ONE
        &&& BASE_RADIUS_MIN - FX_ONE <= self.base_radius <= BASE_RADIUS_MAX + FX_ONE
        &&& LEAF_RADIUS_MIN - FX_ONE <= self.leaf_radius <= LEAF_RADIUS_MAX + FX_ONE
    }
}

impl Default for Params {
    /// The starting record: a three-way fork, one level deep, fully spread,
    /// tilted a quarter turn.
    fn default() -> (d: Self)
        ensures
            d.children == 3,
            d.levels == 1,
            d.child_translation_factor == FX_ONE,
            d.angle_from_parent_branch == ANGLE_MAX,
            d.child_scale == 700_000,
            d.base_radius == 150_000,
            d.leaf_radius == 400_000,
    {
        Params {
            children: 3,
            levels: 1,
            child_translation_factor: FX_ONE,
            angle_from_parent_branch: ANGLE_MAX,
            child_scale: 700_000,
            base_radius: 150_000,
            leaf_radius: 400_000,
        }
    }
}

/// A point or a velocity of the normalized parameter space, used to
/// randomly walk the space of tree shapes.
#[derive(Clone, Copy, Debug, PartialEq, Eq)]
pub struct ParamsVector {
    /// One component per parameter field, nominally in `[-FX_ONE, FX_ONE]`.
    pub values: [i64; NUM_PARAMS],
    /// `Some(mag)` makes this a velocity of Euclidean length `mag`;
    /// `None` makes it a position, clamped instead of renormalized.
    pub magnitude: Option<i64>,
}

impl Default for ParamsVector {
    /// The starting velocity: at rest, with the standard walking speed.
    fn default() -> (d: Self)
        ensures
            d.magnitude == Some(PARAMS_VELOCITY_MAG),
            forall|i: int| 0 <= i < NUM_PARAMS ==> #[trigger] d.values[i] == 0,
    {
        ParamsVector { values: [0, 0, 0, 0, 0, 0, 0], magnitude: Some(PARAMS_VELOCITY_MAG) }
    }
}

/// The components of a sequence of machine integers, as mathematical
/// integers.
pub open spec fn to_ints(s: Seq<i64>) -> Seq<int> {
    Seq::new(s.len(), |i: int| s[i] as int)
}

/// Clamp a component to the nominal interval.
pub open spec fn clamp_fx(x: int) -> int {
    if x < -FX_ONE {
        -(FX_ONE as int)
    } else if x > FX_ONE {
        FX_ONE as int
    } else {
        x
    }
}

/// A position component pushed past a wall by this velocity component.
pub open spec fn reflects(x: int, y: int) -> bool {
    x + y < -FX_ONE || x + y > FX_ONE
}

/// Saturate to the range of `u8`, as a narrowing machine conversion would.
pub open spec fn saturate_u8(x: int) -> int {
    if x < 0 {
        0
    } else if x > 255 {
        255
    } else {
        x
    }
}

/// Remap a component from the nominal interval to a field's interval,
/// truncating: `(hi - lo) * (c + FX_ONE) / (2 * FX_ONE) + lo`.
pub open spec fn axis_to_value(c: int, lo: int, hi: int) -> int {
    trunc_div((hi - lo) * (c + FX_ONE), 2 * (FX_ONE as int)) + lo
}

/// Remap a component to an integer-counted field's interval, rounding to
/// the nearest count.
pub open spec fn axis_to_count(c: int, lo: int, hi: int) -> int {
    round_div((hi - lo) * (c + FX_ONE), 2 * (FX_ONE as int)) + lo
}

/// The exact inverse remap: field value to component,
/// `2 * FX_ONE * (v - lo) / (hi - lo) - FX_ONE`.
pub open spec fn axis_from_value(v: int, lo: int, hi: int) -> int {
    trunc_div(2 * (FX_ONE as int) * (v - lo), hi - lo) - FX_ONE
}

/// The record a position vector denotes: each axis remapped to its field's
/// interval, the two integer fields rounded to the nearest count.
pub open spec fn to_params_model(v: Seq<int>) -> Params {
    Params {
        children: saturate_u8(axis_to_count(v[0], CHILDREN_MIN as int, CHILDREN_MAX as int)) as u8,
        levels: saturate_u8(axis_to_count(v[1], LEVELS_MIN as int, LEVELS_MAX as int)) as u8,
        child_translation_factor: axis_to_value(
            v[2],
            TRANSLATION_FACTOR_MIN as int,
            TRANSLATION_FACTOR_MAX as int,
        ) as i64,
        angle_from_parent_branch: axis_to_value(v[3], ANGLE_MIN as int, ANGLE_MAX as int) as i64,
        child_scale: axis_to_value(v[4], SCALE_MIN as int, SCALE_MAX as int) as i64,
        base_radius: axis_to_value(v[5], BASE_RADIUS_MIN as int, BASE_RADIUS_MAX as int) as i64,
        leaf_radius: axis_to_value(v[6], LEAF_RADIUS_MIN as int, LEAF_RADIUS_MAX as int) as i64,
    }
}

/// The position vector a record denotes: each field remapped to the
/// nominal interval by the exact inverse affine map.
pub open spec fn from_params_model(p: Params) -> Seq<int> {
    seq![
        axis_from_value(p.children as int, CHILDREN_MIN as int, CHILDREN_MAX as int),
        axis_from_value(p.levels as int, LEVELS_MIN as int, LEVELS_MAX as int),
        axis_from_value(
            p.child_translation_factor as int,
            TRANSLATION_FACTOR_MIN as int,
            TRANSLATION_FACTOR_MAX as int,
        ),
        axis_from_value(p.angle_from_parent_branch as int, ANGLE_MIN as int, ANGLE_MAX as int),
        axis_from_value(p.child_scale as int, SCALE_MIN as int, SCALE_MAX as int),
        axis_from_value(p.base_radius as int, BASE_RADIUS_MIN as int, BASE_RADIUS_MAX as int),
        axis_from_value(p.leaf_radius as int, LEAF_RADIUS_MIN as int, LEAF_RADIUS_MAX as int),
    ]
}

/// Sum of the squares of a sequence of components.
pub open spec fn sq_sum(s: Seq<int>) -> int
    decreases s.len(),
{
    if s.len() == 0 {
        0
    } else {
        sq_sum(s.drop_last()) + s.last() * s.last()
    }
}

/// Every component is zero.
pub open spec fn all_zero(s: Seq<int>) -> bool {
    forall|i: int| 0 <= i < s.len() ==> s[i] == 0
}

/// `r` is the integer square root of `n`, rounded down.
pub open spec fn is_sqrt_floor(r: int, n: int) -> bool {
    0 <= r && r * r <= n && n < (r + 1) * (r + 1)
}

/// The integer square root of `n`, rounded down.
pub open spec fn sqrt_floor(n: int) -> int {
    choose|r: int| is_sqrt_floor(r, n)
}

/// Componentwise sum of two vectors of equal length.
pub open spec fn seq_add(a: Seq<int>, b: Seq<int>) -> Seq<int> {
    Seq::new(a.len(), |i: int| a[i] + b[i])
}

/// A vector rescaled so its Euclidean length is `m`: each component is
/// multiplied by `m` and by the guard-digit factor, then divided
/// (truncating) by the rounded-down length of the correspondingly scaled
/// vector. The guard digits keep the ratio precise even when the vector
/// is only a few units long.
pub open spec fn scale_to(s: Seq<int>, m: int) -> Seq<int> {
    let len = sqrt_floor(NORM_SCALE * NORM_SCALE * sq_sum(s));
    Seq::new(s.len(), |i: int| trunc_div(s[i] * NORM_SCALE * m, len))
}

/// One random-walk step of a velocity `v` of magnitude `m`, driven by the
/// raw acceleration draw `acc`: the draw is scaled to the acceleration
/// magnitude, added in, and the sum is rescaled back to `m`. A degenerate
/// all-zero draw leaves the velocity unchanged, and a sum that cancels to
/// zero exactly stays the zero vector.
pub open spec fn nudge_result(v: Seq<int>, m: int, acc: Seq<int>) -> Seq<int> {
    if all_zero(acc) {
        v
    } else {
        let sum = seq_add(v, scale_to(acc, PARAMS_ACCELERATION_MAG as int));
        if all_zero(sum) {
            sum
        } else {
            scale_to(sum, m)
        }
    }
}

/// A position vector after a velocity is added with clamping at the walls.
pub open spec fn add_result(pos: Seq<int>, v: Seq<int>) -> Seq<int> {
    Seq::new(pos.len(), |i: int| clamp_fx(pos[i] + v[i]))
}

/// A velocity after the walls it pushed the position past have reflected
/// the offending components.
pub open spec fn reflect_result(pos: Seq<int>, v: Seq<int>) -> Seq<int> {
    Seq::new(v.len(), |i: int| if reflects(pos[i], v[i]) { -v[i] } else { v[i] })
}

impl ParamsVector {
    /// The components as mathematical integers.
    pub open spec fn vals(self) -> Seq<int> {
        to_ints(self.values@)
    }

    /// Every component has magnitude at most `b`.
    pub open spec fn bounded(self, b: int) -> bool {
        forall|i: int| 0 <= i < NUM_PARAMS ==> -b <= #[trigger] self.values[i] <= b
    }
}

/// Every nonnegative integer has a rounded-down square root.
pub proof fn lemma_sqrt_floor_exists(n: int)
    requires
        0 <= n,
    ensures
        is_sqrt_floor(sqrt_floor(n), n),
    decreases n,
{
    if n == 0 {
        assert(is_sqrt_floor(0, 0));
    } else {
        lemma_sqrt_floor_exists(n - 1);
        let r = sqrt_floor(n - 1);
        if n < (r + 1) * (r + 1) {
            assert(is_sqrt_floor(r, n));
        } else {
            assert(n == (r + 1) * (r + 1));
            assert((r + 1) * (r + 1) < (r + 2) * (r + 2)) by (nonlinear_arith)
                requires r >= 0;
            assert(is_sqrt_floor(r + 1, n));
        }
    }
}

/// The rounded-down square root is unique.
pub proof fn lemma_sqrt_floor_unique(a: int, b: int, n: int)
    requires
        is_sqrt_floor(a, n),
        is_sqrt_floor(b, n),
    ensures
        a == b,
{
    if a < b {
        assert((a + 1) * (a + 1) <= b * b) by (nonlinear_arith)
            requires 0 <= a, a < b;
    }
    if b < a {
        assert((b + 1) * (b + 1) <= a * a) by (nonlinear_arith)
            requires 0 <= b, b < a;
    }
}

/// A sum of squares is nonnegative.
pub proof fn lemma_sq_sum_nonneg(s: Seq<int>)
    ensures
        0 <= sq_sum(s),
    decreases s.len(),
{
    if s.len() > 0 {
        lemma_sq_sum_nonneg(s.drop_last());
        assert(0 <= s.last() * s.last()) by (nonlinear_arith);
    }
}

/// A sum of squares vanishes exactly on the zero vector.
pub proof fn lemma_sq_sum_zero(s: Seq<int>)
    ensures
        sq_sum(s) == 0 <==> all_zero(s),
    decreases s.len(),
{
    if s.len() == 0 {
        assert(all_zero(s));
    } else {
        lemma_sq_sum_zero(s.drop_last());
        lemma_sq_sum_nonneg(s.drop_last());
        assert(0 <= s.last() * s.last() && (s.last() * s.last() == 0 <==> s.last() == 0))
            by (nonlinear_arith);
        if sq_sum(s) == 0 {
            assert forall|i: int| 0 <= i < s.len() implies s[i] == 0 by {
                if i < s.len() - 1 {
                    assert(s.drop_last()[i] == 0);
                }
            }
        } else {
            if all_zero(s) {
                assert forall|i: int| 0 <= i < s.drop_last().len() implies s.drop_last()[i]
                    == 0 by {
                    assert(s[i] == 0);
                }
                assert(s.last() == 0);
            }
        }
    }
}

/// Growing a prefix by one element grows its sum of squares by that
/// element's square.
proof fn lemma_sq_sum_take_step(s: Seq<int>, i: int)
    requires
        0 <= i < s.len(),
    ensures
        sq_sum(s.take(i + 1)) == sq_sum(s.take(i)) + s[i] * s[i],
{
    assert(s.take(i + 1).drop_last() =~= s.take(i));
    assert(s.take(i + 1).last() == s[i]);
}

/// No component's square exceeds the whole sum of squares.
proof fn lemma_elem_sq_le_sum(s: Seq<int>, i: int)
    requires
        0 <= i < s.len(),
    ensures
        s[i] * s[i] <= sq_sum(s),
    decreases s.len(),
{
    lemma_sq_sum_nonneg(s.drop_last());
    assert(0 <= s.last() * s.last()) by (nonlinear_arith);
    if i == s.len() - 1 {
        assert(s[i] == s.last());
    } else {
        lemma_elem_sq_le_sum(s.drop_last(), i);
        assert(s.drop_last()[i] == s[i]);
    }
}

proof fn lemma_div_le_both(a: int, b: int, d: int)
    requires
        0 <= a <= b,
        1 <= d,
    ensures
        0 <= a / d <= b / d,
{
    vstd::arithmetic::div_mod::lemma_div_is_ordered(a, b, d);
    vstd::arithmetic::div_mod::lemma_div_pos_is_pos(a, d);
}

/// The forward remap keeps an in-interval component inside the field's
/// interval.
proof fn lemma_axis_to_value_bounds(c: int, lo: int, hi: int)
    requires
        -FX_ONE <= c <= FX_ONE,
        lo < hi,
        hi - lo <= 2 * FX_ONE,
    ensures
        lo <= axis_to_value(c, lo, hi) <= hi,
{
    let d = hi - lo;
    let u2 = 2 * (FX_ONE as int);
    let a = d * (c + FX_ONE);
    assert(0 <= a <= d * u2) by (nonlinear_arith)
        requires a == d * (c + FX_ONE), 0 <= c + FX_ONE <= u2, 0 < d;
    lemma_div_le_both(a, d * u2, u2);
    vstd::arithmetic::div_mod::lemma_div_multiples_vanish(d, u2);
    assert(d * u2 == u2 * d) by (nonlinear_arith);
    assert((d * u2) / u2 == d);
}

/// The forward remap with rounding keeps an in-interval component inside
/// an integer-counted field's interval.
proof fn lemma_axis_to_count_bounds(c: int, lo: int, hi: int)
    requires
        -FX_ONE <= c <= FX_ONE,
        lo < hi,
        hi - lo <= 4,
    ensures
        lo <= axis_to_count(c, lo, hi) <= hi,
{
    let d = hi - lo;
    let u2 = 2 * (FX_ONE as int);
    let a = d * (c + FX_ONE);
    assert(0 <= a <= d * u2) by (nonlinear_arith)
        requires a == d * (c + FX_ONE), 0 <= c + FX_ONE <= u2, 0 < d;
    lemma_div_le_both(2 * a + u2, 2 * (d * u2) + u2, 2 * u2);
    assert(2 * (d * u2) + u2 == (2 * u2) * d + u2) by (nonlinear_arith);
    vstd::arithmetic::div_mod::lemma_div_multiples_vanish_fancy(d, u2, 2 * u2);
}

/// The inverse remap sends an in-interval field value to an in-interval
/// component.
proof fn lemma_axis_from_value_bounds(v: int, lo: int, hi: int)
    requires
        lo <= v <= hi,
        lo < hi,
    ensures
        -FX_ONE <= axis_from_value(v, lo, hi) <= FX_ONE,
{
    let d = hi - lo;
    let u2 = 2 * (FX_ONE as int);
    let a = u2 * (v - lo);
    assert(0 <= a <= u2 * d) by (nonlinear_arith)
        requires a == u2 * (v - lo), 0 <= v - lo <= d, 0 < u2;
    lemma_div_le_both(a, u2 * d, d);
    vstd::arithmetic::div_mod::lemma_div_multiples_vanish(u2, d);
    assert(u2 * d == d * u2) by (nonlinear_arith);
    assert((d * u2) / d == u2);
}

/// Round trip of one fractional axis: remapping a field value to the
/// nominal interval and back loses at most one fixed-point unit, downward.
proof fn lemma_axis_round_trip(v: int, lo: int, hi: int)
    requires
        lo <= v <= hi,
        0 < hi - lo <= 2 * FX_ONE,
    ensures
        v - 1 <= axis_to_value(axis_from_value(v, lo, hi), lo, hi) <= v,
{
    let d = hi - lo;
    let u2 = 2 * (FX_ONE as int);
    let v0 = v - lo;
    let a = u2 * v0;
    assert(0 <= a) by (nonlinear_arith)
        requires a == u2 * v0, 0 <= v0, 0 < u2;
    let q = a / d;
    vstd::arithmetic::div_mod::lemma_div_pos_is_pos(a, d);
    assert(axis_from_value(v, lo, hi) == q - FX_ONE);
    let b = d * q;
    assert(0 <= b) by (nonlinear_arith)
        requires b == d * q, 0 <= q, 0 < d;
    assert(axis_to_value(q - FX_ONE, lo, hi) == b / u2 + lo);
    vstd::arithmetic::div_mod::lemma_fundamental_div_mod(a, d);
    let r = a % d;
    assert(a == d * q + r);
    assert(0 <= r < d) by {
        vstd::arithmetic::div_mod::lemma_mod_division_less_than_divisor(a, d);
    }
    if r == 0 {
        assert(b == u2 * v0);
        vstd::arithmetic::div_mod::lemma_div_multiples_vanish(v0, u2);
        assert(b / u2 == v0);
    } else {
        assert(b == u2 * v0 - r);
        assert(b == u2 * (v0 - 1) + (u2 - r)) by (nonlinear_arith)
            requires b == u2 * v0 - r, u2 == 2 * (FX_ONE as int);
        assert(0 <= u2 - r < u2);
        vstd::arithmetic::div_mod::lemma_div_multiples_vanish_fancy(v0 - 1, u2 - r, u2);
        assert(b / u2 == v0 - 1);
    }
}

/// Round trip of an integer-counted axis with four counts: rounding to the
/// nearest count recovers the count exactly.
proof fn lemma_count_round_trip(v: int, lo: int)
    requires
        lo <= v <= lo + 3,
    ensures
        axis_to_count(axis_from_value(v, lo, lo + 3), lo, lo + 3) == v,
{
    let k = v - lo;
    let u2 = 2 * (FX_ONE as int);
    let q = (u2 * k) / 3;
    assert(axis_from_value(v, lo, lo + 3) == q - FX_ONE);
    assert(axis_to_count(q - FX_ONE, lo, lo + 3) == (2 * (3 * q) + u2) / (2 * u2) + lo);
    assert(2 * u2 == 4000000);
    if k == 0 {
        assert(u2 * k == 0);
        assert(q == 0);
        assert(2 * (3 * q) + u2 == 2000000);
        assert(2000000int / 4000000int == 0);
    } else if k == 1 {
        assert(u2 * k == 2000000);
        assert(q == 666666);
        assert(2 * (3 * q) + u2 == 5999996);
        assert(5999996int / 4000000int == 1);
    } else if k == 2 {
        assert(u2 * k == 4000000);
        assert(q == 1333333);
        assert(2 * (3 * q) + u2 == 9999998);
        assert(9999998int / 4000000int == 2);
    } else {
        assert(k == 3);
        assert(u2 * k == 6000000);
        assert(q == 2000000);
        assert(2 * (3 * q) + u2 == 14000000);
        assert(14000000int / 4000000int == 3);
    }
}

/// Magnitude bound under which every component survives the remap
/// arithmetic without overflowing a machine word.
pub const VECTOR_LIMIT: i64 = 0x2000_0000_0000_0000;

/// A value within a square root's reach is bounded by the root.
proof fn lemma_abs_le_sqrt(v: int, l2: int, len: int)
    requires
        is_sqrt_floor(len, l2),
        v * v <= l2,
    ensures
        -len <= v <= len,
{
    if v > len {
        assert((len + 1) * (len + 1) <= v * v) by (nonlinear_arith)
            requires 0 <= len, len + 1 <= v;
    }
    if v < -len {
        assert((len + 1) * (len + 1) <= v * v) by (nonlinear_arith)
            requires 0 <= len, len + 1 <= -v;
    }
}

/// Scaling a component no larger than the length keeps it within the
/// target magnitude.
proof fn lemma_scale_bound(v: int, m: int, len: int)
    requires
        1 <= len,
        0 < m,
        -len <= v <= len,
    ensures
        -m <= trunc_div(v * m, len) <= m,
{
    vstd::arithmetic::div_mod::lemma_div_multiples_vanish(m, len);
    assert((len * m) / len == m);
    if v >= 0 {
        assert(0 <= v * m <= len * m) by (nonlinear_arith)
            requires 0 <= v <= len, 0 < m;
        lemma_div_le_both(v * m, len * m, len);
    } else {
        let w = -v;
        assert(0 <= w * m <= len * m) by (nonlinear_arith)
            requires 0 <= w <= len, 0 < m;
        lemma_div_le_both(w * m, len * m, len);
        assert(v * m == -(w * m)) by (nonlinear_arith)
            requires w == -v;
    }
}

/// A truncating quotient is bounded by the quotient of a bound on the
/// numerator.
proof fn lemma_trunc_div_le(a: int, cap: int, d: int)
    requires
        -cap <= a <= cap,
        0 <= cap,
        1 <= d,
    ensures
        -(cap / d) <= trunc_div(a, d) <= cap / d,
{
    if a >= 0 {
        lemma_div_le_both(a, cap, d);
    } else {
        lemma_div_le_both(-a, cap, d);
    }
}

/// The remainder a truncating division drops is smaller than the divisor
/// in magnitude.
proof fn lemma_trunc_div_err(a: int, d: int)
    requires
        1 <= d,
    ensures
        -d < a - d * trunc_div(a, d) < d,
{
    if a >= 0 {
        vstd::arithmetic::div_mod::lemma_fundamental_div_mod(a, d);
        vstd::arithmetic::div_mod::lemma_mod_division_less_than_divisor(a, d);
    } else {
        let w = -a;
        vstd::arithmetic::div_mod::lemma_fundamental_div_mod(w, d);
        vstd::arithmetic::div_mod::lemma_mod_division_less_than_divisor(w, d);
        let q = w / d;
        assert(trunc_div(a, d) == -q);
        assert(d * (-q) == -(d * q)) by (nonlinear_arith);
    }
}

/// How far the square of one rescaled component strays from the exact
/// ratio, scaled through by the square of the length.
proof fn lemma_scaled_sq_err(v: int, d: int, m: int)
    requires
        1 <= d,
        0 < m,
        -d <= v <= d,
    ensures
        ({
            let r = trunc_div(v * m, d);
            -(2 * (d * d) * m + d * d) <= (d * d) * (r * r) - (v * m) * (v * m)
                && (d * d) * (r * r) - (v * m) * (v * m) <= 2 * (d * d) * m + d * d
        }),
{
    let a = v * m;
    lemma_trunc_div_err(a, d);
    let r = trunc_div(a, d);
    let e = a - d * r;
    assert(-(d * m) <= a <= d * m) by (nonlinear_arith)
        requires a == v * m, -d <= v <= d, 0 < m;
    assert((d * d) * (r * r) == (a - e) * (a - e)) by (nonlinear_arith)
        requires e == a - d * r;
    assert((a - e) * (a - e) == a * a - 2 * (a * e) + e * e) by (nonlinear_arith);
    assert(-(2 * (d * d) * m) <= -(2 * (a * e)) <= 2 * (d * d) * m) by (nonlinear_arith)
        requires -(d * m) <= a <= d * m, -d < e < d, 1 <= d, 0 < m;
    assert(0 <= e * e <= d * d) by (nonlinear_arith)
        requires -d < e < d;
}

/// Components of a vector rescaled by `m / d`.
spec fn scaled_seq(s: Seq<int>, m: int, d: int) -> Seq<int> {
    Seq::new(s.len(), |i: int| trunc_div(s[i] * m, d))
}

/// Summed over a whole vector, the squared length of the rescaled vector
/// stays within one error block per component of the exact ratio.
proof fn lemma_scaled_seq_sq_sum(s: Seq<int>, m: int, d: int)
    requires
        1 <= d,
        0 < m,
        forall|i: int| 0 <= i < s.len() ==> -d <= #[trigger] s[i] <= d,
    ensures
        -((s.len() as int) * (2 * (d * d) * m + d * d)) <= (d * d) * sq_sum(scaled_seq(s, m, d))
            - (m * m) * sq_sum(s),
        (d * d) * sq_sum(scaled_seq(s, m, d)) - (m * m) * sq_sum(s) <= (s.len() as int) * (2 * (d
            * d) * m + d * d),
    decreases s.len(),
{
    let x = 2 * (d * d) * m + d * d;
    if s.len() == 0 {
        assert(scaled_seq(s, m, d) =~= Seq::<int>::empty());
        assert(0 * x == 0) by (nonlinear_arith);
    } else {
        let s0 = s.drop_last();
        let n = s.len() as int;
        let l = s.last();
        assert forall|i: int| 0 <= i < s0.len() implies -d <= #[trigger] s0[i] <= d by {
            assert(s0[i] == s[i]);
        }
        lemma_scaled_seq_sq_sum(s0, m, d);
        assert(scaled_seq(s, m, d).drop_last() =~= scaled_seq(s0, m, d));
        let r = trunc_div(l * m, d);
        assert(scaled_seq(s, m, d).last() == r);
        assert(sq_sum(scaled_seq(s, m, d)) == sq_sum(scaled_seq(s0, m, d)) + r * r);
        assert(sq_sum(s) == sq_sum(s0) + l * l);
        lemma_scaled_sq_err(l, d, m);
        assert((d * d) * (sq_sum(scaled_seq(s0, m, d)) + r * r) == (d * d) * sq_sum(
            scaled_seq(s0, m, d),
        ) + (d * d) * (r * r)) by (nonlinear_arith);
        assert((m * m) * (sq_sum(s0) + l * l) == (m * m) * sq_sum(s0) + (m * m) * (l * l))
            by (nonlinear_arith);
        assert((l * m) * (l * m) == (m * m) * (l * l)) by (nonlinear_arith);
        assert(n * x == (n - 1) * x + x) by (nonlinear_arith);
    }
}

/// Scaling every component by `k` scales the sum of squares by `k * k`.
proof fn lemma_sq_sum_scale(s: Seq<int>, k: int)
    ensures
        sq_sum(Seq::new(s.len(), |i: int| k * s[i])) == k * k * sq_sum(s),
    decreases s.len(),
{
    let sk = Seq::new(s.len(), |i: int| k * s[i]);
    if s.len() == 0 {
        assert(sk =~= Seq::<int>::empty());
        assert(k * k * 0 == 0) by (nonlinear_arith);
    } else {
        let s0 = s.drop_last();
        lemma_sq_sum_scale(s0, k);
        assert(sk.drop_last() =~= Seq::new(s0.len(), |i: int| k * s0[i]));
        assert(sk.last() == k * s.last());
        assert((k * s.last()) * (k * s.last()) == k * k * (s.last() * s.last()))
            by (nonlinear_arith);
        assert(k * k * (sq_sum(s0) + s.last() * s.last()) == k * k * sq_sum(s0) + k * k * (s.last()
            * s.last())) by (nonlinear_arith);
    }
}

/// Two vectors whose components agree up to sign have the same sum of
/// squares; in particular a wall's reflection never changes a velocity's
/// Euclidean length.
pub proof fn lemma_sq_sum_reflect(pos: Seq<int>, v: Seq<int>)
    requires
        pos.len() == v.len(),
    ensures
        sq_sum(reflect_result(pos, v)) == sq_sum(v),
{
    let r = reflect_result(pos, v);
    assert forall|i: int| 0 <= i < r.len() implies #[trigger] (r[i] * r[i]) == v[i] * v[i] by {
        assert((-v[i]) * (-v[i]) == v[i] * v[i]) by (nonlinear_arith);
    }
    lemma_sq_sum_same_squares(r, v);
}

/// Sums of squares only see the squares of the components.
proof fn lemma_sq_sum_same_squares(a: Seq<int>, b: Seq<int>)
    requires
        a.len() == b.len(),
        forall|i: int| 0 <= i < a.len() ==> #[trigger] (a[i] * a[i]) == b[i] * b[i],
    ensures
        sq_sum(a) == sq_sum(b),
    decreases a.len(),
{
    if a.len() > 0 {
        let a0 = a.drop_last();
        let b0 = b.drop_last();
        assert forall|i: int| 0 <= i < a0.len() implies #[trigger] (a0[i] * a0[i]) == b0[i]
            * b0[i] by {
            assert(a0[i] == a[i] && b0[i] == b[i]);
        }
        lemma_sq_sum_same_squares(a0, b0);
        assert(a.last() * a.last() == b.last() * b.last());
    }
}

/// Renormalization hits its target length: for every nonzero vector, the
/// squared Euclidean length of the rescaled vector differs from the
/// square of the magnitude by at most `2*m` plus `2*m + 1` per component
/// (the guard digits make the ratio precise even for vectors only a few
/// units long). This is the fixed-point tolerance with which a velocity,
/// after its random-walk step renormalizes it, keeps exactly its
/// configured speed.
pub proof fn lemma_rescaled_length(s: Seq<int>, m: int)
    requires
        0 < m <= NORM_SCALE,
        sq_sum(s) > 0,
    ensures
        m * m - (s.len() as int) * (2 * m + 1) <= sq_sum(scale_to(s, m)),
        sq_sum(scale_to(s, m)) <= m * m + 2 * m + (s.len() as int) * (2 * m + 1),
{
    let k = NORM_SCALE as int;
    let ls = sq_sum(s);
    let big = k * k * ls;
    assert(k * k <= big) by (nonlinear_arith)
        requires 1 <= ls, big == k * k * ls, 0 < k;
    lemma_sqrt_floor_exists(big);
    let d = sqrt_floor(big);
    assert(k <= d) by (nonlinear_arith)
        requires
            big < (d + 1) * (d + 1),
            k * k <= big,
            0 <= d,
            0 < k;
    let sk = Seq::new(s.len(), |i: int| k * s[i]);
    lemma_sq_sum_scale(s, k);
    assert(sq_sum(sk) == big);
    assert forall|i: int| 0 <= i < sk.len() implies -d <= #[trigger] sk[i] <= d by {
        lemma_elem_sq_le_sum(s, i);
        assert((k * s[i]) * (k * s[i]) == k * k * (s[i] * s[i])) by (nonlinear_arith);
        assert(k * k * (s[i] * s[i]) <= k * k * ls) by (nonlinear_arith)
            requires s[i] * s[i] <= ls, 0 < k;
        lemma_abs_le_sqrt(k * s[i], big, d);
    }
    assert(scale_to(s, m) =~= scaled_seq(sk, m, d));
    lemma_scaled_seq_sq_sum(sk, m, d);
    let n = s.len() as int;
    let rr = sq_sum(scale_to(s, m));
    let x = 2 * (d * d) * m + d * d;
    assert(x == (d * d) * (2 * m + 1)) by (nonlinear_arith)
        requires x == 2 * (d * d) * m + d * d;
    assert(big <= d * d + 2 * d) by (nonlinear_arith)
        requires big < (d + 1) * (d + 1);
    assert(n * ((d * d) * (2 * m + 1)) == (d * d) * (n * (2 * m + 1))) by (nonlinear_arith);
    assert((m * m) * (d * d) <= (m * m) * big) by (nonlinear_arith)
        requires d * d <= big, 0 < m;
    assert((m * m) * big <= (m * m) * (d * d) + 2 * d * (m * m)) by (nonlinear_arith)
        requires big <= d * d + 2 * d, 0 < m;
    assert(2 * d * (m * m) <= (d * d) * (2 * m)) by (nonlinear_arith)
        requires m <= d, 0 < m, 1 <= d;
    assert((d * d) * rr >= (d * d) * (m * m) - (d * d) * (n * (2 * m + 1)));
    assert((d * d) * rr <= (d * d) * (m * m) + (d * d) * (2 * m) + (d * d) * (n * (2 * m + 1)));
    assert(rr >= m * m - n * (2 * m + 1)) by (nonlinear_arith)
        requires
            (d * d) * rr >= (d * d) * (m * m) - (d * d) * (n * (2 * m + 1)),
            1 <= d;
    assert(rr <= m * m + 2 * m + n * (2 * m + 1)) by (nonlinear_arith)
        requires
            (d * d) * rr <= (d * d) * (m * m) + (d * d) * (2 * m) + (d * d) * (n * (2 * m + 1)),
            1 <= d;
}

/// A nudged velocity keeps its configured speed: whenever the random-walk
/// step actually renormalizes (the draw is not degenerate and the sum
/// does not cancel to zero), the squared Euclidean length of the result
/// differs from the square of the magnitude by at most `2*m` plus
/// `2*m + 1` per component.
pub proof fn lemma_nudge_result_speed(v: Seq<int>, m: int, acc: Seq<int>)
    requires
        0 < m <= NORM_SCALE,
        !all_zero(acc),
        !all_zero(seq_add(v, scale_to(acc, PARAMS_ACCELERATION_MAG as int))),
    ensures
        m * m - (v.len() as int) * (2 * m + 1) <= sq_sum(nudge_result(v, m, acc)),
        sq_sum(nudge_result(v, m, acc)) <= m * m + 2 * m + (v.len() as int) * (2 * m + 1),
{
    let sum = seq_add(v, scale_to(acc, PARAMS_ACCELERATION_MAG as int));
    lemma_sq_sum_zero(sum);
    lemma_sq_sum_nonneg(sum);
    lemma_rescaled_length(sum, m);
    assert(nudge_result(v, m, acc) == scale_to(sum, m));
    assert(sum.len() == v.len());
}

/// Round trip of a whole record: for every record within bounds, mapping
/// it to the nominal vector space and back recovers the two integer fields
/// exactly and each fractional field to within one fixed-point unit.
pub proof fn lemma_round_trip(p: Params)
    requires
        p.in_bounds(),
    ensures
        ({
            let q = to_params_model(from_params_model(p));
            &&& q.children == p.children
            &&& q.levels == p.levels
            &&& p.child_translation_factor - 1 <= q.child_translation_factor
                <= p.child_translation_factor
            &&& p.angle_from_parent_branch - 1 <= q.angle_from_parent_branch
                <= p.angle_from_parent_branch
            &&& p.child_scale - 1 <= q.child_scale <= p.child_scale
            &&& p.base_radius - 1 <= q.base_radius <= p.base_radius
            &&& p.leaf_radius - 1 <= q.leaf_radius <= p.leaf_radius
        }),
{
    lemma_count_round_trip(p.children as int, CHILDREN_MIN as int);
    lemma_count_round_trip(p.levels as int, LEVELS_MIN as int);
    lemma_axis_round_trip(
        p.child_translation_factor as int,
        TRANSLATION_FACTOR_MIN as int,
        TRANSLATION_FACTOR_MAX as int,
    );
    lemma_axis_round_trip(p.angle_from_parent_branch as int, ANGLE_MIN as int, ANGLE_MAX as int);
    lemma_axis_round_trip(p.child_scale as int, SCALE_MIN as int, SCALE_MAX as int);
    lemma_axis_round_trip(p.base_radius as int, BASE_RADIUS_MIN as int, BASE_RADIUS_MAX as int);
    lemma_axis_round_trip(p.leaf_radius as int, LEAF_RADIUS_MIN as int, LEAF_RADIUS_MAX as int);
}

/// Remap one component to a fractional field's interval.
fn value_axis(c: i64, lo: i64, hi: i64) -> (r: i64)
    requires
        -MAX_COMPONENT <= c <= MAX_COMPONENT,
        -(2 * FX_ONE) <= lo < hi <= 2 * FX_ONE,
        hi - lo <= 2 * FX_ONE,
    ensures
        r == axis_to_value(c as int, lo as int, hi as int),
        -FX_ONE <= c <= FX_ONE ==> lo <= r <= hi,
{
    proof {
        assert(-2_100_000_000_000_000_000 <= (hi - lo) * (c + FX_ONE) <= 2_100_000_000_000_000_000)
            by (nonlinear_arith)
            requires
                0 < hi - lo <= 2 * (FX_ONE as int),
                -MAX_COMPONENT <= c <= MAX_COMPONENT,
                MAX_COMPONENT == 1_000_000_000_000i64,
                FX_ONE == 1_000_000i64;
        if -FX_ONE <= c <= FX_ONE {
            lemma_axis_to_value_bounds(c as int, lo as int, hi as int);
        }
    }
    let num = (hi - lo) * (c + FX_ONE);
    let q = div_trunc(num, 2 * FX_ONE);
    q + lo
}

/// Remap one component to an integer-counted field's range, rounding to
/// the nearest count and saturating to the field's machine type.
fn count_axis(c: i64, lo: u8, hi: u8) -> (r: u8)
    requires
        -MAX_COMPONENT <= c <= MAX_COMPONENT,
        lo < hi,
        hi - lo <= 4,
    ensures
        r as int == saturate_u8(axis_to_count(c as int, lo as int, hi as int)),
        -FX_ONE <= c <= FX_ONE ==> lo <= r <= hi,
{
    proof {
        assert(-(5 * MAX_COMPONENT) <= ((hi - lo) as i64) * (c + FX_ONE) <= 5 * MAX_COMPONENT)
            by (nonlinear_arith)
            requires
                0 < (hi - lo) as i64 <= 4,
                -MAX_COMPONENT <= c <= MAX_COMPONENT,
                MAX_COMPONENT == 1_000_000_000_000i64,
                FX_ONE == 1_000_000i64;
        if -FX_ONE <= c <= FX_ONE {
            lemma_axis_to_count_bounds(c as int, lo as int, hi as int);
        }
    }
    let num = ((hi - lo) as i64) * (c + FX_ONE);
    let q = div_round(num, 2 * FX_ONE);
    let y = q + lo as i64;
    if y < 0 {
        0
    } else if y > 255 {
        255
    } else {
        y as u8
    }
}

/// The exact inverse remap of one field value to a component.
fn inverse_axis(x: i64, lo: i64, hi: i64) -> (r: i64)
    requires
        -MAX_COMPONENT <= x <= MAX_COMPONENT,
        -(2 * FX_ONE) <= lo < hi <= 2 * FX_ONE,
    ensures
        r == axis_from_value(x as int, lo as int, hi as int),
        lo <= x <= hi ==> -FX_ONE <= r <= FX_ONE,
        -VECTOR_LIMIT <= r <= VECTOR_LIMIT,
{
    proof {
        assert(-2_100_000_000_000_000_000 <= (2 * (FX_ONE as int)) * (x - lo)
            <= 2_100_000_000_000_000_000)
            by (nonlinear_arith)
            requires
                -MAX_COMPONENT - 2 * (FX_ONE as int) <= x - lo
                    <= MAX_COMPONENT + 2 * (FX_ONE as int),
                MAX_COMPONENT == 1_000_000_000_000i64,
                FX_ONE == 1_000_000i64;
        if lo <= x <= hi {
            lemma_axis_from_value_bounds(x as int, lo as int, hi as int);
        }
    }
    let num = (2 * FX_ONE) * (x - lo);
    let q = div_trunc(num, hi - lo);
    q - FX_ONE
}

impl ParamsVector {
    /// The record this position vector denotes: each axis remapped from
    /// the nominal interval to its field's interval, integer fields
    /// rounded to the nearest count. A vector within the nominal interval
    /// always yields a record within bounds; components outside it
    /// extrapolate outside the field's interval.
    pub fn to_params(&self) -> (p: Params)
        requires
            self.bounded(MAX_COMPONENT as int),
        ensures
            p == to_params_model(self.vals()),
            self.bounded(FX_ONE as int) ==> p.in_bounds(),
    {
        let p = Params {
            children: count_axis(self.values[0], CHILDREN_MIN, CHILDREN_MAX),
            levels: count_axis(self.values[1], LEVELS_MIN, LEVELS_MAX),
            child_translation_factor: value_axis(
                self.values[2],
                TRANSLATION_FACTOR_MIN,
                TRANSLATION_FACTOR_MAX,
            ),
            angle_from_parent_branch: value_axis(self.values[3], ANGLE_MIN, ANGLE_MAX),
            child_scale: value_axis(self.values[4], SCALE_MIN, SCALE_MAX),
            base_radius: value_axis(self.values[5], BASE_RADIUS_MIN, BASE_RADIUS_MAX),
            leaf_radius: value_axis(self.values[6], LEAF_RADIUS_MIN, LEAF_RADIUS_MAX),
        };
        proof {
            assert(p == to_params_model(self.vals()));
        }
        p
    }

    /// The position vector denoting this record: the exact inverse affine
    /// map of [`Self::to_params`], axis by axis. A record within bounds
    /// yields a vector within the nominal interval.
    pub fn from_params(params: &Params) -> (v: Self)
        requires
            -MAX_FIELD <= params.child_translation_factor <= MAX_FIELD,
            -MAX_FIELD <= params.angle_from_parent_branch <= MAX_FIELD,
            -MAX_FIELD <= params.child_scale <= MAX_FIELD,
            -MAX_FIELD <= params.base_radius <= MAX_FIELD,
            -MAX_FIELD <= params.leaf_radius <= MAX_FIELD,
        ensures
            v.magnitude is None,
            v.vals() == from_params_model(*params),
            params.in_bounds() ==> v.bounded(FX_ONE as int),
            v.bounded(MAX_COMPONENT as int),
    {
        let v = ParamsVector {
            values: [
                inverse_axis(params.children as i64, CHILDREN_MIN as i64, CHILDREN_MAX as i64),
                inverse_axis(params.levels as i64, LEVELS_MIN as i64, LEVELS_MAX as i64),
                inverse_axis(
                    params.child_translation_factor,
                    TRANSLATION_FACTOR_MIN,
                    TRANSLATION_FACTOR_MAX,
                ),
                inverse_axis(params.angle_from_parent_branch, ANGLE_MIN, ANGLE_MAX),
                inverse_axis(params.child_scale, SCALE_MIN, SCALE_MAX),
                inverse_axis(params.base_radius, BASE_RADIUS_MIN, BASE_RADIUS_MAX),
                inverse_axis(params.leaf_radius, LEAF_RADIUS_MIN, LEAF_RADIUS_MAX),
            ],
            magnitude: None,
        };
        proof {
            assert(v.vals() =~= from_params_model(*params));
            let u2 = 2 * (FX_ONE as int);
            lemma_trunc_div_le(u2 * (params.children as int - 3), 510_000_000, 3);
            lemma_trunc_div_le(u2 * (params.levels as int - 2), 510_000_000, 3);
            assert(510_000_000int / 3int == 170_000_000);
            lemma_trunc_div_le(
                u2 * (params.child_translation_factor as int),
                198_001_000_000_000_000,
                1_000_000,
            );
            assert(198_001_000_000_000_000int / 1_000_000int == 198_001_000_000);
            lemma_trunc_div_le(
                u2 * (params.angle_from_parent_branch as int),
                198_001_000_000_000_000,
                1_570_796,
            );
            assert(198_001_000_000_000_000int / 1_570_796int <= 198_001_000_000);
            lemma_trunc_div_le(
                u2 * (params.child_scale as int - 400_000),
                198_001_000_000_000_000,
                400_000,
            );
            assert(198_001_000_000_000_000int / 400_000int == 495_002_500_000);
            lemma_trunc_div_le(
                u2 * (params.base_radius as int - 100_000),
                198_001_000_000_000_000,
                200_000,
            );
            assert(198_001_000_000_000_000int / 200_000int == 990_005_000_000);
            lemma_trunc_div_le(
                u2 * (params.leaf_radius as int - 100_000),
                198_001_000_000_000_000,
                400_000,
            );
            assert forall|i: int|
                0 <= i < NUM_PARAMS implies -MAX_COMPONENT <= #[trigger] v.values[i]
                <= MAX_COMPONENT by {
                assert(v.vals()[i] == from_params_model(*params)[i]);
            }
        }
        v
    }

    /// Componentwise sum of `other` into `self`. A position (no magnitude)
    /// clamps each component that leaves the nominal interval and, as one
    /// atomic operation, flips the sign of the velocity component that
    /// pushed it past the wall, so a wall reflects the walk instead of
    /// absorbing it. A velocity sums freely; renormalization is separate.
    pub fn add(&mut self, other: &mut Self)
        requires
            old(self).bounded(VECTOR_LIMIT as int),
            old(other).bounded(VECTOR_LIMIT as int),
        ensures
            final(self).magnitude == old(self).magnitude,
            final(other).magnitude == old(other).magnitude,
            forall|i: int|
                0 <= i < NUM_PARAMS ==> #[trigger] final(self).values[i] as int == (
                if old(self).magnitude is None {
                    clamp_fx(old(self).values[i] + old(other).values[i])
                } else {
                    old(self).values[i] + old(other).values[i]
                }),
            forall|i: int|
                0 <= i < NUM_PARAMS ==> #[trigger] final(other).values[i] as int == (
                if old(self).magnitude is None && reflects(
                    old(self).values[i] as int,
                    old(other).values[i] as int,
                ) {
                    -(old(other).values[i] as int)
                } else {
                    old(other).values[i] as int
                }),
    {
        let mut i: usize = 0;
        while i < NUM_PARAMS
            invariant
                i <= NUM_PARAMS,
                self.magnitude == old(self).magnitude,
                other.magnitude == old(other).magnitude,
                old(self).bounded(VECTOR_LIMIT as int),
                old(other).bounded(VECTOR_LIMIT as int),
                forall|j: int|
                    i <= j < NUM_PARAMS ==> #[trigger] self.values[j] == old(self).values[j],
                forall|j: int|
                    i <= j < NUM_PARAMS ==> #[trigger] other.values[j] == old(other).values[j],
                forall|j: int|
                    0 <= j < i ==> #[trigger] self.values[j] as int == (
                    if old(self).magnitude is None {
                        clamp_fx(old(self).values[j] + old(other).values[j])
                    } else {
                        old(self).values[j] + old(other).values[j]
                    }),
                forall|j: int|
                    0 <= j < i ==> #[trigger] other.values[j] as int == (
                    if old(self).magnitude is None && reflects(
                        old(self).values[j] as int,
                        old(other).values[j] as int,
                    ) {
                        -(old(other).values[j] as int)
                    } else {
                        old(other).values[j] as int
                    }),
            decreases NUM_PARAMS - i,
        {
            let x = self.values[i];
            let y = other.values[i];
            let s = x + y;
            self.values[i] = s;
            if self.magnitude.is_none() {
                if s < -FX_ONE || s > FX_ONE {
                    other.values[i] = -y;
                    self.values[i] = if s < -FX_ONE {
                        -FX_ONE
                    } else {
                        FX_ONE
                    };
                }
            }
            i = i + 1;
        }
    }
}

/// Sum of squares of the components, for the Euclidean length.
fn len2_of(values: &[i64; NUM_PARAMS]) -> (r: i64)
    requires
        forall|i: int| 0 <= i < NUM_PARAMS ==> -(4 * FX_ONE) <= #[trigger] values[i] <= 4 * FX_ONE,
    ensures
        r == sq_sum(to_ints(values@)),
        0 <= r <= 112_000_000_000_000,
{
    let ghost s = to_ints(values@);
    let mut sum: i64 = 0;
    let mut i: usize = 0;
    while i < NUM_PARAMS
        invariant
            i <= NUM_PARAMS,
            forall|j: int| 0 <= j < NUM_PARAMS ==> -(4 * FX_ONE) <= #[trigger] values[j]
                <= 4 * FX_ONE,
            s == to_ints(values@),
            sum == sq_sum(s.take(i as int)),
            0 <= sum <= i * 16_000_000_000_000,
        decreases NUM_PARAMS - i,
    {
        let v = values[i];
        proof {
            assert(v * v <= 16_000_000_000_000) by (nonlinear_arith)
                requires -4_000_000 <= v <= 4_000_000;
            assert(0 <= v * v) by (nonlinear_arith);
            lemma_sq_sum_take_step(s, i as int);
            assert(s[i as int] == v as int);
        }
        sum = sum + v * v;
        i = i + 1;
    }
    proof {
        assert(s.take(NUM_PARAMS as int) =~= s);
    }
    sum
}

impl ParamsVector {
    /// Rescale a velocity to exactly its configured Euclidean length; a
    /// position is left untouched. The ratio is taken with guard digits,
    /// so even a vector only a few units long comes out at the target
    /// speed. The caller guards against a zero vector, whose direction
    /// would be undefined.
    fn normalize(&mut self)
        requires
            old(self).bounded(4 * FX_ONE as int),
            old(self).magnitude matches Some(m) ==> 0 < m <= FX_ONE && sq_sum(old(self).vals())
                > 0,
        ensures
            final(self).magnitude == old(self).magnitude,
            old(self).magnitude is None ==> *final(self) == *old(self),
            old(self).magnitude matches Some(m) ==> {
                let len = sqrt_floor(NORM_SCALE * NORM_SCALE * sq_sum(old(self).vals()));
                forall|i: int|
                    0 <= i < NUM_PARAMS ==> #[trigger] final(self).values[i] as int == trunc_div(
                        old(self).values[i] * NORM_SCALE * m,
                        len,
                    )
            },
            old(self).magnitude matches Some(m) ==> final(self).bounded(m as int),
            old(self).magnitude matches Some(m) ==> m * m - (NUM_PARAMS as int) * (2 * m + 1)
                <= sq_sum(final(self).vals()) <= m * m + 2 * m + (NUM_PARAMS as int) * (2 * m
                + 1),
    {
        let mag = match self.magnitude {
            Some(m) => m,
            None => { return; },
        };
        let l2 = len2_of(&self.values);
        let ghost big = (NORM_SCALE * NORM_SCALE) * (l2 as int);
        proof {
            lemma_sqrt_floor_exists(big);
            assert((l2 as u128) * ((NORM_SCALE * NORM_SCALE) as u128) == big) by (nonlinear_arith)
                requires
                    0 <= l2 <= 112_000_000_000_000,
                    big == (NORM_SCALE * NORM_SCALE) * (l2 as int),
                    NORM_SCALE == 1_048_576i64;
        }
        let ghost glen = sqrt_floor(big);
        let big128 = (l2 as u128) * ((NORM_SCALE * NORM_SCALE) as u128);
        let len128 = isqrt128(big128);
        proof {
            assert(is_sqrt_floor(len128 as int, big));
            lemma_sqrt_floor_unique(len128 as int, glen, big);
            assert(len128 as int == glen);
            if len128 == 0 {
                assert(big < 1);
                assert((NORM_SCALE * NORM_SCALE) * 1 <= big) by (nonlinear_arith)
                    requires 1 <= l2 as int, big == (NORM_SCALE * NORM_SCALE) * (l2 as int);
            }
            assert(len128 as int * len128 as int <= big);
            assert(big <= 123_145_302_310_912_000_000_000_000) by (nonlinear_arith)
                requires
                    big == (NORM_SCALE * NORM_SCALE) * (l2 as int),
                    0 <= l2 <= 112_000_000_000_000,
                    NORM_SCALE == 1_048_576i64;
            assert(len128 < 12_000_000_000_000) by (nonlinear_arith)
                requires len128 as int * len128 as int <= 123_145_302_310_912_000_000_000_000int;
        }
        let len = len128 as i64;
        let ghost v0 = *self;
        let mut i: usize = 0;
        while i < NUM_PARAMS
            invariant
                i <= NUM_PARAMS,
                self.magnitude == old(self).magnitude,
                self.magnitude == Some(mag),
                0 < mag <= FX_ONE,
                v0 == *old(self),
                v0.bounded(4 * FX_ONE as int),
                1 <= len <= 12_000_000_000_000,
                len as int == glen,
                glen == sqrt_floor(NORM_SCALE * NORM_SCALE * sq_sum(v0.vals())),
                is_sqrt_floor(glen, NORM_SCALE * NORM_SCALE * sq_sum(v0.vals())),
                forall|j: int| i <= j < NUM_PARAMS ==> #[trigger] self.values[j] == v0.values[j],
                forall|j: int|
                    0 <= j < i ==> #[trigger] self.values[j] as int == trunc_div(
                        v0.values[j] * NORM_SCALE * mag,
                        glen,
                    ),
                forall|j: int| 0 <= j < i ==> -mag <= #[trigger] self.values[j] <= mag,
            decreases NUM_PARAMS - i,
        {
            let v = self.values[i];
            proof {
                lemma_elem_sq_le_sum(v0.vals(), i as int);
                assert(v0.vals()[i as int] == v as int);
                assert((v as int * NORM_SCALE) * (v as int * NORM_SCALE) == (NORM_SCALE
                    * NORM_SCALE) * (v as int * v as int)) by (nonlinear_arith);
                assert((NORM_SCALE * NORM_SCALE) * (v as int * v as int) <= (NORM_SCALE
                    * NORM_SCALE) * sq_sum(v0.vals())) by (nonlinear_arith)
                    requires
                        v as int * v as int <= sq_sum(v0.vals()),
                        NORM_SCALE == 1_048_576i64;
                lemma_abs_le_sqrt(
                    v as int * NORM_SCALE,
                    NORM_SCALE * NORM_SCALE * sq_sum(v0.vals()),
                    glen,
                );
                lemma_scale_bound(v as int * NORM_SCALE, mag as int, glen);
                assert(-4_194_304_000_000 <= v * NORM_SCALE <= 4_194_304_000_000)
                    by (nonlinear_arith)
                    requires -4_000_000 <= v <= 4_000_000, NORM_SCALE == 1_048_576i64;
            }
            let vk = v * NORM_SCALE;
            proof {
                assert(-0x4000_0000_0000_0000 <= vk * mag <= 0x4000_0000_0000_0000)
                    by (nonlinear_arith)
                    requires -4_194_304_000_000 <= vk <= 4_194_304_000_000, 0 < mag <= 1_000_000;
            }
            self.values[i] = div_trunc(vk * mag, len);
            i = i + 1;
        }
        proof {
            assert(self.vals() =~= scale_to(v0.vals(), mag as int));
            lemma_rescaled_length(v0.vals(), mag as int);
        }
    }

    /// One random-walk step of this velocity, driven by the given raw
    /// acceleration draw: the draw is scaled to the acceleration
    /// magnitude, added in, and the velocity is rescaled back to its own
    /// magnitude. A degenerate all-zero draw, or a sum that cancels
    /// exactly to zero, is guarded rather than fatal: the first leaves
    /// the velocity unchanged, the second leaves it at rest.
    pub fn nudge_with(&mut self, acc: &[i64; NUM_PARAMS])
        requires
            old(self).magnitude matches Some(m) && 0 < m <= FX_ONE,
            old(self).bounded(FX_ONE as int),
            forall|i: int| 0 <= i < NUM_PARAMS ==> -FX_ONE <= #[trigger] acc[i] <= FX_ONE,
        ensures
            final(self).magnitude == old(self).magnitude,
            final(self).bounded(FX_ONE as int),
            old(self).magnitude matches Some(m) ==> final(self).vals() == nudge_result(
                old(self).vals(),
                m as int,
                to_ints(acc@),
            ),
            old(self).magnitude matches Some(m) ==> {
                ||| sq_sum(final(self).vals()) == sq_sum(old(self).vals())
                ||| sq_sum(final(self).vals()) == 0
                ||| m * m - (NUM_PARAMS as int) * (2 * m + 1) <= sq_sum(final(self).vals())
                    <= m * m + 2 * m + (NUM_PARAMS as int) * (2 * m + 1)
            },
    {
        let mut acceleration = ParamsVector {
            values: *acc,
            magnitude: Some(PARAMS_ACCELERATION_MAG),
        };
        let l2 = len2_of(&acceleration.values);
        proof {
            lemma_sq_sum_zero(to_ints(acc@));
        }
        if l2 == 0 {
            return;
        }
        acceleration.normalize();
        proof {
            assert(acceleration.vals() =~= scale_to(to_ints(acc@), PARAMS_ACCELERATION_MAG as int));
        }
        let ghost v0 = *self;
        let ghost accn = acceleration.vals();
        self.add(&mut acceleration);
        proof {
            assert(self.vals() =~= seq_add(v0.vals(), accn));
        }
        let l2b = len2_of(&self.values);
        proof {
            lemma_sq_sum_zero(self.vals());
        }
        if l2b == 0 {
            proof {
                assert(self.vals() =~= seq_add(v0.vals(), accn));
                assert forall|i: int|
                    0 <= i < NUM_PARAMS implies -(FX_ONE as int) <= #[trigger] self.values[i]
                    <= FX_ONE as int by {
                    assert(self.vals()[i] == 0);
                }
            }
            return;
        }
        self.normalize();
        proof {
            let ghost m = v0.magnitude->0;
            assert(self.vals() =~= scale_to(seq_add(v0.vals(), accn), m as int));
        }
    }

    /// One random-walk step of this velocity: a fresh acceleration with
    /// every component drawn uniformly from the nominal interval, applied
    /// as in [`Self::nudge_with`]. The draw is random, so the contract
    /// promises only what holds of every outcome.
    pub fn nudge(&mut self)
        requires
            old(self).magnitude matches Some(m) && 0 < m <= FX_ONE,
            old(self).bounded(FX_ONE as int),
        ensures
            final(self).magnitude == old(self).magnitude,
            final(self).bounded(FX_ONE as int),
            old(self).magnitude matches Some(m) ==> exists|acc: Seq<int>|
                #![auto]
                {
                    &&& acc.len() == NUM_PARAMS
                    &&& (forall|i: int| 0 <= i < NUM_PARAMS ==> -FX_ONE <= #[trigger] acc[i] < FX_ONE)
                    &&& final(self).vals() == nudge_result(old(self).vals(), m as int, acc)
                },
        old(self).magnitude matches Some(m) ==> {
            ||| sq_sum(final(self).vals()) == sq_sum(old(self).vals())
            ||| sq_sum(final(self).vals()) == 0
            ||| m * m - (NUM_PARAMS as int) * (2 * m + 1) <= sq_sum(final(self).vals()) <= m * m
                + 2 * m + (NUM_PARAMS as int) * (2 * m + 1)
        },
    {
        let acc: [i64; NUM_PARAMS] = [
            draw_in(-FX_ONE, FX_ONE),
            draw_in(-FX_ONE, FX_ONE),
            draw_in(-FX_ONE, FX_ONE),
            draw_in(-FX_ONE, FX_ONE),
            draw_in(-FX_ONE, FX_ONE),
            draw_in(-FX_ONE, FX_ONE),
            draw_in(-FX_ONE, FX_ONE),
        ];
        self.nudge_with(&acc);
        proof {
            let w = to_ints(acc@);
            assert(w.len() == NUM_PARAMS);
            assert(forall|i: int| 0 <= i < NUM_PARAMS ==> -FX_ONE <= #[trigger] w[i] < FX_ONE);
        }
    }
}

/// One step of the driver protocol: nudge the velocity, move the record's
/// position by it with reflecting walls, and read the new record off the
/// moved position. The returned record is always within bounds, and the
/// velocity keeps its magnitude, with components flipped wherever a wall
/// was hit.
pub fn step_with(velocity: &mut ParamsVector, params: &Params, acc: &[i64; NUM_PARAMS]) -> (p:
    Params)
    requires
        old(velocity).magnitude matches Some(m) && 0 < m <= FX_ONE,
        old(velocity).bounded(FX_ONE as int),
        params.near_bounds(),
        forall|i: int| 0 <= i < NUM_PARAMS ==> -FX_ONE <= #[trigger] acc[i] <= FX_ONE,
    ensures
        final(velocity).magnitude == old(velocity).magnitude,
        final(velocity).bounded(FX_ONE as int),
        p.in_bounds(),
        old(velocity).magnitude matches Some(m) ==> {
            let v1 = nudge_result(old(velocity).vals(), m as int, to_ints(acc@));
            let pos = from_params_model(*params);
            &&& final(velocity).vals() == reflect_result(pos, v1)
            &&& p == to_params_model(add_result(pos, v1))
        },
        old(velocity).magnitude matches Some(m) ==> {
            ||| sq_sum(final(velocity).vals()) == sq_sum(old(velocity).vals())
            ||| sq_sum(final(velocity).vals()) == 0
            ||| m * m - (NUM_PARAMS as int) * (2 * m + 1) <= sq_sum(final(velocity).vals()) <= m
                * m + 2 * m + (NUM_PARAMS as int) * (2 * m + 1)
        },
{
    velocity.nudge_with(acc);
    let ghost v1 = velocity.vals();
    let mut pos = ParamsVector::from_params(params);
    let ghost pos0 = pos.vals();
    pos.add(velocity);
    proof {
        assert(pos.vals() =~= add_result(pos0, v1));
        assert(velocity.vals() =~= reflect_result(pos0, v1));
        lemma_sq_sum_reflect(pos0, v1);
        assert forall|i: int|
            0 <= i < NUM_PARAMS implies -(FX_ONE as int) <= #[trigger] velocity.values[i]
            <= FX_ONE as int by {
            assert(velocity.vals()[i] == reflect_result(pos0, v1)[i]);
        }
        assert forall|i: int|
            0 <= i < NUM_PARAMS implies -(FX_ONE as int) <= #[trigger] pos.values[i]
            <= FX_ONE as int by {
            assert(pos.vals()[i] == clamp_fx(pos0[i] + v1[i]));
        }
    }
    pos.to_params()
}

/// One random step of the driver protocol, with the acceleration drawn
/// afresh: the random counterpart of [`step_with`].
pub fn step(velocity: &mut ParamsVector, params: &Params) -> (p: Params)
    requires
        old(velocity).magnitude matches Some(m) && 0 < m <= FX_ONE,
        old(velocity).bounded(FX_ONE as int),
        params.near_bounds(),
    ensures
        final(velocity).magnitude == old(velocity).magnitude,
        final(velocity).bounded(FX_ONE as int),
        p.in_bounds(),
        old(velocity).magnitude matches Some(m) ==> exists|acc: Seq<int>|
            #![trigger nudge_result(old(velocity).vals(), m as int, acc)]
            {
                let v1 = nudge_result(old(velocity).vals(), m as int, acc);
                let pos = from_params_model(*params);
                &&& acc.len() == NUM_PARAMS
                &&& (forall|i: int| 0 <= i < NUM_PARAMS ==> -FX_ONE <= #[trigger] acc[i] < FX_ONE)
                &&& final(velocity).vals() == reflect_result(pos, v1)
                &&& p == to_params_model(add_result(pos, v1))
            },
        old(velocity).magnitude matches Some(m) ==> {
            ||| sq_sum(final(velocity).vals()) == sq_sum(old(velocity).vals())
            ||| sq_sum(final(velocity).vals()) == 0
            ||| m * m - (NUM_PARAMS as int) * (2 * m + 1) <= sq_sum(final(velocity).vals()) <= m
                * m + 2 * m + (NUM_PARAMS as int) * (2 * m + 1)
        },
{
    let acc: [i64; NUM_PARAMS] = [
        draw_in(-FX_ONE, FX_ONE),
        draw_in(-FX_ONE, FX_ONE),
        draw_in(-FX_ONE, FX_ONE),
        draw_in(-FX_ONE, FX_ONE),
        draw_in(-FX_ONE, FX_ONE),
        draw_in(-FX_ONE, FX_ONE),
        draw_in(-FX_ONE, FX_ONE),
    ];
    let p = step_with(velocity, params, &acc);
    proof {
        let w = to_ints(acc@);
        assert(w.len() == NUM_PARAMS);
        assert(forall|i: int| 0 <= i < NUM_PARAMS ==> -FX_ONE <= #[trigger] w[i] < FX_ONE);
    }
    p
}

/// Relies on `rand::random_range`: the draw from the thread-local
/// generator lies within the half-open range handed to it; it panics only
/// on an empty range, which the precondition rules out.
#[verifier::external_body]
fn draw_in(lo: i64, hi: i64) -> (r: i64)
    requires
        lo < hi,
    ensures
        lo <= r < hi,
{
    rand::random_range(lo..hi)
}

} // verus!
