//! The tree generator: a pure recursive function from a parameter record
//! to the ordered sequence of branch and leaf placement nodes of one tree
//! skeleton.
//!
//! The sequence is in pre-order: index 0 is the root, and every other
//! node's parent index points strictly before it. Each node carries its
//! local affine placement: a rotation around the parent's up axis (`yaw`,
//! applied first), a translation, a uniform scale, and a final rotation
//! around the local outward axis (`tilt`), all in the fixed-point encoding.
//! The whole output is pinned to the spec-level model [`tree_model`], so
//! generation is a pure function of the record.

use vstd::prelude::*;
use crate::fixed::{FX_ONE, trunc_div, div_trunc};
use crate::params::{Params, CHILDREN_MAX, LEVELS_MAX};
use crate::trig::{
    sin_poly, cos_poly, sin_full, cos_full, sin_quadrant, cos_quadrant, sin_fx, cos_fx, TWO_PI_FX,
};

verus! {

/// Half of one fixed-point unit.
pub const HALF_FX: i64 = 500_000;

/// A 3-vector of fixed-point coordinates.
#[derive(Clone, Copy, Debug, PartialEq, Eq)]
pub struct Vec3Fx {
    /// Outward (sideways) coordinate.
    pub x: i64,
    /// Upward coordinate, along the parent branch.
    pub y: i64,
    /// The second sideways coordinate.
    pub z: i64,
}

/// The local placement of one node: rotate `yaw` around the parent's up
/// axis, translate, scale uniformly, then rotate `tilt` around the local
/// outward axis. Angles are fixed-point radians; `scale` is a fixed-point
/// factor.
#[derive(Clone, Copy, Debug, PartialEq, Eq)]
pub struct Transform {
    /// Displacement of this node away from the parent's origin,
    /// expressed in the parent's frame: the outward offset has already
    /// been turned by `yaw`.
    pub translation: Vec3Fx,
    /// Rotation around the parent's up axis, applied first.
    pub yaw: i64,
    /// Rotation around the local outward axis, applied last.
    pub tilt: i64,
    /// Uniform scale factor.
    pub scale: i64,
}

/// One node of the generated skeleton: a placement, a link to the parent
/// node by index into the same sequence (`None` only for the root), and a
/// leaf flag.
#[derive(Clone, Copy, Debug, PartialEq, Eq)]
pub struct Branch {
    /// Local placement relative to the parent node.
    pub tr: Transform,
    /// Index of the parent node in the output sequence.
    pub parent_idx: Option<usize>,
    /// Whether this node is a terminating leaf rather than a branch.
    pub is_leaf: bool,
}

/// The placement that moves nothing.
pub open spec fn identity_transform() -> Transform {
    Transform { translation: Vec3Fx { x: 0, y: 0, z: 0 }, yaw: 0, tilt: 0, scale: FX_ONE }
}

/// The root node: identity placement, no parent, not a leaf.
pub open spec fn root_branch() -> Branch {
    Branch { tr: identity_transform(), parent_idx: None, is_leaf: false }
}

/// A leaf node: one unit up along the local up axis from its parent.
pub open spec fn leaf_branch(parent: usize) -> Branch {
    Branch {
        tr: Transform {
            translation: Vec3Fx { x: 0, y: FX_ONE, z: 0 },
            yaw: 0,
            tilt: 0,
            scale: FX_ONE,
        },
        parent_idx: Some(parent),
        is_leaf: true,
    }
}

/// Fan angle of child `i` of `c` children: `2 * pi * i / c`, so the
/// children spread evenly around the parent's up axis.
pub open spec fn fan_angle(i: int, c: int) -> int {
    trunc_div(TWO_PI_FX * i, c)
}

/// Position of child `i` in the fan as a fraction of one: `i / (c - 1)`;
/// the last child always sits at one whole unit.
pub open spec fn fan_fraction(i: int, c: int) -> int {
    trunc_div(FX_ONE * i, c - 1)
}

/// Translation of child `i` along the parent axis: blends between the
/// factor point and a linear spread as the translation factor varies.
pub open spec fn translation_along_root(p: Params, i: int) -> int {
    let t = fan_fraction(i, p.children as int);
    trunc_div((FX_ONE - t) * p.child_translation_factor, FX_ONE as int) + t
}

/// Outward offset of every child:
/// `base_radius + child_scale * sin(tilt) / 2`.
pub open spec fn radial_offset(p: Params) -> int {
    p.base_radius + trunc_div(
        p.child_scale * sin_poly(p.angle_from_parent_branch as int),
        2 * (FX_ONE as int),
    )
}

/// Upward offset of child `i`:
/// `(translation_along_root - 1/2) + child_scale * cos(tilt) / 2`.
pub open spec fn upward_offset(p: Params, i: int) -> int {
    (translation_along_root(p, i) - HALF_FX) + trunc_div(
        p.child_scale * cos_poly(p.angle_from_parent_branch as int),
        2 * (FX_ONE as int),
    )
}

/// The full local placement of child `i`: the outward offset is carried
/// in the yaw-rotated frame, so its world direction turns with the fan
/// angle, while the upward offset stays along the parent's axis.
pub open spec fn child_transform(p: Params, i: int) -> Transform {
    let th = fan_angle(i, p.children as int);
    Transform {
        translation: Vec3Fx {
            x: trunc_div(radial_offset(p) * sin_full(th), FX_ONE as int) as i64,
            y: upward_offset(p, i) as i64,
            z: trunc_div(radial_offset(p) * cos_full(th), FX_ONE as int) as i64,
        },
        yaw: th as i64,
        tilt: p.angle_from_parent_branch,
        scale: p.child_scale,
    }
}

/// Branch node of child `i` under the given parent.
pub open spec fn child_branch(p: Params, i: int, parent: usize) -> Branch {
    Branch { tr: child_transform(p, i), parent_idx: Some(parent), is_leaf: false }
}

/// The nodes appended by one fan of children `0 .. i` at `level`, starting
/// at absolute index `start` of the output sequence: each child node is
/// followed immediately by its whole subtree (another fan one level
/// deeper, or a single leaf at the deepest level).
pub open spec fn ring_model(p: Params, level: int, parent: usize, start: int, i: int) -> Seq<
    Branch,
>
    decreases p.levels - level, i,
{
    if i <= 0 || level < 1 || p.levels < level {
        Seq::empty()
    } else {
        let prev = ring_model(p, level, parent, start, i - 1);
        let node_idx = start + prev.len();
        let node = child_branch(p, i - 1, parent);
        if level < p.levels {
            prev + seq![node] + ring_model(
                p,
                level + 1,
                node_idx as usize,
                node_idx + 1,
                p.children as int,
            )
        } else {
            prev + seq![node] + seq![leaf_branch(node_idx as usize)]
        }
    }
}

/// The whole skeleton of one tree: the root at index 0, then the
/// recursive fan of its children.
pub open spec fn tree_model(p: Params) -> Seq<Branch> {
    seq![root_branch()] + ring_model(p, 1, 0, 1, p.children as int)
}

/// Append the single leaf that terminates a deepest branch.
fn generate_leaves(parent_idx: usize, all: &mut Vec<Branch>)
    ensures
        final(all)@ == old(all)@ + seq![leaf_branch(parent_idx)],
{
    let child_transform = Transform {
        translation: Vec3Fx { x: 0, y: FX_ONE, z: 0 },
        yaw: 0,
        tilt: 0,
        scale: FX_ONE,
    };
    all.push(Branch { tr: child_transform, parent_idx: Some(parent_idx), is_leaf: true });
    proof {
        assert(all@ =~= old(all)@ + seq![leaf_branch(parent_idx)]);
    }
}

/// Compute the local placement of child `i`, exactly as the model states
/// it.
fn child_transform_of(params: &Params, i: u8) -> (t: Transform)
    requires
        params.children > 1,
        i < params.children,
        params.fields_in_bounds(),
    ensures
        t == child_transform(*params, i as int),
{
    let c = params.children as i64;
    proof {
        assert(TWO_PI_FX * (i as i64) < TWO_PI_FX * c) by (nonlinear_arith)
            requires 0 <= (i as i64) && (i as i64) < c, 0 < TWO_PI_FX;
        assert(0 <= TWO_PI_FX * (i as i64) <= 6_283_185 * 255) by (nonlinear_arith)
            requires 0 <= (i as i64) <= 255, TWO_PI_FX == 6_283_185i64;
        vstd::arithmetic::div_mod::lemma_multiply_divide_lt(
            TWO_PI_FX * (i as i64),
            c as int,
            TWO_PI_FX as int,
        );
        vstd::arithmetic::div_mod::lemma_div_pos_is_pos(TWO_PI_FX * (i as i64), c as int);
    }
    let theta = div_trunc(TWO_PI_FX * (i as i64), c);
    let sin_t = sin_fx(theta);
    let cos_t = cos_fx(theta);
    proof {
        assert(0 <= FX_ONE * (i as i64) <= FX_ONE * (c - 1)) by (nonlinear_arith)
            requires 0 <= (i as i64) && (i as i64) <= c - 1, 0 < FX_ONE;
        assert(FX_ONE * (i as i64) <= 1_000_000 * 255) by (nonlinear_arith)
            requires 0 <= (i as i64) <= 255, FX_ONE == 1_000_000i64;
        vstd::arithmetic::div_mod::lemma_div_is_ordered(
            FX_ONE * (i as i64),
            FX_ONE * (c - 1),
            c - 1,
        );
        vstd::arithmetic::div_mod::lemma_div_pos_is_pos(FX_ONE * (i as i64), c - 1);
        vstd::arithmetic::div_mod::lemma_div_multiples_vanish(FX_ONE as int, c - 1);
        assert(FX_ONE * (c - 1) == (c - 1) * FX_ONE) by (nonlinear_arith);
    }
    let cif = div_trunc(FX_ONE * (i as i64), c - 1);
    proof {
        assert(0 <= (FX_ONE - cif) * params.child_translation_factor <= 1_000_000_000_000)
            by (nonlinear_arith)
            requires
                0 <= FX_ONE - cif <= 1_000_000,
                0 <= params.child_translation_factor <= 1_000_000;
    }
    let t_along = div_trunc((FX_ONE - cif) * params.child_translation_factor, FX_ONE) + cif;
    let sin_a = sin_quadrant(params.angle_from_parent_branch);
    let cos_a = cos_quadrant(params.angle_from_parent_branch);
    proof {
        assert(-6_400_000_000_000 <= params.child_scale * sin_a <= 6_400_000_000_000)
            by (nonlinear_arith)
            requires
                0 <= params.child_scale <= 800_000,
                -8_000_000 <= sin_a <= 8_000_000;
        assert(-6_400_000_000_000 <= params.child_scale * cos_a <= 6_400_000_000_000)
            by (nonlinear_arith)
            requires
                0 <= params.child_scale <= 800_000,
                -8_000_000 <= cos_a <= 8_000_000;
    }
    let radial = params.base_radius + div_trunc(params.child_scale * sin_a, 2 * FX_ONE);
    let upward = (t_along - HALF_FX) + div_trunc(params.child_scale * cos_a, 2 * FX_ONE);
    proof {
        assert(-40_000_000_000_000 <= radial * sin_t <= 40_000_000_000_000) by (nonlinear_arith)
            requires
                -3_500_000 <= radial <= 3_500_000,
                -8_000_000 <= sin_t <= 8_000_000;
        assert(-40_000_000_000_000 <= radial * cos_t <= 40_000_000_000_000) by (nonlinear_arith)
            requires
                -3_500_000 <= radial <= 3_500_000,
                -8_000_000 <= cos_t <= 8_000_000;
    }
    let tx = div_trunc(radial * sin_t, FX_ONE);
    let tz = div_trunc(radial * cos_t, FX_ONE);
    Transform {
        translation: Vec3Fx { x: tx, y: upward, z: tz },
        yaw: theta,
        tilt: params.angle_from_parent_branch,
        scale: params.child_scale,
    }
}

/// Append one fan of children under `parent_idx`, each followed by its
/// whole subtree, exactly as [`ring_model`] lays them out.
fn generate_branches(params: &Params, level: u8, parent_idx: usize, all: &mut Vec<Branch>)
    requires
        params.children > 1,
        1 <= level <= params.levels,
        params.fields_in_bounds(),
    ensures
        final(all)@ == old(all)@ + ring_model(
            *params,
            level as int,
            parent_idx,
            old(all)@.len() as int,
            params.children as int,
        ),
    decreases params.levels as int - level as int,
{
    let ghost start = all@.len() as int;
    let mut i: u8 = 0;
    while i < params.children
        invariant
            i <= params.children,
            params.children > 1,
            1 <= level <= params.levels,
            params.fields_in_bounds(),
            all@ == old(all)@ + ring_model(*params, level as int, parent_idx, start, i as int),
            start == old(all)@.len() as int,
        decreases params.children as int - i as int,
    {
        let tr = child_transform_of(params, i);
        let child_idx = all.len();
        all.push(Branch { tr, parent_idx: Some(parent_idx), is_leaf: false });
        proof {
            assert(ring_model(*params, level as int, parent_idx, start, i as int).len() == all@.len()
                - 1 - start);
        }
        if level < params.levels {
            generate_branches(params, level + 1, child_idx, all);
        } else {
            generate_leaves(child_idx, all);
        }
        proof {
            let ring_prev = ring_model(*params, level as int, parent_idx, start, i as int);
            let node_idx = start + ring_prev.len();
            assert(node_idx == child_idx as int);
            assert((node_idx as usize) as int == node_idx);
            assert(all@ =~= old(all)@ + ring_model(
                *params,
                level as int,
                parent_idx,
                start,
                i as int + 1,
            ));
        }
        i = i + 1;
    }
}

/// Generate the whole skeleton for one parameter record: the root at
/// index 0 at the identity placement, then every branch and leaf in
/// pre-order. The output is a pure function of the record, pinned to
/// [`tree_model`].
pub fn generate(params: &Params) -> (ret: Vec<Branch>)
    requires
        params.children > 1,
        params.levels >= 1,
        params.fields_in_bounds(),
    ensures
        ret@ == tree_model(*params),
        ret@.len() == pow_sum(params.children as int, params.levels as int)
            + vstd::arithmetic::power::pow(params.children as int, params.levels as nat),
        ret@[0] == root_branch(),
        params.children <= CHILDREN_MAX && params.levels <= LEVELS_MAX ==> forall|k: int|
            1 <= k < ret@.len() ==> (#[trigger] ret@[k]).parent_idx is Some && (
            ret@[k].parent_idx->0 as int) < k,
{
    let base = Transform {
        translation: Vec3Fx { x: 0, y: 0, z: 0 },
        yaw: 0,
        tilt: 0,
        scale: FX_ONE,
    };
    let mut ret: Vec<Branch> = Vec::new();
    ret.push(Branch { tr: base, parent_idx: None, is_leaf: false });
    generate_branches(params, 1, 0, &mut ret);
    proof {
        assert(ret@ =~= tree_model(*params));
        lemma_tree_count(*params);
        if params.children <= CHILDREN_MAX && params.levels <= LEVELS_MAX {
            lemma_tree_parents(*params);
        }
    }
    ret
}

/// Nodes appended per child of a fan: the child node itself plus its
/// whole subtree, with `rem` further fan levels below it.
pub open spec fn block_size(c: int, rem: int) -> int
    decreases rem,
{
    if rem <= 0 {
        2
    } else {
        1 + c * block_size(c, rem - 1)
    }
}

/// `1 + c + c^2 + ... + c^l`.
pub open spec fn pow_sum(c: int, l: int) -> int
    decreases l,
{
    if l <= 0 {
        1
    } else {
        pow_sum(c, l - 1) + vstd::arithmetic::power::pow(c, l as nat)
    }
}

/// A fan of `i` children appends `i` equal blocks.
proof fn lemma_ring_len(p: Params, level: int, parent: usize, start: int, i: int)
    requires
        2 <= p.children,
        1 <= level <= p.levels,
        0 <= i <= p.children,
    ensures
        ring_model(p, level, parent, start, i).len() == i * block_size(
            p.children as int,
            p.levels - level,
        ),
    decreases p.levels - level, i,
{
    let c = p.children as int;
    let rem = p.levels - level;
    let b = block_size(c, rem);
    if i <= 0 {
        assert(0 * b == 0) by (nonlinear_arith);
    } else {
        let prev = ring_model(p, level, parent, start, i - 1);
        lemma_ring_len(p, level, parent, start, i - 1);
        let node_idx = start + prev.len();
        if level < p.levels {
            lemma_ring_len(p, level + 1, node_idx as usize, node_idx + 1, c);
            assert(b == 1 + c * block_size(c, rem - 1));
        } else {
            assert(b == 2);
        }
        assert(i * b == (i - 1) * b + b) by (nonlinear_arith);
    }
}

/// Every block is nonempty, and no larger than the largest legal fan's.
proof fn lemma_block_le(c: int, rem: int)
    requires
        2 <= c <= 6,
        0 <= rem <= 4,
    ensures
        0 < block_size(c, rem) <= 2851,
        block_size(c, rem) <= block_size(6, rem),
    decreases rem,
{
    assert(block_size(6, 0) == 2);
    assert(block_size(6, 1) == 13);
    assert(block_size(6, 2) == 79);
    assert(block_size(6, 3) == 475);
    assert(block_size(6, 4) == 2851);
    if rem > 0 {
        lemma_block_le(c, rem - 1);
        assert(c * block_size(c, rem - 1) <= 6 * block_size(6, rem - 1)) by (nonlinear_arith)
            requires
                2 <= c <= 6,
                0 < block_size(c, rem - 1) <= block_size(6, rem - 1);
        assert(0 < c * block_size(c, rem - 1)) by (nonlinear_arith)
            requires 0 < c, 0 < block_size(c, rem - 1);
    }
}

/// Multiplying the power sum by the base shifts it up one power.
proof fn lemma_mul_pow_sum(c: int, r: int)
    requires
        0 <= r,
    ensures
        c * pow_sum(c, r) == pow_sum(c, r + 1) - 1,
    decreases r,
{
    vstd::arithmetic::power::lemma_pow1(c);
    if r == 0 {
        assert(pow_sum(c, 0) == 1);
        assert(pow_sum(c, 1) == 1 + c);
    } else {
        lemma_mul_pow_sum(c, r - 1);
        assert(pow_sum(c, r) == pow_sum(c, r - 1) + vstd::arithmetic::power::pow(c, r as nat));
        vstd::arithmetic::power::lemma_pow_adds(c, 1, r as nat);
        assert((r + 1) as nat == 1 + (r as nat));
        assert(vstd::arithmetic::power::pow(c, (r + 1) as nat) == c
            * vstd::arithmetic::power::pow(c, r as nat));
        assert(c * (pow_sum(c, r - 1) + vstd::arithmetic::power::pow(c, r as nat)) == c * pow_sum(
            c,
            r - 1,
        ) + c * vstd::arithmetic::power::pow(c, r as nat)) by (nonlinear_arith);
    }
}

/// A fan's total size in closed form, over powers of the child count.
proof fn lemma_block_formula(c: int, r: int)
    requires
        0 <= r,
    ensures
        c * block_size(c, r) == pow_sum(c, r + 1) - 1 + vstd::arithmetic::power::pow(
            c,
            (r + 1) as nat,
        ),
    decreases r,
{
    vstd::arithmetic::power::lemma_pow1(c);
    if r == 0 {
        assert(block_size(c, 0) == 2);
        assert(pow_sum(c, 0) == 1);
        assert(pow_sum(c, 1) == 1 + c);
        assert(c * 2 == (1 + c) - 1 + c) by (nonlinear_arith);
    } else {
        lemma_block_formula(c, r - 1);
        lemma_mul_pow_sum(c, r);
        let b1 = block_size(c, r - 1);
        assert(block_size(c, r) == 1 + c * b1);
        vstd::arithmetic::power::lemma_pow_adds(c, 1, r as nat);
        assert((r + 1) as nat == 1 + (r as nat));
        assert(vstd::arithmetic::power::pow(c, (r + 1) as nat) == c
            * vstd::arithmetic::power::pow(c, r as nat));
        assert(c * (1 + c * b1) == c + c * (c * b1)) by (nonlinear_arith);
        assert(c * (c * b1) == c * (pow_sum(c, r) - 1 + vstd::arithmetic::power::pow(c, r as nat)))
            by (nonlinear_arith)
            requires c * b1 == pow_sum(c, r) - 1 + vstd::arithmetic::power::pow(c, r as nat);
        assert(c * (pow_sum(c, r) - 1 + vstd::arithmetic::power::pow(c, r as nat)) == c * pow_sum(
            c,
            r,
        ) - c + c * vstd::arithmetic::power::pow(c, r as nat)) by (nonlinear_arith);
    }
}

/// The generated skeleton of a record with more than one child per node
/// has exactly `1 + c + ... + c^levels` branch nodes plus `c^levels`
/// leaves.
pub proof fn lemma_tree_count(p: Params)
    requires
        2 <= p.children,
        1 <= p.levels,
    ensures
        tree_model(p).len() == pow_sum(p.children as int, p.levels as int)
            + vstd::arithmetic::power::pow(p.children as int, p.levels as nat),
{
    let c = p.children as int;
    lemma_ring_len(p, 1, 0, 1, c);
    lemma_block_formula(c, p.levels - 1);
    assert((p.levels - 1 + 1) as nat == p.levels as nat);
}

/// Every node of a fan links to the fan's parent or to a node of the fan
/// itself, and always to one placed strictly before it.
pub open spec fn parents_ok(s: Seq<Branch>, parent: usize, start: int) -> bool {
    forall|k: int|
        0 <= k < s.len() ==> {
            &&& (#[trigger] s[k]).parent_idx is Some
            &&& (s[k].parent_idx->0 as int == parent as int || start <= s[k].parent_idx->0 as int)
            &&& (s[k].parent_idx->0 as int) < start + k
        }
}

proof fn lemma_ring_parents(p: Params, level: int, parent: usize, start: int, i: int)
    requires
        2 <= p.children <= 6,
        p.levels <= 5,
        1 <= level <= p.levels,
        0 <= i <= p.children,
        (parent as int) < start,
        1 <= start,
        start + i * block_size(p.children as int, p.levels - level) <= 0xFFFF_FFFF,
    ensures
        parents_ok(ring_model(p, level, parent, start, i), parent, start),
    decreases p.levels - level, i,
{
    let c = p.children as int;
    let rem = p.levels - level;
    let b = block_size(c, rem);
    lemma_block_le(c, rem);
    if i <= 0 {
    } else {
        let s = ring_model(p, level, parent, start, i);
        let prev = ring_model(p, level, parent, start, i - 1);
        lemma_ring_len(p, level, parent, start, i - 1);
        assert((i - 1) * b + b == i * b) by (nonlinear_arith);
        assert(0 <= (i - 1) * b) by (nonlinear_arith)
            requires 0 <= i - 1, 0 < b;
        lemma_ring_parents(p, level, parent, start, i - 1);
        let node_idx = start + prev.len();
        assert(usize::MAX >= 0xFFFF_FFFF);
        assert((node_idx as usize) as int == node_idx);
        let node = child_branch(p, i - 1, (node_idx as usize) as usize);
        if level < p.levels {
            lemma_ring_len(p, level + 1, node_idx as usize, node_idx + 1, c);
            assert(b == 1 + c * block_size(c, rem - 1));
            lemma_ring_parents(p, level + 1, node_idx as usize, node_idx + 1, c);
            let sub = ring_model(p, level + 1, node_idx as usize, node_idx + 1, c);
            assert forall|k: int| 0 <= k < s.len() implies {
                &&& (#[trigger] s[k]).parent_idx is Some
                &&& (s[k].parent_idx->0 as int == parent as int || start <= s[k].parent_idx->0
                    as int)
                &&& (s[k].parent_idx->0 as int) < start + k
            } by {
                if k < prev.len() {
                    assert(s[k] == prev[k]);
                } else if k == prev.len() {
                    assert(s[k] == child_branch(p, i - 1, parent));
                } else {
                    assert(s[k] == sub[k - prev.len() - 1]);
                }
            }
        } else {
            assert forall|k: int| 0 <= k < s.len() implies {
                &&& (#[trigger] s[k]).parent_idx is Some
                &&& (s[k].parent_idx->0 as int == parent as int || start <= s[k].parent_idx->0
                    as int)
                &&& (s[k].parent_idx->0 as int) < start + k
            } by {
                if k < prev.len() {
                    assert(s[k] == prev[k]);
                } else if k == prev.len() {
                    assert(s[k] == child_branch(p, i - 1, parent));
                } else {
                    assert(s[k] == leaf_branch(node_idx as usize));
                }
            }
        }
    }
}

/// The generated skeleton is a well-formed pre-order tree: the root at
/// index 0 has no parent, and every other node's parent index is strictly
/// smaller than its own.
pub proof fn lemma_tree_parents(p: Params)
    requires
        2 <= p.children <= 6,
        1 <= p.levels <= 5,
    ensures
        tree_model(p).len() >= 1,
        tree_model(p)[0] == root_branch(),
        tree_model(p)[0].parent_idx is None,
        forall|k: int|
            1 <= k < tree_model(p).len() ==> (#[trigger] tree_model(p)[k]).parent_idx is Some && (
            tree_model(p)[k].parent_idx->0 as int) < k,
{
    let c = p.children as int;
    let rem = p.levels - 1;
    lemma_block_le(c, rem);
    assert(c * block_size(c, rem) <= 6 * 2851) by (nonlinear_arith)
        requires 0 < c <= 6, 0 < block_size(c, rem) <= 2851;
    lemma_ring_parents(p, 1, 0, 1, c);
    let ring = ring_model(p, 1, 0, 1, c);
    assert forall|k: int|
        1 <= k < tree_model(p).len() implies (#[trigger] tree_model(p)[k]).parent_idx is Some && (
        tree_model(p)[k].parent_idx->0 as int) < k by {
        assert(tree_model(p)[k] == ring[k - 1]);
    }
}

/// Each node's final tilt rotation: zero for the root and for leaves,
/// exactly the record's deviation angle for every branch.
pub open spec fn tilts_ok(s: Seq<Branch>, angle: int) -> bool {
    forall|k: int|
        0 <= k < s.len() ==> (#[trigger] s[k]).tr.tilt as int == (if s[k].is_leaf {
            0
        } else {
            angle
        })
}

proof fn lemma_ring_tilt(p: Params, level: int, parent: usize, start: int, i: int)
    ensures
        tilts_ok(ring_model(p, level, parent, start, i), p.angle_from_parent_branch as int),
    decreases p.levels - level, i,
{
    if i <= 0 || level < 1 || p.levels < level {
    } else {
        let s = ring_model(p, level, parent, start, i);
        let prev = ring_model(p, level, parent, start, i - 1);
        lemma_ring_tilt(p, level, parent, start, i - 1);
        let node_idx = start + prev.len();
        if level < p.levels {
            lemma_ring_tilt(p, level + 1, node_idx as usize, node_idx + 1, p.children as int);
            let sub = ring_model(p, level + 1, node_idx as usize, node_idx + 1, p.children as int);
            assert forall|k: int|
                0 <= k < s.len() implies (#[trigger] s[k]).tr.tilt as int == if s[k].is_leaf {
                0
            } else {
                p.angle_from_parent_branch as int
            } by {
                if k < prev.len() {
                    assert(s[k] == prev[k]);
                } else if k == prev.len() {
                    assert(s[k] == child_branch(p, i - 1, parent));
                } else {
                    assert(s[k] == sub[k - prev.len() - 1]);
                }
            }
        } else {
            assert forall|k: int|
                0 <= k < s.len() implies (#[trigger] s[k]).tr.tilt as int == if s[k].is_leaf {
                0
            } else {
                p.angle_from_parent_branch as int
            } by {
                if k < prev.len() {
                    assert(s[k] == prev[k]);
                } else if k == prev.len() {
                    assert(s[k] == child_branch(p, i - 1, parent));
                } else {
                    assert(s[k] == leaf_branch(node_idx as usize));
                }
            }
        }
    }
}

/// With a zero deviation angle, every node's tilt rotation is the
/// identity, so all branch axes stay parallel to the root's axis.
pub proof fn lemma_zero_angle_axes_parallel(p: Params)
    requires
        p.angle_from_parent_branch == 0,
    ensures
        forall|k: int| 0 <= k < tree_model(p).len() ==> (#[trigger] tree_model(p)[k]).tr.tilt == 0,
{
    lemma_ring_tilt(p, 1, 0, 1, p.children as int);
    let ring = ring_model(p, 1, 0, 1, p.children as int);
    assert forall|k: int|
        0 <= k < tree_model(p).len() implies (#[trigger] tree_model(p)[k]).tr.tilt == 0 by {
        if k >= 1 {
            assert(tree_model(p)[k] == ring[k - 1]);
        }
    }
}

/// Generation is a pure function of the record: two results that both
/// meet the generator's contract for the same record are structurally
/// identical, transform by transform, link by link, flag by flag.
pub proof fn lemma_generate_deterministic(p: Params, a: Seq<Branch>, b: Seq<Branch>)
    requires
        a == tree_model(p),
        b == tree_model(p),
    ensures
        a == b,
{
}

} // verus!
