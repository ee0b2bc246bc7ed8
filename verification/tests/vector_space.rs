use procedural_tree::params::{
    step_with, Params, ParamsVector, ANGLE_MAX, NUM_PARAMS, PARAMS_VELOCITY_MAG,
};
use procedural_tree::fixed::FX_ONE;

fn default_params() -> Params {
    Params::default()
}

#[test]
fn default_record_fields() {
    let p = default_params();
    assert_eq!(p.children, 3);
    assert_eq!(p.levels, 1);
    assert_eq!(p.child_translation_factor, FX_ONE);
    assert_eq!(p.angle_from_parent_branch, ANGLE_MAX);
    assert_eq!(p.child_scale, 700_000);
    assert_eq!(p.base_radius, 150_000);
    assert_eq!(p.leaf_radius, 400_000);
}

#[test]
fn from_params_of_default_record() {
    let v = ParamsVector::from_params(&default_params());
    assert!(v.magnitude.is_none());
    assert_eq!(
        v.values,
        [-1_000_000, -1_666_666, 1_000_000, 1_000_000, 500_000, -500_000, 500_000]
    );
}

#[test]
fn round_trip_of_default_record() {
    // The default record sits outside the levels interval, yet the affine
    // maps recover it exactly after rounding.
    let p = default_params();
    let q = ParamsVector::from_params(&p).to_params();
    assert_eq!(p, q);
}

#[test]
fn round_trip_of_in_bounds_records() {
    let records = [
        Params {
            children: 4,
            levels: 3,
            child_translation_factor: 123_456,
            angle_from_parent_branch: 1_000_000,
            child_scale: 512_345,
            base_radius: 222_222,
            leaf_radius: 345_678,
        },
        Params {
            children: 6,
            levels: 5,
            child_translation_factor: 1_000_000,
            angle_from_parent_branch: 1_570_796,
            child_scale: 800_000,
            base_radius: 300_000,
            leaf_radius: 500_000,
        },
        Params {
            children: 3,
            levels: 2,
            child_translation_factor: 0,
            angle_from_parent_branch: 0,
            child_scale: 400_000,
            base_radius: 100_000,
            leaf_radius: 100_000,
        },
    ];
    for p in records {
        let q = ParamsVector::from_params(&p).to_params();
        assert_eq!(q.children, p.children);
        assert_eq!(q.levels, p.levels);
        // Fractional fields may lose at most one fixed-point unit, downward.
        assert!(p.child_translation_factor - q.child_translation_factor <= 1);
        assert!(q.child_translation_factor <= p.child_translation_factor);
        assert!(p.angle_from_parent_branch - q.angle_from_parent_branch <= 1);
        assert!(q.angle_from_parent_branch <= p.angle_from_parent_branch);
        assert!(p.child_scale - q.child_scale <= 1);
        assert!(q.child_scale <= p.child_scale);
        assert!(p.base_radius - q.base_radius <= 1);
        assert!(q.base_radius <= p.base_radius);
        assert!(p.leaf_radius - q.leaf_radius <= 1);
        assert!(q.leaf_radius <= p.leaf_radius);
    }
}

#[test]
fn to_params_at_interval_ends_and_middle() {
    let lo = ParamsVector { values: [-FX_ONE; NUM_PARAMS], magnitude: None };
    let p = lo.to_params();
    assert_eq!(p.children, 3);
    assert_eq!(p.levels, 2);
    assert_eq!(p.child_translation_factor, 0);
    assert_eq!(p.angle_from_parent_branch, 0);
    assert_eq!(p.child_scale, 400_000);
    assert_eq!(p.base_radius, 100_000);
    assert_eq!(p.leaf_radius, 100_000);

    let hi = ParamsVector { values: [FX_ONE; NUM_PARAMS], magnitude: None };
    let p = hi.to_params();
    assert_eq!(p.children, 6);
    assert_eq!(p.levels, 5);
    assert_eq!(p.child_translation_factor, 1_000_000);
    assert_eq!(p.angle_from_parent_branch, 1_570_796);
    assert_eq!(p.child_scale, 800_000);
    assert_eq!(p.base_radius, 300_000);
    assert_eq!(p.leaf_radius, 500_000);

    let mid = ParamsVector { values: [0; NUM_PARAMS], magnitude: None };
    let p = mid.to_params();
    // The two integer counts round half away from zero.
    assert_eq!(p.children, 5);
    assert_eq!(p.levels, 4);
    assert_eq!(p.child_translation_factor, 500_000);
    assert_eq!(p.angle_from_parent_branch, 785_398);
    assert_eq!(p.child_scale, 600_000);
    assert_eq!(p.base_radius, 200_000);
    assert_eq!(p.leaf_radius, 300_000);
}

#[test]
fn add_clamps_position_and_reflects_velocity() {
    // A position at the wall receiving a positive velocity component is
    // clamped and the velocity component's sign flips.
    let mut pos = ParamsVector { values: [FX_ONE, 0, 0, 0, 0, 0, 0], magnitude: None };
    let mut vel = ParamsVector {
        values: [100, 200, 0, 0, 0, 0, 0],
        magnitude: Some(PARAMS_VELOCITY_MAG),
    };
    pos.add(&mut vel);
    assert_eq!(pos.values, [FX_ONE, 200, 0, 0, 0, 0, 0]);
    assert_eq!(vel.values, [-100, 200, 0, 0, 0, 0, 0]);
    assert_eq!(vel.magnitude, Some(PARAMS_VELOCITY_MAG));

    // The lower wall reflects too.
    let mut pos = ParamsVector { values: [-FX_ONE, 0, 0, 0, 0, 0, 0], magnitude: None };
    let mut vel = ParamsVector { values: [-7, 0, 0, 0, 0, 0, 0], magnitude: Some(1) };
    pos.add(&mut vel);
    assert_eq!(pos.values[0], -FX_ONE);
    assert_eq!(vel.values[0], 7);
}

#[test]
fn add_on_velocity_never_clamps() {
    let mut a = ParamsVector { values: [FX_ONE, 0, 0, 0, 0, 0, 0], magnitude: Some(100) };
    let mut b = ParamsVector { values: [FX_ONE, 0, 0, 0, 0, 0, 0], magnitude: None };
    a.add(&mut b);
    assert_eq!(a.values[0], 2 * FX_ONE);
    assert_eq!(b.values[0], FX_ONE);
}

#[test]
fn nudge_with_axis_acceleration_keeps_magnitude_exactly() {
    // All-zero velocity of magnitude one half, nudged by an acceleration
    // along one axis: the result points along that axis with length
    // exactly one half.
    let mut vel = ParamsVector::default();
    assert_eq!(vel.magnitude, Some(500_000));
    vel.nudge_with(&[500_000, 0, 0, 0, 0, 0, 0]);
    assert_eq!(vel.values, [500_000, 0, 0, 0, 0, 0, 0]);
    let len2: f64 = vel.values.iter().map(|&v| (v as f64) * (v as f64)).sum();
    let len = len2.sqrt() / (FX_ONE as f64);
    assert!((len - 0.5).abs() < 1e-9);
}

#[test]
fn nudge_with_diagonal_acceleration_keeps_magnitude() {
    let mut vel = ParamsVector::default();
    vel.nudge_with(&[300_000, 400_000, 0, 0, 0, 0, 0]);
    assert_eq!(vel.values, [300_000, 400_000, 0, 0, 0, 0, 0]);
    let len2: f64 = vel.values.iter().map(|&v| (v as f64) * (v as f64)).sum();
    let len = len2.sqrt() / (FX_ONE as f64);
    assert!((len - 0.5).abs() < 1e-9);
}

#[test]
fn nudge_with_general_acceleration_keeps_magnitude_within_tolerance() {
    let mut vel = ParamsVector {
        values: [250_000, -433_013, 0, 0, 0, 0, 0],
        magnitude: Some(PARAMS_VELOCITY_MAG),
    };
    vel.nudge_with(&[123_456, -654_321, 77_777, -11_111, 999_999, 0, 42]);
    let len2: f64 = vel.values.iter().map(|&v| (v as f64) * (v as f64)).sum();
    let len = len2.sqrt() / (FX_ONE as f64);
    assert!((len - 0.5).abs() < 1e-4, "length {len} strays from one half");
}

#[test]
fn nudge_with_nearly_cancelling_sum_keeps_magnitude() {
    // A short velocity met by a draw that almost cancels it leaves a sum
    // only a few units long; the guard digits in renormalization must
    // still bring it back to the configured speed.
    let mut vel = ParamsVector {
        values: [-18_897; NUM_PARAMS],
        magnitude: Some(PARAMS_VELOCITY_MAG),
    };
    vel.nudge_with(&[FX_ONE; NUM_PARAMS]);
    let len2: f64 = vel.values.iter().map(|&v| (v as f64) * (v as f64)).sum();
    let len = len2.sqrt() / (FX_ONE as f64);
    assert!((len - 0.5).abs() < 1e-4, "length {len} strays from one half");
}

#[test]
fn nudge_with_tiny_velocity_keeps_magnitude() {
    let mut vel = ParamsVector { values: [1, 0, -1, 0, 1, 0, 0], magnitude: Some(250_000) };
    vel.nudge_with(&[0, 0, 0, 0, 0, 0, 1]);
    let len2: f64 = vel.values.iter().map(|&v| (v as f64) * (v as f64)).sum();
    let len = len2.sqrt() / (FX_ONE as f64);
    assert!((len - 0.25).abs() < 1e-4, "length {len} strays from one quarter");
}

#[test]
fn nudge_with_zero_draw_leaves_velocity_unchanged() {
    let mut vel = ParamsVector {
        values: [1, 2, 3, 4, 5, 6, 7],
        magnitude: Some(PARAMS_VELOCITY_MAG),
    };
    vel.nudge_with(&[0; NUM_PARAMS]);
    assert_eq!(vel.values, [1, 2, 3, 4, 5, 6, 7]);
    assert_eq!(vel.magnitude, Some(PARAMS_VELOCITY_MAG));
}

#[test]
fn nudge_draws_and_keeps_invariants() {
    let mut vel = ParamsVector::default();
    for _ in 0..50 {
        vel.nudge();
        assert_eq!(vel.magnitude, Some(PARAMS_VELOCITY_MAG));
        for &v in vel.values.iter() {
            assert!(-FX_ONE <= v && v <= FX_ONE);
        }
    }
    // After a nudge from rest the velocity is no longer the zero vector
    // (a full all-zero draw would be required to keep it at rest).
    let len2: f64 = vel.values.iter().map(|&v| (v as f64) * (v as f64)).sum();
    let len = len2.sqrt() / (FX_ONE as f64);
    assert!((len - 0.5).abs() < 1e-4);
}

#[test]
fn step_with_walks_the_default_record() {
    let mut vel = ParamsVector::default();
    let p = default_params();
    let q = step_with(&mut vel, &p, &[500_000, 0, 0, 0, 0, 0, 0]);
    // The velocity points along the first axis; the out-of-bounds levels
    // component of the position is clamped at the lower wall.
    assert_eq!(vel.values, [500_000, 0, 0, 0, 0, 0, 0]);
    assert_eq!(q.children, 4);
    assert_eq!(q.levels, 2);
    assert_eq!(q.child_translation_factor, 1_000_000);
    assert_eq!(q.angle_from_parent_branch, 1_570_796);
    assert_eq!(q.child_scale, 700_000);
    assert_eq!(q.base_radius, 150_000);
    assert_eq!(q.leaf_radius, 400_000);
}

#[test]
fn step_always_returns_records_within_bounds() {
    let mut vel = ParamsVector::default();
    let mut p = default_params();
    for _ in 0..100 {
        p = procedural_tree::params::step(&mut vel, &p);
        assert!(3 <= p.children && p.children <= 6);
        assert!(2 <= p.levels && p.levels <= 5);
        assert!(0 <= p.child_translation_factor && p.child_translation_factor <= 1_000_000);
        assert!(0 <= p.angle_from_parent_branch && p.angle_from_parent_branch <= 1_570_796);
        assert!(400_000 <= p.child_scale && p.child_scale <= 800_000);
        assert!(100_000 <= p.base_radius && p.base_radius <= 300_000);
        assert!(100_000 <= p.leaf_radius && p.leaf_radius <= 500_000);
        assert_eq!(vel.magnitude, Some(PARAMS_VELOCITY_MAG));
    }
}
