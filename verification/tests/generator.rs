use procedural_tree::params::Params;
use procedural_tree::tree::{generate, Branch};
use procedural_tree::fixed::FX_ONE;

fn shape(children: u8, levels: u8, ctf: i64, angle: i64, scale: i64) -> Params {
    Params {
        children,
        levels,
        child_translation_factor: ctf,
        angle_from_parent_branch: angle,
        child_scale: scale,
        base_radius: 150_000,
        leaf_radius: 400_000,
    }
}

fn check_tree_shape(tree: &[Branch]) {
    assert!(tree[0].parent_idx.is_none());
    assert!(!tree[0].is_leaf);
    for (k, b) in tree.iter().enumerate().skip(1) {
        let parent = b.parent_idx.expect("only the root lacks a parent");
        assert!(parent < k, "parents precede children in pre-order");
    }
}

fn expected_count(children: u64, levels: u32) -> usize {
    let branches: u64 = (0..=levels).map(|k| children.pow(k)).sum();
    (branches + children.pow(levels)) as usize
}

#[test]
fn counts_match_the_closed_formula() {
    for children in 3..=6u8 {
        for levels in 2..=5u8 {
            let p = shape(children, levels, 500_000, 800_000, 600_000);
            let tree = generate(&p);
            assert_eq!(tree.len(), expected_count(children as u64, levels as u32));
            check_tree_shape(&tree);
        }
    }
}

#[test]
fn largest_legal_tree() {
    let p = shape(6, 5, 1_000_000, 1_570_796, 800_000);
    let tree = generate(&p);
    assert_eq!(tree.len(), 17_107);
    check_tree_shape(&tree);
    let leaves = tree.iter().filter(|b| b.is_leaf).count();
    assert_eq!(leaves, 7_776);
}

#[test]
fn generation_is_pure() {
    let p = shape(4, 3, 250_000, 1_234_567, 654_321);
    let a = generate(&p);
    let b = generate(&p);
    assert_eq!(a, b);
}

#[test]
fn zero_angle_keeps_branch_axes_parallel() {
    // children=3, levels=2, full translation factor, no tilt.
    let p = shape(3, 2, 1_000_000, 0, 700_000);
    let tree = generate(&p);
    assert_eq!(tree.len(), 22);
    check_tree_shape(&tree);
    for b in tree.iter() {
        assert_eq!(b.tr.tilt, 0, "every tilt rotation is the identity");
    }
}

#[test]
fn root_node_is_the_identity() {
    let p = shape(3, 2, 1_000_000, 0, 700_000);
    let tree = generate(&p);
    let root = &tree[0];
    assert_eq!(root.tr.translation.x, 0);
    assert_eq!(root.tr.translation.y, 0);
    assert_eq!(root.tr.translation.z, 0);
    assert_eq!(root.tr.yaw, 0);
    assert_eq!(root.tr.tilt, 0);
    assert_eq!(root.tr.scale, FX_ONE);
}

#[test]
fn first_child_placement_with_zero_tilt() {
    // With a zero deviation angle and a full translation factor, the first
    // child keeps the fan angle zero, sits half a unit up plus half its
    // scaled height, and is pushed outward by exactly the branch radius.
    let p = shape(3, 2, 1_000_000, 0, 700_000);
    let tree = generate(&p);
    let c = &tree[1];
    assert_eq!(c.parent_idx, Some(0));
    assert!(!c.is_leaf);
    assert_eq!(c.tr.yaw, 0);
    assert_eq!(c.tr.scale, 700_000);
    assert_eq!(c.tr.translation.x, 0);
    assert_eq!(c.tr.translation.y, 850_000);
    assert_eq!(c.tr.translation.z, 150_000);
    // Its own first child carries the same local placement one level down.
    let gc = &tree[2];
    assert_eq!(gc.parent_idx, Some(1));
    assert_eq!(gc.tr, c.tr);
    // That grandchild is at the deepest level, so a single leaf follows it.
    let leaf = &tree[3];
    assert!(leaf.is_leaf);
    assert_eq!(leaf.parent_idx, Some(2));
    assert_eq!(leaf.tr.translation.x, 0);
    assert_eq!(leaf.tr.translation.y, FX_ONE);
    assert_eq!(leaf.tr.translation.z, 0);
    assert_eq!(leaf.tr.scale, FX_ONE);
}

#[test]
fn fan_angles_spread_evenly() {
    let p = shape(3, 2, 1_000_000, 0, 700_000);
    let tree = generate(&p);
    // The three children of the root sit at indices 1, 8 and 15: each
    // child is followed by its three grandchildren, each with a leaf.
    let yaws: Vec<i64> = [1usize, 8, 15].iter().map(|&k| tree[k].tr.yaw).collect();
    assert_eq!(yaws, vec![0, 2_094_395, 4_188_790]);
    for &k in &[1usize, 8, 15] {
        assert_eq!(tree[k].parent_idx, Some(0));
    }
}

#[test]
fn two_children_are_accepted() {
    // The generator's precondition asks only for more than one child per
    // node; two children make the smallest legal fan.
    let p = shape(2, 2, 500_000, 800_000, 600_000);
    let tree = generate(&p);
    assert_eq!(tree.len(), expected_count(2, 2));
    check_tree_shape(&tree);
}
