use elderforge::physics::debug::{body_overlay, BodyOverlay, DebugLayers};
use elderforge::physics::pairs::{candidate_pairs, pair_needs_test, split_by_bounds};
use elderforge::physics::sleeping::{awake_count, SleepBody};
use elderforge::renderer::buffers::aligned_stride;
use elderforge::renderer::surface::{accepts_resize, pick_surface_format, surface_extent, targets_need_rebuild};

#[test]
fn split_skips_removed_and_separates_unbounded() {
    // Slot 1 is removed; slot 3 is a half-space (infinite box).
    let removed = vec![false, true, false, false, false];
    let finite = vec![true, true, true, false, true];
    let (bounded, unbounded) = split_by_bounds(&removed, &finite);
    assert_eq!(bounded, vec![0, 2, 4]);
    assert_eq!(unbounded, vec![3]);
}

#[test]
fn candidates_map_tree_positions_and_pair_unbounded_with_all_bounded() {
    let bounded = vec![0, 2, 4];
    let tree = vec![(0, 2), (1, 2)];
    let unbounded = vec![3, 5];
    let pairs = candidate_pairs(&bounded, &tree, &unbounded);
    assert_eq!(pairs, vec![(0, 4), (2, 4), (3, 0), (3, 2), (3, 4), (5, 0), (5, 2), (5, 4)]);
}

#[test]
fn candidate_pairs_join_distinct_live_bodies() {
    let removed = vec![false, false, true, false];
    let finite = vec![true, false, true, true];
    let (bounded, unbounded) = split_by_bounds(&removed, &finite);
    let tree = vec![(0, 1)];
    for (a, b) in candidate_pairs(&bounded, &tree, &unbounded) {
        assert_ne!(a, b);
        assert!(!removed[a] && !removed[b]);
        assert!(finite[b]);
    }
}

#[test]
fn no_candidates_without_bounded_bodies() {
    let pairs = candidate_pairs(&vec![], &vec![], &vec![7, 8]);
    assert!(pairs.is_empty());
}

#[test]
fn sleeping_pairs_and_self_pairs_are_not_tested() {
    assert!(pair_needs_test(0, 1, false, false));
    assert!(pair_needs_test(0, 1, true, false));
    assert!(pair_needs_test(0, 1, false, true));
    assert!(!pair_needs_test(0, 1, true, true));
    assert!(!pair_needs_test(2, 2, false, false));
}

#[test]
fn overlay_follows_layers_and_body_state() {
    let all = DebugLayers {
        collision_shapes: true,
        velocity_vectors: true,
        angular_velocity: true,
        contact_points: true,
        constraint_anchors: true,
        bvh_aabbs: true,
        sleep_state: true,
        force_accumulators: true,
    };
    let dynamic_awake = body_overlay(&all, true, true, false, true, true, true);
    assert_eq!(
        dynamic_awake,
        BodyOverlay { shape_wire: true, sleep_wire: true, velocity_arrow: true, spin_arc: true, force_arrow: true }
    );
    // A sleeping body shows no force arrow; a slow one no velocity arrow.
    let asleep_still = body_overlay(&all, true, true, true, false, true, true);
    assert!(!asleep_still.force_arrow && !asleep_still.velocity_arrow && asleep_still.spin_arc);
    // A static body only gets its shape wireframe.
    let fixed = body_overlay(&all, true, false, false, true, true, true);
    assert_eq!(
        fixed,
        BodyOverlay { shape_wire: true, sleep_wire: false, velocity_arrow: false, spin_arc: false, force_arrow: false }
    );
    // A removed body gets nothing.
    let gone = body_overlay(&all, false, false, false, true, true, true);
    assert!(!gone.shape_wire && !gone.sleep_wire);
}

#[test]
fn overlay_is_empty_with_no_layer_on() {
    let none = DebugLayers::default();
    assert!(!none.any());
    let o = body_overlay(&none, true, true, false, true, true, true);
    assert!(!o.shape_wire && !o.sleep_wire && !o.velocity_arrow && !o.spin_arc && !o.force_arrow);
}

#[test]
fn awake_count_counts_dynamic_awake_bodies_only() {
    let b = |dynamic, sleeping| SleepBody { dynamic, sleeping, quiet: false, low_energy_frames: 0 };
    let bodies = vec![b(true, false), b(true, true), b(false, false), b(true, false)];
    assert_eq!(awake_count(&bodies), 2);
    assert_eq!(awake_count(&vec![]), 0);
}

#[test]
fn stride_rounds_up_to_alignment() {
    assert_eq!(aligned_stride(64, 256), 256);
    assert_eq!(aligned_stride(64, 64), 64);
    assert_eq!(aligned_stride(65, 64), 128);
    assert_eq!(aligned_stride(0, 16), 0);
    assert_eq!(aligned_stride(7, 1), 7);
}

#[test]
fn surface_format_prefers_first_srgb() {
    assert_eq!(pick_surface_format(&vec![false, true, true]), Some(1));
    assert_eq!(pick_surface_format(&vec![false, false]), Some(0));
    assert_eq!(pick_surface_format(&vec![true]), Some(0));
    assert_eq!(pick_surface_format(&vec![]), None);
}

#[test]
fn surface_sizes_are_at_least_one_pixel() {
    assert_eq!(surface_extent(0, 0), (1, 1));
    assert_eq!(surface_extent(800, 0), (800, 1));
    assert_eq!(surface_extent(1600, 900), (1600, 900));
}

#[test]
fn minimized_windows_do_not_resize() {
    assert!(!accepts_resize(0, 600));
    assert!(!accepts_resize(800, 0));
    assert!(accepts_resize(800, 600));
    assert!(!targets_need_rebuild((800, 600), (800, 600)));
    assert!(!targets_need_rebuild((0, 600), (800, 600)));
    assert!(targets_need_rebuild((1024, 600), (800, 600)));
}

#[test]
fn settled_scene_has_no_awake_body() {
    let b = |dynamic, sleeping| SleepBody { dynamic, sleeping, quiet: true, low_energy_frames: 40 };
    let bodies = vec![b(true, true), b(false, false), b(true, true)];
    assert_eq!(awake_count(&bodies), 0);
}
