use elderforge::handle::{BodyHandle, Handle};
use elderforge::physics::debug::DebugLayers;
use elderforge::physics::kinds::{BodyKind, JointKind, PhysicsError};
use elderforge::physics::store::BodyStore;
use elderforge::physics::union_find::UnionFind;
use elderforge::physics::sleeping::{contact_wake, update_sleeping, SleepBody, Wake};

#[test]
fn layers_any_reflects_toggles() {
    assert!(!DebugLayers::default().any());
    let mut l = DebugLayers::default();
    l.bvh_aabbs = true;
    assert!(l.any());
}

#[test]
fn every_single_layer_counts_for_any() {
    for k in 0..8 {
        let mut l = DebugLayers::default();
        match k {
            0 => l.collision_shapes = true,
            1 => l.velocity_vectors = true,
            2 => l.angular_velocity = true,
            3 => l.contact_points = true,
            4 => l.constraint_anchors = true,
            5 => l.bvh_aabbs = true,
            6 => l.sleep_state = true,
            _ => l.force_accumulators = true,
        }
        assert!(l.any());
    }
}

#[test]
fn physics_error_displays() {
    assert_eq!(
        PhysicsError::InvalidHandle.message(),
        "invalid or stale body handle"
    );
}

#[test]
fn body_handle_equality_includes_generation() {
    let a = BodyHandle::new(3, 0);
    let b = BodyHandle::new(3, 1);
    assert_ne!(a, b);
    assert_eq!(a, BodyHandle::new(3, 0));
    assert_eq!(a.index(), 3);
    assert_eq!(b.generation(), 1);
}

#[test]
fn kinds_compare_by_variant() {
    assert_eq!(BodyKind::Dynamic, BodyKind::Dynamic);
    assert_ne!(BodyKind::Static, BodyKind::Kinematic);
    assert_ne!(JointKind::Hinge, JointKind::Slider);
}

#[test]
fn add_and_fetch_body() {
    let mut world: BodyStore<&str> = BodyStore::new();
    let handle = world.add_rigid_body("ball");
    assert_eq!(world.body_count(), 1);
    assert!(world.body(handle).is_some());
    assert!(world.body_mut(handle).is_some());
}

#[test]
fn removed_handle_is_stale() {
    let mut world: BodyStore<&str> = BodyStore::new();
    let handle = world.add_rigid_body("ball");
    world.remove_rigid_body(handle).expect("first removal works");
    assert!(world.body(handle).is_none());
    assert_eq!(
        world.remove_rigid_body(handle),
        Err(PhysicsError::InvalidHandle)
    );
}

#[test]
fn store_reads_back_and_tombstones() {
    let mut store: BodyStore<u32> = BodyStore::new();
    let a = store.add_rigid_body(10);
    let b = store.add_rigid_body(20);
    assert_eq!(a, Handle::new(0, 0));
    assert_eq!(b, Handle::new(1, 0));
    assert_eq!(store.body(b), Some(&20));
    if let Some(v) = store.body_mut(a) {
        *v = 11;
    }
    assert_eq!(store.body(a), Some(&11));
    assert_eq!(store.index_of(b), Some(1));
    store.remove_rigid_body(a).unwrap();
    assert!(store.is_removed(0));
    assert!(!store.is_removed(1));
    assert_eq!(store.generations(), &[1, 0]);
    assert_eq!(store.bodies(), &[11, 20]);
    assert_eq!(store.index_of(a), None);
    assert_eq!(store.body(Handle::new(0, 1)), Some(&11));
    assert_eq!(store.body(Handle::new(7, 0)), None);
    assert_eq!(store.remove_rigid_body(Handle::new(9, 0)), Err(PhysicsError::InvalidHandle));
}

#[test]
fn union_find_groups_and_keeps_partition() {
    let mut uf = UnionFind::new(6);
    for i in 0..6 {
        assert_eq!(uf.find(i), i);
    }
    uf.union(0, 1);
    uf.union(2, 3);
    uf.union(1, 3);
    assert_eq!(uf.find(0), uf.find(2));
    assert_eq!(uf.find(3), uf.find(1));
    assert_ne!(uf.find(0), uf.find(4));
    assert_ne!(uf.find(4), uf.find(5));
    // Union puts a's set under b's representative.
    let rb = uf.find(5);
    uf.union(4, 5);
    assert_eq!(uf.find(4), rb);
}

fn body(dynamic: bool, sleeping: bool, quiet: bool, frames: u32) -> SleepBody {
    SleepBody { dynamic, sleeping, quiet, low_energy_frames: frames }
}

#[test]
fn quiet_body_sleeps_after_enough_frames() {
    let mut bodies = vec![body(true, false, true, 3)];
    update_sleeping(&mut bodies, &vec![], 5);
    assert_eq!(bodies[0].low_energy_frames, 4);
    assert!(!bodies[0].sleeping);
    update_sleeping(&mut bodies, &vec![], 5);
    assert_eq!(bodies[0].low_energy_frames, 5);
    assert!(bodies[0].sleeping);
}

#[test]
fn restless_body_resets_and_keeps_island_awake() {
    // Body 1 is restless; coupled to body 0, it keeps 0 awake (and wakes it).
    let mut bodies = vec![body(true, true, true, 100), body(true, false, false, 100), body(true, false, true, 100)];
    update_sleeping(&mut bodies, &vec![(0, 1)], 10);
    assert_eq!(bodies[1].low_energy_frames, 0);
    assert!(!bodies[0].sleeping, "a restless member wakes its island");
    assert!(!bodies[1].sleeping);
    assert!(bodies[2].sleeping, "an uncoupled quiet body sleeps on its own");
}

#[test]
fn static_links_do_not_join_islands() {
    // Body 1 is static: the pair (0, 1) and (1, 2) do not couple 0 and 2.
    let mut bodies = vec![body(true, false, false, 0), body(false, false, false, 7), body(true, false, true, 9)];
    update_sleeping(&mut bodies, &vec![(0, 1), (1, 2)], 10);
    assert!(!bodies[0].sleeping);
    assert!(bodies[2].sleeping);
    assert_eq!(bodies[1].low_energy_frames, 7);
    assert!(!bodies[1].sleeping);
}

#[test]
fn frame_counter_saturates() {
    let mut bodies = vec![body(true, true, false, u32::MAX)];
    update_sleeping(&mut bodies, &vec![], u32::MAX);
    assert_eq!(bodies[0].low_energy_frames, u32::MAX);
    assert!(bodies[0].sleeping);
}

#[test]
fn contact_wakes_only_a_sleeper_touched_by_an_awake_body() {
    assert_eq!(contact_wake(true, false), Wake::Lower);
    assert_eq!(contact_wake(false, true), Wake::Higher);
    assert_eq!(contact_wake(true, true), Wake::Neither);
    assert_eq!(contact_wake(false, false), Wake::Neither);
}

#[test]
fn bodies_mut_edits_in_place_without_touching_handles() {
    let mut store: BodyStore<u32> = BodyStore::new();
    let a = store.add_rigid_body(10);
    let b = store.add_rigid_body(20);
    store.remove_rigid_body(b).unwrap();
    for body in store.bodies_mut().iter_mut() {
        *body += 1;
    }
    assert_eq!(store.bodies(), &[11, 21]);
    assert_eq!(store.body(a), Some(&11));
    assert_eq!(store.body(b), None);
    assert!(store.is_removed(1));
    assert_eq!(store.generations(), &[0, 1]);
}

#[test]
fn one_generation_per_slot() {
    let mut store: BodyStore<u8> = BodyStore::new();
    assert_eq!(store.generations().len(), store.body_count());
    let h = store.add_rigid_body(1);
    store.add_rigid_body(2);
    store.remove_rigid_body(h).unwrap();
    assert_eq!(store.generations().len(), store.body_count());
    assert_eq!(store.body_count(), 2);
}
