use fluid_sim::collidable::{
    calculate_collision_forces_of_intersecting_particles,
    calculate_new_centers_for_intersecting_particles, velocity_change_to_force,
    CollidableParticle,
};
use fluid_sim::collisions::{
    apply_collisions, apply_collisions_single_threaded, apply_resolutions, candidate_pairs,
    resolve_candidate, resolve_candidates, CollisionResolution,
};
use fluid_sim::handle::Handle;
use fluid_sim::pairs::UnorderedEntitiesPair;
use fluid_sim::particle::{Acceleration, FluidParticle, Forces, Mass, Particle, Velocity};
use fluid_sim::performance_monitor::CollisionDetectionMonitor;
use fluid_sim::position_hashing::PositionHashMap;
use fluid_sim::registry::Registry;
use fluid_sim::vector::Vector2;

fn disc(x: i64, y: i64, vx: i64, vy: i64, mass: i64, restitution: i64) -> CollidableParticle {
    CollidableParticle {
        particle_center: Vector2::new(x, y),
        particle: FluidParticle { radius: 5, restitution_coeff: restitution },
        mass: Mass(mass),
        velocity: Velocity(Vector2::new(vx, vy)),
    }
}

fn body(x: i64, y: i64, vx: i64, vy: i64) -> Particle {
    Particle {
        particle: FluidParticle { radius: 5, restitution_coeff: 1000 },
        position: Vector2::new(x, y),
        mass: Mass(1),
        velocity: Velocity(Vector2::new(vx, vy)),
        acceleration: Acceleration(Vector2::zero()),
        forces: Forces(vec![]),
    }
}

fn handle(index: u32) -> Handle {
    Handle { index, generation: 0 }
}

#[test]
fn handle_is_ordered_by_generation_then_index() {
    assert_eq!(Handle { index: 7, generation: 0 }.to_bits(), 7);
    assert_eq!(Handle { index: 7, generation: 2 }.to_bits(), (2u64 << 32) + 7);
    assert_eq!(Handle::from_bits((5u64 << 32) + 9), Handle { index: 9, generation: 5 });
    assert!(Handle { index: 0, generation: 1 }.to_bits() > Handle { index: 9, generation: 0 }.to_bits());
}

#[test]
fn unordered_pair_is_the_same_both_ways() {
    let a = Handle { index: 3, generation: 0 };
    let b = Handle { index: 1, generation: 1 };
    assert_eq!(UnorderedEntitiesPair::new(a, b), UnorderedEntitiesPair::new(b, a));
    assert_eq!(UnorderedEntitiesPair::new(a, b).entities, (a, b));
    assert_eq!(UnorderedEntitiesPair::new(b, b).entities, (b, b));
}

#[test]
fn particles_of_one_cell_are_paired_once_each() {
    let mut grid = PositionHashMap::new(10, 0, 30, 0, 30);
    for index in 0..5 {
        grid.insert(Vector2::new(15, 15), 2, handle(index));
    }
    let pairs = candidate_pairs(&grid, 0, 3);
    assert_eq!(pairs.len(), 10);
    assert_eq!(
        pairs,
        vec![
            (handle(0), handle(1)),
            (handle(0), handle(2)),
            (handle(0), handle(3)),
            (handle(0), handle(4)),
            (handle(1), handle(2)),
            (handle(1), handle(3)),
            (handle(1), handle(4)),
            (handle(2), handle(3)),
            (handle(2), handle(4)),
            (handle(3), handle(4)),
        ]
    );
}

#[test]
fn particles_that_share_several_cells_are_paired_once() {
    let mut grid = PositionHashMap::new(10, 0, 30, 0, 30);
    grid.insert(Vector2::new(10, 10), 3, handle(0));
    grid.insert(Vector2::new(11, 11), 3, handle(1));
    grid.insert(Vector2::new(25, 25), 2, handle(2));
    assert_eq!(grid.cells_idxs_of(Vector2::new(10, 10), 3).len(), 4);
    let pairs = candidate_pairs(&grid, 0, 3);
    assert_eq!(pairs, vec![(handle(0), handle(1))]);
}

#[test]
fn pairs_of_a_slice_come_from_its_columns_only() {
    let mut grid = PositionHashMap::new(10, 0, 30, 0, 30);
    grid.insert(Vector2::new(5, 5), 2, handle(0));
    grid.insert(Vector2::new(5, 5), 2, handle(1));
    grid.insert(Vector2::new(25, 5), 2, handle(2));
    grid.insert(Vector2::new(25, 5), 2, handle(3));
    assert_eq!(candidate_pairs(&grid, 0, 1), vec![(handle(0), handle(1))]);
    assert_eq!(candidate_pairs(&grid, 1, 2), vec![]);
    assert_eq!(candidate_pairs(&grid, 2, 3), vec![(handle(2), handle(3))]);
    assert_eq!(candidate_pairs(&grid, 0, 3).len(), 2);
}

#[test]
fn a_handle_listed_twice_is_not_paired_with_itself() {
    let mut grid = PositionHashMap::new(10, 0, 30, 0, 30);
    grid.insert(Vector2::new(5, 5), 2, handle(0));
    grid.insert(Vector2::new(5, 5), 2, handle(0));
    grid.insert(Vector2::new(5, 5), 2, handle(1));
    assert_eq!(candidate_pairs(&grid, 0, 3), vec![(handle(0), handle(1))]);
}

#[test]
fn discs_collide_when_no_further_apart_than_their_radii() {
    let a = disc(0, 0, 0, 0, 1, 1000);
    assert!(a.is_colliding(&disc(6, 8, 0, 0, 1, 1000)));
    assert!(a.is_colliding(&disc(10, 0, 0, 0, 1, 1000)));
    assert!(!a.is_colliding(&disc(10, 1, 0, 0, 1, 1000)));
    assert!(!a.is_colliding(&disc(-8, -7, 0, 0, 1, 1000)));
    assert!(a.is_colliding(&disc(0, 0, 0, 0, 1, 1000)));
}

#[test]
fn elastic_equal_masses_exchange_velocities_head_on() {
    let a = disc(-5, 0, 5, 0, 1, 1000);
    let b = disc(5, 0, -5, 0, 1, 1000);
    assert!(!a.is_moving_together_towards(&b));
    let (va, vb) = a.velocities_after_collision_with(&b);
    assert_eq!(va, Vector2::new(-5, 0));
    assert_eq!(vb, Vector2::new(5, 0));
}

#[test]
fn elastic_equal_masses_keep_the_part_across_the_line() {
    let a = disc(0, 0, 25, 0, 1, 1000);
    let b = disc(3, 4, 0, 0, 1, 1000);
    let (va, vb) = a.velocities_after_collision_with(&b);
    assert_eq!(va, Vector2::new(16, -12));
    assert_eq!(vb, Vector2::new(9, 12));
    assert_eq!(va.x * 3 + va.y * 4, 0);
}

#[test]
fn inelastic_particles_leave_with_a_common_velocity() {
    let a = disc(-5, 0, 4, 0, 1, 0);
    let b = disc(5, 0, -2, 0, 1, 0);
    let (va, vb) = a.velocities_after_collision_with(&b);
    assert_eq!(va, Vector2::new(1, 0));
    assert_eq!(vb, Vector2::new(1, 0));
    let heavy = disc(-5, 0, 4, 3, 3, 0);
    let light = disc(5, 0, -4, -1, 1, 0);
    let (vh, vl) = heavy.velocities_after_collision_with(&light);
    assert_eq!(vh, Vector2::new(2, 3));
    assert_eq!(vl, Vector2::new(2, -1));
}

#[test]
fn unequal_masses_rebound_by_the_usual_formula() {
    let heavy = disc(-5, 0, 2, 0, 3, 1000);
    let light = disc(5, 0, -2, 0, 1, 1000);
    let (vh, vl) = heavy.velocities_after_collision_with(&light);
    assert_eq!(vh, Vector2::new(0, 0));
    assert_eq!(vl, Vector2::new(4, 0));
    let half = disc(-5, 0, 8, 0, 1, 500);
    let other = disc(5, 0, 0, 0, 1, 500);
    let (v1, v2) = half.velocities_after_collision_with(&other);
    assert_eq!(v1, Vector2::new(2, 0));
    assert_eq!(v2, Vector2::new(6, 0));
}

#[test]
fn particles_that_part_keep_their_velocities() {
    let a = disc(-4, 0, -5, 1, 1, 1000);
    let b = disc(4, 0, 5, 2, 1, 1000);
    assert!(a.is_moving_together_towards(&b));
    let (va, vb) = a.velocities_after_collision_with(&b);
    assert_eq!(va, Vector2::new(-5, 1));
    assert_eq!(vb, Vector2::new(5, 2));
    let resting = disc(4, 0, -5, 7, 1, 1000);
    assert!(a.is_moving_together_towards(&resting));
}

#[test]
fn collision_forces_turn_the_change_of_velocity_into_a_force() {
    let a = disc(-5, 0, 5, 0, 1, 1000);
    let b = disc(5, 0, -5, 0, 1, 1000);
    let (fa, fb) = calculate_collision_forces_of_intersecting_particles(200_000, a, b);
    assert_eq!(fa, Vector2::new(-50, 0));
    assert_eq!(fb, Vector2::new(50, 0));
    let soft = disc(-5, 0, 8, 0, 2, 500);
    let other = disc(5, 0, 0, 0, 2, 500);
    let (f1, f2) = calculate_collision_forces_of_intersecting_particles(1_000_000, soft, other);
    assert_eq!(f1, Vector2::new(-6, 0));
    assert_eq!(f2, Vector2::new(6, 0));
}

#[test]
fn a_tick_of_no_duration_has_no_collision_forces() {
    let a = disc(-5, 0, 5, 0, 1, 1000);
    let b = disc(5, 0, -5, 0, 1, 1000);
    let (fa, fb) = calculate_collision_forces_of_intersecting_particles(0, a, b);
    assert_eq!(fa, Vector2::zero());
    assert_eq!(fb, Vector2::zero());
}

#[test]
fn force_from_a_change_of_velocity() {
    assert_eq!(velocity_change_to_force(2, -20, 500, 1_000_000), -20);
    assert_eq!(velocity_change_to_force(1, 7, 1000, 3_000_000), 2);
    assert_eq!(velocity_change_to_force(1, -7, 1000, 3_000_000), -2);
    assert_eq!(velocity_change_to_force(3, 100, 0, 1000), 0);
    assert_eq!(
        velocity_change_to_force(1 << 20, 10 << 30, 1000, 1),
        1 << 62
    );
}

#[test]
fn overlapping_discs_are_pushed_apart_to_touch() {
    let a = disc(-1, 0, 0, 0, 1, 1000);
    let b = disc(1, 0, 0, 0, 1, 1000);
    let (ca, cb) = calculate_new_centers_for_intersecting_particles(a, b);
    assert_eq!(ca, Vector2::new(-5, 0));
    assert_eq!(cb, Vector2::new(5, 0));
    let c = disc(0, 0, 0, 0, 1, 1000);
    let d = disc(3, 4, 0, 0, 1, 1000);
    let (cc, cd) = calculate_new_centers_for_intersecting_particles(c, d);
    assert_eq!(cc, Vector2::new(-1, -2));
    assert_eq!(cd, Vector2::new(5, 6));
    assert_eq!((cd.x - cc.x) * (cd.x - cc.x) + (cd.y - cc.y) * (cd.y - cc.y), 100);
}

#[test]
fn discs_that_almost_coincide_are_pushed_apart_to_touch() {
    let a = disc(0, 0, 0, 0, 1, 1000);
    let b = disc(1, 1, 0, 0, 1, 1000);
    let (ca, cb) = calculate_new_centers_for_intersecting_particles(a, b);
    assert_eq!(ca, Vector2::new(-3, -3));
    assert_eq!(cb, Vector2::new(5, 5));
    let c = disc(0, 0, 0, 0, 1, 1000);
    let d = disc(0, -1, 0, 0, 1, 1000);
    let (cc, cd) = calculate_new_centers_for_intersecting_particles(c, d);
    assert_eq!(cc, Vector2::new(0, 4));
    assert_eq!(cd, Vector2::new(0, -6));
}

#[test]
fn the_heavier_disc_moves_less() {
    let heavy = disc(-1, 0, 0, 0, 3, 1000);
    let light = disc(1, 0, 0, 0, 1, 1000);
    let (ch, cl) = calculate_new_centers_for_intersecting_particles(heavy, light);
    assert_eq!(ch, Vector2::new(-3, 0));
    assert_eq!(cl, Vector2::new(7, 0));
}

#[test]
fn discs_at_the_same_place_part_along_the_x_axis() {
    let a = disc(2, 3, 0, 0, 1, 1000);
    let b = disc(2, 3, 0, 0, 1, 1000);
    let (ca, cb) = calculate_new_centers_for_intersecting_particles(a, b);
    assert_eq!(ca, Vector2::new(-3, 3));
    assert_eq!(cb, Vector2::new(7, 3));
}

#[test]
fn separated_discs_never_overlap() {
    for x in -10..=10i64 {
        for y in -10..=10i64 {
            let a = disc(0, 0, 0, 0, 2, 1000);
            let b = disc(x, y, 0, 0, 3, 1000);
            if a.is_colliding(&b) {
                let (ca, cb) = calculate_new_centers_for_intersecting_particles(a, b);
                let dx = cb.x - ca.x;
                let dy = cb.y - ca.y;
                assert!(dx * dx + dy * dy >= 100, "({x}, {y})");
                assert!(dx * dx + dy * dy <= 12 * 12, "({x}, {y})");
            }
        }
    }
}

#[test]
fn a_colliding_pair_gets_its_forces_and_is_pushed_apart() {
    let mut registry = Registry::new();
    let first = registry.spawn(body(-1, 0, 5, 0)).unwrap();
    let second = registry.spawn(body(1, 0, -5, 0)).unwrap();
    assert!(resolve_candidate(&mut registry, (first, second), 1_000_000));
    assert_eq!(registry.slots[0].body.forces.0, vec![Vector2::new(-10, 0)]);
    assert_eq!(registry.slots[1].body.forces.0, vec![Vector2::new(10, 0)]);
    assert_eq!(registry.slots[0].body.position, Vector2::new(-5, 0));
    assert_eq!(registry.slots[1].body.position, Vector2::new(5, 0));
    assert_eq!(registry.slots[0].body.velocity.0, Vector2::new(5, 0));
}

#[test]
fn a_pair_that_does_not_touch_is_left_alone() {
    let mut registry = Registry::new();
    let first = registry.spawn(body(-6, 0, 5, 0)).unwrap();
    let second = registry.spawn(body(6, 0, -5, 0)).unwrap();
    assert!(!resolve_candidate(&mut registry, (first, second), 1_000_000));
    assert!(registry.slots[0].body.forces.0.is_empty());
    assert_eq!(registry.slots[0].body.position, Vector2::new(-6, 0));
    let missing = Handle { index: 9, generation: 0 };
    assert!(!resolve_candidate(&mut registry, (first, missing), 1_000_000));
    assert!(!resolve_candidate(&mut registry, (first, first), 1_000_000));
}

#[test]
fn a_pair_at_rest_is_pushed_apart_without_force() {
    let mut registry = Registry::new();
    let first = registry.spawn(body(-1, 0, 0, 0)).unwrap();
    let second = registry.spawn(body(1, 0, 0, 0)).unwrap();
    assert!(resolve_candidate(&mut registry, (first, second), 1_000_000));
    assert!(registry.slots[0].body.forces.0.is_empty());
    assert!(registry.slots[1].body.forces.0.is_empty());
    assert_eq!(registry.slots[0].body.position, Vector2::new(-5, 0));
    assert_eq!(registry.slots[1].body.position, Vector2::new(5, 0));
}

fn three_in_a_row() -> (Registry, PositionHashMap) {
    let mut registry = Registry::new();
    let mut grid = PositionHashMap::new(40, -80, 80, -40, 40);
    for (x, vx) in [(2, 2), (10, 0), (18, -2)] {
        let made = registry.spawn(body(x, 0, vx, 0)).unwrap();
        grid.insert(Vector2::new(x, 0), 5, made);
    }
    (registry, grid)
}

#[test]
fn collisions_judge_every_pair_by_the_state_before_the_pass() {
    let (mut registry, grid) = three_in_a_row();
    let mut monitor =
        CollisionDetectionMonitor { duration_micros: 17, checked_pairs: 0, colliding_pairs: 0 };
    apply_collisions(&mut monitor, &grid, 1_000_000, &mut registry);
    assert_eq!(monitor.checked_pairs, 3);
    assert_eq!(monitor.colliding_pairs, 2);
    assert_eq!(monitor.duration_micros, 17);
    assert_eq!(registry.slots[0].body.forces.0, vec![Vector2::new(-2, 0)]);
    assert_eq!(registry.slots[1].body.forces.0, vec![Vector2::new(2, 0), Vector2::new(-2, 0)]);
    assert_eq!(registry.slots[2].body.forces.0, vec![Vector2::new(2, 0)]);
    assert_eq!(registry.slots[0].body.position, Vector2::new(1, 0));
    assert_eq!(registry.slots[1].body.position, Vector2::new(9, 0));
    assert_eq!(registry.slots[2].body.position, Vector2::new(19, 0));
    for slot in registry.slots.iter() {
        assert_eq!(slot.body.acceleration.0, Vector2::zero());
    }
    assert_eq!(registry.slots[0].body.velocity.0, Vector2::new(2, 0));
}

#[test]
fn single_threaded_collisions_let_each_pair_see_the_ones_before() {
    let (mut registry, grid) = three_in_a_row();
    let mut monitor = CollisionDetectionMonitor::new();
    apply_collisions_single_threaded(&mut monitor, &grid, 1_000_000, &mut registry);
    assert_eq!(monitor.checked_pairs, 3);
    assert_eq!(monitor.colliding_pairs, 2);
    assert_eq!(registry.slots[0].body.position, Vector2::new(1, 0));
    assert_eq!(registry.slots[1].body.position, Vector2::new(10, 0));
    assert_eq!(registry.slots[2].body.position, Vector2::new(20, 0));
    assert_eq!(registry.slots[0].body.forces.0, vec![Vector2::new(-2, 0)]);
    assert_eq!(registry.slots[2].body.forces.0, vec![Vector2::new(2, 0)]);
    assert_eq!(registry.slots[1].body.forces.0, vec![Vector2::new(2, 0), Vector2::new(-2, 0)]);
}

#[test]
fn collisions_of_a_tick_of_no_duration_change_nothing() {
    let (mut registry, grid) = three_in_a_row();
    let mut monitor =
        CollisionDetectionMonitor { duration_micros: 3, checked_pairs: 4, colliding_pairs: 5 };
    apply_collisions(&mut monitor, &grid, 0, &mut registry);
    apply_collisions_single_threaded(&mut monitor, &grid, 0, &mut registry);
    assert_eq!(
        monitor,
        CollisionDetectionMonitor { duration_micros: 3, checked_pairs: 4, colliding_pairs: 5 }
    );
    for (slot, x) in registry.slots.iter().zip([2, 10, 18]) {
        assert_eq!(slot.body.position, Vector2::new(x, 0));
        assert!(slot.body.forces.0.is_empty());
    }
}

#[test]
fn resolutions_name_both_particles_of_each_collision() {
    let (registry, grid) = three_in_a_row();
    let pairs = candidate_pairs(&grid, 0, 4);
    let resolutions = resolve_candidates(&pairs, &registry, 1_000_000);
    assert_eq!(resolutions.len(), 4);
    let first = Handle { index: 0, generation: 0 };
    let second = Handle { index: 1, generation: 0 };
    assert_eq!(resolutions[0].entity, first);
    assert_eq!(resolutions[0].pair, (first, second));
    assert_eq!(resolutions[0].new_force, Vector2::new(-2, 0));
    assert_eq!(resolutions[0].new_position, Vector2::new(1, 0));
    assert_eq!(resolutions[1].entity, second);
    assert_eq!(resolutions[1].pair, (first, second));
    assert_eq!(resolutions[1].new_position, Vector2::new(11, 0));
    assert_eq!(resolutions[2].entity, second);
    assert_eq!(resolutions[2].new_position, Vector2::new(9, 0));
    assert_eq!(resolutions[3].entity, Handle { index: 2, generation: 0 });
    assert_eq!(resolutions[3].pair, (second, Handle { index: 2, generation: 0 }));
    assert!(registry.slots[0].body.forces.0.is_empty());
}

#[test]
fn a_repeated_resolution_is_applied_once() {
    let mut registry = Registry::new();
    let first = registry.spawn(body(-1, 0, 0, 0)).unwrap();
    let second = registry.spawn(body(1, 0, 0, 0)).unwrap();
    let gone = Handle { index: 5, generation: 0 };
    let resolutions = vec![
        CollisionResolution::new(first, second, Vector2::new(3, 4), Vector2::new(-5, 0)),
        CollisionResolution::new(second, first, Vector2::new(-3, -4), Vector2::new(5, 0)),
        CollisionResolution::new(first, second, Vector2::new(30, 40), Vector2::new(-50, 0)),
        CollisionResolution::new(gone, first, Vector2::new(1, 1), Vector2::new(0, 0)),
        CollisionResolution::new(first, gone, Vector2::new(0, 0), Vector2::new(-7, 1)),
    ];
    apply_resolutions(&mut registry, &resolutions);
    assert_eq!(registry.slots[0].body.forces.0, vec![Vector2::new(3, 4)]);
    assert_eq!(registry.slots[1].body.forces.0, vec![Vector2::new(-3, -4)]);
    assert_eq!(registry.slots[0].body.position, Vector2::new(-7, 1));
    assert_eq!(registry.slots[1].body.position, Vector2::new(5, 0));
}

fn two_across_a_border() -> (Registry, PositionHashMap) {
    let mut registry = Registry::new();
    let mut grid = PositionHashMap::new(40, -80, 80, -40, 40);
    for (x, vx) in [(38, 3), (42, -3)] {
        let made = registry.spawn(body(x, 20, vx, 0)).unwrap();
        grid.insert(Vector2::new(x, 20), 5, made);
    }
    (registry, grid)
}

#[test]
fn slices_that_find_the_same_pair_merge_into_one_collision() {
    let (mut whole, grid) = two_across_a_border();
    let mut monitor = CollisionDetectionMonitor::new();
    apply_collisions(&mut monitor, &grid, 1_000_000, &mut whole);
    assert_eq!(monitor.checked_pairs, 1);
    assert_eq!(monitor.colliding_pairs, 1);

    let (mut sliced, grid) = two_across_a_border();
    let left = candidate_pairs(&grid, 0, 3);
    let right = candidate_pairs(&grid, 3, 4);
    assert_eq!(left.len(), 1);
    assert_eq!(right.len(), 1);
    let mut resolutions = resolve_candidates(&left, &sliced, 1_000_000);
    resolutions.extend(resolve_candidates(&right, &sliced, 1_000_000));
    assert_eq!(resolutions.len(), 4);
    apply_resolutions(&mut sliced, &resolutions);

    for index in 0..2 {
        assert_eq!(sliced.slots[index].body.position, whole.slots[index].body.position);
        assert_eq!(sliced.slots[index].body.forces.0, whole.slots[index].body.forces.0);
    }
    assert_eq!(whole.slots[0].body.forces.0, vec![Vector2::new(-6, 0)]);
    assert_eq!(whole.slots[0].body.position, Vector2::new(35, 20));
    assert_eq!(whole.slots[1].body.position, Vector2::new(45, 20));
}
