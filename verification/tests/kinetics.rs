use fluid_sim::acceleration::{accelerate, accelerate_entities};
use fluid_sim::bounds::{calculate_collision_force, contain, enforce_bounds, Bounds};
use fluid_sim::forces::{apply_forces, net_acceleration};
use fluid_sim::gravity::apply_gravity;
use fluid_sim::numeric::{ceil_sqrt, clamp_i128, div_away_from_zero, div_toward_zero, floor_sqrt};
use fluid_sim::particle::{Acceleration, FluidParticle, Forces, Mass, Particle, Velocity};
use fluid_sim::registry::Registry;
use fluid_sim::vector::Vector2;
use fluid_sim::velocity::{advance, move_entities, velocity_to_force};

const BOUNDS: Bounds = Bounds { min_x: -400, max_x: 400, min_y: -200, max_y: 200 };

fn body(x: i64, y: i64, vx: i64, vy: i64, mass: i64, restitution: i64) -> Particle {
    Particle {
        particle: FluidParticle { radius: 5, restitution_coeff: restitution },
        position: Vector2::new(x, y),
        mass: Mass(mass),
        velocity: Velocity(Vector2::new(vx, vy)),
        acceleration: Acceleration(Vector2::zero()),
        forces: Forces(vec![]),
    }
}

fn registry_of(bodies: Vec<Particle>) -> Registry {
    let mut registry = Registry::new();
    for body in bodies {
        registry.spawn(body).unwrap();
    }
    registry
}

#[test]
fn division_rounds_toward_or_away_from_zero() {
    assert_eq!(div_toward_zero(7, 2), 3);
    assert_eq!(div_toward_zero(-7, 2), -3);
    assert_eq!(div_toward_zero(6, 2), 3);
    assert_eq!(div_toward_zero(0, 5), 0);
    assert_eq!(div_away_from_zero(7, 2), 4);
    assert_eq!(div_away_from_zero(-7, 2), -4);
    assert_eq!(div_away_from_zero(6, 2), 3);
    assert_eq!(div_away_from_zero(-6, 2), -3);
    assert_eq!(div_away_from_zero(0, 5), 0);
}

#[test]
fn clamp_moves_into_the_range_and_the_upper_bound_wins() {
    assert_eq!(clamp_i128(5, 0, 10), 5);
    assert_eq!(clamp_i128(-5, 0, 10), 0);
    assert_eq!(clamp_i128(15, 0, 10), 10);
    assert_eq!(clamp_i128(5, 10, 0), 0);
}

#[test]
fn square_roots_round_down_and_up() {
    for (n, down, up) in [(0u128, 0u64, 0u64), (1, 1, 1), (2, 1, 2), (24, 4, 5), (25, 5, 5), (26, 5, 6)] {
        assert_eq!(floor_sqrt(n), down);
        assert_eq!(ceil_sqrt(n), up);
    }
    assert_eq!(floor_sqrt((1u128 << 124) - 1), (1u64 << 62) - 1);
    assert_eq!(floor_sqrt(1u128 << 100), 1u64 << 50);
    assert_eq!(ceil_sqrt((1u128 << 100) + 1), (1u64 << 50) + 1);
}

#[test]
fn gravity_adds_the_weight_of_every_particle() {
    let mut registry = registry_of(vec![body(0, 0, 1, 2, 3, 1000), body(10, 0, 0, 0, 1, 0)]);
    registry.slots[0].body.forces.0.push(Vector2::new(7, 7));
    apply_gravity(10, &mut registry);
    assert_eq!(registry.slots[0].body.forces.0, vec![Vector2::new(7, 7), Vector2::new(0, -30)]);
    assert_eq!(registry.slots[1].body.forces.0, vec![Vector2::new(0, -10)]);
    assert_eq!(registry.slots[0].body.velocity.0, Vector2::new(1, 2));
}

#[test]
fn gravity_passes_over_an_empty_slot() {
    let mut registry = registry_of(vec![body(0, 0, 0, 0, 1, 0), body(10, 0, 0, 0, 1, 0)]);
    let first = fluid_sim::handle::Handle { index: 0, generation: 0 };
    assert!(registry.despawn(first));
    apply_gravity(10, &mut registry);
    assert!(registry.slots[0].body.forces.0.is_empty());
    assert_eq!(registry.slots[1].body.forces.0, vec![Vector2::new(0, -10)]);
}

#[test]
fn wall_force_turns_the_velocity_round() {
    let particle = FluidParticle { radius: 5, restitution_coeff: 500 };
    let force = calculate_collision_force(
        Vector2::new(398, 0),
        &particle,
        &Mass(2),
        &Velocity(Vector2::new(10, 3)),
        1_000_000,
        &BOUNDS,
    );
    assert_eq!(force, Vector2::new(-20, 0));
    let corner = calculate_collision_force(
        Vector2::new(-396, -196),
        &particle,
        &Mass(1),
        &Velocity(Vector2::new(-4, -6)),
        500_000,
        &BOUNDS,
    );
    assert_eq!(corner, Vector2::new(8, 12));
    let inside = calculate_collision_force(
        Vector2::new(395, 195),
        &particle,
        &Mass(1),
        &Velocity(Vector2::new(4, 6)),
        500_000,
        &BOUNDS,
    );
    assert_eq!(inside, Vector2::zero());
    let no_time = calculate_collision_force(
        Vector2::new(398, 0),
        &particle,
        &Mass(2),
        &Velocity(Vector2::new(10, 3)),
        0,
        &BOUNDS,
    );
    assert_eq!(no_time, Vector2::zero());
}

#[test]
fn a_coordinate_is_kept_one_radius_inside() {
    assert_eq!(contain(398, 5, -400, 400), 395);
    assert_eq!(contain(-500, 5, -400, 400), -395);
    assert_eq!(contain(12, 5, -400, 400), 12);
    assert_eq!(contain(0, 5, -3, 3), -2);
}

#[test]
fn a_particle_across_a_wall_is_pushed_back_and_moved_inside() {
    let mut registry = registry_of(vec![
        body(398, 0, 10, 3, 2, 500),
        body(0, 198, 10, 0, 2, 500),
        body(-399, -199, -1, -1, 1, 1000),
        body(100, 100, 50, 50, 1, 1000),
    ]);
    enforce_bounds(1_000_000, &BOUNDS, &mut registry);
    assert_eq!(registry.slots[0].body.forces.0, vec![Vector2::new(-20, 0)]);
    assert_eq!(registry.slots[0].body.position, Vector2::new(395, 0));
    assert_eq!(registry.slots[0].body.velocity.0, Vector2::new(10, 3));
    assert!(registry.slots[1].body.forces.0.is_empty());
    assert_eq!(registry.slots[1].body.position, Vector2::new(0, 198));
    assert_eq!(registry.slots[2].body.forces.0, vec![Vector2::new(2, 2)]);
    assert_eq!(registry.slots[2].body.position, Vector2::new(-395, -195));
    assert!(registry.slots[3].body.forces.0.is_empty());
    assert_eq!(registry.slots[3].body.position, Vector2::new(100, 100));
}

#[test]
fn the_walls_do_nothing_in_a_tick_of_no_duration() {
    let mut registry = registry_of(vec![body(398, 0, 10, 3, 2, 500)]);
    enforce_bounds(0, &BOUNDS, &mut registry);
    assert!(registry.slots[0].body.forces.0.is_empty());
    assert_eq!(registry.slots[0].body.position, Vector2::new(398, 0));
}

#[test]
fn forces_sum_up_to_an_acceleration() {
    let forces = vec![Vector2::new(10, -4), Vector2::new(-3, -5), Vector2::new(0, 2)];
    assert_eq!(net_acceleration(&forces, 2, 1000), Vector2::new(3, -3));
    assert_eq!(net_acceleration(&vec![], 2, 1000), Vector2::zero());
}

#[test]
fn an_acceleration_is_no_longer_than_the_largest() {
    assert_eq!(net_acceleration(&vec![Vector2::new(3000, 4000)], 1, 1000), Vector2::new(600, 800));
    assert_eq!(net_acceleration(&vec![Vector2::new(600, 800)], 1, 1000), Vector2::new(600, 800));
    assert_eq!(net_acceleration(&vec![Vector2::new(-3000, 0)], 1, 1000), Vector2::new(-1000, 0));
    let long = net_acceleration(&vec![Vector2::new(1001, 1001)], 1, 1000);
    assert_eq!(long, Vector2::new(706, 706));
    assert!(long.x * long.x + long.y * long.y <= 1000 * 1000);
    let huge = vec![Vector2::new(1 << 62, -(1 << 62)); 8];
    let cut = net_acceleration(&huge, 1, 1000);
    assert_eq!(cut, Vector2::new(707, -707));
    assert_eq!(net_acceleration(&vec![Vector2::new(5, 5)], 1, 0), Vector2::zero());
}

#[test]
fn reducing_the_forces_empties_them() {
    let mut registry = registry_of(vec![body(0, 0, 1, 1, 2, 1000)]);
    registry.slots[0].body.forces.0 = vec![Vector2::new(10, -4), Vector2::new(-3, -5)];
    apply_forces(1000, &mut registry);
    assert_eq!(registry.slots[0].body.acceleration.0, Vector2::new(3, -4));
    assert!(registry.slots[0].body.forces.0.is_empty());
    apply_forces(1000, &mut registry);
    assert_eq!(registry.slots[0].body.acceleration.0, Vector2::zero());
}

#[test]
fn acceleration_changes_the_velocity_in_proportion_to_the_time() {
    assert_eq!(accelerate(10, -3, 2_000_000), 4);
    assert_eq!(accelerate(10, -3, 500_000), 9);
    assert_eq!(accelerate(10, 3, 500_000), 11);
    assert_eq!(accelerate(10, -3, 0), 10);
    assert_eq!(accelerate(1 << 30, 1 << 30, 1_000_000), 1 << 30);
    assert_eq!(accelerate(-(1 << 30), -5, 1_000_000), -(1 << 30));
    let mut registry = registry_of(vec![body(0, 0, 1, 1, 2, 1000)]);
    registry.slots[0].body.acceleration = Acceleration(Vector2::new(4, -6));
    accelerate_entities(500_000, &mut registry);
    assert_eq!(registry.slots[0].body.velocity.0, Vector2::new(3, -2));
    assert_eq!(registry.slots[0].body.position, Vector2::new(0, 0));
}

#[test]
fn velocity_changes_the_position_in_proportion_to_the_time() {
    assert_eq!(advance(0, 7, 500_000, 40, 5, -400, 400), 140);
    assert_eq!(advance(0, -7, 500_000, 40, 5, -400, 400), -140);
    assert_eq!(advance(3, 1, 10_000, 40, 5, -400, 400), 3);
    assert_eq!(advance(390, 7, 500_000, 40, 5, -400, 400), 395);
    assert_eq!(advance(398, 0, 0, 40, 5, -400, 400), 395);
    let mut registry = registry_of(vec![body(0, 0, 2, -3, 2, 1000), body(0, 190, 0, 1, 1, 1000)]);
    move_entities(1_000_000, &BOUNDS, 40, &mut registry);
    assert_eq!(registry.slots[0].body.position, Vector2::new(80, -120));
    assert_eq!(registry.slots[1].body.position, Vector2::new(0, 195));
    assert_eq!(registry.slots[0].body.velocity.0, Vector2::new(2, -3));
}

#[test]
fn force_that_gives_a_velocity() {
    assert_eq!(velocity_to_force(2, Vector2::new(3, -4), 500_000), Vector2::new(12, -16));
    assert_eq!(velocity_to_force(1, Vector2::new(1, 0), 3_000_000), Vector2::zero());
}

#[test]
fn validity_is_checked_quantity_by_quantity() {
    assert!(body(0, 0, 0, 0, 1, 1000).is_valid());
    assert!(!body(0, 0, 0, 0, 0, 1000).is_valid());
    assert!(!body(0, 0, 0, 0, 1, 1001).is_valid());
    assert!(!body((1 << 30) + 1, 0, 0, 0, 1, 0).is_valid());
    assert!(!body(0, 0, 0, -(1 << 30) - 1, 1, 0).is_valid());
    let mut pressed = body(0, 0, 0, 0, 1, 0);
    pressed.forces.0.push(Vector2::new(1 << 62, -(1 << 62)));
    assert!(pressed.is_valid());
    pressed.forces.0.push(Vector2::new((1 << 62) + 1, 0));
    assert!(!pressed.is_valid());
    assert!(BOUNDS.is_valid());
    assert!(!Bounds { min_x: 1, max_x: 0, ..BOUNDS }.is_valid());
    assert!(!Bounds { max_y: (1 << 29) + 1, ..BOUNDS }.is_valid());
    let mut registry = registry_of(vec![body(0, 0, 0, 0, 1, 1000)]);
    assert!(registry.is_valid());
    registry.slots[0].body.mass = Mass(0);
    assert!(!registry.is_valid());
    registry.slots[0].occupied = false;
    assert!(registry.is_valid());
}
