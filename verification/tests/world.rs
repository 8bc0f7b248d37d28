use fluid_sim::bounds::Bounds;
use fluid_sim::collisions::{candidate_pairs, resolve_candidates};
use fluid_sim::handle::Handle;
use fluid_sim::performance_monitor::CollisionDetectionMonitor;
use fluid_sim::vector::Vector2;
use fluid_sim::world::{
    toggle_gravity, GravityToggled, ParticleConfig, ParticleSnapshot, SimulationConfig,
    SimulationError, World,
};

fn config() -> SimulationConfig {
    SimulationConfig {
        bounds: Bounds { min_x: -400, max_x: 400, min_y: -200, max_y: 200 },
        cell_side_size: 40,
        gravity: 10,
        max_acceleration: 1000,
        pixels_per_meter: 1,
    }
}

fn still_world() -> World {
    let mut world = World::new(config()).unwrap();
    world.set_gravity_enabled(false);
    world
}

fn particle(x: i64, y: i64, vx: i64, vy: i64) -> ParticleConfig {
    ParticleConfig {
        radius: 5,
        restitution_coeff: 1000,
        initial_position: Vector2::new(x, y),
        initial_velocity: Vector2::new(vx, vy),
        mass: 1,
    }
}

#[test]
fn a_world_needs_settings_in_their_ranges() {
    assert!(World::new(config()).is_some());
    assert!(World::new(SimulationConfig { cell_side_size: 0, ..config() }).is_none());
    assert!(World::new(SimulationConfig { gravity: -1, ..config() }).is_none());
    assert!(World::new(SimulationConfig { max_acceleration: (1 << 30) + 1, ..config() }).is_none());
    assert!(World::new(SimulationConfig { pixels_per_meter: -40, ..config() }).is_none());
    let inverted = Bounds { min_x: 400, max_x: -400, min_y: -200, max_y: 200 };
    assert!(World::new(SimulationConfig { bounds: inverted, ..config() }).is_none());
    let world = World::new(config()).unwrap();
    assert!(world.gravity_toggled.0);
    assert_eq!(world.positions_map.map.len(), 20);
    assert_eq!(world.positions_map.map[0].len(), 10);
    assert_eq!(world.snapshot(), vec![]);
    assert_eq!(world.diagnostics(), CollisionDetectionMonitor::new());
}

#[test]
fn spawn_turns_down_a_particle_that_cannot_be() {
    let mut world = still_world();
    let invalid = Err(SimulationError::InvalidParticleConfig);
    assert_eq!(world.spawn(ParticleConfig { radius: 0, ..particle(0, 0, 0, 0) }), invalid);
    assert_eq!(world.spawn(ParticleConfig { radius: -5, ..particle(0, 0, 0, 0) }), invalid);
    assert_eq!(world.spawn(ParticleConfig { mass: 0, ..particle(0, 0, 0, 0) }), invalid);
    assert_eq!(world.spawn(ParticleConfig { mass: -1, ..particle(0, 0, 0, 0) }), invalid);
    assert_eq!(
        world.spawn(ParticleConfig { restitution_coeff: 1001, ..particle(0, 0, 0, 0) }),
        invalid
    );
    assert_eq!(
        world.spawn(ParticleConfig { restitution_coeff: -1, ..particle(0, 0, 0, 0) }),
        invalid
    );
    assert_eq!(world.spawn(particle((1 << 30) + 1, 0, 0, 0)), invalid);
    assert_eq!(world.spawn(particle(0, 0, 0, -(1 << 30) - 1)), invalid);
    assert_eq!(world.snapshot(), vec![]);
    assert!(world.spawn(ParticleConfig { restitution_coeff: 0, ..particle(0, 0, 0, 0) }).is_ok());
    assert!(world.spawn(ParticleConfig { restitution_coeff: 1000, ..particle(0, 0, 0, 0) }).is_ok());
}

#[test]
fn spawn_hands_out_handles_slot_by_slot() {
    let mut world = still_world();
    let first = world.spawn(particle(1, 2, 3, 4)).unwrap();
    let second = world.spawn(particle(5, 6, 7, 8)).unwrap();
    assert_eq!(first, Handle { index: 0, generation: 0 });
    assert_eq!(second, Handle { index: 1, generation: 0 });
    assert_eq!(
        world.query(first),
        Ok(ParticleSnapshot {
            handle: first,
            position: Vector2::new(1, 2),
            velocity: Vector2::new(3, 4)
        })
    );
    assert_eq!(
        world.snapshot(),
        vec![
            ParticleSnapshot {
                handle: first,
                position: Vector2::new(1, 2),
                velocity: Vector2::new(3, 4)
            },
            ParticleSnapshot {
                handle: second,
                position: Vector2::new(5, 6),
                velocity: Vector2::new(7, 8)
            },
        ]
    );
}

#[test]
fn a_handle_is_never_valid_again_once_its_particle_is_gone() {
    let mut world = still_world();
    let first = world.spawn(particle(1, 2, 3, 4)).unwrap();
    let second = world.spawn(particle(5, 6, 7, 8)).unwrap();
    assert_eq!(world.despawn(first), Ok(()));
    assert_eq!(world.despawn(first), Err(SimulationError::HandleNotFound));
    assert_eq!(world.query(first), Err(SimulationError::HandleNotFound));
    assert_eq!(world.query(Handle { index: 7, generation: 0 }), Err(SimulationError::HandleNotFound));
    assert_eq!(world.despawn(Handle { index: 1, generation: 3 }), Err(SimulationError::HandleNotFound));
    let third = world.spawn(particle(9, 9, 9, 9)).unwrap();
    assert_eq!(third, Handle { index: 0, generation: 1 });
    assert_eq!(world.query(first), Err(SimulationError::HandleNotFound));
    assert_eq!(world.query(third).unwrap().position, Vector2::new(9, 9));
    assert_eq!(world.query(second).unwrap().position, Vector2::new(5, 6));
    assert_eq!(world.snapshot().len(), 2);
}

#[test]
fn a_tick_lists_every_particle_in_the_cells_of_its_disc() {
    let mut world = still_world();
    let first = world.spawn(particle(2, 9, 0, 0)).unwrap();
    let second = world.spawn(particle(100, 100, 0, 0)).unwrap();
    world.tick(1_000_000);
    let grid = &world.positions_map;
    assert_eq!(grid.map[10][5], vec![first]);
    assert_eq!(grid.map[9][5], vec![first]);
    assert_eq!(grid.map[12][7], vec![second]);
    let listed: usize = grid.map.iter().flatten().map(|cell| cell.len()).sum();
    assert_eq!(listed, 3);
}

#[test]
fn a_particle_that_moves_changes_its_cells() {
    let mut world = still_world();
    let first = world.spawn(particle(20, 20, 60, 0)).unwrap();
    world.tick(1_000_000);
    assert_eq!(world.query(first).unwrap().position, Vector2::new(80, 20));
    assert_eq!(world.positions_map.map[10][5], vec![first]);
    world.tick(1_000_000);
    assert!(world.positions_map.map[10][5].is_empty());
    assert_eq!(world.positions_map.map[12][5], vec![first]);
    assert_eq!(world.positions_map.map[11][5], vec![first]);
    let listed: usize = world.positions_map.map.iter().flatten().map(|cell| cell.len()).sum();
    assert_eq!(listed, 2);
}

#[test]
fn despawn_takes_the_particle_out_of_the_grid() {
    let mut world = still_world();
    let first = world.spawn(particle(2, 9, 0, 0)).unwrap();
    let second = world.spawn(particle(3, 9, 0, 0)).unwrap();
    world.tick(0);
    assert_eq!(world.positions_map.map[10][5], vec![first, second]);
    assert_eq!(world.despawn(first), Ok(()));
    assert_eq!(world.positions_map.map[10][5], vec![second]);
    assert_eq!(world.positions_map.map[9][5], vec![second]);
    let third = world.spawn(particle(300, 100, 0, 0)).unwrap();
    assert_eq!(third.index, 0);
    world.tick(0);
    assert_eq!(world.positions_map.map[10][5], vec![second]);
    assert_eq!(world.positions_map.map[17][7], vec![third]);
}

#[test]
fn the_grid_lists_a_particle_from_its_first_tick_until_it_is_gone() {
    let mut world = still_world();
    let first = world.spawn(particle(2, 9, 0, 0)).unwrap();
    let second = world.spawn(particle(30, 9, 0, 0)).unwrap();
    assert!(!world.is_listed(first));
    world.tick(0);
    assert!(world.is_listed(first));
    assert!(world.is_listed(second));
    assert_eq!(world.despawn(first), Ok(()));
    assert!(!world.is_listed(first));
    assert!(world.is_listed(second));
    assert!(!world.is_listed(Handle { index: 0, generation: 1 }));
}

#[test]
fn gravity_pulls_down() {
    let mut world = World::new(config()).unwrap();
    let first = world.spawn(particle(0, 0, 3, 0)).unwrap();
    world.tick(1_000_000);
    let after = world.query(first).unwrap();
    assert_eq!(after.velocity, Vector2::new(3, -10));
    assert_eq!(after.position, Vector2::new(3, -10));
    world.tick(500_000);
    let later = world.query(first).unwrap();
    assert_eq!(later.velocity, Vector2::new(3, -15));
    assert_eq!(later.position, Vector2::new(4, -17));
}

#[test]
fn gravity_can_be_switched_off() {
    let mut world = World::new(config()).unwrap();
    let first = world.spawn(particle(0, 0, 3, 0)).unwrap();
    world.set_gravity_enabled(false);
    world.tick(1_000_000);
    assert_eq!(world.query(first).unwrap().velocity, Vector2::new(3, 0));
    let mut toggled = GravityToggled(true);
    toggle_gravity(&mut toggled, false);
    assert!(toggled.0);
    toggle_gravity(&mut toggled, true);
    assert!(!toggled.0);
    toggle_gravity(&mut toggled, true);
    assert!(toggled.0);
}

#[test]
fn a_particle_that_crosses_a_wall_ends_the_tick_inside() {
    let mut world = still_world();
    let right = world.spawn(particle(398, 0, 50, 0)).unwrap();
    let corner = world.spawn(particle(-400, -200, -7, -9)).unwrap();
    let soft = world
        .spawn(ParticleConfig { restitution_coeff: 0, ..particle(0, 199, 0, 30) })
        .unwrap();
    world.tick(100_000);
    for handle in [right, corner, soft] {
        let position = world.query(handle).unwrap().position;
        assert!(-395 <= position.x && position.x <= 395, "{position:?}");
        assert!(-195 <= position.y && position.y <= 195, "{position:?}");
    }
    assert_eq!(world.query(right).unwrap().velocity, Vector2::new(-50, 0));
    assert_eq!(world.query(right).unwrap().position, Vector2::new(390, 0));
    assert_eq!(world.query(corner).unwrap().velocity, Vector2::new(7, 9));
    assert_eq!(world.query(soft).unwrap().velocity, Vector2::new(0, 30));
    assert_eq!(world.query(soft).unwrap().position, Vector2::new(0, 195));
}

#[test]
fn a_tick_of_no_duration_leaves_position_and_velocity() {
    let mut world = World::new(config()).unwrap();
    let handles: Vec<Handle> = [(0, 0, 5, 7), (4, 0, -5, 0), (395, -195, 9, -9), (-100, 50, 0, 0)]
        .into_iter()
        .map(|(x, y, vx, vy)| world.spawn(particle(x, y, vx, vy)).unwrap())
        .collect();
    let before = world.snapshot();
    let figures = world.diagnostics();
    world.tick(0);
    assert_eq!(world.snapshot(), before);
    assert_eq!(world.diagnostics(), figures);
    assert_eq!(world.positions_map.map[10][5], vec![handles[0], handles[1]]);
    world.tick(0);
    assert_eq!(world.snapshot(), before);
}

#[test]
fn two_particles_meet_and_exchange_their_velocities() {
    let mut world = still_world();
    let left = world.spawn(particle(-6, 0, 5, 0)).unwrap();
    let right = world.spawn(particle(6, 0, -5, 0)).unwrap();
    world.tick(200_000);
    assert_eq!(world.query(left).unwrap().position, Vector2::new(-5, 0));
    assert_eq!(world.query(right).unwrap().position, Vector2::new(5, 0));
    assert_eq!(world.query(left).unwrap().velocity, Vector2::new(5, 0));
    assert_eq!(world.diagnostics().colliding_pairs, 0);
    world.tick(200_000);
    assert_eq!(world.diagnostics().checked_pairs, 1);
    assert_eq!(world.diagnostics().colliding_pairs, 1);
    assert_eq!(world.query(left).unwrap().velocity, Vector2::new(-5, 0));
    assert_eq!(world.query(right).unwrap().velocity, Vector2::new(5, 0));
    let a = world.query(left).unwrap().position;
    let b = world.query(right).unwrap().position;
    assert_eq!(a, Vector2::new(-6, 0));
    assert_eq!(b, Vector2::new(6, 0));
    assert!((b.x - a.x) * (b.x - a.x) + (b.y - a.y) * (b.y - a.y) >= 100);
}

#[test]
fn two_particles_that_overlap_are_apart_after_the_collision_pass() {
    let mut world = still_world();
    let left = world.spawn(particle(-1, 0, 5, 0)).unwrap();
    let right = world.spawn(particle(1, 0, -5, 0)).unwrap();
    world.tick(1);
    let a = world.query(left).unwrap();
    let b = world.query(right).unwrap();
    assert_eq!(a.position, Vector2::new(-5, 0));
    assert_eq!(b.position, Vector2::new(5, 0));
    assert_eq!(a.velocity, Vector2::new(5, 0));
    assert_eq!(world.diagnostics().colliding_pairs, 1);
}

#[test]
fn new_settings_lay_the_grid_out_anew() {
    let mut world = still_world();
    let first = world.spawn(particle(2, 9, 0, 0)).unwrap();
    world.tick(0);
    assert!(!world.configure(SimulationConfig { cell_side_size: 0, ..config() }));
    assert_eq!(world.positions_map.map.len(), 20);
    assert!(world.configure(SimulationConfig { cell_side_size: 100, ..config() }));
    assert_eq!(world.positions_map.map.len(), 8);
    assert_eq!(world.positions_map.map[0].len(), 4);
    let listed: usize = world.positions_map.map.iter().flatten().map(|cell| cell.len()).sum();
    assert_eq!(listed, 0);
    assert!(!world.gravity_toggled.0);
    world.tick(0);
    assert_eq!(world.positions_map.map[4][2], vec![first]);
    assert_eq!(world.query(first).unwrap().position, Vector2::new(2, 9));
}

fn crowded_world() -> World {
    let mut world = World::new(config()).unwrap();
    for (x, y, vx, vy) in [(0, 0, 6, 0), (8, 0, -6, 0), (4, 7, 0, -3), (398, 0, 20, 0), (-100, 50, 1, 1)] {
        world.spawn(particle(x, y, vx, vy)).unwrap();
    }
    world
}

#[test]
fn the_two_halves_of_a_tick_make_a_tick() {
    let mut whole = crowded_world();
    let mut halved = crowded_world();
    for dt in [250_000, 0, 1_000_000, 40_000] {
        whole.tick(dt);
        halved.begin_tick();
        let columns = halved.positions_map.map.len();
        let mut resolutions = vec![];
        for (from, to) in [(0, columns / 2), (columns / 2, columns)] {
            let pairs = candidate_pairs(&halved.positions_map, from, to);
            resolutions.extend(resolve_candidates(&pairs, &halved.registry, dt));
        }
        halved.finish_tick(dt, &resolutions);
        assert_eq!(halved.snapshot(), whole.snapshot());
        assert_eq!(halved.positions_map.map, whole.positions_map.map);
        for (one, other) in halved.registry.slots.iter().zip(whole.registry.slots.iter()) {
            assert_eq!(one.body.acceleration, other.body.acceleration);
            assert!(one.body.forces.0.is_empty() && other.body.forces.0.is_empty());
        }
    }
    assert!(whole.diagnostics().checked_pairs > 0);
}

#[test]
fn the_first_half_of_a_tick_lists_and_weighs_the_particles() {
    let mut world = crowded_world();
    world.begin_tick();
    assert!(world.is_listed(Handle { index: 3, generation: 0 }));
    assert_eq!(world.registry.slots[0].body.forces.0, vec![Vector2::new(0, -10)]);
    assert_eq!(world.query(Handle { index: 0, generation: 0 }).unwrap().position, Vector2::new(0, 0));
    assert_eq!(world.positions_map.map[10][5].len(), 3);
}
