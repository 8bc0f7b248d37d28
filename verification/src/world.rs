//! The simulation as a whole: its particles, its grid, its settings, and the
//! tick that advances it.

use vstd::prelude::*;
use crate::acceleration::{accelerate_entities, accelerated_slot, lemma_accelerated_in_no_time};
use crate::bounds::{bounded_slot, enforce_bounds, Bounds};
use crate::collisions::{
    apply_in_turn,
    apply_resolutions,
    candidate_pairs,
    distinct_pairs,
    distinct_resolutions,
    grid_scan,
    lemma_apply_in_turn_shape,
    resolutions_of,
    resolve_candidates,
    CollisionResolution,
};
use crate::forces::{apply_forces, reduced_slot};
use crate::gravity::{apply_gravity, weighted_slot};
use crate::handle::Handle;
use crate::particle::{
    Acceleration,
    FluidParticle,
    Forces,
    Mass,
    Particle,
    ParticleView,
    Velocity,
    ACCELERATION_LIMIT,
    COORDINATE_LIMIT,
    MASS_LIMIT,
    RADIUS_LIMIT,
    RESTITUTION_ONE,
    VELOCITY_LIMIT,
};
use crate::performance_monitor::CollisionDetectionMonitor;
use crate::position_hashing::{
    as_vector,
    cell_count,
    handle_at,
    lemma_refreshed_lists,
    recorded,
    refreshed_cell,
    update_position_map,
    without,
    PositionHashMap,
};
use crate::previous_positions::{previous_positions, EntityPreviousPositionMap};
use crate::registry::{
    despawned,
    has_room,
    holds,
    spawned,
    spawned_handle,
    Registry,
    SlotView,
};
use crate::vector::Vector2;
use crate::velocity::{
    inside,
    lemma_moved_in_no_time,
    lemma_moved_inside,
    move_entities,
    moved_slot,
    SCALE_LIMIT,
};

verus! {

/// Whether gravity acts.
#[derive(Clone, Copy, PartialEq, Eq, Structural, Debug)]
pub struct GravityToggled(pub bool);

/// Switches gravity over where the key for it has just been pressed.
pub fn toggle_gravity(gravity_toggled: &mut GravityToggled, just_pressed: bool)
    ensures
        final(gravity_toggled).0 == (old(gravity_toggled).0 != just_pressed),
{
    if just_pressed {
        gravity_toggled.0 = !gravity_toggled.0;
    }
}

/// The settings of a simulation.
#[derive(Clone, Copy, PartialEq, Eq, Structural, Debug)]
pub struct SimulationConfig {
    /// The rectangle that holds the particles.
    pub bounds: Bounds,
    /// The side of a cell of the grid.
    pub cell_side_size: usize,
    /// The acceleration of gravity.
    pub gravity: i64,
    /// The largest length of an acceleration.
    pub max_acceleration: i64,
    /// How many units of length a particle moves in a second at one unit of
    /// velocity.
    pub pixels_per_meter: i64,
}

impl SimulationConfig {
    /// Every setting lies in its range.
    pub open spec fn wf(self) -> bool {
        &&& self.bounds.wf()
        &&& self.cell_side_size > 0
        &&& 0 <= self.gravity <= ACCELERATION_LIMIT
        &&& 0 <= self.max_acceleration <= ACCELERATION_LIMIT
        &&& 0 <= self.pixels_per_meter <= SCALE_LIMIT
    }

    /// Whether every setting lies in its range.
    pub fn is_valid(&self) -> (valid: bool)
        ensures
            valid == self.wf(),
    {
        self.bounds.is_valid() && self.cell_side_size > 0 && 0 <= self.gravity && self.gravity
            <= ACCELERATION_LIMIT
            && 0 <= self.max_acceleration && self.max_acceleration <= ACCELERATION_LIMIT && 0
            <= self.pixels_per_meter && self.pixels_per_meter <= SCALE_LIMIT
    }
}

/// What a particle is made with.
#[derive(Clone, Copy, PartialEq, Eq, Structural, Debug)]
pub struct ParticleConfig {
    pub radius: i64,
    pub restitution_coeff: i64,
    pub initial_position: Vector2,
    pub initial_velocity: Vector2,
    pub mass: i64,
}

impl ParticleConfig {
    /// The radius and the mass are positive, the restitution lies between
    /// zero and one, and every quantity lies in its range.
    pub open spec fn wf(self) -> bool {
        &&& 0 < self.radius <= RADIUS_LIMIT
        &&& 0 < self.mass <= MASS_LIMIT
        &&& 0 <= self.restitution_coeff <= RESTITUTION_ONE
        &&& self.initial_position.within(COORDINATE_LIMIT as int)
        &&& self.initial_velocity.within(VELOCITY_LIMIT as int)
    }

    /// The particle that is made: at rest but for its velocity, with no
    /// forces on it.
    pub open spec fn body(self) -> ParticleView {
        ParticleView {
            particle: FluidParticle {
                radius: self.radius,
                restitution_coeff: self.restitution_coeff,
            },
            position: self.initial_position,
            mass: Mass(self.mass),
            velocity: Velocity(self.initial_velocity),
            acceleration: Acceleration(Vector2 { x: 0, y: 0 }),
            forces: Seq::empty(),
        }
    }

    /// Whether the particle can be made.
    pub fn is_valid(&self) -> (valid: bool)
        ensures
            valid == self.wf(),
    {
        0 < self.radius && self.radius <= RADIUS_LIMIT && 0 < self.mass && self.mass <= MASS_LIMIT
            && 0 <= self.restitution_coeff && self.restitution_coeff <= RESTITUTION_ONE
            && -COORDINATE_LIMIT <= self.initial_position.x && self.initial_position.x
            <= COORDINATE_LIMIT && -COORDINATE_LIMIT <= self.initial_position.y
            && self.initial_position.y <= COORDINATE_LIMIT && -VELOCITY_LIMIT
            <= self.initial_velocity.x && self.initial_velocity.x <= VELOCITY_LIMIT
            && -VELOCITY_LIMIT <= self.initial_velocity.y && self.initial_velocity.y
            <= VELOCITY_LIMIT
    }
}

/// Why a request was turned down.
#[derive(Clone, Copy, PartialEq, Eq, Structural, Debug)]
pub enum SimulationError {
    /// The radius or the mass is not positive, the restitution does not lie
    /// between zero and one, or a quantity lies outside its range.
    InvalidParticleConfig,
    /// The handle names no particle.
    HandleNotFound,
    /// Every slot is taken, and no more can be made.
    CapacityExhausted,
}

/// Where a particle is and how it moves, for display.
#[derive(Clone, Copy, PartialEq, Eq, Structural, Debug)]
pub struct ParticleSnapshot {
    pub handle: Handle,
    pub position: Vector2,
    pub velocity: Vector2,
}

/// The snapshot of the particle of `handle`.
pub open spec fn snapshot_of(slots: Seq<SlotView>, handle: Handle) -> ParticleSnapshot {
    ParticleSnapshot {
        handle,
        position: slots[handle.index as int].body.position,
        velocity: slots[handle.index as int].body.velocity.0,
    }
}

/// The snapshots of the particles in the first `n` slots, in the order of
/// the slots.
pub open spec fn snapshots(slots: Seq<SlotView>, n: int) -> Seq<ParticleSnapshot>
    decreases n,
{
    if n <= 0 {
        Seq::empty()
    } else if slots[n - 1].occupied {
        snapshots(slots, n - 1).push(
            snapshot_of(slots, Handle { index: (n - 1) as u32, generation: slots[n - 1].generation }),
        )
    } else {
        snapshots(slots, n - 1)
    }
}

/// The slots after gravity has acted, where it is switched on.
pub open spec fn gravity_pass(slots: Seq<SlotView>, enabled: bool, gravity: int) -> Seq<SlotView> {
    if enabled {
        Seq::new(slots.len(), |i: int| weighted_slot(slots[i], gravity))
    } else {
        slots
    }
}

/// The slots after what the collisions do has been applied, each resolution
/// once. A tick of no duration applies none.
pub open spec fn merge_pass(slots: Seq<SlotView>, resolutions: Seq<CollisionResolution>, dt: int) -> Seq<
    SlotView,
> {
    if dt == 0 {
        slots
    } else {
        apply_in_turn(slots, distinct_resolutions(resolutions))
    }
}

/// What the collisions of a tick of `dt` microseconds do, the pairs taken
/// from `grid` and judged by the slots as they are given.
pub open spec fn collisions_of(slots: Seq<SlotView>, grid: PositionHashMap, dt: int) -> Seq<
    CollisionResolution,
> {
    resolutions_of(slots, distinct_pairs(grid_scan(grid, 0, grid.columns())), dt)
}

/// The slots after the walls have acted.
pub open spec fn boundary_pass(slots: Seq<SlotView>, bounds: Bounds, dt: int) -> Seq<SlotView> {
    Seq::new(slots.len(), |i: int| bounded_slot(slots[i], bounds, dt))
}

/// The slots after the forces have been reduced.
pub open spec fn force_pass(slots: Seq<SlotView>, max: int) -> Seq<SlotView> {
    Seq::new(slots.len(), |i: int| reduced_slot(slots[i], max))
}

/// The slots after the accelerations have acted.
pub open spec fn acceleration_pass(slots: Seq<SlotView>, dt: int) -> Seq<SlotView> {
    Seq::new(slots.len(), |i: int| accelerated_slot(slots[i], dt))
}

/// The slots after the particles have moved.
pub open spec fn movement_pass(slots: Seq<SlotView>, bounds: Bounds, dt: int, scale: int) -> Seq<
    SlotView,
> {
    Seq::new(slots.len(), |i: int| moved_slot(slots[i], bounds, dt, scale))
}

/// The slots after the second half of a tick of `dt` microseconds: what the
/// collisions do is applied; then the walls, the reduction of the forces,
/// the accelerations and the movement follow.
pub open spec fn finished(
    slots: Seq<SlotView>,
    resolutions: Seq<CollisionResolution>,
    config: SimulationConfig,
    dt: int,
) -> Seq<SlotView> {
    movement_pass(
        acceleration_pass(
            force_pass(
                boundary_pass(merge_pass(slots, resolutions, dt), config.bounds, dt),
                config.max_acceleration as int,
            ),
            dt,
        ),
        config.bounds,
        dt,
        config.pixels_per_meter as int,
    )
}

/// The slots after a tick of `dt` microseconds whose collisions take their
/// pairs from `grid`: gravity, the collisions, the walls, the reduction of
/// the forces, the accelerations and the movement, in this order.
pub open spec fn ticked(
    slots: Seq<SlotView>,
    grid: PositionHashMap,
    config: SimulationConfig,
    gravity_enabled: bool,
    dt: int,
) -> Seq<SlotView> {
    let pulled = gravity_pass(slots, gravity_enabled, config.gravity as int);
    finished(pulled, collisions_of(pulled, grid, dt), config, dt)
}

/// A simulation.
pub struct World {
    pub config: SimulationConfig,
    pub gravity_toggled: GravityToggled,
    pub registry: Registry,
    pub positions_map: PositionHashMap,
    pub entity_previous_position_map: EntityPreviousPositionMap,
    pub monitor: CollisionDetectionMonitor,
}

impl World {
    /// The settings and the particles are well formed, and the grid covers
    /// the rectangle of the settings with cells of the side they give.
    pub open spec fn wf(self) -> bool {
        &&& self.config.wf()
        &&& self.registry.wf()
        &&& self.positions_map.wf()
        &&& self.positions_map.cell_side_size == self.config.cell_side_size
        &&& self.positions_map.min_x == self.config.bounds.min_x
        &&& self.positions_map.max_x == self.config.bounds.max_x
        &&& self.positions_map.min_y == self.config.bounds.min_y
        &&& self.positions_map.max_y == self.config.bounds.max_y
    }

    /// A simulation without particles, gravity switched on; `None` where a
    /// setting lies outside its range.
    pub fn new(config: SimulationConfig) -> (world: Option<World>)
        ensures
            world.is_some() == config.wf(),
            world matches Some(w) ==> {
                &&& w.wf()
                &&& w.config == config
                &&& w.gravity_toggled.0
                &&& w.registry@.len() == 0
                &&& w.monitor == (CollisionDetectionMonitor {
                    duration_micros: 0,
                    checked_pairs: 0,
                    colliding_pairs: 0,
                })
                &&& previous_positions(w.entity_previous_position_map).dom() == Set::<u64>::empty()
                &&& forall|i: int, j: int|
                    w.positions_map.in_grid(i, j) ==> (#[trigger] w.positions_map.cell(i, j)).len()
                        == 0
            },
    {
        if !config.is_valid() {
            return None;
        }
        assert(cell_count(
            config.bounds.min_x as int,
            config.bounds.max_x as int,
            config.cell_side_size as int,
        ) <= 0x4000_0000) by (nonlinear_arith)
            requires
                config.bounds.max_x - config.bounds.min_x <= 0x4000_0000,
                config.cell_side_size > 0,
        ;
        assert(cell_count(
            config.bounds.min_y as int,
            config.bounds.max_y as int,
            config.cell_side_size as int,
        ) <= 0x4000_0000) by (nonlinear_arith)
            requires
                config.bounds.max_y - config.bounds.min_y <= 0x4000_0000,
                config.cell_side_size > 0,
        ;
        Some(
            World {
                config,
                gravity_toggled: GravityToggled(true),
                registry: Registry::new(),
                positions_map: PositionHashMap::new(
                    config.cell_side_size,
                    config.bounds.min_x,
                    config.bounds.max_x,
                    config.bounds.min_y,
                    config.bounds.max_y,
                ),
                entity_previous_position_map: EntityPreviousPositionMap::new(),
                monitor: CollisionDetectionMonitor::new(),
            },
        )
    }

    /// Makes a particle and returns its handle. The particle joins the grid
    /// with the next tick.
    pub fn spawn(&mut self, particle: ParticleConfig) -> (made: Result<Handle, SimulationError>)
        requires
            old(self).wf(),
        ensures
            final(self).wf(),
            final(self).config == old(self).config,
            final(self).gravity_toggled == old(self).gravity_toggled,
            final(self).positions_map == old(self).positions_map,
            final(self).entity_previous_position_map == old(self).entity_previous_position_map,
            final(self).monitor == old(self).monitor,
            !particle.wf() ==> made == Err::<Handle, SimulationError>(
                SimulationError::InvalidParticleConfig,
            ),
            particle.wf() && !has_room(old(self).registry@) ==> made == Err::<
                Handle,
                SimulationError,
            >(SimulationError::CapacityExhausted),
            particle.wf() && has_room(old(self).registry@) ==> made == Ok::<
                Handle,
                SimulationError,
            >(spawned_handle(old(self).registry@)),
            made.is_ok() ==> final(self).registry@ == spawned(old(self).registry@, particle.body()),
            made.is_err() ==> final(self).registry@ == old(self).registry@,
    {
        if !particle.is_valid() {
            return Err(SimulationError::InvalidParticleConfig);
        }
        let body: Particle = Particle {
            particle: FluidParticle {
                radius: particle.radius,
                restitution_coeff: particle.restitution_coeff,
            },
            position: particle.initial_position,
            mass: Mass(particle.mass),
            velocity: Velocity(particle.initial_velocity),
            acceleration: Acceleration(Vector2 { x: 0, y: 0 }),
            forces: Forces(Vec::new()),
        };
        assert(body@.forces =~= particle.body().forces);
        assert(body@ == particle.body());
        match self.registry.spawn(body) {
            Some(handle) => Ok(handle),
            None => Err(SimulationError::CapacityExhausted),
        }
    }

    /// Removes a particle, and takes it out of the cells in which the grid
    /// lists it.
    pub fn despawn(&mut self, handle: Handle) -> (removed: Result<(), SimulationError>)
        requires
            old(self).wf(),
        ensures
            final(self).wf(),
            final(self).config == old(self).config,
            final(self).gravity_toggled == old(self).gravity_toggled,
            final(self).monitor == old(self).monitor,
            holds(old(self).registry@, handle) ==> removed == Ok::<(), SimulationError>(()),
            !holds(old(self).registry@, handle) ==> removed == Err::<(), SimulationError>(
                SimulationError::HandleNotFound,
            ),
            !holds(final(self).registry@, handle),
            removed.is_err() ==> final(self).registry@ == old(self).registry@,
            removed.is_err() ==> final(self).positions_map == old(self).positions_map,
            removed.is_err() ==> final(self).entity_previous_position_map == old(
                self,
            ).entity_previous_position_map,
            removed.is_ok() ==> ({
                let key = handle.bits() as u64;
                let kept = previous_positions(old(self).entity_previous_position_map);
                let radius = old(self).registry@[handle.index as int].body.particle.radius;
                &&& final(self).registry@ == despawned(old(self).registry@, handle)
                &&& previous_positions(final(self).entity_previous_position_map) == kept.remove(
                    key,
                )
                &&& forall|i: int, j: int|
                    old(self).positions_map.in_grid(i, j) ==> #[trigger] final(self).positions_map.cell(
                        i,
                        j,
                    ) == if kept.dom().contains(key) && old(self).positions_map.lists_in(
                        as_vector(kept[key]),
                        radius,
                        i,
                        j,
                    ) {
                        without(old(self).positions_map.cell(i, j), handle)
                    } else {
                        old(self).positions_map.cell(i, j)
                    }
            }),
    {
        if !self.registry.contains(handle) {
            return Err(SimulationError::HandleNotFound);
        }
        let index: usize = handle.index as usize;
        assert(self.registry@[index as int] == self.registry.slots@[index as int]@);
        let radius: i64 = self.registry.slots[index].body.particle.radius;
        let key: u64 = handle.to_bits();
        match self.entity_previous_position_map.get(key) {
            Some(prev_position) => {
                self.positions_map.remove(
                    Vector2 { x: prev_position.0, y: prev_position.1 },
                    radius,
                    handle,
                );
            },
            None => {},
        }
        self.entity_previous_position_map.remove(key);
        self.registry.despawn(handle);
        Ok(())
    }

    /// Where the particle of `handle` is and how it moves.
    pub fn query(&self, handle: Handle) -> (found: Result<ParticleSnapshot, SimulationError>)
        ensures
            holds(self.registry@, handle) ==> found == Ok::<ParticleSnapshot, SimulationError>(
                snapshot_of(self.registry@, handle),
            ),
            !holds(self.registry@, handle) ==> found == Err::<ParticleSnapshot, SimulationError>(
                SimulationError::HandleNotFound,
            ),
    {
        if !self.registry.contains(handle) {
            return Err(SimulationError::HandleNotFound);
        }
        let index: usize = handle.index as usize;
        assert(self.registry@[index as int] == self.registry.slots@[index as int]@);
        Ok(
            ParticleSnapshot {
                handle,
                position: self.registry.slots[index].body.position,
                velocity: self.registry.slots[index].body.velocity.0,
            },
        )
    }

    /// Where every particle is and how it moves, in the order of the slots.
    pub fn snapshot(&self) -> (all: Vec<ParticleSnapshot>)
        requires
            self.wf(),
        ensures
            all@ == snapshots(self.registry@, self.registry@.len() as int),
    {
        let mut all: Vec<ParticleSnapshot> = Vec::new();
        let mut k: usize = 0;
        while k < self.registry.slots.len()
            invariant
                k <= self.registry.slots.len(),
                self.registry@.len() == self.registry.slots.len(),
                self.registry@.len() <= u32::MAX,
                all@ == snapshots(self.registry@, k as int),
            decreases self.registry.slots.len() - k,
        {
            assert(self.registry@[k as int] == self.registry.slots@[k as int]@);
            if self.registry.slots[k].occupied {
                all.push(
                    ParticleSnapshot {
                        handle: Handle {
                            index: k as u32,
                            generation: self.registry.slots[k].generation,
                        },
                        position: self.registry.slots[k].body.position,
                        velocity: self.registry.slots[k].body.velocity.0,
                    },
                );
            }
            k = k + 1;
        }
        all
    }

    /// Whether the grid lists the particle of `handle`: it does from the
    /// first tick after the particle was made until the particle is removed
    /// or the grid is laid out anew.
    pub fn is_listed(&self, handle: Handle) -> (listed: bool)
        ensures
            listed == previous_positions(self.entity_previous_position_map).dom().contains(
                handle.bits() as u64,
            ),
    {
        self.entity_previous_position_map.get(handle.to_bits()).is_some()
    }

    /// The figures of the last collision pass.
    pub fn diagnostics(&self) -> (figures: CollisionDetectionMonitor)
        ensures
            figures == self.monitor,
    {
        self.monitor
    }

    /// Switches gravity on or off.
    pub fn set_gravity_enabled(&mut self, enabled: bool)
        ensures
            final(self).gravity_toggled.0 == enabled,
            final(self).config == old(self).config,
            final(self).registry == old(self).registry,
            final(self).positions_map == old(self).positions_map,
            final(self).entity_previous_position_map == old(self).entity_previous_position_map,
            final(self).monitor == old(self).monitor,
    {
        self.gravity_toggled = GravityToggled(enabled);
    }

    /// Gives the simulation new settings. The grid is laid out anew and
    /// lists nothing until the next tick; where a setting lies outside its
    /// range nothing changes, and the result is `false`.
    pub fn configure(&mut self, config: SimulationConfig) -> (accepted: bool)
        requires
            old(self).wf(),
        ensures
            final(self).wf(),
            accepted == config.wf(),
            final(self).registry == old(self).registry,
            final(self).gravity_toggled == old(self).gravity_toggled,
            final(self).monitor == old(self).monitor,
            accepted ==> final(self).config == config && previous_positions(
                final(self).entity_previous_position_map,
            ).dom() == Set::<u64>::empty() && forall|i: int, j: int|
                final(self).positions_map.in_grid(i, j) ==> (#[trigger] final(self).positions_map.cell(
                    i,
                    j,
                )).len() == 0,
            !accepted ==> final(self).config == old(self).config,
            !accepted ==> final(self).positions_map == old(self).positions_map,
            !accepted ==> final(self).entity_previous_position_map == old(
                self,
            ).entity_previous_position_map,
    {
        if !config.is_valid() {
            return false;
        }
        assert(cell_count(
            config.bounds.min_x as int,
            config.bounds.max_x as int,
            config.cell_side_size as int,
        ) <= 0x4000_0000) by (nonlinear_arith)
            requires
                config.bounds.max_x - config.bounds.min_x <= 0x4000_0000,
                config.cell_side_size > 0,
        ;
        assert(cell_count(
            config.bounds.min_y as int,
            config.bounds.max_y as int,
            config.cell_side_size as int,
        ) <= 0x4000_0000) by (nonlinear_arith)
            requires
                config.bounds.max_y - config.bounds.min_y <= 0x4000_0000,
                config.cell_side_size > 0,
        ;
        self.config = config;
        self.positions_map = PositionHashMap::new(
            config.cell_side_size,
            config.bounds.min_x,
            config.bounds.max_x,
            config.bounds.min_y,
            config.bounds.max_y,
        );
        self.entity_previous_position_map = EntityPreviousPositionMap::new();
        true
    }

    /// The first half of a tick: the grid is brought up to date, and gravity
    /// acts where it is switched on. Afterwards every particle is listed in
    /// every cell of its disc.
    pub fn begin_tick(&mut self)
        requires
            old(self).wf(),
        ensures
            final(self).wf(),
            final(self).config == old(self).config,
            final(self).gravity_toggled == old(self).gravity_toggled,
            final(self).monitor == old(self).monitor,
            final(self).positions_map.same_layout(old(self).positions_map),
            forall|i: int, j: int|
                old(self).positions_map.in_grid(i, j) ==> #[trigger] final(self).positions_map.cell(
                    i,
                    j,
                ) == refreshed_cell(
                    old(self).positions_map,
                    i,
                    j,
                    old(self).registry@,
                    previous_positions(old(self).entity_previous_position_map),
                    old(self).registry@.len() as int,
                ),
            previous_positions(final(self).entity_previous_position_map) == recorded(
                previous_positions(old(self).entity_previous_position_map),
                old(self).registry@,
                old(self).registry@.len() as int,
            ),
            final(self).registry@ == gravity_pass(
                old(self).registry@,
                old(self).gravity_toggled.0,
                old(self).config.gravity as int,
            ),
            forall|i: int, a: int, b: int|
                0 <= i < old(self).registry@.len() && old(self).registry@[i].occupied && old(
                    self,
                ).positions_map.in_grid(a, b) && old(self).positions_map.lists_in(
                    old(self).registry@[i].body.position,
                    old(self).registry@[i].body.particle.radius,
                    a,
                    b,
                ) ==> (#[trigger] final(self).positions_map.cell(a, b)).contains(
                    #[trigger] handle_at(old(self).registry@, i),
                ),
    {
        let ghost before = self.registry@;
        update_position_map(
            &mut self.positions_map,
            &mut self.entity_previous_position_map,
            &self.registry,
        );
        if self.gravity_toggled.0 {
            apply_gravity(self.config.gravity, &mut self.registry);
        }
        proof {
            assert(self.registry@ =~= gravity_pass(
                before,
                self.gravity_toggled.0,
                self.config.gravity as int,
            ));
            assert forall|i: int, a: int, b: int|
                0 <= i < before.len() && before[i].occupied && old(self).positions_map.in_grid(a, b)
                    && old(self).positions_map.lists_in(
                    before[i].body.position,
                    before[i].body.particle.radius,
                    a,
                    b,
                ) implies (#[trigger] self.positions_map.cell(a, b)).contains(
                #[trigger] handle_at(before, i),
            ) by {
                lemma_refreshed_lists(
                    old(self).positions_map,
                    a,
                    b,
                    before,
                    previous_positions(old(self).entity_previous_position_map),
                    before.len() as int,
                    i,
                );
            }
        }
    }

    /// The second half of a tick of `dt` microseconds: what the collisions
    /// do is applied, each resolution once and none in a tick of no
    /// duration; then the walls, the reduction of the forces, the
    /// accelerations and the movement follow.
    ///
    /// Afterwards every particle whose disc the walls leave room for lies
    /// within the walls. In a tick of no duration the position and the
    /// velocity of every particle that lies within the walls stay as they
    /// are.
    pub fn finish_tick(&mut self, dt: u32, resolutions: &Vec<CollisionResolution>)
        requires
            old(self).wf(),
            forall|k: int| 0 <= k < resolutions.len() ==> (#[trigger] resolutions[k]).wf(),
        ensures
            final(self).wf(),
            final(self).config == old(self).config,
            final(self).gravity_toggled == old(self).gravity_toggled,
            final(self).monitor == old(self).monitor,
            final(self).positions_map == old(self).positions_map,
            final(self).entity_previous_position_map == old(self).entity_previous_position_map,
            final(self).registry@ == finished(
                old(self).registry@,
                resolutions@,
                old(self).config,
                dt as int,
            ),
            final(self).registry@.len() == old(self).registry@.len(),
            forall|i: int|
                0 <= i < final(self).registry@.len() ==> (#[trigger] final(self).registry@[i]).occupied
                    == old(self).registry@[i].occupied && final(self).registry@[i].generation
                    == old(self).registry@[i].generation,
            forall|i: int|
                0 <= i < final(self).registry@.len() && (#[trigger] final(self).registry@[i]).occupied
                    && has_room_for(old(self).config.bounds, final(self).registry@[i].body)
                    ==> inside(final(self).registry@[i].body, old(self).config.bounds),
            dt == 0 ==> forall|i: int|
                0 <= i < old(self).registry@.len() && (#[trigger] old(self).registry@[i]).occupied
                    && inside(old(self).registry@[i].body, old(self).config.bounds) ==> same_motion(
                    final(self).registry@[i].body,
                    old(self).registry@[i].body,
                ),
    {
        let bounds: Bounds = self.config.bounds;
        let ghost s1 = self.registry@;
        if dt != 0 {
            apply_resolutions(&mut self.registry, resolutions);
        }
        let ghost s2 = self.registry@;
        assert(s2 == merge_pass(s1, resolutions@, dt as int));
        enforce_bounds(dt, &bounds, &mut self.registry);
        let ghost s3 = self.registry@;
        assert(s3 =~= boundary_pass(s2, bounds, dt as int));
        apply_forces(self.config.max_acceleration, &mut self.registry);
        let ghost s4 = self.registry@;
        assert(s4 =~= force_pass(s3, self.config.max_acceleration as int));
        accelerate_entities(dt, &mut self.registry);
        let ghost s5 = self.registry@;
        assert(s5 =~= acceleration_pass(s4, dt as int));
        move_entities(dt, &bounds, self.config.pixels_per_meter, &mut self.registry);
        let ghost s6 = self.registry@;
        assert(s6 =~= movement_pass(s5, bounds, dt as int, self.config.pixels_per_meter as int));
        proof {
            lemma_apply_in_turn_shape(s1, distinct_resolutions(resolutions@));
            assert forall|i: int| 0 <= i < s6.len() implies (#[trigger] s6[i]).occupied
                == s1[i].occupied && s6[i].generation == s1[i].generation by {
                assert(s2[i].occupied == s1[i].occupied);
                assert(s3[i] == bounded_slot(s2[i], bounds, dt as int));
                assert(s4[i] == reduced_slot(s3[i], self.config.max_acceleration as int));
                assert(s5[i] == accelerated_slot(s4[i], dt as int));
                assert(s6[i] == moved_slot(
                    s5[i],
                    bounds,
                    dt as int,
                    self.config.pixels_per_meter as int,
                ));
            }
            assert forall|i: int|
                0 <= i < s6.len() && (#[trigger] s6[i]).occupied && has_room_for(
                    bounds,
                    s6[i].body,
                ) implies inside(s6[i].body, bounds) by {
                assert(s6[i] == moved_slot(
                    s5[i],
                    bounds,
                    dt as int,
                    self.config.pixels_per_meter as int,
                ));
                assert(s5[i].occupied);
                lemma_moved_inside(
                    s5[i].body,
                    bounds,
                    dt as int,
                    self.config.pixels_per_meter as int,
                );
            }
            if dt == 0 {
                assert forall|i: int|
                    0 <= i < s1.len() && (#[trigger] s1[i]).occupied && inside(
                        s1[i].body,
                        bounds,
                    ) implies s6[i].body.position == s1[i].body.position && s6[i].body.velocity
                    == s1[i].body.velocity by {
                    assert(s2[i] == s1[i]);
                    assert(s3[i] == bounded_slot(s2[i], bounds, 0));
                    assert(s4[i] == reduced_slot(s3[i], self.config.max_acceleration as int));
                    assert(s5[i] == accelerated_slot(s4[i], 0));
                    assert(s6[i] == moved_slot(
                        s5[i],
                        bounds,
                        0,
                        self.config.pixels_per_meter as int,
                    ));
                    assert(s4[i].body.wf());
                    lemma_accelerated_in_no_time(
                        s4[i].body.velocity.0.x as int,
                        s4[i].body.acceleration.0.x as int,
                    );
                    lemma_accelerated_in_no_time(
                        s4[i].body.velocity.0.y as int,
                        s4[i].body.acceleration.0.y as int,
                    );
                    assert(s5[i].body.wf());
                    lemma_moved_in_no_time(s5[i].body, bounds, self.config.pixels_per_meter as int);
                }
            }
        }
    }

    /// Advances the simulation by `dt` microseconds: the grid is brought up
    /// to date; then gravity, the collisions, the walls, the reduction of
    /// the forces, the accelerations and the movement follow. The monitor
    /// is told how many pairs were looked at and how many of them collided.
    ///
    /// After the tick every particle whose disc the walls leave room for
    /// lies within the walls. A tick of no duration leaves the position and
    /// the velocity of every particle that lies within the walls as they
    /// are.
    pub fn tick(&mut self, dt: u32)
        requires
            old(self).wf(),
        ensures
            final(self).wf(),
            final(self).config == old(self).config,
            final(self).gravity_toggled == old(self).gravity_toggled,
            final(self).positions_map.same_layout(old(self).positions_map),
            forall|i: int, j: int|
                old(self).positions_map.in_grid(i, j) ==> #[trigger] final(self).positions_map.cell(
                    i,
                    j,
                ) == refreshed_cell(
                    old(self).positions_map,
                    i,
                    j,
                    old(self).registry@,
                    previous_positions(old(self).entity_previous_position_map),
                    old(self).registry@.len() as int,
                ),
            previous_positions(final(self).entity_previous_position_map) == recorded(
                previous_positions(old(self).entity_previous_position_map),
                old(self).registry@,
                old(self).registry@.len() as int,
            ),
            final(self).registry@ == ticked(
                old(self).registry@,
                final(self).positions_map,
                old(self).config,
                old(self).gravity_toggled.0,
                dt as int,
            ),
            final(self).registry@.len() == old(self).registry@.len(),
            forall|i: int|
                0 <= i < final(self).registry@.len() ==> (#[trigger] final(self).registry@[i]).occupied
                    == old(self).registry@[i].occupied && final(self).registry@[i].generation
                    == old(self).registry@[i].generation,
            forall|i: int|
                0 <= i < final(self).registry@.len() && (#[trigger] final(self).registry@[i]).occupied
                    && has_room_for(old(self).config.bounds, final(self).registry@[i].body)
                    ==> inside(final(self).registry@[i].body, old(self).config.bounds),
            dt == 0 ==> forall|i: int|
                0 <= i < old(self).registry@.len() && (#[trigger] old(self).registry@[i]).occupied
                    && inside(old(self).registry@[i].body, old(self).config.bounds) ==> same_motion(
                    final(self).registry@[i].body,
                    old(self).registry@[i].body,
                ),
            final(self).monitor.duration_micros == old(self).monitor.duration_micros,
            dt == 0 ==> final(self).monitor == old(self).monitor,
            dt > 0 ==> ({
                let pairs = distinct_pairs(
                    grid_scan(final(self).positions_map, 0, final(self).positions_map.columns()),
                );
                let resolutions = resolutions_of(
                    gravity_pass(
                        old(self).registry@,
                        old(self).gravity_toggled.0,
                        old(self).config.gravity as int,
                    ),
                    pairs,
                    dt as int,
                );
                &&& final(self).monitor.checked_pairs == pairs.len()
                &&& final(self).monitor.colliding_pairs == resolutions.len() / 2
            }),
            forall|i: int, a: int, b: int|
                0 <= i < old(self).registry@.len() && old(self).registry@[i].occupied && old(
                    self,
                ).positions_map.in_grid(a, b) && old(self).positions_map.lists_in(
                    old(self).registry@[i].body.position,
                    old(self).registry@[i].body.particle.radius,
                    a,
                    b,
                ) ==> (#[trigger] final(self).positions_map.cell(a, b)).contains(
                    #[trigger] handle_at(old(self).registry@, i),
                ),
    {
        let ghost s0 = self.registry@;
        self.begin_tick();
        let ghost s1 = self.registry@;
        if dt == 0 {
            self.finish_tick(dt, &Vec::new());
        } else {
            let pairs: Vec<(Handle, Handle)> = candidate_pairs(
                &self.positions_map,
                0,
                self.positions_map.map.len(),
            );
            let resolutions: Vec<CollisionResolution> = resolve_candidates(
                &pairs,
                &self.registry,
                dt,
            );
            self.finish_tick(dt, &resolutions);
            self.monitor.checked_pairs = pairs.len();
            self.monitor.colliding_pairs = resolutions.len() / 2;
        }
        proof {
            assert forall|i: int|
                0 <= i < s0.len() && (#[trigger] s0[i]).occupied implies s1[i].occupied
                && s1[i].body.position == s0[i].body.position && s1[i].body.velocity
                == s0[i].body.velocity && s1[i].generation == s0[i].generation by {}
            assert forall|i: int| 0 <= i < s0.len() implies (#[trigger] s1[i]).occupied
                == s0[i].occupied && s1[i].generation == s0[i].generation by {}
        }
    }
}

/// Whether the two stand at the same place and move with the same velocity.
pub open spec fn same_motion(one: ParticleView, other: ParticleView) -> bool {
    one.position == other.position && one.velocity == other.velocity
}

/// Whether the walls leave room for the disc of the particle.
pub open spec fn has_room_for(bounds: Bounds, body: ParticleView) -> bool {
    &&& bounds.min_x + body.particle.radius <= bounds.max_x - body.particle.radius
    &&& bounds.min_y + body.particle.radius <= bounds.max_y - body.particle.radius
}

} // verus!
