//! The walls: a particle that crosses one is turned back.

use vstd::prelude::*;
use crate::collidable::{impulse_force, velocity_change_to_force};
use crate::numeric::clamp;
use crate::particle::{
    FluidParticle,
    Mass,
    ParticleView,
    Velocity,
    COORDINATE_LIMIT,
    FORCE_LIMIT,
    RADIUS_LIMIT,
    VELOCITY_LIMIT,
};
use crate::registry::{Registry, SlotView};
use crate::vector::Vector2;

verus! {

/// The rectangle that holds the particles.
#[derive(Clone, Copy, PartialEq, Eq, Structural, Debug)]
pub struct Bounds {
    pub min_x: i64,
    pub max_x: i64,
    pub min_y: i64,
    pub max_y: i64,
}

impl Bounds {
    /// The sides lie in their range, the lower ones not above the upper
    /// ones.
    pub open spec fn wf(self) -> bool {
        &&& -RADIUS_LIMIT <= self.min_x <= self.max_x <= RADIUS_LIMIT
        &&& -RADIUS_LIMIT <= self.min_y <= self.max_y <= RADIUS_LIMIT
    }

    /// Whether the sides lie in their range, the lower ones not above the
    /// upper ones.
    pub fn is_valid(&self) -> (valid: bool)
        ensures
            valid == self.wf(),
    {
        -RADIUS_LIMIT <= self.min_x && self.min_x <= self.max_x && self.max_x <= RADIUS_LIMIT
            && -RADIUS_LIMIT <= self.min_y && self.min_y <= self.max_y && self.max_y
            <= RADIUS_LIMIT
    }
}

/// Whether a disc of the given radius around `center` reaches over one of
/// the two walls of an axis.
pub open spec fn crosses(center: int, radius: int, min: int, max: int) -> bool {
    center - radius < min || center + radius > max
}

/// The force of the walls of one axis on a particle, within `dt`
/// microseconds: where the disc crosses a wall, the force that turns the
/// velocity along the axis round, scaled by the restitution; else none. A
/// tick of no duration has no force.
pub open spec fn wall_force(
    center: int,
    radius: int,
    mass: int,
    velocity: int,
    restitution: int,
    dt: int,
    min: int,
    max: int,
) -> int {
    if dt != 0 && crosses(center, radius, min, max) {
        impulse_force(mass, -velocity - velocity, restitution, dt)
    } else {
        0
    }
}

/// The force of the walls on a particle.
pub open spec fn boundary_force(body: ParticleView, bounds: Bounds, dt: int) -> Vector2 {
    Vector2 {
        x: wall_force(
            body.position.x as int,
            body.particle.radius as int,
            body.mass.0 as int,
            body.velocity.0.x as int,
            body.particle.restitution_coeff as int,
            dt,
            bounds.min_x as int,
            bounds.max_x as int,
        ) as i64,
        y: wall_force(
            body.position.y as int,
            body.particle.radius as int,
            body.mass.0 as int,
            body.velocity.0.y as int,
            body.particle.restitution_coeff as int,
            dt,
            bounds.min_y as int,
            bounds.max_y as int,
        ) as i64,
    }
}

/// A coordinate kept one radius inside the walls of its axis.
pub open spec fn contained(center: int, radius: int, min: int, max: int) -> int {
    clamp(center, min + radius, max - radius)
}

/// A particle after the walls have acted on it: their force, unless it is
/// null, has been added to its forces, and on each axis along which the
/// force acts the centre has been moved back to one radius inside the
/// walls.
pub open spec fn bounded(body: ParticleView, bounds: Bounds, dt: int) -> ParticleView {
    let force = boundary_force(body, bounds, dt);
    ParticleView {
        position: Vector2 {
            x: if force.x != 0 {
                contained(
                    body.position.x as int,
                    body.particle.radius as int,
                    bounds.min_x as int,
                    bounds.max_x as int,
                ) as i64
            } else {
                body.position.x
            },
            y: if force.y != 0 {
                contained(
                    body.position.y as int,
                    body.particle.radius as int,
                    bounds.min_y as int,
                    bounds.max_y as int,
                ) as i64
            } else {
                body.position.y
            },
        },
        forces: if force.is_zero() {
            body.forces
        } else {
            body.forces.push(force)
        },
        ..body
    }
}

/// A slot after the walls have acted on its particle.
pub open spec fn bounded_slot(slot: SlotView, bounds: Bounds, dt: int) -> SlotView {
    if slot.occupied {
        SlotView { body: bounded(slot.body, bounds, dt), ..slot }
    } else {
        slot
    }
}

/// The force of the walls of one axis.
fn axis_force(
    center: i64,
    radius: i64,
    mass: i64,
    velocity: i64,
    restitution: i64,
    dt: u32,
    min: i64,
    max: i64,
) -> (force: i64)
    requires
        -COORDINATE_LIMIT <= center <= COORDINATE_LIMIT,
        0 < radius <= RADIUS_LIMIT,
        (Mass(mass)).wf(),
        (FluidParticle { radius, restitution_coeff: restitution }).wf(),
        -VELOCITY_LIMIT <= velocity <= VELOCITY_LIMIT,
    ensures
        force == wall_force(
            center as int,
            radius as int,
            mass as int,
            velocity as int,
            restitution as int,
            dt as int,
            min as int,
            max as int,
        ),
        -FORCE_LIMIT <= force <= FORCE_LIMIT,
{
    if dt != 0 && (center as i128 - radius as i128) < min as i128 || dt != 0 && (center as i128
        + radius as i128) > max as i128 {
        velocity_change_to_force(mass, -velocity - velocity, restitution, dt)
    } else {
        0
    }
}

/// The force of the walls on a particle that stands at `particle_center`.
pub fn calculate_collision_force(
    particle_center: Vector2,
    particle: &FluidParticle,
    mass: &Mass,
    velocity: &Velocity,
    dt: u32,
    bounds: &Bounds,
) -> (force: Vector2)
    requires
        particle.wf(),
        mass.wf(),
        particle_center.within(COORDINATE_LIMIT as int),
        velocity.0.within(VELOCITY_LIMIT as int),
    ensures
        force.x == wall_force(
            particle_center.x as int,
            particle.radius as int,
            mass.0 as int,
            velocity.0.x as int,
            particle.restitution_coeff as int,
            dt as int,
            bounds.min_x as int,
            bounds.max_x as int,
        ),
        force.y == wall_force(
            particle_center.y as int,
            particle.radius as int,
            mass.0 as int,
            velocity.0.y as int,
            particle.restitution_coeff as int,
            dt as int,
            bounds.min_y as int,
            bounds.max_y as int,
        ),
        force.within(FORCE_LIMIT as int),
{
    Vector2 {
        x: axis_force(
            particle_center.x,
            particle.radius,
            mass.0,
            velocity.0.x,
            particle.restitution_coeff,
            dt,
            bounds.min_x,
            bounds.max_x,
        ),
        y: axis_force(
            particle_center.y,
            particle.radius,
            mass.0,
            velocity.0.y,
            particle.restitution_coeff,
            dt,
            bounds.min_y,
            bounds.max_y,
        ),
    }
}

/// `center` kept one radius inside the walls of its axis.
pub fn contain(center: i64, radius: i64, min: i64, max: i64) -> (kept: i64)
    requires
        -COORDINATE_LIMIT <= center <= COORDINATE_LIMIT,
        0 < radius <= RADIUS_LIMIT,
        -RADIUS_LIMIT <= min <= RADIUS_LIMIT,
        -RADIUS_LIMIT <= max <= RADIUS_LIMIT,
    ensures
        kept == contained(center as int, radius as int, min as int, max as int),
        -COORDINATE_LIMIT <= kept <= COORDINATE_LIMIT,
{
    let low: i64 = min + radius;
    let high: i64 = max - radius;
    let raised: i64 = if center < low {
        low
    } else {
        center
    };
    if raised > high {
        high
    } else {
        raised
    }
}

/// Lets the walls act on every particle: one whose disc crosses a wall gets
/// the force that turns it back, and is moved back inside along the axes of
/// that force.
pub fn enforce_bounds(dt: u32, bounds: &Bounds, registry: &mut Registry)
    requires
        bounds.wf(),
        old(registry).wf(),
    ensures
        final(registry).wf(),
        final(registry)@.len() == old(registry)@.len(),
        forall|i: int|
            0 <= i < old(registry)@.len() ==> #[trigger] final(registry)@[i] == bounded_slot(
                old(registry)@[i],
                *bounds,
                dt as int,
            ),
{
    let mut i: usize = 0;
    while i < registry.slots.len()
        invariant
            i <= registry.slots.len(),
            bounds.wf(),
            old(registry).wf(),
            registry.wf(),
            registry@.len() == old(registry)@.len(),
            forall|k: int|
                0 <= k < i ==> #[trigger] registry@[k] == bounded_slot(
                    old(registry)@[k],
                    *bounds,
                    dt as int,
                ),
            forall|k: int| i <= k < registry@.len() ==> #[trigger] registry@[k] == old(registry)@[k],
        decreases registry.slots.len() - i,
    {
        let ghost before = registry@;
        assert(registry@[i as int] == registry.slots@[i as int]@);
        assert(before[i as int] == old(registry)@[i as int]);
        if registry.slots[i].occupied {
            assert(before[i as int].body.wf());
            let particle: FluidParticle = registry.slots[i].body.particle;
            let mass: Mass = registry.slots[i].body.mass;
            let velocity: Velocity = registry.slots[i].body.velocity;
            let particle_center: Vector2 = registry.slots[i].body.position;
            let collision_force: Vector2 = calculate_collision_force(
                particle_center,
                &particle,
                &mass,
                &velocity,
                dt,
                bounds,
            );
            if collision_force != Vector2::zero() {
                registry.slots[i].body.forces.0.push(collision_force);
            }
            if collision_force.x != 0 {
                registry.slots[i].body.position.x = contain(
                    particle_center.x,
                    particle.radius,
                    bounds.min_x,
                    bounds.max_x,
                );
            }
            if collision_force.y != 0 {
                registry.slots[i].body.position.y = contain(
                    particle_center.y,
                    particle.radius,
                    bounds.min_y,
                    bounds.max_y,
                );
            }
            proof {
                let expected = bounded_slot(before[i as int], *bounds, dt as int);
                assert(collision_force == boundary_force(before[i as int].body, *bounds, dt as int));
                assert(registry@[i as int] == registry.slots@[i as int]@);
                assert(registry@[i as int].body.forces =~= expected.body.forces);
                assert(registry@[i as int] == expected);
            }
        }
        proof {
            assert forall|k: int| 0 <= k < registry@.len() && k != i implies #[trigger] registry@[k]
                == before[k] by {
                assert(registry@[k] == registry.slots@[k]@);
            }
            assert(registry@[i as int] == bounded_slot(old(registry)@[i as int], *bounds, dt as int));
            assert forall|k: int|
                0 <= k < registry@.len() && (#[trigger] registry@[k]).occupied implies registry@[k]
                .body.wf() by {
                if k != i {
                    assert(before[k].occupied);
                }
            }
        }
        i = i + 1;
    }
}

/// A coordinate that has been kept inside lies one radius inside the walls,
/// wherever the walls leave room for the disc.
pub proof fn lemma_contained_inside(center: int, radius: int, min: int, max: int)
    requires
        min + radius <= max - radius,
    ensures
        min + radius <= contained(center, radius, min, max) <= max - radius,
{
}

/// A coordinate that lies one radius inside the walls stays where it is.
pub proof fn lemma_contained_fixed(center: int, radius: int, min: int, max: int)
    requires
        min + radius <= center <= max - radius,
    ensures
        contained(center, radius, min, max) == center,
{
}

} // verus!
