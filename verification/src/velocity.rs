//! From velocity to position.

use vstd::prelude::*;
use crate::bounds::{contained, lemma_contained_fixed, lemma_contained_inside, Bounds};
use crate::collidable::{impulse_force, lemma_product_within, velocity_change_to_force};
use crate::numeric::{clamp_i128, div_toward_zero, lemma_quotient_within, quotient};
use crate::particle::{
    ParticleView,
    COORDINATE_LIMIT,
    FORCE_LIMIT,
    MASS_LIMIT,
    MICROS_PER_SECOND,
    RADIUS_LIMIT,
    RESTITUTION_ONE,
    VELOCITY_LIMIT,
};
use crate::registry::{Registry, SlotView};
use crate::vector::Vector2;

verus! {

/// The largest number of units of length in a unit of the length that
/// velocities are measured in.
pub const SCALE_LIMIT: i64 = 0x10_0000;

/// A coordinate after the particle has moved for `dt` microseconds with the
/// given velocity, `scale` units of length to each unit of velocity, kept
/// one radius inside the walls of its axis.
pub open spec fn moved_component(
    center: int,
    velocity: int,
    dt: int,
    scale: int,
    radius: int,
    min: int,
    max: int,
) -> int {
    contained(center + quotient(velocity * dt * scale, MICROS_PER_SECOND as int), radius, min, max)
}

/// A particle after it has moved.
pub open spec fn moved(body: ParticleView, bounds: Bounds, dt: int, scale: int) -> ParticleView {
    ParticleView {
        position: Vector2 {
            x: moved_component(
                body.position.x as int,
                body.velocity.0.x as int,
                dt,
                scale,
                body.particle.radius as int,
                bounds.min_x as int,
                bounds.max_x as int,
            ) as i64,
            y: moved_component(
                body.position.y as int,
                body.velocity.0.y as int,
                dt,
                scale,
                body.particle.radius as int,
                bounds.min_y as int,
                bounds.max_y as int,
            ) as i64,
        },
        ..body
    }
}

/// A slot after its particle has moved.
pub open spec fn moved_slot(slot: SlotView, bounds: Bounds, dt: int, scale: int) -> SlotView {
    if slot.occupied {
        SlotView { body: moved(slot.body, bounds, dt, scale), ..slot }
    } else {
        slot
    }
}

/// Whether the disc of the particle lies within the walls.
pub open spec fn inside(body: ParticleView, bounds: Bounds) -> bool {
    &&& bounds.min_x + body.particle.radius <= body.position.x <= bounds.max_x
        - body.particle.radius
    &&& bounds.min_y + body.particle.radius <= body.position.y <= bounds.max_y
        - body.particle.radius
}

/// Boundary containment: wherever the walls of an axis leave room for the
/// disc, a particle that has moved lies one radius inside them.
pub proof fn lemma_moved_inside(body: ParticleView, bounds: Bounds, dt: int, scale: int)
    requires
        body.wf(),
        bounds.wf(),
    ensures
        bounds.min_x + body.particle.radius <= bounds.max_x - body.particle.radius ==> bounds.min_x
            + body.particle.radius <= moved(body, bounds, dt, scale).position.x <= bounds.max_x
            - body.particle.radius,
        bounds.min_y + body.particle.radius <= bounds.max_y - body.particle.radius ==> bounds.min_y
            + body.particle.radius <= moved(body, bounds, dt, scale).position.y <= bounds.max_y
            - body.particle.radius,
        bounds.min_x + body.particle.radius <= bounds.max_x - body.particle.radius && bounds.min_y
            + body.particle.radius <= bounds.max_y - body.particle.radius ==> inside(
            moved(body, bounds, dt, scale),
            bounds,
        ),
{
    let step_x = quotient(body.velocity.0.x * dt * scale, MICROS_PER_SECOND as int);
    let step_y = quotient(body.velocity.0.y * dt * scale, MICROS_PER_SECOND as int);
    if bounds.min_x + body.particle.radius <= bounds.max_x - body.particle.radius {
        lemma_contained_inside(
            body.position.x + step_x,
            body.particle.radius as int,
            bounds.min_x as int,
            bounds.max_x as int,
        );
    }
    if bounds.min_y + body.particle.radius <= bounds.max_y - body.particle.radius {
        lemma_contained_inside(
            body.position.y + step_y,
            body.particle.radius as int,
            bounds.min_y as int,
            bounds.max_y as int,
        );
    }
}

/// Within no time a particle that lies within the walls does not move.
pub proof fn lemma_moved_in_no_time(body: ParticleView, bounds: Bounds, scale: int)
    requires
        body.wf(),
        bounds.wf(),
        inside(body, bounds),
    ensures
        moved(body, bounds, 0, scale) == body,
{
    assert(body.velocity.0.x * 0 * scale == 0 && body.velocity.0.y * 0 * scale == 0)
        by (nonlinear_arith);
    lemma_contained_fixed(
        body.position.x as int,
        body.particle.radius as int,
        bounds.min_x as int,
        bounds.max_x as int,
    );
    lemma_contained_fixed(
        body.position.y as int,
        body.particle.radius as int,
        bounds.min_y as int,
        bounds.max_y as int,
    );
}

/// One coordinate after the particle has moved.
pub fn advance(
    center: i64,
    velocity: i64,
    dt: u32,
    scale: i64,
    radius: i64,
    min: i64,
    max: i64,
) -> (after: i64)
    requires
        -COORDINATE_LIMIT <= center <= COORDINATE_LIMIT,
        -VELOCITY_LIMIT <= velocity <= VELOCITY_LIMIT,
        0 <= scale <= SCALE_LIMIT,
        0 < radius <= RADIUS_LIMIT,
        -RADIUS_LIMIT <= min <= RADIUS_LIMIT,
        -RADIUS_LIMIT <= max <= RADIUS_LIMIT,
    ensures
        after == moved_component(
            center as int,
            velocity as int,
            dt as int,
            scale as int,
            radius as int,
            min as int,
            max as int,
        ),
        -COORDINATE_LIMIT <= after <= COORDINATE_LIMIT,
{
    proof {
        lemma_product_within(velocity as int, dt as int, 0x4000_0000, 0x1_0000_0000);
        lemma_product_within(velocity * dt, scale as int, 0x4000_0000_0000_0000, 0x10_0000);
    }
    let step: i128 = div_toward_zero(
        (velocity as i128) * (dt as i128) * (scale as i128),
        MICROS_PER_SECOND as i128,
    );
    proof {
        lemma_quotient_within(
            velocity * dt * scale,
            MICROS_PER_SECOND as int,
            0x4_0000_0000_0000_0000_0000,
        );
    }
    clamp_i128(center as i128 + step, (min + radius) as i128, (max - radius) as i128) as i64
}

/// Moves every particle for `dt` microseconds with its velocity, and keeps
/// it inside the walls.
pub fn move_entities(dt: u32, bounds: &Bounds, pixels_per_meter: i64, registry: &mut Registry)
    requires
        bounds.wf(),
        0 <= pixels_per_meter <= SCALE_LIMIT,
        old(registry).wf(),
    ensures
        final(registry).wf(),
        final(registry)@.len() == old(registry)@.len(),
        forall|i: int|
            0 <= i < old(registry)@.len() ==> #[trigger] final(registry)@[i] == moved_slot(
                old(registry)@[i],
                *bounds,
                dt as int,
                pixels_per_meter as int,
            ),
{
    let mut i: usize = 0;
    while i < registry.slots.len()
        invariant
            i <= registry.slots.len(),
            bounds.wf(),
            0 <= pixels_per_meter <= SCALE_LIMIT,
            old(registry).wf(),
            registry.wf(),
            registry@.len() == old(registry)@.len(),
            forall|k: int|
                0 <= k < i ==> #[trigger] registry@[k] == moved_slot(
                    old(registry)@[k],
                    *bounds,
                    dt as int,
                    pixels_per_meter as int,
                ),
            forall|k: int| i <= k < registry@.len() ==> #[trigger] registry@[k] == old(registry)@[k],
        decreases registry.slots.len() - i,
    {
        let ghost before = registry@;
        assert(registry@[i as int] == registry.slots@[i as int]@);
        assert(before[i as int] == old(registry)@[i as int]);
        if registry.slots[i].occupied {
            assert(before[i as int].body.wf());
            let velocity: Vector2 = registry.slots[i].body.velocity.0;
            let position: Vector2 = registry.slots[i].body.position;
            let radius: i64 = registry.slots[i].body.particle.radius;
            registry.slots[i].body.position = Vector2 {
                x: advance(
                    position.x,
                    velocity.x,
                    dt,
                    pixels_per_meter,
                    radius,
                    bounds.min_x,
                    bounds.max_x,
                ),
                y: advance(
                    position.y,
                    velocity.y,
                    dt,
                    pixels_per_meter,
                    radius,
                    bounds.min_y,
                    bounds.max_y,
                ),
            };
            proof {
                let expected = moved_slot(
                    before[i as int],
                    *bounds,
                    dt as int,
                    pixels_per_meter as int,
                );
                assert(registry@[i as int] == registry.slots@[i as int]@);
                assert(registry@[i as int].body.forces =~= expected.body.forces);
                assert(registry@[i as int] == expected);
            }
        }
        proof {
            assert forall|k: int| 0 <= k < registry@.len() && k != i implies #[trigger] registry@[k]
                == before[k] by {
                assert(registry@[k] == registry.slots@[k]@);
            }
            assert(registry@[i as int] == moved_slot(
                old(registry)@[i as int],
                *bounds,
                dt as int,
                pixels_per_meter as int,
            ));
            assert forall|k: int|
                0 <= k < registry@.len() && (#[trigger] registry@[k]).occupied implies registry@[k]
                .body.wf() by {
                if k != i {
                    assert(before[k].occupied);
                }
            }
        }
        i = i + 1;
    }
}

/// The force that brings a mass from rest to `velocity` within `dt_micros`
/// microseconds, by component.
pub fn velocity_to_force(mass: i64, velocity: Vector2, dt_micros: u32) -> (force: Vector2)
    requires
        0 < mass <= MASS_LIMIT,
        velocity.within(VELOCITY_LIMIT as int),
        dt_micros > 0,
    ensures
        force.x == impulse_force(
            mass as int,
            velocity.x as int,
            RESTITUTION_ONE as int,
            dt_micros as int,
        ),
        force.y == impulse_force(
            mass as int,
            velocity.y as int,
            RESTITUTION_ONE as int,
            dt_micros as int,
        ),
        force.within(FORCE_LIMIT as int),
{
    Vector2 {
        x: velocity_change_to_force(mass, velocity.x, RESTITUTION_ONE, dt_micros),
        y: velocity_change_to_force(mass, velocity.y, RESTITUTION_ONE, dt_micros),
    }
}

} // verus!
