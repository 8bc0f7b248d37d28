//! From acceleration to velocity.

use vstd::prelude::*;
use crate::collidable::lemma_product_within;
use crate::numeric::{clamp, clamp_i128, div_toward_zero, lemma_quotient_bounds, quotient};
use crate::particle::{ParticleView, Velocity, MICROS_PER_SECOND, VELOCITY_LIMIT};
use crate::registry::{Registry, SlotView};
use crate::vector::Vector2;

verus! {

/// A component of a velocity after the acceleration has acted on it for
/// `dt` microseconds. A velocity beyond the largest counts as the largest.
pub open spec fn accelerated_component(velocity: int, acceleration: int, dt: int) -> int {
    clamp(
        velocity + quotient(acceleration * dt, MICROS_PER_SECOND as int),
        -VELOCITY_LIMIT,
        VELOCITY_LIMIT as int,
    )
}

/// A particle after its acceleration has acted on its velocity.
pub open spec fn accelerated(body: ParticleView, dt: int) -> ParticleView {
    ParticleView {
        velocity: Velocity(
            Vector2 {
                x: accelerated_component(
                    body.velocity.0.x as int,
                    body.acceleration.0.x as int,
                    dt,
                ) as i64,
                y: accelerated_component(
                    body.velocity.0.y as int,
                    body.acceleration.0.y as int,
                    dt,
                ) as i64,
            },
        ),
        ..body
    }
}

/// A slot after the acceleration of its particle has acted.
pub open spec fn accelerated_slot(slot: SlotView, dt: int) -> SlotView {
    if slot.occupied {
        SlotView { body: accelerated(slot.body, dt), ..slot }
    } else {
        slot
    }
}

/// Within no time a velocity in its range does not change.
pub proof fn lemma_accelerated_in_no_time(velocity: int, acceleration: int)
    requires
        -VELOCITY_LIMIT <= velocity <= VELOCITY_LIMIT,
    ensures
        accelerated_component(velocity, acceleration, 0) == velocity,
{
    assert(acceleration * 0 == 0) by (nonlinear_arith);
}

/// One component of a velocity after `dt` microseconds of acceleration.
pub fn accelerate(velocity: i64, acceleration: i64, dt: u32) -> (after: i64)
    requires
        -VELOCITY_LIMIT <= velocity <= VELOCITY_LIMIT,
        -0x4000_0000 <= acceleration <= 0x4000_0000,
    ensures
        after == accelerated_component(velocity as int, acceleration as int, dt as int),
        -VELOCITY_LIMIT <= after <= VELOCITY_LIMIT,
{
    proof {
        lemma_product_within(acceleration as int, dt as int, 0x4000_0000, 0x1_0000_0000);
    }
    let gained: i128 = div_toward_zero(
        (acceleration as i128) * (dt as i128),
        MICROS_PER_SECOND as i128,
    );
    proof {
        lemma_quotient_bounds(acceleration * dt, MICROS_PER_SECOND as int);
        assert(-0x4000_0000_0000_0000 <= gained <= 0x4000_0000_0000_0000) by (nonlinear_arith)
            requires
                -0x4000_0000_0000_0000 <= acceleration * dt <= 0x4000_0000_0000_0000,
                acceleration * dt >= 0 ==> 0 <= gained * MICROS_PER_SECOND <= acceleration * dt,
                acceleration * dt <= 0 ==> 0 >= gained * MICROS_PER_SECOND >= acceleration * dt,
                MICROS_PER_SECOND == 1_000_000,
        ;
    }
    clamp_i128(velocity as i128 + gained, -(VELOCITY_LIMIT as i128), VELOCITY_LIMIT as i128) as i64
}

/// Lets the acceleration of every particle act on its velocity for `dt`
/// microseconds.
pub fn accelerate_entities(dt: u32, registry: &mut Registry)
    requires
        old(registry).wf(),
    ensures
        final(registry).wf(),
        final(registry)@.len() == old(registry)@.len(),
        forall|i: int|
            0 <= i < old(registry)@.len() ==> #[trigger] final(registry)@[i] == accelerated_slot(
                old(registry)@[i],
                dt as int,
            ),
{
    let mut i: usize = 0;
    while i < registry.slots.len()
        invariant
            i <= registry.slots.len(),
            old(registry).wf(),
            registry.wf(),
            registry@.len() == old(registry)@.len(),
            forall|k: int|
                0 <= k < i ==> #[trigger] registry@[k] == accelerated_slot(
                    old(registry)@[k],
                    dt as int,
                ),
            forall|k: int| i <= k < registry@.len() ==> #[trigger] registry@[k] == old(registry)@[k],
        decreases registry.slots.len() - i,
    {
        let ghost before = registry@;
        assert(registry@[i as int] == registry.slots@[i as int]@);
        assert(before[i as int] == old(registry)@[i as int]);
        if registry.slots[i].occupied {
            assert(before[i as int].body.wf());
            let velocity: Vector2 = registry.slots[i].body.velocity.0;
            let acceleration: Vector2 = registry.slots[i].body.acceleration.0;
            registry.slots[i].body.velocity = Velocity(
                Vector2 {
                    x: accelerate(velocity.x, acceleration.x, dt),
                    y: accelerate(velocity.y, acceleration.y, dt),
                },
            );
            proof {
                let expected = accelerated_slot(before[i as int], dt as int);
                assert(registry@[i as int] == registry.slots@[i as int]@);
                assert(registry@[i as int].body.forces =~= expected.body.forces);
                assert(registry@[i as int] == expected);
            }
        }
        proof {
            assert forall|k: int| 0 <= k < registry@.len() && k != i implies #[trigger] registry@[k]
                == before[k] by {
                assert(registry@[k] == registry.slots@[k]@);
            }
            assert(registry@[i as int] == accelerated_slot(old(registry)@[i as int], dt as int));
            assert forall|k: int|
                0 <= k < registry@.len() && (#[trigger] registry@[k]).occupied implies registry@[k]
                .body.wf() by {
                if k != i {
                    assert(before[k].occupied);
                }
            }
        }
        i = i + 1;
    }
}

} // verus!
