//! Gravity: a force on every particle, downwards, in proportion to its mass.

use vstd::prelude::*;
use crate::collidable::lemma_product_within;
use crate::particle::{ParticleView, ACCELERATION_LIMIT};
use crate::registry::{Registry, SlotView};
use crate::vector::Vector2;

verus! {

/// The weight of a mass under the acceleration `gravity`: it points down.
pub open spec fn weight(mass: int, gravity: int) -> Vector2 {
    Vector2 { x: 0, y: (-(mass * gravity)) as i64 }
}

/// A particle with its weight added to its forces.
pub open spec fn weighted(body: ParticleView, gravity: int) -> ParticleView {
    ParticleView { forces: body.forces.push(weight(body.mass.0 as int, gravity)), ..body }
}

/// A slot with the weight of its particle added to the forces.
pub open spec fn weighted_slot(slot: SlotView, gravity: int) -> SlotView {
    if slot.occupied {
        SlotView { body: weighted(slot.body, gravity), ..slot }
    } else {
        slot
    }
}

/// Adds to the forces of every particle its weight under the acceleration
/// `gravity`.
pub fn apply_gravity(gravity: i64, registry: &mut Registry)
    requires
        0 <= gravity <= ACCELERATION_LIMIT,
        old(registry).wf(),
    ensures
        final(registry).wf(),
        final(registry)@.len() == old(registry)@.len(),
        forall|i: int|
            0 <= i < old(registry)@.len() ==> #[trigger] final(registry)@[i] == weighted_slot(
                old(registry)@[i],
                gravity as int,
            ),
{
    let mut i: usize = 0;
    while i < registry.slots.len()
        invariant
            i <= registry.slots.len(),
            0 <= gravity <= ACCELERATION_LIMIT,
            old(registry).wf(),
            registry.wf(),
            registry@.len() == old(registry)@.len(),
            forall|k: int|
                0 <= k < i ==> #[trigger] registry@[k] == weighted_slot(
                    old(registry)@[k],
                    gravity as int,
                ),
            forall|k: int| i <= k < registry@.len() ==> #[trigger] registry@[k] == old(registry)@[k],
        decreases registry.slots.len() - i,
    {
        let ghost before = registry@;
        assert(registry@[i as int] == registry.slots@[i as int]@);
        assert(before[i as int] == old(registry)@[i as int]);
        if registry.slots[i].occupied {
            assert(before[i as int].body.wf());
            let mass: i64 = registry.slots[i].body.mass.0;
            proof {
                lemma_product_within(mass as int, gravity as int, 0x10_0000, 0x4000_0000);
            }
            let force: Vector2 = Vector2 { x: 0, y: -(mass * gravity) };
            registry.slots[i].body.forces.0.push(force);
            proof {
                let expected = weighted_slot(before[i as int], gravity as int);
                assert(registry@[i as int] == registry.slots@[i as int]@);
                assert(registry@[i as int].body.forces =~= expected.body.forces);
                assert(registry@[i as int] == expected);
            }
        }
        proof {
            assert forall|k: int| 0 <= k < registry@.len() && k != i implies #[trigger] registry@[k]
                == before[k] by {
                assert(registry@[k] == registry.slots@[k]@);
            }
            assert(registry@[i as int] == weighted_slot(old(registry)@[i as int], gravity as int));
            assert forall|k: int|
                0 <= k < registry@.len() && (#[trigger] registry@[k]).occupied implies registry@[k]
                .body.wf() by {
                if k != i {
                    assert(before[k].occupied);
                }
            }
        }
        i = i + 1;
    }
}

} // verus!
