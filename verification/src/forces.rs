//! From forces to acceleration: the forces collected for a particle are
//! summed up, divided by its mass, and cut down to the largest acceleration.

use vstd::prelude::*;
use crate::collidable::lemma_product_within;
use crate::numeric::{
    ceil_sqrt,
    clamp,
    clamp_i128,
    div_toward_zero,
    lemma_quotient_bounds,
    lemma_sqrt_floor,
    lemma_square_monotone,
    quotient,
    sqrt_ceil,
    sqrt_floor,
};
use crate::particle::{
    Acceleration,
    ParticleView,
    ACCELERATION_LIMIT,
    FORCE_LIMIT,
    MASS_LIMIT,
};
use crate::registry::{Registry, SlotView};
use crate::vector::Vector2;

verus! {

/// The largest magnitude of a component of the sum of the forces divided by
/// the mass, before the length is cut down. A quotient beyond it counts as
/// it.
pub const ACCELERATION_SATURATION: i64 = 0x2000_0000_0000_0000;

/// The sum of the x components of the forces.
pub open spec fn total_x(forces: Seq<Vector2>) -> int
    decreases forces.len(),
{
    if forces.len() == 0 {
        0
    } else {
        total_x(forces.drop_last()) + forces.last().x
    }
}

/// The sum of the y components of the forces.
pub open spec fn total_y(forces: Seq<Vector2>) -> int
    decreases forces.len(),
{
    if forces.len() == 0 {
        0
    } else {
        total_y(forces.drop_last()) + forces.last().y
    }
}

/// One component of the sum of the forces, divided by the mass.
pub open spec fn per_mass(total: int, mass: int) -> int {
    clamp(quotient(total, mass), -ACCELERATION_SATURATION, ACCELERATION_SATURATION as int)
}

/// The vector `(x, y)`, made no longer than `max`: it stays as it is where
/// it is no longer, and else is scaled by the ratio of `max` to its length,
/// the length rounded up and the components rounded toward zero.
pub open spec fn limited(x: int, y: int, max: int) -> (int, int) {
    let squared = x * x + y * y;
    if squared <= max * max {
        (x, y)
    } else {
        let length = sqrt_ceil(squared);
        (quotient(x * max, length), quotient(y * max, length))
    }
}

/// The acceleration that the forces give to the mass, no longer than
/// `max`.
pub open spec fn acceleration_of(forces: Seq<Vector2>, mass: int, max: int) -> Vector2 {
    let bounded = limited(per_mass(total_x(forces), mass), per_mass(total_y(forces), mass), max);
    Vector2 { x: bounded.0 as i64, y: bounded.1 as i64 }
}

/// A particle after its forces have been reduced: they have become its
/// acceleration, and none is left.
pub open spec fn reduced(body: ParticleView, max: int) -> ParticleView {
    ParticleView {
        acceleration: Acceleration(acceleration_of(body.forces, body.mass.0 as int, max)),
        forces: Seq::empty(),
        ..body
    }
}

/// A slot after the forces of its particle have been reduced.
pub open spec fn reduced_slot(slot: SlotView, max: int) -> SlotView {
    if slot.occupied {
        SlotView { body: reduced(slot.body, max), ..slot }
    } else {
        slot
    }
}

/// The order in which forces were collected does not matter: the sum of
/// two runs of forces put together is the sum of their sums, so that
/// either order gives the same acceleration.
pub proof fn lemma_forces_in_any_order(
    front: Seq<Vector2>,
    back: Seq<Vector2>,
    mass: int,
    max: int,
)
    ensures
        total_x(front + back) == total_x(front) + total_x(back),
        total_y(front + back) == total_y(front) + total_y(back),
        acceleration_of(front + back, mass, max) == acceleration_of(back + front, mass, max),
{
    lemma_total_of_joined(front, back);
    lemma_total_of_joined(back, front);
}

/// The sum of two runs of forces put together is the sum of their sums.
pub proof fn lemma_total_of_joined(front: Seq<Vector2>, back: Seq<Vector2>)
    ensures
        total_x(front + back) == total_x(front) + total_x(back),
        total_y(front + back) == total_y(front) + total_y(back),
    decreases back.len(),
{
    if back.len() == 0 {
        assert(front + back =~= front);
    } else {
        lemma_total_of_joined(front, back.drop_last());
        assert((front + back).drop_last() =~= front + back.drop_last());
        assert((front + back).last() == back.last());
    }
}

/// The length of an acceleration is bounded: a limited vector is no longer
/// than the bound.
pub proof fn lemma_limited_within(x: int, y: int, max: int)
    requires
        max >= 0,
    ensures
        ({
            let bounded = limited(x, y, max);
            &&& bounded.0 * bounded.0 + bounded.1 * bounded.1 <= max * max
            &&& -max <= bounded.0 <= max
            &&& -max <= bounded.1 <= max
        }),
{
    let squared = x * x + y * y;
    let bounded = limited(x, y, max);
    assert(x * x >= 0 && y * y >= 0) by (nonlinear_arith);
    if squared > max * max {
        let length = sqrt_ceil(squared);
        lemma_sqrt_floor(squared);
        let below = sqrt_floor(squared);
        assert((below + 1) * (below + 1) > squared);
        assert(length * length >= squared);
        assert(max * max >= 0) by (nonlinear_arith);
        assert(length >= 1) by {
            if length <= 0 {
                assert(length * length == 0) by (nonlinear_arith)
                    requires
                        length == 0,
                ;
            }
        }
        lemma_scaled_down(x, max, length);
        lemma_scaled_down(y, max, length);
        let w = if bounded.0 >= 0 {
            bounded.0
        } else {
            -bounded.0
        };
        let h = if bounded.1 >= 0 {
            bounded.1
        } else {
            -bounded.1
        };
        let a = if x >= 0 {
            x
        } else {
            -x
        };
        let b = if y >= 0 {
            y
        } else {
            -y
        };
        assert(a * a == x * x && b * b == y * y && w * w == bounded.0 * bounded.0 && h * h
            == bounded.1 * bounded.1) by (nonlinear_arith)
            requires
                a == x || a == -x,
                b == y || b == -y,
                w == bounded.0 || w == -bounded.0,
                h == bounded.1 || h == -bounded.1,
        ;
        lemma_shorter(w, h, a, b, length, max);
    } else {
        if x > max || x < -max {
            assert(x * x > max * max) by (nonlinear_arith)
                requires
                    x > max || x < -max,
                    max >= 0,
            ;
        }
        if y > max || y < -max {
            assert(y * y > max * max) by (nonlinear_arith)
                requires
                    y > max || y < -max,
                    max >= 0,
            ;
        }
    }
}

/// A component scaled by the ratio of `max` to `length` and rounded toward
/// zero: its magnitude times `length` is at most the magnitude of the
/// component times `max`.
pub proof fn lemma_scaled_down(component: int, max: int, length: int)
    requires
        length >= 1,
        max >= 0,
    ensures
        ({
            let scaled = quotient(component * max, length);
            let magnitude = if scaled >= 0 {
                scaled
            } else {
                -scaled
            };
            let size = if component >= 0 {
                component
            } else {
                -component
            };
            &&& magnitude * length <= size * max
            &&& (component >= 0 ==> scaled >= 0)
            &&& (component <= 0 ==> scaled <= 0)
        }),
{
    let product = component * max;
    let scaled = quotient(product, length);
    lemma_quotient_bounds(product, length);
    if component >= 0 {
        assert(product >= 0) by (nonlinear_arith)
            requires
                component >= 0,
                max >= 0,
                product == component * max,
        ;
        assert(scaled >= 0) by (nonlinear_arith)
            requires
                scaled * length >= 0,
                length >= 1,
        ;
    } else {
        assert(product <= 0 && (-component) * max == -product) by (nonlinear_arith)
            requires
                component < 0,
                max >= 0,
                product == component * max,
        ;
        assert(scaled <= 0) by (nonlinear_arith)
            requires
                scaled * length <= 0,
                length >= 1,
        ;
        assert((-scaled) * length == -(scaled * length)) by (nonlinear_arith);
    }
}

/// A vector whose components, times `length`, are at most the components
/// of a vector of at most that length, times `max`, is at most `max` long.
pub proof fn lemma_shorter(w: int, h: int, a: int, b: int, length: int, max: int)
    requires
        length >= 1,
        max >= 0,
        a >= 0,
        b >= 0,
        w >= 0,
        h >= 0,
        a * a + b * b <= length * length,
        w * length <= a * max,
        h * length <= b * max,
    ensures
        w * w + h * h <= max * max,
        w <= max,
        h <= max,
{
    assert(w * length >= 0 && h * length >= 0) by (nonlinear_arith)
        requires
            w >= 0,
            h >= 0,
            length >= 1,
    ;
    lemma_square_monotone(w * length, a * max);
    lemma_square_monotone(h * length, b * max);
    let l2 = length * length;
    let m2 = max * max;
    assert((w * length) * (w * length) == (w * w) * l2 && (h * length) * (h * length) == (h * h)
        * l2 && (a * max) * (a * max) == (a * a) * m2 && (b * max) * (b * max) == (b * b) * m2)
        by (nonlinear_arith)
        requires
            l2 == length * length,
            m2 == max * max,
    ;
    assert((w * w + h * h) * l2 <= (a * a + b * b) * m2) by (nonlinear_arith)
        requires
            (w * w) * l2 <= (a * a) * m2,
            (h * h) * l2 <= (b * b) * m2,
    ;
    assert((a * a + b * b) * m2 <= l2 * m2) by (nonlinear_arith)
        requires
            a * a + b * b <= l2,
            m2 >= 0,
    ;
    assert(m2 >= 0 && l2 >= 1) by (nonlinear_arith)
        requires
            l2 == length * length,
            m2 == max * max,
            length >= 1,
    ;
    assert(w * w + h * h <= m2) by (nonlinear_arith)
        requires
            (w * w + h * h) * l2 <= l2 * m2,
            l2 >= 1,
    ;
    assert(w * w >= 0 && h * h >= 0) by (nonlinear_arith);
    if w > max {
        assert(w * w > max * max) by (nonlinear_arith)
            requires
                w > max,
                max >= 0,
        ;
    }
    if h > max {
        assert(h * h > max * max) by (nonlinear_arith)
            requires
                h > max,
                max >= 0,
        ;
    }
}

/// The sum of the forces, by component.
fn sum_of(forces: &Vec<Vector2>) -> (total: (i128, i128))
    requires
        forall|k: int| 0 <= k < forces.len() ==> (#[trigger] forces[k]).within(FORCE_LIMIT as int),
    ensures
        total.0 == total_x(forces@),
        total.1 == total_y(forces@),
        -0x4000_0000_0000_0000_0000_0000_0000_0000 <= total.0
            <= 0x4000_0000_0000_0000_0000_0000_0000_0000,
        -0x4000_0000_0000_0000_0000_0000_0000_0000 <= total.1
            <= 0x4000_0000_0000_0000_0000_0000_0000_0000,
{
    let mut sum_x: i128 = 0;
    let mut sum_y: i128 = 0;
    let mut k: usize = 0;
    assert(forces@.subrange(0, 0) =~= Seq::<Vector2>::empty());
    while k < forces.len()
        invariant
            k <= forces.len(),
            forall|m: int|
                0 <= m < forces.len() ==> (#[trigger] forces[m]).within(FORCE_LIMIT as int),
            sum_x == total_x(forces@.subrange(0, k as int)),
            sum_y == total_y(forces@.subrange(0, k as int)),
            -(k * 0x4000_0000_0000_0000) <= sum_x <= k * 0x4000_0000_0000_0000,
            -(k * 0x4000_0000_0000_0000) <= sum_y <= k * 0x4000_0000_0000_0000,
        decreases forces.len() - k,
    {
        proof {
            let next = forces@.subrange(0, k + 1);
            assert(next.drop_last() =~= forces@.subrange(0, k as int));
            assert(next.last() == forces@[k as int]);
            assert(forces[k as int].within(FORCE_LIMIT as int));
        }
        sum_x = sum_x + forces[k].x as i128;
        sum_y = sum_y + forces[k].y as i128;
        k = k + 1;
    }
    assert(forces@.subrange(0, k as int) =~= forces@);
    (sum_x, sum_y)
}

/// `(x, y)` made no longer than `max`.
fn limit_length(x: i64, y: i64, max: i64) -> (bounded: Vector2)
    requires
        -ACCELERATION_SATURATION <= x <= ACCELERATION_SATURATION,
        -ACCELERATION_SATURATION <= y <= ACCELERATION_SATURATION,
        0 <= max <= ACCELERATION_LIMIT,
    ensures
        (bounded.x as int, bounded.y as int) == limited(x as int, y as int, max as int),
        bounded.within(max as int),
{
    let wide_x: i128 = x as i128;
    let wide_y: i128 = y as i128;
    let wide_max: i128 = max as i128;
    proof {
        lemma_product_within(
            wide_x as int,
            wide_x as int,
            0x2000_0000_0000_0000,
            0x2000_0000_0000_0000,
        );
        lemma_product_within(
            wide_y as int,
            wide_y as int,
            0x2000_0000_0000_0000,
            0x2000_0000_0000_0000,
        );
        lemma_product_within(wide_max as int, wide_max as int, 0x4000_0000, 0x4000_0000);
        assert(wide_x * wide_x >= 0 && wide_y * wide_y >= 0 && wide_max * wide_max >= 0)
            by (nonlinear_arith);
        lemma_limited_within(x as int, y as int, max as int);
    }
    let squared: i128 = wide_x * wide_x + wide_y * wide_y;
    if squared <= wide_max * wide_max {
        Vector2 { x, y }
    } else {
        let length: i128 = ceil_sqrt(squared as u128) as i128;
        proof {
            lemma_product_within(wide_x as int, wide_max as int, 0x2000_0000_0000_0000, 0x4000_0000);
            lemma_product_within(wide_y as int, wide_max as int, 0x2000_0000_0000_0000, 0x4000_0000);
            assert(length >= 1) by {
                if length == 0 {
                    assert(length * length == 0) by (nonlinear_arith)
                        requires
                            length == 0,
                    ;
                }
            }
        }
        let scaled_x: i128 = div_toward_zero(wide_x * wide_max, length);
        let scaled_y: i128 = div_toward_zero(wide_y * wide_max, length);
        Vector2 { x: scaled_x as i64, y: scaled_y as i64 }
    }
}

/// The acceleration that the forces give to the mass, no longer than
/// `max`.
pub fn net_acceleration(forces: &Vec<Vector2>, mass: i64, max: i64) -> (acceleration: Vector2)
    requires
        forall|k: int| 0 <= k < forces.len() ==> (#[trigger] forces[k]).within(FORCE_LIMIT as int),
        0 < mass <= MASS_LIMIT,
        0 <= max <= ACCELERATION_LIMIT,
    ensures
        acceleration == acceleration_of(forces@, mass as int, max as int),
        acceleration.within(max as int),
{
    let (sum_x, sum_y): (i128, i128) = sum_of(forces);
    let per_mass_x: i128 = clamp_i128(
        div_toward_zero(sum_x, mass as i128),
        -(ACCELERATION_SATURATION as i128),
        ACCELERATION_SATURATION as i128,
    );
    let per_mass_y: i128 = clamp_i128(
        div_toward_zero(sum_y, mass as i128),
        -(ACCELERATION_SATURATION as i128),
        ACCELERATION_SATURATION as i128,
    );
    limit_length(per_mass_x as i64, per_mass_y as i64, max)
}

/// Turns the forces of every particle into its acceleration, no longer than
/// `max_acceleration`, and empties them.
pub fn apply_forces(max_acceleration: i64, registry: &mut Registry)
    requires
        0 <= max_acceleration <= ACCELERATION_LIMIT,
        old(registry).wf(),
    ensures
        final(registry).wf(),
        final(registry)@.len() == old(registry)@.len(),
        forall|i: int|
            0 <= i < old(registry)@.len() ==> #[trigger] final(registry)@[i] == reduced_slot(
                old(registry)@[i],
                max_acceleration as int,
            ),
{
    let mut i: usize = 0;
    while i < registry.slots.len()
        invariant
            i <= registry.slots.len(),
            0 <= max_acceleration <= ACCELERATION_LIMIT,
            old(registry).wf(),
            registry.wf(),
            registry@.len() == old(registry)@.len(),
            forall|k: int|
                0 <= k < i ==> #[trigger] registry@[k] == reduced_slot(
                    old(registry)@[k],
                    max_acceleration as int,
                ),
            forall|k: int| i <= k < registry@.len() ==> #[trigger] registry@[k] == old(registry)@[k],
        decreases registry.slots.len() - i,
    {
        let ghost before = registry@;
        assert(registry@[i as int] == registry.slots@[i as int]@);
        assert(before[i as int] == old(registry)@[i as int]);
        if registry.slots[i].occupied {
            assert(before[i as int].body.wf());
            let mass: i64 = registry.slots[i].body.mass.0;
            let acceleration: Vector2 = net_acceleration(
                &registry.slots[i].body.forces.0,
                mass,
                max_acceleration,
            );
            registry.slots[i].body.acceleration = Acceleration(acceleration);
            registry.slots[i].body.forces.0.clear();
            proof {
                let expected = reduced_slot(before[i as int], max_acceleration as int);
                assert(registry@[i as int] == registry.slots@[i as int]@);
                assert(registry@[i as int].body.forces =~= expected.body.forces);
                assert(registry@[i as int] == expected);
            }
        }
        proof {
            assert forall|k: int| 0 <= k < registry@.len() && k != i implies #[trigger] registry@[k]
                == before[k] by {
                assert(registry@[k] == registry.slots@[k]@);
            }
            assert(registry@[i as int] == reduced_slot(
                old(registry)@[i as int],
                max_acceleration as int,
            ));
            assert forall|k: int|
                0 <= k < registry@.len() && (#[trigger] registry@[k]).occupied implies registry@[k]
                .body.wf() by {
                if k != i {
                    assert(before[k].occupied);
                }
            }
        }
        i = i + 1;
    }
}

} // verus!
