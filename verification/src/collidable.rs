//! One collision between two particles: whether they touch, what velocities
//! they leave with, what forces that takes, and how they are pushed apart.

use vstd::prelude::*;
use crate::numeric::{
    abs,
    clamp,
    clamp_i128,
    div_away_from_zero,
    div_toward_zero,
    floor_sqrt,
    is_floor_sqrt,
    lemma_quotient_away_bounds,
    lemma_quotient_bounds,
    lemma_quotient_within,
    lemma_sqrt_floor,
    lemma_square_monotone,
    quotient,
    quotient_away,
    sqrt_floor,
};
use crate::particle::{
    FluidParticle,
    Mass,
    Velocity,
    COORDINATE_LIMIT,
    FORCE_LIMIT,
    MASS_LIMIT,
    MICROS_PER_SECOND,
    RESTITUTION_ONE,
    VELOCITY_LIMIT,
};
use crate::vector::Vector2;

verus! {

/// What a collision reads of a particle.
#[derive(Clone, Copy, Debug)]
pub struct CollidableParticle {
    pub particle_center: Vector2,
    pub particle: FluidParticle,
    pub mass: Mass,
    pub velocity: Velocity,
}

/// The direction from the first centre to the second, along which two
/// particles collide. Two particles at the same place collide along the x
/// axis.
pub open spec fn collision_line(c1: Vector2, c2: Vector2) -> (int, int) {
    if c1 == c2 {
        (1, 0)
    } else {
        (c2.x - c1.x, c2.y - c1.y)
    }
}

/// The part of the velocity `(vx, vy)` along the direction `(nx, ny)`, each
/// component rounded toward zero.
pub open spec fn projection(vx: int, vy: int, nx: int, ny: int) -> (int, int) {
    let along = vx * nx + vy * ny;
    let length_squared = nx * nx + ny * ny;
    (quotient(along * nx, length_squared), quotient(along * ny, length_squared))
}

/// The velocity along the collision line with which a particle of mass
/// `mass` and restitution `restitution` leaves a collision that it entered
/// with `own` along the line, the other particle, of mass `other_mass`, with
/// `other`: the velocity of the common centre of mass, and `restitution`
/// times the part of the relative velocity that an elastic collision would
/// give back.
pub open spec fn rebound(mass: int, other_mass: int, restitution: int, own: int, other: int) -> int {
    quotient(
        RESTITUTION_ONE * (mass * own + other_mass * other) + restitution * other_mass * (other
            - own),
        RESTITUTION_ONE * (mass + other_mass),
    )
}

/// The number of fine parts in a unit of length, in which the distance of
/// two centres is measured when they are pushed apart.
pub const LENGTH_SCALE: i64 = 0x1_0000;

/// The length of `(x, y)` in fine parts of a unit, rounded down.
pub open spec fn fine_length(x: int, y: int) -> int {
    sqrt_floor((x * x + y * y) * (LENGTH_SCALE * LENGTH_SCALE))
}

/// The force that changes the velocity of a mass by `restitution` times
/// `change` within `dt` microseconds, cut down to the largest force.
pub open spec fn impulse_force(mass: int, change: int, restitution: int, dt: int) -> int {
    clamp(
        quotient(mass * change * restitution * MICROS_PER_SECOND, RESTITUTION_ONE * dt),
        -FORCE_LIMIT,
        FORCE_LIMIT as int,
    )
}

impl CollidableParticle {
    /// Every quantity lies in its range.
    pub open spec fn wf(self) -> bool {
        &&& self.particle.wf()
        &&& self.mass.wf()
        &&& self.particle_center.within(COORDINATE_LIMIT as int)
        &&& self.velocity.0.within(VELOCITY_LIMIT as int)
    }

    /// The collision line from this particle to `other`.
    pub open spec fn line_to(self, other: CollidableParticle) -> (int, int) {
        collision_line(self.particle_center, other.particle_center)
    }

    /// The squared distance between the two centres.
    pub open spec fn distance_squared(self, other: CollidableParticle) -> int {
        let dx = other.particle_center.x - self.particle_center.x;
        let dy = other.particle_center.y - self.particle_center.y;
        dx * dx + dy * dy
    }

    /// Whether the two discs touch or overlap: the centres are no further
    /// apart than the sum of the radii.
    pub open spec fn touches(self, other: CollidableParticle) -> bool {
        let reach = self.particle.radius + other.particle.radius;
        self.distance_squared(other) <= reach * reach
    }

    /// The velocity of `other` relative to this particle, along the
    /// collision line: negative while the two approach each other.
    pub open spec fn parting_speed(self, other: CollidableParticle) -> int {
        let (nx, ny) = self.line_to(other);
        (other.velocity.0.x - self.velocity.0.x) * nx + (other.velocity.0.y - self.velocity.0.y)
            * ny
    }

    /// The part of this particle's velocity along the collision line to
    /// `other`.
    pub open spec fn along(self, other: CollidableParticle) -> (int, int) {
        let (nx, ny) = self.line_to(other);
        projection(self.velocity.0.x as int, self.velocity.0.y as int, nx, ny)
    }

    /// The part of the velocity of `other` along the collision line from
    /// this particle to it.
    pub open spec fn along_of(self, other: CollidableParticle) -> (int, int) {
        let (nx, ny) = self.line_to(other);
        projection(other.velocity.0.x as int, other.velocity.0.y as int, nx, ny)
    }

    /// The part along the collision line of the velocity with which this
    /// particle leaves a collision with `other`.
    pub open spec fn along_after(self, other: CollidableParticle) -> (int, int) {
        let own = self.along(other);
        let theirs = self.along_of(other);
        (
            rebound(
                self.mass.0 as int,
                other.mass.0 as int,
                self.particle.restitution_coeff as int,
                own.0,
                theirs.0,
            ),
            rebound(
                self.mass.0 as int,
                other.mass.0 as int,
                self.particle.restitution_coeff as int,
                own.1,
                theirs.1,
            ),
        )
    }

    /// The part along the collision line of the velocity with which `other`
    /// leaves a collision with this particle.
    pub open spec fn along_of_after(self, other: CollidableParticle) -> (int, int) {
        let own = self.along(other);
        let theirs = self.along_of(other);
        (
            rebound(
                other.mass.0 as int,
                self.mass.0 as int,
                other.particle.restitution_coeff as int,
                theirs.0,
                own.0,
            ),
            rebound(
                other.mass.0 as int,
                self.mass.0 as int,
                other.particle.restitution_coeff as int,
                theirs.1,
                own.1,
            ),
        )
    }

    /// The velocities with which the two leave a collision. Where they do
    /// not approach each other, both keep their velocity. Else each keeps
    /// the part of its velocity across the collision line, and the part
    /// along the line becomes its rebound.
    pub open spec fn velocities_after(self, other: CollidableParticle) -> ((int, int), (int, int)) {
        if self.parting_speed(other) >= 0 {
            (
                (self.velocity.0.x as int, self.velocity.0.y as int),
                (other.velocity.0.x as int, other.velocity.0.y as int),
            )
        } else {
            let own = self.along(other);
            let theirs = self.along_of(other);
            let own_after = self.along_after(other);
            let theirs_after = self.along_of_after(other);
            (
                (
                    own_after.0 + (self.velocity.0.x - own.0),
                    own_after.1 + (self.velocity.0.y - own.1),
                ),
                (
                    theirs_after.0 + (other.velocity.0.x - theirs.0),
                    theirs_after.1 + (other.velocity.0.y - theirs.1),
                ),
            )
        }
    }

    /// The sum of the two radii.
    pub open spec fn reach(self, other: CollidableParticle) -> int {
        self.particle.radius + other.particle.radius
    }

    /// The distance between the two centres, in fine parts of a unit and
    /// rounded down.
    pub open spec fn center_distance(self, other: CollidableParticle) -> int {
        let dx = other.particle_center.x - self.particle_center.x;
        let dy = other.particle_center.y - self.particle_center.y;
        fine_length(dx, dy)
    }

    /// The length of the collision line, in fine parts of a unit and rounded
    /// down: the distance between the centres, or one unit where they
    /// coincide.
    pub open spec fn line_length(self, other: CollidableParticle) -> int {
        let (nx, ny) = self.line_to(other);
        fine_length(nx, ny)
    }

    /// By how much the centres have to move apart, along the collision line,
    /// for the discs to touch without overlapping: the collision line
    /// stretched by the ratio of the overlap to its length, each component
    /// rounded away from zero.
    pub open spec fn separation(self, other: CollidableParticle) -> (int, int) {
        let (nx, ny) = self.line_to(other);
        let overlap = self.reach(other) * LENGTH_SCALE - self.center_distance(other);
        let length = self.line_length(other);
        (quotient_away(nx * overlap, length), quotient_away(ny * overlap, length))
    }

    /// The part of the separation by which this particle moves back: the
    /// share of `other` in the mass of both, rounded toward zero.
    pub open spec fn retreat(self, other: CollidableParticle) -> (int, int) {
        let gap = self.separation(other);
        let total = self.mass.0 + other.mass.0;
        (quotient(gap.0 * other.mass.0, total), quotient(gap.1 * other.mass.0, total))
    }

    /// The centres after the two have been pushed apart: this particle has
    /// moved back by its part of the separation, `other` forward by the
    /// rest.
    pub open spec fn centers_after(self, other: CollidableParticle) -> ((int, int), (int, int)) {
        let gap = self.separation(other);
        let back = self.retreat(other);
        (
            (self.particle_center.x - back.0, self.particle_center.y - back.1),
            (
                other.particle_center.x + (gap.0 - back.0),
                other.particle_center.y + (gap.1 - back.1),
            ),
        )
    }

    /// The forces that a collision puts on the two within `dt` microseconds:
    /// for each the force that gives it, scaled by its restitution, the
    /// change of velocity of the collision. A tick of no duration has no
    /// forces.
    pub open spec fn forces_after(self, other: CollidableParticle, dt: int) -> (
        (int, int),
        (int, int),
    ) {
        if dt == 0 {
            ((0, 0), (0, 0))
        } else {
            let after = self.velocities_after(other);
            (
                (
                    impulse_force(
                        self.mass.0 as int,
                        after.0.0 - self.velocity.0.x,
                        self.particle.restitution_coeff as int,
                        dt,
                    ),
                    impulse_force(
                        self.mass.0 as int,
                        after.0.1 - self.velocity.0.y,
                        self.particle.restitution_coeff as int,
                        dt,
                    ),
                ),
                (
                    impulse_force(
                        other.mass.0 as int,
                        after.1.0 - other.velocity.0.x,
                        other.particle.restitution_coeff as int,
                        dt,
                    ),
                    impulse_force(
                        other.mass.0 as int,
                        after.1.1 - other.velocity.0.y,
                        other.particle.restitution_coeff as int,
                        dt,
                    ),
                ),
            )
        }
    }

    /// Whether the two discs touch or overlap.
    pub fn is_colliding(&self, other: &CollidableParticle) -> (colliding: bool)
        requires
            self.wf(),
            other.wf(),
        ensures
            colliding == self.touches(*other),
    {
        let dx: i128 = other.particle_center.x as i128 - self.particle_center.x as i128;
        let dy: i128 = other.particle_center.y as i128 - self.particle_center.y as i128;
        let reach: i128 = self.particle.radius as i128 + other.particle.radius as i128;
        proof {
            lemma_product_within(dx as int, dx as int, 0x8000_0000, 0x8000_0000);
            lemma_product_within(dy as int, dy as int, 0x8000_0000, 0x8000_0000);
            lemma_product_within(reach as int, reach as int, 0x8000_0000, 0x8000_0000);
        }
        dx * dx + dy * dy <= reach * reach
    }

    /// The collision line from this particle to `other`.
    pub fn collision_line_to(&self, other: &CollidableParticle) -> (line: Vector2)
        requires
            self.wf(),
            other.wf(),
        ensures
            (line.x as int, line.y as int) == self.line_to(*other),
            line.within(2 * COORDINATE_LIMIT),
            !line.is_zero(),
    {
        let dx: i64 = other.particle_center.x - self.particle_center.x;
        let dy: i64 = other.particle_center.y - self.particle_center.y;
        if dx == 0 && dy == 0 {
            Vector2 { x: 1, y: 0 }
        } else {
            Vector2 { x: dx, y: dy }
        }
    }

    /// Whether the two do not approach each other along the collision line,
    /// so that a collision leaves their velocities as they are.
    pub fn is_moving_together_towards(&self, other: &CollidableParticle) -> (parting: bool)
        requires
            self.wf(),
            other.wf(),
        ensures
            parting == (self.parting_speed(*other) >= 0),
    {
        let line: Vector2 = self.collision_line_to(other);
        let rx: i128 = other.velocity.0.x as i128 - self.velocity.0.x as i128;
        let ry: i128 = other.velocity.0.y as i128 - self.velocity.0.y as i128;
        proof {
            lemma_product_within(rx as int, line.x as int, 0x8000_0000, 0x8000_0000);
            lemma_product_within(ry as int, line.y as int, 0x8000_0000, 0x8000_0000);
        }
        rx * (line.x as i128) + ry * (line.y as i128) >= 0
    }

    /// The velocities with which the two leave a collision.
    pub fn velocities_after_collision_with(&self, other: &CollidableParticle) -> (after: (
        Vector2,
        Vector2,
    ))
        requires
            self.wf(),
            other.wf(),
        ensures
            (after.0.x as int, after.0.y as int) == self.velocities_after(*other).0,
            (after.1.x as int, after.1.y as int) == self.velocities_after(*other).1,
            after.0.within(9 * VELOCITY_LIMIT),
            after.1.within(9 * VELOCITY_LIMIT),
    {
        if self.is_moving_together_towards(other) {
            return (self.velocity.0, other.velocity.0);
        }
        let collision_line: Vector2 = self.collision_line_to(other);
        let self_parallel_velocity: Vector2 = project(self.velocity.0, collision_line);
        let other_parallel_velocity: Vector2 = project(other.velocity.0, collision_line);
        let self_final_x: i64 = rebound_of(
            self.mass.0,
            other.mass.0,
            self.particle.restitution_coeff,
            self_parallel_velocity.x,
            other_parallel_velocity.x,
        );
        let self_final_y: i64 = rebound_of(
            self.mass.0,
            other.mass.0,
            self.particle.restitution_coeff,
            self_parallel_velocity.y,
            other_parallel_velocity.y,
        );
        let other_final_x: i64 = rebound_of(
            other.mass.0,
            self.mass.0,
            other.particle.restitution_coeff,
            other_parallel_velocity.x,
            self_parallel_velocity.x,
        );
        let other_final_y: i64 = rebound_of(
            other.mass.0,
            self.mass.0,
            other.particle.restitution_coeff,
            other_parallel_velocity.y,
            self_parallel_velocity.y,
        );
        (
            Vector2 {
                x: self_final_x + (self.velocity.0.x - self_parallel_velocity.x),
                y: self_final_y + (self.velocity.0.y - self_parallel_velocity.y),
            },
            Vector2 {
                x: other_final_x + (other.velocity.0.x - other_parallel_velocity.x),
                y: other_final_y + (other.velocity.0.y - other_parallel_velocity.y),
            },
        )
    }
}

/// The forces that the collision of two particles that touch puts on them
/// within `dt` microseconds.
pub fn calculate_collision_forces_of_intersecting_particles(
    dt: u32,
    collidable_p1: CollidableParticle,
    collidable_p2: CollidableParticle,
) -> (forces: (Vector2, Vector2))
    requires
        collidable_p1.wf(),
        collidable_p2.wf(),
    ensures
        (forces.0.x as int, forces.0.y as int) == collidable_p1.forces_after(
            collidable_p2,
            dt as int,
        ).0,
        (forces.1.x as int, forces.1.y as int) == collidable_p1.forces_after(
            collidable_p2,
            dt as int,
        ).1,
        forces.0.within(FORCE_LIMIT as int),
        forces.1.within(FORCE_LIMIT as int),
{
    if dt == 0 {
        return (Vector2::zero(), Vector2::zero());
    }
    let (p1_final_velocity, p2_final_velocity): (Vector2, Vector2) =
        collidable_p1.velocities_after_collision_with(&collidable_p2);
    (
        Vector2 {
            x: velocity_change_to_force(
                collidable_p1.mass.0,
                p1_final_velocity.x - collidable_p1.velocity.0.x,
                collidable_p1.particle.restitution_coeff,
                dt,
            ),
            y: velocity_change_to_force(
                collidable_p1.mass.0,
                p1_final_velocity.y - collidable_p1.velocity.0.y,
                collidable_p1.particle.restitution_coeff,
                dt,
            ),
        },
        Vector2 {
            x: velocity_change_to_force(
                collidable_p2.mass.0,
                p2_final_velocity.x - collidable_p2.velocity.0.x,
                collidable_p2.particle.restitution_coeff,
                dt,
            ),
            y: velocity_change_to_force(
                collidable_p2.mass.0,
                p2_final_velocity.y - collidable_p2.velocity.0.y,
                collidable_p2.particle.restitution_coeff,
                dt,
            ),
        },
    )
}

/// The force that changes the velocity of `mass` by `restitution` times
/// `change` within `dt` microseconds.
pub fn velocity_change_to_force(mass: i64, change: i64, restitution: i64, dt: u32) -> (force: i64)
    requires
        0 < mass <= MASS_LIMIT,
        -10 * VELOCITY_LIMIT <= change <= 10 * VELOCITY_LIMIT,
        0 <= restitution <= RESTITUTION_ONE,
        dt > 0,
    ensures
        force == impulse_force(mass as int, change as int, restitution as int, dt as int),
        -FORCE_LIMIT <= force <= FORCE_LIMIT,
{
    proof {
        lemma_product_within(mass as int, change as int, 0x10_0000, 0x2_8000_0000);
        lemma_product_within(mass * change, restitution as int, 0x28_0000_0000_0000, 1000);
        lemma_product_within(
            mass * change * restitution,
            MICROS_PER_SECOND as int,
            0x9C40_0000_0000_0000,
            1_000_000,
        );
        lemma_product_within(RESTITUTION_ONE as int, dt as int, 1000, 0xFFFF_FFFF);
        assert(RESTITUTION_ONE * dt > 0) by (nonlinear_arith)
            requires
                RESTITUTION_ONE == 1000,
                dt > 0,
        ;
    }
    let impulse: i128 = (mass as i128) * (change as i128) * (restitution as i128);
    let scaled: i128 = impulse * (MICROS_PER_SECOND as i128);
    let span: i128 = (RESTITUTION_ONE as i128) * (dt as i128);
    let force: i128 = div_toward_zero(scaled, span);
    clamp_i128(force, -(FORCE_LIMIT as i128), FORCE_LIMIT as i128) as i64
}

/// The centres of two particles after they have been pushed apart along
/// their collision line, each by the share of the other in the mass of
/// both.
pub fn calculate_new_centers_for_intersecting_particles(
    collidable_p1: CollidableParticle,
    collidable_p2: CollidableParticle,
) -> (centers: (Vector2, Vector2))
    requires
        collidable_p1.wf(),
        collidable_p2.wf(),
    ensures
        (centers.0.x as int, centers.0.y as int) == collidable_p1.centers_after(collidable_p2).0,
        (centers.1.x as int, centers.1.y as int) == collidable_p1.centers_after(collidable_p2).1,
        centers.0.within(32 * COORDINATE_LIMIT),
        centers.1.within(32 * COORDINATE_LIMIT),
{
    let collision_line: Vector2 = collidable_p1.collision_line_to(&collidable_p2);
    let distance: i64 = fine_length_of(
        collidable_p2.particle_center.x - collidable_p1.particle_center.x,
        collidable_p2.particle_center.y - collidable_p1.particle_center.y,
    );
    let length: i64 = fine_length_of(collision_line.x, collision_line.y);
    let reach: i64 = collidable_p1.particle.radius + collidable_p2.particle.radius;
    let overlap: i64 = reach * LENGTH_SCALE - distance;
    let gap_x: i64 = stretch(collision_line.x, overlap, length);
    let gap_y: i64 = stretch(collision_line.y, overlap, length);
    let back_x: i64 = share(gap_x, collidable_p2.mass.0, collidable_p1.mass.0);
    let back_y: i64 = share(gap_y, collidable_p2.mass.0, collidable_p1.mass.0);
    (
        Vector2 {
            x: collidable_p1.particle_center.x - back_x,
            y: collidable_p1.particle_center.y - back_y,
        },
        Vector2 {
            x: collidable_p2.particle_center.x + (gap_x - back_x),
            y: collidable_p2.particle_center.y + (gap_y - back_y),
        },
    )
}

/// The length of `(x, y)` in fine parts of a unit, rounded down.
fn fine_length_of(x: i64, y: i64) -> (length: i64)
    requires
        -2 * COORDINATE_LIMIT <= x <= 2 * COORDINATE_LIMIT,
        -2 * COORDINATE_LIMIT <= y <= 2 * COORDINATE_LIMIT,
    ensures
        length == fine_length(x as int, y as int),
        0 <= length < 0x1_0000_0000_0000,
        abs(x as int) * LENGTH_SCALE <= length,
        abs(y as int) * LENGTH_SCALE <= length,
        (x != 0 || y != 0) ==> length >= LENGTH_SCALE,
{
    let wide_x: i128 = x as i128;
    let wide_y: i128 = y as i128;
    proof {
        lemma_product_within(wide_x as int, wide_x as int, 0x8000_0000, 0x8000_0000);
        lemma_product_within(wide_y as int, wide_y as int, 0x8000_0000, 0x8000_0000);
        assert(wide_x * wide_x >= 0 && wide_y * wide_y >= 0) by (nonlinear_arith);
    }
    let squared: i128 = wide_x * wide_x + wide_y * wide_y;
    let scaled: i128 = squared * 0x1_0000_0000;
    assert(LENGTH_SCALE * LENGTH_SCALE == 0x1_0000_0000) by (nonlinear_arith)
        requires
            LENGTH_SCALE == 0x1_0000,
    ;
    let root: u64 = floor_sqrt(scaled as u128);
    proof {
        lemma_root_within(scaled as int, root as int, 0x1_0000_0000_0000);
        lemma_fine_component(x as int, y as int, root as int);
    }
    root as i64
}

/// `component` stretched by the ratio of `overlap` to `length`, both in
/// fine parts of a unit, rounded away from zero.
fn stretch(component: i64, overlap: i64, length: i64) -> (stretched: i64)
    requires
        0 < length < 0x1_0000_0000_0000,
        abs(component as int) * LENGTH_SCALE <= length,
        -0x1_0000_0000_0000 <= overlap <= 0x1_0000_0000_0000,
    ensures
        stretched == quotient_away(component * overlap, length as int),
        -0x2_0000_0000 <= stretched <= 0x2_0000_0000,
{
    proof {
        lemma_product_within(
            component as int,
            overlap as int,
            0x1_0000_0000,
            0x1_0000_0000_0000,
        );
        lemma_stretch_within(component as int, overlap as int, length as int);
    }
    let product: i128 = (component as i128) * (overlap as i128);
    div_away_from_zero(product, length as i128) as i64
}

/// The share of `gap` that falls to a particle of mass `mass` facing one of
/// mass `other_mass`: `other_mass` parts out of the sum of both, rounded
/// toward zero.
fn share(gap: i64, other_mass: i64, mass: i64) -> (part: i64)
    requires
        0 < mass <= MASS_LIMIT,
        0 < other_mass <= MASS_LIMIT,
        -0x2_0000_0000 <= gap <= 0x2_0000_0000,
    ensures
        part == quotient(gap * other_mass, mass + other_mass),
        -abs(gap as int) <= part <= abs(gap as int),
{
    let total: i128 = mass as i128 + other_mass as i128;
    proof {
        lemma_product_within(gap as int, other_mass as int, 0x2_0000_0000, 0x10_0000);
        lemma_product_within(gap as int, other_mass as int, abs(gap as int), total as int);
        assert(-abs(gap as int) * total == -(abs(gap as int) * total)) by (nonlinear_arith);
        lemma_quotient_within(gap * other_mass, total as int, abs(gap as int));
    }
    let product: i128 = (gap as i128) * (other_mass as i128);
    div_toward_zero(product, total) as i64
}

/// The floor of the square root of a number below the square of `bound`
/// lies below `bound`.
pub proof fn lemma_root_within(n: int, root: int, bound: int)
    requires
        is_floor_sqrt(n, root),
        0 <= n < bound * bound,
        bound > 0,
    ensures
        0 <= root < bound,
{
    if root >= bound {
        assert(root * root >= bound * bound) by (nonlinear_arith)
            requires
                root >= bound,
                bound > 0,
        ;
    }
}

/// No component of a vector is longer than the vector: it is at most the
/// length rounded down, which is at least one where the vector is not null.
pub proof fn lemma_component_within_length(nx: int, ny: int, length: int)
    requires
        is_floor_sqrt(nx * nx + ny * ny, length),
    ensures
        -length <= nx <= length,
        -length <= ny <= length,
        (nx != 0 || ny != 0) ==> length >= 1,
{
    assert(nx * nx >= 0 && ny * ny >= 0) by (nonlinear_arith);
    if nx > length || nx < -length {
        assert(nx * nx >= (length + 1) * (length + 1)) by (nonlinear_arith)
            requires
                nx > length || nx < -length,
                length >= 0,
        ;
    }
    if ny > length || ny < -length {
        assert(ny * ny >= (length + 1) * (length + 1)) by (nonlinear_arith)
            requires
                ny > length || ny < -length,
                length >= 0,
        ;
    }
    if nx != 0 || ny != 0 {
        assert(nx * nx + ny * ny > 0) by (nonlinear_arith)
            requires
                nx != 0 || ny != 0,
        ;
    }
}

/// No component of a vector is longer than the vector: in fine parts it is
/// at most the fine length, which is at least a unit where the vector is
/// not null.
pub proof fn lemma_fine_component(x: int, y: int, length: int)
    requires
        is_floor_sqrt((x * x + y * y) * (LENGTH_SCALE * LENGTH_SCALE), length),
    ensures
        abs(x) * LENGTH_SCALE <= length,
        abs(y) * LENGTH_SCALE <= length,
        (x != 0 || y != 0) ==> length >= LENGTH_SCALE,
{
    let fx = x * LENGTH_SCALE;
    let fy = y * LENGTH_SCALE;
    assert(fx * fx + fy * fy == (x * x + y * y) * (LENGTH_SCALE * LENGTH_SCALE))
        by (nonlinear_arith)
        requires
            fx == x * LENGTH_SCALE,
            fy == y * LENGTH_SCALE,
    ;
    lemma_component_within_length(fx, fy, length);
    assert(abs(x) * LENGTH_SCALE == abs(fx) && abs(y) * LENGTH_SCALE == abs(fy))
        by (nonlinear_arith)
        requires
            fx == x * LENGTH_SCALE,
            fy == y * LENGTH_SCALE,
            LENGTH_SCALE == 0x1_0000,
    ;
    if x != 0 || y != 0 {
        assert(abs(fx) >= LENGTH_SCALE || abs(fy) >= LENGTH_SCALE) by (nonlinear_arith)
            requires
                fx == x * LENGTH_SCALE,
                fy == y * LENGTH_SCALE,
                x != 0 || y != 0,
                LENGTH_SCALE == 0x1_0000,
        ;
    }
}

/// A component of a vector, stretched by the ratio of `overlap` to the
/// length of the vector, both in fine parts of a unit, is no longer than
/// the overlap in whole units, rounded up.
pub proof fn lemma_stretch_within(component: int, overlap: int, length: int)
    requires
        length > 0,
        abs(component) * LENGTH_SCALE <= length,
    ensures
        ({
            let bound = abs(overlap) / (LENGTH_SCALE as int) + 1;
            -bound <= quotient_away(component * overlap, length) <= bound
        }),
{
    let product = component * overlap;
    let stretched = quotient_away(product, length);
    let bound = abs(overlap) / (LENGTH_SCALE as int) + 1;
    assert(abs(overlap) <= bound * LENGTH_SCALE) by (nonlinear_arith)
        requires
            bound == abs(overlap) / (LENGTH_SCALE as int) + 1,
            abs(overlap) >= 0,
            LENGTH_SCALE == 0x1_0000,
    ;
    lemma_product_within(component, overlap, abs(component), bound * LENGTH_SCALE);
    assert(abs(component) * (bound * LENGTH_SCALE) <= bound * length) by (nonlinear_arith)
        requires
            abs(component) * LENGTH_SCALE <= length,
            bound >= 1,
            abs(component) >= 0,
    ;
    lemma_quotient_away_bounds(product, length);
    if product >= 0 {
        assert(stretched <= bound) by (nonlinear_arith)
            requires
                stretched * length - length < product,
                product <= bound * length,
                length > 0,
        ;
    } else {
        assert(stretched >= -bound) by (nonlinear_arith)
            requires
                stretched * length + length > product,
                product >= -(bound * length),
                length > 0,
        ;
    }
}

/// A multiple of the divisor is divided without a remainder.
pub proof fn lemma_quotient_of_multiple(x: int, k: int)
    requires
        k > 0,
    ensures
        quotient(k * x, k) == x,
{
    if x >= 0 {
        assert(k * x >= 0 && (k * x) / k == x) by (nonlinear_arith)
            requires
                k > 0,
                x >= 0,
        ;
    } else {
        let y = -x;
        assert(k * x < 0 && -(k * x) == k * y && (k * y) / k == y) by (nonlinear_arith)
            requires
                k > 0,
                x < 0,
                y == -x,
        ;
    }
}

/// Elastic collision of equal masses: two fully elastic particles of the
/// same mass exchange the parts of their velocities along the collision
/// line. Where they approach each other, each leaves with the other's part
/// along the line and its own part across it, and the sum of the two
/// velocities is what it was.
pub proof fn lemma_elastic_equal_masses_exchange(a: CollidableParticle, b: CollidableParticle)
    requires
        a.wf(),
        b.wf(),
        a.mass == b.mass,
        a.particle.restitution_coeff == RESTITUTION_ONE,
        b.particle.restitution_coeff == RESTITUTION_ONE,
    ensures
        a.along_after(b) == a.along_of(b),
        a.along_of_after(b) == a.along(b),
        a.parting_speed(b) < 0 ==> ({
            let after = a.velocities_after(b);
            &&& after.0.0 == a.along_of(b).0 + (a.velocity.0.x - a.along(b).0)
            &&& after.0.1 == a.along_of(b).1 + (a.velocity.0.y - a.along(b).1)
            &&& after.1.0 == a.along(b).0 + (b.velocity.0.x - a.along_of(b).0)
            &&& after.1.1 == a.along(b).1 + (b.velocity.0.y - a.along_of(b).1)
            &&& after.0.0 + after.1.0 == a.velocity.0.x + b.velocity.0.x
            &&& after.0.1 + after.1.1 == a.velocity.0.y + b.velocity.0.y
        }),
{
    let own = a.along(b);
    let theirs = a.along_of(b);
    lemma_elastic_rebound(a.mass.0 as int, own.0, theirs.0);
    lemma_elastic_rebound(a.mass.0 as int, own.1, theirs.1);
    lemma_elastic_rebound(a.mass.0 as int, theirs.0, own.0);
    lemma_elastic_rebound(a.mass.0 as int, theirs.1, own.1);
}

/// Between equal masses a fully elastic rebound is the velocity of the
/// other.
pub proof fn lemma_elastic_rebound(mass: int, own: int, other: int)
    requires
        mass > 0,
    ensures
        rebound(mass, mass, RESTITUTION_ONE as int, own, other) == other,
{
    let k = RESTITUTION_ONE * (mass + mass);
    assert(RESTITUTION_ONE * (mass * own + mass * other) + RESTITUTION_ONE * mass * (other - own)
        == k * other) by (nonlinear_arith)
        requires
            k == RESTITUTION_ONE * (mass + mass),
    ;
    lemma_quotient_of_multiple(other, k);
}

/// Fully inelastic collision: two particles without restitution leave a
/// collision with the same velocity along the collision line, that of their
/// common centre of mass. Where they approached each other, they no longer
/// move against each other along the line afterwards: what is left of their
/// relative velocity along it is the rounding of the four components that
/// were taken along the line.
pub proof fn lemma_inelastic_common_velocity(a: CollidableParticle, b: CollidableParticle)
    requires
        a.wf(),
        b.wf(),
        a.particle.restitution_coeff == 0,
        b.particle.restitution_coeff == 0,
    ensures
        a.along_after(b) == a.along_of_after(b),
        a.parting_speed(b) < 0 ==> ({
            let after = a.velocities_after(b);
            let (nx, ny) = a.line_to(b);
            let parting = (after.1.0 - after.0.0) * nx + (after.1.1 - after.0.1) * ny;
            -2 * (abs(nx) + abs(ny)) <= parting <= 2 * (abs(nx) + abs(ny))
        }),
{
    let own = a.along(b);
    let theirs = a.along_of(b);
    lemma_inelastic_rebound(a.mass.0 as int, b.mass.0 as int, own.0, theirs.0);
    lemma_inelastic_rebound(a.mass.0 as int, b.mass.0 as int, own.1, theirs.1);
    if a.parting_speed(b) < 0 {
        let after = a.velocities_after(b);
        let (nx, ny) = a.line_to(b);
        let ax = a.velocity.0.x as int;
        let ay = a.velocity.0.y as int;
        let bx = b.velocity.0.x as int;
        let by = b.velocity.0.y as int;
        lemma_projection_along(ax, ay, nx, ny);
        lemma_projection_along(bx, by, nx, ny);
        let parting = (after.1.0 - after.0.0) * nx + (after.1.1 - after.0.1) * ny;
        let rx = (bx - theirs.0) - (ax - own.0);
        let ry = (by - theirs.1) - (ay - own.1);
        assert(after.1.0 - after.0.0 == rx && after.1.1 - after.0.1 == ry);
        assert(rx * nx + ry * ny == (bx * nx + by * ny) - (theirs.0 * nx + theirs.1 * ny) - (ax
            * nx + ay * ny) + (own.0 * nx + own.1 * ny)) by (nonlinear_arith)
            requires
                rx == (bx - theirs.0) - (ax - own.0),
                ry == (by - theirs.1) - (ay - own.1),
        ;
    }
}

/// Along a direction, the part of a velocity along that direction differs
/// from the velocity by the rounding of its two components only.
pub proof fn lemma_projection_along(vx: int, vy: int, nx: int, ny: int)
    requires
        nx != 0 || ny != 0,
    ensures
        ({
            let part = projection(vx, vy, nx, ny);
            let along = vx * nx + vy * ny;
            -(abs(nx) + abs(ny)) <= (part.0 * nx + part.1 * ny) - along <= abs(nx) + abs(ny)
        }),
{
    let part = projection(vx, vy, nx, ny);
    let along = vx * nx + vy * ny;
    let q = nx * nx + ny * ny;
    assert(q > 0) by (nonlinear_arith)
        requires
            q == nx * nx + ny * ny,
            nx != 0 || ny != 0,
    ;
    lemma_quotient_bounds(along * nx, q);
    lemma_quotient_bounds(along * ny, q);
    let rx = along * nx - part.0 * q;
    let ry = along * ny - part.1 * q;
    assert(-q <= rx <= q && -q <= ry <= q);
    let difference = (part.0 * nx + part.1 * ny) - along;
    assert(difference * q == -(nx * rx + ny * ry)) by (nonlinear_arith)
        requires
            difference == (part.0 * nx + part.1 * ny) - along,
            rx == along * nx - part.0 * q,
            ry == along * ny - part.1 * q,
            q == nx * nx + ny * ny,
    ;
    lemma_product_within(nx, rx, abs(nx), q);
    lemma_product_within(ny, ry, abs(ny), q);
    let bound = abs(nx) + abs(ny);
    assert(bound * q == abs(nx) * q + abs(ny) * q) by (nonlinear_arith)
        requires
            bound == abs(nx) + abs(ny),
    ;
    assert(-bound <= difference <= bound) by (nonlinear_arith)
        requires
            -(bound * q) <= difference * q <= bound * q,
            q > 0,
    ;
}

/// Without restitution both rebounds are the velocity of the centre of
/// mass.
pub proof fn lemma_inelastic_rebound(mass: int, other_mass: int, own: int, other: int)
    ensures
        rebound(mass, other_mass, 0, own, other) == rebound(other_mass, mass, 0, other, own),
        rebound(mass, other_mass, 0, own, other) == quotient(
            RESTITUTION_ONE * (mass * own + other_mass * other),
            RESTITUTION_ONE * (mass + other_mass),
        ),
{
    assert(0 * other_mass * (other - own) == 0) by (nonlinear_arith);
    assert(0 * mass * (own - other) == 0) by (nonlinear_arith);
}

/// Separation: after two touching particles have been pushed apart, the
/// line between their centres is the old line made longer by the
/// separation, the discs no longer overlap, and no component of the new
/// line exceeds the old one, scaled to the sum of the radii, by more than
/// the rounding of one division. The separation is split between the two by
/// mass: each moves by the share of the other, the first by its share
/// rounded toward zero and the second by the rest.
pub proof fn lemma_separation_restores_distance(a: CollidableParticle, b: CollidableParticle)
    requires
        a.wf(),
        b.wf(),
        a.touches(b),
    ensures
        ({
            let after = a.centers_after(b);
            let gap = a.separation(b);
            let (nx, ny) = a.line_to(b);
            let length = a.line_length(b);
            let reach = a.reach(b) * LENGTH_SCALE;
            let dx = after.1.0 - after.0.0;
            let dy = after.1.1 - after.0.1;
            &&& dx == (b.particle_center.x - a.particle_center.x) + gap.0
            &&& dy == (b.particle_center.y - a.particle_center.y) + gap.1
            &&& dx * dx + dy * dy >= a.reach(b) * a.reach(b)
            &&& length >= LENGTH_SCALE
            &&& abs(nx) * reach <= abs(dx) * length <= abs(nx) * reach + length
            &&& abs(ny) * reach <= abs(dy) * length <= abs(ny) * reach + length
            &&& a.particle_center.x - after.0.0 == quotient(
                gap.0 * b.mass.0,
                a.mass.0 + b.mass.0,
            )
            &&& a.particle_center.y - after.0.1 == quotient(
                gap.1 * b.mass.0,
                a.mass.0 + b.mass.0,
            )
        }),
{
    let (nx, ny) = a.line_to(b);
    let length = a.line_length(b);
    let radii = a.reach(b);
    let reach = radii * LENGTH_SCALE;
    let distance = a.center_distance(b);
    let overlap = reach - distance;
    let gap = a.separation(b);
    let after = a.centers_after(b);
    let dx = after.1.0 - after.0.0;
    let dy = after.1.1 - after.0.1;
    let squared = a.distance_squared(b);
    let fine = LENGTH_SCALE * LENGTH_SCALE;
    let ox = b.particle_center.x - a.particle_center.x;
    let oy = b.particle_center.y - a.particle_center.y;
    assert(fine == 0x1_0000_0000) by (nonlinear_arith)
        requires
            fine == LENGTH_SCALE * LENGTH_SCALE,
            LENGTH_SCALE == 0x1_0000,
    ;
    assert(ox * ox >= 0 && oy * oy >= 0) by (nonlinear_arith);
    assert(nx * nx + ny * ny > 0) by (nonlinear_arith)
        requires
            nx != 0 || ny != 0,
    ;
    lemma_sqrt_floor(squared * fine);
    lemma_sqrt_floor((nx * nx + ny * ny) * fine);
    lemma_fine_component(nx, ny, length);
    // The centres are no further apart than the radii reach.
    assert(reach >= 0 && reach * reach == radii * radii * fine) by (nonlinear_arith)
        requires
            reach == radii * LENGTH_SCALE,
            fine == LENGTH_SCALE * LENGTH_SCALE,
            radii >= 0,
            LENGTH_SCALE == 0x1_0000,
    ;
    if distance > reach {
        lemma_square_monotone(reach + 1, distance);
        assert((reach + 1) * (reach + 1) > reach * reach) by (nonlinear_arith)
            requires
                reach >= 0,
        ;
        assert(squared * fine <= radii * radii * fine) by (nonlinear_arith)
            requires
                squared <= radii * radii,
                fine >= 0,
        ;
    }
    assert(overlap >= 0);
    if a.particle_center == b.particle_center {
        assert(squared * fine == 0) by (nonlinear_arith)
            requires
                squared == ox * ox + oy * oy,
                ox == 0,
                oy == 0,
        ;
        assert(distance == 0);
        assert(length == LENGTH_SCALE) by {
            assert((nx * nx + ny * ny) * fine == LENGTH_SCALE * LENGTH_SCALE) by (nonlinear_arith)
                requires
                    nx == 1,
                    ny == 0,
                    fine == LENGTH_SCALE * LENGTH_SCALE,
            ;
            if length > LENGTH_SCALE {
                lemma_square_monotone(LENGTH_SCALE + 1, length);
                assert((LENGTH_SCALE + 1) * (LENGTH_SCALE + 1) > LENGTH_SCALE * LENGTH_SCALE)
                    by (nonlinear_arith);
            }
        }
        assert(nx * overlap == reach && ny * overlap == 0) by (nonlinear_arith)
            requires
                nx == 1,
                ny == 0,
                overlap == reach,
        ;
        assert(quotient_away(reach, LENGTH_SCALE as int) == radii && quotient_away(
            0,
            LENGTH_SCALE as int,
        ) == 0) by (nonlinear_arith)
            requires
                reach == radii * LENGTH_SCALE,
                radii >= 0,
                LENGTH_SCALE == 0x1_0000,
        ;
        assert(gap.0 == radii);
        assert(gap.1 == 0);
        assert(dx == radii && dy == 0);
        assert(dx * dx + dy * dy >= radii * radii) by (nonlinear_arith)
            requires
                dx == radii,
                dy == 0,
        ;
        assert(abs(nx) * reach == reach && abs(ny) * reach == 0 && abs(dx) * length == reach
            && abs(dy) * length == 0) by (nonlinear_arith)
            requires
                nx == 1,
                ny == 0,
                dx == radii,
                dy == 0,
                length == LENGTH_SCALE,
                reach == radii * LENGTH_SCALE,
                radii >= 0,
        ;
    } else {
        assert(nx == ox && ny == oy);
        assert(length == distance);
        lemma_axis_stretched(nx, overlap, length, reach);
        lemma_axis_stretched(ny, overlap, length, reach);
        let wide = abs(nx) * LENGTH_SCALE;
        let high = abs(ny) * LENGTH_SCALE;
        assert(wide * wide + high * high == (nx * nx + ny * ny) * fine && wide * radii == abs(nx)
            * reach && high * radii == abs(ny) * reach && wide >= 0 && high >= 0)
            by (nonlinear_arith)
            requires
                wide == abs(nx) * LENGTH_SCALE,
                high == abs(ny) * LENGTH_SCALE,
                fine == LENGTH_SCALE * LENGTH_SCALE,
                reach == radii * LENGTH_SCALE,
                LENGTH_SCALE == 0x1_0000,
        ;
        lemma_no_overlap(abs(dx), abs(dy), wide, high, length, radii);
        assert(abs(dx) * abs(dx) == dx * dx && abs(dy) * abs(dy) == dy * dy) by (nonlinear_arith);
    }
}

/// One axis of a separation: a component of the collision line, made
/// longer by its stretch, is the component scaled to the sum of the radii,
/// or up to one unit of rounding longer.
pub proof fn lemma_axis_stretched(component: int, overlap: int, length: int, reach: int)
    requires
        length >= 1,
        overlap >= 0,
        reach == length + overlap,
    ensures
        ({
            let moved = component + quotient_away(component * overlap, length);
            abs(component) * reach <= abs(moved) * length <= abs(component) * reach + length
        }),
{
    let product = component * overlap;
    let stretch = quotient_away(product, length);
    let moved = component + stretch;
    lemma_quotient_away_bounds(product, length);
    if component >= 0 {
        assert(product >= 0) by (nonlinear_arith)
            requires
                component >= 0,
                overlap >= 0,
                product == component * overlap,
        ;
        assert(moved * length == component * length + stretch * length && component * reach
            == component * length + product) by (nonlinear_arith)
            requires
                moved == component + stretch,
                reach == length + overlap,
                product == component * overlap,
        ;
    } else {
        assert(product <= 0) by (nonlinear_arith)
            requires
                component < 0,
                overlap >= 0,
                product == component * overlap,
        ;
        assert((-moved) * length == -(component * length) - stretch * length && (-component)
            * reach == -(component * length) - product) by (nonlinear_arith)
            requires
                moved == component + stretch,
                reach == length + overlap,
                product == component * overlap,
        ;
    }
}

/// A vector whose components, times `length`, are at least the components
/// of a vector of at least that length, times `reach`, is at least `reach`
/// long.
pub proof fn lemma_no_overlap(w: int, h: int, a: int, b: int, length: int, reach: int)
    requires
        length >= 1,
        reach >= 0,
        a >= 0,
        b >= 0,
        w >= 0,
        h >= 0,
        a * a + b * b >= length * length,
        w * length >= a * reach,
        h * length >= b * reach,
    ensures
        w * w + h * h >= reach * reach,
{
    assert(a * reach >= 0 && b * reach >= 0) by (nonlinear_arith)
        requires
            a >= 0,
            b >= 0,
            reach >= 0,
    ;
    lemma_square_monotone(a * reach, w * length);
    lemma_square_monotone(b * reach, h * length);
    let l2 = length * length;
    let r2 = reach * reach;
    assert((w * length) * (w * length) == (w * w) * l2 && (h * length) * (h * length) == (h * h)
        * l2 && (a * reach) * (a * reach) == (a * a) * r2 && (b * reach) * (b * reach) == (b * b)
        * r2) by (nonlinear_arith)
        requires
            l2 == length * length,
            r2 == reach * reach,
    ;
    assert((w * w + h * h) * l2 >= (a * a + b * b) * r2) by (nonlinear_arith)
        requires
            (w * w) * l2 >= (a * a) * r2,
            (h * h) * l2 >= (b * b) * r2,
    ;
    assert((a * a + b * b) * r2 >= l2 * r2) by (nonlinear_arith)
        requires
            a * a + b * b >= l2,
            r2 >= 0,
    ;
    assert(r2 >= 0 && l2 >= 1) by (nonlinear_arith)
        requires
            l2 == length * length,
            r2 == reach * reach,
            length >= 1,
    ;
    assert(w * w + h * h >= r2) by (nonlinear_arith)
        requires
            (w * w + h * h) * l2 >= l2 * r2,
            l2 >= 1,
    ;
}

/// A product is no larger in magnitude than the product of the bounds of
/// its factors.
pub proof fn lemma_product_within(x: int, y: int, bound_x: int, bound_y: int)
    requires
        -bound_x <= x <= bound_x,
        -bound_y <= y <= bound_y,
    ensures
        -(bound_x * bound_y) <= x * y <= bound_x * bound_y,
{
    assert(-(bound_x * bound_y) <= x * y <= bound_x * bound_y) by (nonlinear_arith)
        requires
            -bound_x <= x <= bound_x,
            -bound_y <= y <= bound_y,
    ;
}

/// The part of a velocity along a direction has components no larger than
/// twice the largest component of the velocity.
pub proof fn lemma_projection_within(vx: int, vy: int, nx: int, ny: int, limit: int)
    requires
        -limit <= vx <= limit,
        -limit <= vy <= limit,
        nx != 0 || ny != 0,
    ensures
        nx * nx + ny * ny > 0,
        -2 * limit <= projection(vx, vy, nx, ny).0 <= 2 * limit,
        -2 * limit <= projection(vx, vy, nx, ny).1 <= 2 * limit,
{
    let a = abs(nx);
    let b = abs(ny);
    let q = nx * nx + ny * ny;
    let along = vx * nx + vy * ny;
    assert(q == a * a + b * b && q > 0) by (nonlinear_arith)
        requires
            q == nx * nx + ny * ny,
            a == abs(nx),
            b == abs(ny),
            nx != 0 || ny != 0,
    ;
    lemma_product_within(vx, nx, limit, a);
    lemma_product_within(vy, ny, limit, b);
    assert(limit * a + limit * b == limit * (a + b)) by (nonlinear_arith);
    lemma_product_within(along, nx, limit * (a + b), a);
    lemma_product_within(along, ny, limit * (a + b), b);
    assert(limit * (a + b) * a <= 2 * limit * q && limit * (a + b) * b <= 2 * limit * q)
        by (nonlinear_arith)
        requires
            q == a * a + b * b,
            a >= 0,
            b >= 0,
            limit >= 0,
    ;
    assert(-(2 * limit) * q == -(2 * limit * q)) by (nonlinear_arith);
    lemma_quotient_within(along * nx, q, 2 * limit);
    lemma_quotient_within(along * ny, q, 2 * limit);
}

/// A rebound is no larger than three times the larger of the two velocities
/// that went in.
pub proof fn lemma_rebound_within(
    mass: int,
    other_mass: int,
    restitution: int,
    own: int,
    other: int,
    limit: int,
)
    requires
        mass > 0,
        other_mass > 0,
        0 <= restitution <= RESTITUTION_ONE,
        -limit <= own <= limit,
        -limit <= other <= limit,
    ensures
        -3 * limit <= rebound(mass, other_mass, restitution, own, other) <= 3 * limit,
{
    let total = mass + other_mass;
    let numerator = RESTITUTION_ONE * (mass * own + other_mass * other) + restitution * other_mass
        * (other - own);
    lemma_product_within(own, mass, limit, mass);
    lemma_product_within(other, other_mass, limit, other_mass);
    assert(0 <= restitution * other_mass <= RESTITUTION_ONE * other_mass) by (nonlinear_arith)
        requires
            0 <= restitution <= RESTITUTION_ONE,
            other_mass > 0,
    ;
    lemma_product_within(
        other - own,
        restitution * other_mass,
        2 * limit,
        RESTITUTION_ONE * other_mass,
    );
    assert(restitution * other_mass * (other - own) == (other - own) * (restitution * other_mass))
        by (nonlinear_arith);
    assert(-(3 * limit) * (RESTITUTION_ONE * total) <= numerator <= (3 * limit) * (RESTITUTION_ONE
        * total)) by (nonlinear_arith)
        requires
            numerator == RESTITUTION_ONE * (mass * own + other_mass * other) + (other - own) * (
            restitution * other_mass),
            -(limit * mass) <= own * mass <= limit * mass,
            -(limit * other_mass) <= other * other_mass <= limit * other_mass,
            -((2 * limit) * (RESTITUTION_ONE * other_mass)) <= (other - own) * (restitution
                * other_mass) <= (2 * limit) * (RESTITUTION_ONE * other_mass),
            total == mass + other_mass,
            limit >= 0,
            mass > 0,
            other_mass > 0,
    ;
    lemma_quotient_within(numerator, RESTITUTION_ONE * total, 3 * limit);
}

/// The part of `v` along `n`.
fn project(v: Vector2, n: Vector2) -> (p: Vector2)
    requires
        v.within(VELOCITY_LIMIT as int),
        n.within(2 * COORDINATE_LIMIT),
        !n.is_zero(),
    ensures
        (p.x as int, p.y as int) == projection(v.x as int, v.y as int, n.x as int, n.y as int),
        p.within(2 * VELOCITY_LIMIT),
{
    let nx: i128 = n.x as i128;
    let ny: i128 = n.y as i128;
    proof {
        lemma_product_within(nx as int, nx as int, 0x8000_0000, 0x8000_0000);
        lemma_product_within(ny as int, ny as int, 0x8000_0000, 0x8000_0000);
        lemma_product_within(v.x as int, nx as int, 0x4000_0000, 0x8000_0000);
        lemma_product_within(v.y as int, ny as int, 0x4000_0000, 0x8000_0000);
        lemma_projection_within(
            v.x as int,
            v.y as int,
            n.x as int,
            n.y as int,
            VELOCITY_LIMIT as int,
        );
    }
    let length_squared: i128 = nx * nx + ny * ny;
    let along: i128 = (v.x as i128) * nx + (v.y as i128) * ny;
    proof {
        lemma_product_within(along as int, nx as int, 0x4000_0000_0000_0000, 0x8000_0000);
        lemma_product_within(along as int, ny as int, 0x4000_0000_0000_0000, 0x8000_0000);
    }
    let px: i128 = div_toward_zero(along * nx, length_squared);
    let py: i128 = div_toward_zero(along * ny, length_squared);
    Vector2 { x: px as i64, y: py as i64 }
}

/// The rebound of a particle.
fn rebound_of(mass: i64, other_mass: i64, restitution: i64, own: i64, other: i64) -> (after: i64)
    requires
        0 < mass <= MASS_LIMIT,
        0 < other_mass <= MASS_LIMIT,
        0 <= restitution <= RESTITUTION_ONE,
        -2 * VELOCITY_LIMIT <= own <= 2 * VELOCITY_LIMIT,
        -2 * VELOCITY_LIMIT <= other <= 2 * VELOCITY_LIMIT,
    ensures
        after == rebound(
            mass as int,
            other_mass as int,
            restitution as int,
            own as int,
            other as int,
        ),
        -6 * VELOCITY_LIMIT <= after <= 6 * VELOCITY_LIMIT,
{
    proof {
        lemma_product_within(mass as int, own as int, 0x10_0000, 0x8000_0000);
        lemma_product_within(other_mass as int, other as int, 0x10_0000, 0x8000_0000);
        lemma_product_within(restitution as int, other_mass as int, 1000, 0x10_0000);
        lemma_product_within(
            restitution * other_mass,
            other - own,
            0x3E80_0000,
            0x1_0000_0000,
        );
        lemma_rebound_within(
            mass as int,
            other_mass as int,
            restitution as int,
            own as int,
            other as int,
            2 * VELOCITY_LIMIT,
        );
    }
    let momentum: i128 = (mass as i128) * (own as i128) + (other_mass as i128) * (other as i128);
    let returned: i128 = (restitution as i128) * (other_mass as i128) * (other as i128
        - own as i128);
    let total: i128 = (RESTITUTION_ONE as i128) * (mass as i128 + other_mass as i128);
    let after: i128 = div_toward_zero((RESTITUTION_ONE as i128) * momentum + returned, total);
    after as i64
}

} // verus!
