//! What a particle is made of, and the ranges its quantities stay in.
//!
//! Lengths, velocities, accelerations, masses and forces are whole numbers of
//! units that the caller chooses. A restitution is counted in thousandths, a
//! time step in microseconds.

use vstd::prelude::*;
use crate::vector::Vector2;

verus! {

/// The largest magnitude of a coordinate of a position.
pub const COORDINATE_LIMIT: i64 = 0x4000_0000;

/// The largest magnitude of a component of a velocity.
pub const VELOCITY_LIMIT: i64 = 0x4000_0000;

/// The largest magnitude of a component of an acceleration, and the largest
/// bound that can be set on the length of one.
pub const ACCELERATION_LIMIT: i64 = 0x4000_0000;

/// The largest magnitude of a component of a force. A force beyond it is cut
/// down to it.
pub const FORCE_LIMIT: i64 = 0x4000_0000_0000_0000;

/// The largest radius, and the largest magnitude of a side of the rectangle
/// that holds the particles: half the largest coordinate, so that a centre
/// kept one radius inside the rectangle is a position.
pub const RADIUS_LIMIT: i64 = 0x2000_0000;

/// The largest mass.
pub const MASS_LIMIT: i64 = 0x10_0000;

/// The restitution of a fully elastic particle: one, in thousandths.
pub const RESTITUTION_ONE: i64 = 1000;

/// The number of microseconds in a second.
pub const MICROS_PER_SECOND: i64 = 1_000_000;

/// The shape of a particle and how much of an impact it gives back.
#[derive(Clone, Copy, PartialEq, Eq, Structural, Debug)]
pub struct FluidParticle {
    pub radius: i64,
    /// In thousandths: 0 is fully inelastic, 1000 fully elastic.
    pub restitution_coeff: i64,
}

impl FluidParticle {
    /// The radius is positive and the restitution lies between zero and one.
    pub open spec fn wf(self) -> bool {
        &&& 0 < self.radius <= RADIUS_LIMIT
        &&& 0 <= self.restitution_coeff <= RESTITUTION_ONE
    }
}

/// The mass of a particle.
#[derive(Clone, Copy, PartialEq, Eq, Structural, Debug)]
pub struct Mass(pub i64);

impl Mass {
    /// The mass is positive.
    pub open spec fn wf(self) -> bool {
        0 < self.0 <= MASS_LIMIT
    }
}

/// The velocity of a particle, in units per second.
#[derive(Clone, Copy, PartialEq, Eq, Structural, Debug)]
pub struct Velocity(pub Vector2);

/// The acceleration of a particle, in units per second squared.
#[derive(Clone, Copy, PartialEq, Eq, Structural, Debug)]
pub struct Acceleration(pub Vector2);

/// The forces that act on a particle during one tick, in the order in which
/// they were found.
#[derive(Clone, Debug)]
pub struct Forces(pub Vec<Vector2>);

/// One particle: its shape, its state of motion and the forces collected for
/// it.
#[derive(Clone, Debug)]
pub struct Particle {
    pub particle: FluidParticle,
    pub position: Vector2,
    pub mass: Mass,
    pub velocity: Velocity,
    pub acceleration: Acceleration,
    pub forces: Forces,
}

/// A particle as a value: the forces as a sequence.
pub struct ParticleView {
    pub particle: FluidParticle,
    pub position: Vector2,
    pub mass: Mass,
    pub velocity: Velocity,
    pub acceleration: Acceleration,
    pub forces: Seq<Vector2>,
}

impl View for Particle {
    type V = ParticleView;

    open spec fn view(&self) -> ParticleView {
        ParticleView {
            particle: self.particle,
            position: self.position,
            mass: self.mass,
            velocity: self.velocity,
            acceleration: self.acceleration,
            forces: self.forces.0@,
        }
    }
}

impl ParticleView {
    /// Every quantity of the particle lies in its range.
    pub open spec fn wf(self) -> bool {
        &&& self.particle.wf()
        &&& self.mass.wf()
        &&& self.position.within(COORDINATE_LIMIT as int)
        &&& self.velocity.0.within(VELOCITY_LIMIT as int)
        &&& self.acceleration.0.within(ACCELERATION_LIMIT as int)
        &&& forall|k: int|
            0 <= k < self.forces.len() ==> (#[trigger] self.forces[k]).within(FORCE_LIMIT as int)
    }
}

impl Particle {
    /// Every quantity of the particle lies in its range.
    pub open spec fn wf(self) -> bool {
        self@.wf()
    }

    /// Whether every quantity of the particle lies in its range.
    pub fn is_valid(&self) -> (valid: bool)
        ensures
            valid == self.wf(),
    {
        if !(0 < self.particle.radius && self.particle.radius <= RADIUS_LIMIT && 0
            <= self.particle.restitution_coeff && self.particle.restitution_coeff
            <= RESTITUTION_ONE && 0 < self.mass.0 && self.mass.0 <= MASS_LIMIT
            && is_within(self.position, COORDINATE_LIMIT) && is_within(
            self.velocity.0,
            VELOCITY_LIMIT,
        ) && is_within(self.acceleration.0, ACCELERATION_LIMIT)) {
            return false;
        }
        let mut k: usize = 0;
        while k < self.forces.0.len()
            invariant
                k <= self.forces.0.len(),
                forall|m: int|
                    0 <= m < k ==> (#[trigger] self.forces.0@[m]).within(FORCE_LIMIT as int),
            decreases self.forces.0.len() - k,
        {
            if !is_within(self.forces.0[k], FORCE_LIMIT) {
                assert(!self@.forces[k as int].within(FORCE_LIMIT as int));
                return false;
            }
            k = k + 1;
        }
        true
    }
}

/// Whether both components of `v` lie within `limit` of zero.
pub fn is_within(v: Vector2, limit: i64) -> (within: bool)
    requires
        limit >= 0,
    ensures
        within == v.within(limit as int),
{
    -limit <= v.x && v.x <= limit && -limit <= v.y && v.y <= limit
}

} // verus!
