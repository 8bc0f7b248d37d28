//! A deterministic two-dimensional particle simulation on integers.
//!
//! Discs move under gravity inside a rectangle, collide with each other and
//! with the walls, and are listed in a uniform grid that keeps collision
//! detection close to linear in the number of particles. Every quantity is a
//! whole number of some fixed unit, so that each step is exact and the same on
//! every machine.

pub mod acceleration;
pub mod bounds;
pub mod collidable;
pub mod collisions;
pub mod forces;
pub mod gravity;
pub mod handle;
pub mod numeric;
pub mod pairs;
pub mod particle;
pub mod performance_monitor;
pub mod position_hashing;
pub mod previous_positions;
pub mod registry;
pub mod slices;
pub mod vector;
pub mod velocity;
pub mod world;
