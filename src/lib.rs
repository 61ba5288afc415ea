//! A gravity sandbox: fixed attractors pull on short-lived satellites that
//! leave a bounded trail and are purged once they have died and their trail
//! has drained.
//!
//! All quantities are fixed-point integers: lengths are in units chosen by the
//! caller, velocities in length units per second, and time steps in
//! microseconds. Positions are clamped to `geometry::COORD_MAX` and velocity
//! components to `geometry::VEL_MAX`. A satellite at the very centre of a
//! planet feels no pull from it, rather than an infinite one.

pub mod body;
pub mod engine;
pub mod geometry;
pub mod laws;
pub mod physics;
