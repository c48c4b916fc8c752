//! The simulation core of a top-down driving game: a car drags a grappling
//! hook that can snag the cans and rocks scattered on a circular track.
//!
//! The simulation is deterministic. Every quantity is a fixed-point number
//! that counts millionths (see [`fixed`]), so that the same inputs give the
//! same run on every machine, and each update rule can be stated exactly:
//! every function that changes the world comes with a `spec` function that
//! says what the new state is, and is proved to compute it.
//!
//! - [`fixed`]: the arithmetic, saturating and rounding toward zero.
//! - [`math`]: plane vectors, and `slerp`, which turns one direction toward
//!   another.
//! - [`circle`]: the collision arena, which lists the overlapping pairs among
//!   the circles it is given.
//! - [`can`]: the objects on the track, their sliding and their knockback.
//! - [`hook`]: the four states of the hook and the transitions between them.
//! - [`car`]: the throttle ramp, the speed and the steering of the car.
//! - [`track`]: the friction of the ground.
//! - [`world`]: one tick of everything, and the routing of the contacts.

pub mod can;
pub mod car;
pub mod circle;
pub mod fixed;
pub mod hook;
pub mod math;
pub mod track;
pub mod world;
