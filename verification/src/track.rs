//! The track: a ring around the origin, slippery on the asphalt and less so
//! on either side of it.

use crate::fixed::in_range;
use crate::math::Vec2;
use vstd::prelude::*;

verus! {

/// The outer radius of the track.
pub const TRACK_RADIUS: i64 = 35_000_000;

/// The width of the track.
pub const TRACK_WIDTH: i64 = 10_000_000;

/// What is left of a speed after one tick on the track.
pub const TRACK_FRICTION: i64 = 960_000;

/// What is left of a speed after one tick beside the track.
pub const GROUND_FRICTION: i64 = 980_000;

/// The track and the ground around it.
pub struct Track;

impl Track {
    /// The friction at `pos`: that of the track where the distance from the
    /// origin lies between the inner and the outer radius, both included,
    /// that of the ground elsewhere.
    pub open spec fn terrain_friction_spec(pos: Vec2) -> i64 {
        let dist = pos.length_spec();
        if dist < TRACK_RADIUS - TRACK_WIDTH || dist > TRACK_RADIUS {
            GROUND_FRICTION
        } else {
            TRACK_FRICTION
        }
    }

    /// Where the car starts: on the track, a quarter of its width from the
    /// outer edge.
    pub fn car_spawn(&self) -> (pos: Vec2)
        ensures
            pos == (Vec2 { x: 0, y: 32_500_000 }),
            pos.wf(),
    {
        Vec2 { x: 0, y: TRACK_RADIUS - TRACK_WIDTH / 4 }
    }

    /// The friction of the ground at `pos`.
    pub fn terrain_friction(&self, pos: Vec2) -> (friction: i64)
        requires
            pos.wf(),
        ensures
            friction == Track::terrain_friction_spec(pos),
            in_range(friction),
    {
        let dist: i64 = pos.length();
        if dist < TRACK_RADIUS - TRACK_WIDTH {
            GROUND_FRICTION
        } else if dist > TRACK_RADIUS {
            GROUND_FRICTION
        } else {
            TRACK_FRICTION
        }
    }
}

} // verus!
