//! The objects scattered on the track: barrels, which slide and can be
//! knocked about, and rocks, which nothing moves.

use crate::circle::{ArenaKey, Circle};
use crate::fixed::{in_range, lemma_times_shrinks, ONE};
use crate::math::{lemma_length_monotone, Vec2};
use vstd::prelude::*;

verus! {

/// The radius of the circle with which an object collides.
pub const CAN_RADIUS: i64 = 500_000;

/// What an object is made of.
#[derive(Clone, Copy, PartialEq, Eq, Structural, Debug)]
pub enum CanType {
    Barrel,
    Rock,
}

impl CanType {
    /// Whether friction and knocks move an object of this kind.
    pub open spec fn is_movable_spec(self) -> bool {
        self == CanType::Barrel
    }

    pub fn is_movable(&self) -> (r: bool)
        ensures
            r == self.is_movable_spec(),
    {
        match self {
            CanType::Barrel => true,
            CanType::Rock => false,
        }
    }
}

/// An object on the track.
#[derive(Clone, Copy, PartialEq, Eq, Structural, Debug)]
pub struct Can {
    pub pos: Vec2,
    pub vel: Vec2,
    pub kind: CanType,
}

impl Can {
    pub open spec fn wf(self) -> bool {
        self.pos.wf() && self.vel.wf()
    }

    /// The object after one tick on ground of the given friction: the
    /// velocity decays, then carries the object along.
    pub open spec fn slide_spec(self, friction: i64) -> Can {
        if self.kind.is_movable_spec() {
            let vel = self.vel.scaled_spec(friction);
            Can { pos: self.pos.plus_spec(vel), vel, kind: self.kind }
        } else {
            self
        }
    }

    /// The object after a knock: the impulse is added to the velocity.
    pub open spec fn knockback_spec(self, impulse: Vec2) -> Can {
        if self.kind.is_movable_spec() {
            Can { pos: self.pos, vel: self.vel.plus_spec(impulse), kind: self.kind }
        } else {
            self
        }
    }

    /// An object at rest.
    pub fn new(pos: Vec2, kind: CanType) -> (can: Can)
        ensures
            can == (Can { pos, vel: Vec2::zero_spec(), kind }),
    {
        Can { pos, vel: Vec2::zero(), kind }
    }

    /// Lets the object slide for one tick.
    pub fn slide(&mut self, friction: i64)
        requires
            old(self).wf(),
            in_range(friction),
        ensures
            *final(self) == old(self).slide_spec(friction),
            old(self).kind == CanType::Rock ==> *final(self) == *old(self),
            final(self).wf(),
    {
        if self.kind.is_movable() {
            self.vel = self.vel.scaled(friction);
            self.pos = self.pos.plus(self.vel);
        }
    }

    /// Knocks the object.
    pub fn knockback(&mut self, impulse: Vec2)
        requires
            old(self).wf(),
            impulse.wf(),
        ensures
            *final(self) == old(self).knockback_spec(impulse),
            old(self).kind == CanType::Rock ==> *final(self) == *old(self),
            final(self).wf(),
    {
        if self.kind.is_movable() {
            self.vel = self.vel.plus(impulse);
        }
    }
}

/// Nothing moves a rock: sliding and knocks leave its position and its
/// velocity as they were, whatever the friction and the impulse.
pub proof fn lemma_rock_stays(can: Can, friction: i64, impulse: Vec2)
    requires
        can.kind == CanType::Rock,
    ensures
        can.slide_spec(friction) == can,
        can.knockback_spec(impulse) == can,
{
}

/// Sliding slows an object down: on ground whose friction lies between 0
/// and 1 it is no faster after a tick than before.
pub proof fn lemma_slide_slows(can: Can, friction: i64)
    requires
        can.wf(),
        0 <= friction <= ONE,
    ensures
        can.slide_spec(friction).vel.length_spec() <= can.vel.length_spec(),
{
    lemma_times_shrinks(can.vel.x, friction);
    lemma_times_shrinks(can.vel.y, friction);
    lemma_length_monotone(can.slide_spec(friction).vel, can.vel);
}

/// The collection of objects. An object is known to the rest of the
/// simulation by its place in `cans`.
pub struct Cantainer {
    pub cans: Vec<Can>,
}

impl Cantainer {
    /// The circle of the object at place `i`.
    pub open spec fn circle_spec(self, i: int) -> Circle {
        Circle { pos: self.cans[i].pos, radius: CAN_RADIUS, key: ArenaKey::Can(i as usize) }
    }

    pub fn new(cans: Vec<Can>) -> (all: Cantainer)
        ensures
            all.cans == cans,
    {
        Cantainer { cans }
    }

    /// One circle for each object, in the order of the objects, each tagged
    /// with the place of its object.
    pub fn circles(&self) -> (circles: Vec<Circle>)
        ensures
            circles.len() == self.cans.len(),
            forall|i: int| 0 <= i < circles.len() ==> circles[i] == self.circle_spec(i),
    {
        let mut circles: Vec<Circle> = Vec::new();
        let mut i: usize = 0;
        while i < self.cans.len()
            invariant
                i <= self.cans.len(),
                circles.len() == i,
                forall|k: int| 0 <= k < i ==> circles[k] == self.circle_spec(k),
            decreases self.cans.len() - i,
        {
            circles.push(
                Circle { pos: self.cans[i].pos, radius: CAN_RADIUS, key: ArenaKey::Can(i) },
            );
            i = i + 1;
        }
        circles
    }
}

} // verus!
