//! The grappling hook: ready at the car, launched, locked onto an object,
//! or on its way back. Each state holds only what its own update needs.

use crate::can::Can;
use crate::circle::{ArenaKey, Circle};
use crate::fixed::{
    coarse, coarse_spec, in_range, lemma_smoothstep_full, lemma_smoothstep_grows,
    lemma_times_monotone, magnitude, max, max_spec, min, min_spec, minus, minus_spec, plus,
    plus_spec, smoothstep, smoothstep_spec, times, times_spec, ONE,
};
use crate::math::{
    clear_of_limit, lemma_length_monotone, lemma_length_sign, lemma_lerp_approaches,
    lemma_minus_flips, lemma_normalize_neg, lemma_normalize_unit, lemma_scaled_keeps_order,
    lemma_scaled_length, lemma_scaled_unit, scales_freely, slerp, slerp_spec, Vec2,
};
use vstd::prelude::*;

verus! {

/// How deep in the claw what is being held sits.
pub const GRIP_DEPTH: i64 = 880_000;

/// The speed at which the hook leaves the dock: 1.25, as a fine quantity.
pub const LAUNCH_SPEED: i64 = 1_250_000_000_000;

/// What is left of the speed of a flying hook after one tick.
pub const FLIGHT_DAMPING: i64 = 820_000;

/// The speed below which a flying hook gives up and turns back: 0.00001, as
/// a fine quantity.
pub const EXHAUSTED: i64 = 10_000_000;

/// How far a ready hook turns toward the aim in one tick.
pub const AIM_BLEND: i64 = 200_000;

/// The slack that the chain has when the hook locks.
pub const CHAIN_SLACK: i64 = 500_000;

/// The length below which the chain does not shrink.
pub const CHAIN_FLOOR: i64 = 1_500_000;

/// What is left of the speed of the tether end after one tick.
pub const TETHER_DAMPING: i64 = 980_000;

/// The part of the tether's velocity that a released object is given.
pub const RELEASE_GAIN: i64 = 1_400_000;

/// How far in front of a flying hook the tip of its claw is.
pub const TIP_REACH: i64 = 750_000;

/// The radius of the circle with which the tip collides.
pub const TIP_RADIUS: i64 = 100_000;

/// The hook, in one of its four states.
#[allow(inconsistent_fields)]
#[derive(Copy, Clone, PartialEq, Eq, Structural, Debug)]
pub enum Hook {
    /// Coming back to the dock from `reached`, since the time `started`.
    Retracting { pos: Vec2, reached: Vec2, facing: Vec2, started: i64 },
    /// Flying away from the dock along `facing`. The speed `vel` is a fine
    /// quantity: it counts millionths of millionths, so that the decay of a
    /// whole flight is followed to the last tick.
    Launched { vel: i64, pos: Vec2, facing: Vec2 },
    /// Latched onto the object at place `can_index`, which it drags at the
    /// end of a chain.
    Locked {
        end: Vec2,
        facing: Vec2,
        chain_length: i64,
        can_index: usize,
        can_offset: Vec2,
        vel: Vec2,
    },
    /// Idle at the dock, following the aim.
    Ready { facing: Vec2 },
}

impl Hook {
    pub open spec fn wf(self) -> bool {
        match self {
            Hook::Retracting { pos, reached, facing, started } => pos.wf() && reached.wf()
                && facing.wf() && in_range(started),
            Hook::Launched { vel, pos, facing } => in_range(vel) && pos.wf() && facing.wf(),
            Hook::Locked { end, facing, chain_length, can_index, can_offset, vel } => end.wf()
                && facing.wf() && in_range(chain_length) && can_offset.wf() && vel.wf(),
            Hook::Ready { facing } => facing.wf(),
        }
    }

    /// A ready hook turns its facing toward the direction from the dock to
    /// `goal`, by `AIM_BLEND`. In any other state nothing changes.
    pub open spec fn face_spec(self, dock: Vec2, goal: Vec2) -> Hook {
        match self {
            Hook::Ready { facing } => Hook::Ready {
                facing: slerp_spec(goal.minus_spec(dock).normalize_spec(), facing, AIM_BLEND),
            },
            _ => self,
        }
    }

    /// A ready hook leaves the dock at `LAUNCH_SPEED` along its facing. In
    /// any other state nothing changes.
    pub open spec fn launch_spec(self, dock: Vec2) -> Hook {
        match self {
            Hook::Ready { facing } => Hook::Launched { pos: dock, vel: LAUNCH_SPEED, facing },
            _ => self,
        }
    }

    /// A launched or locked hook starts its way back at time `now`, from
    /// where its tip is. In any other state nothing changes.
    pub open spec fn retract_spec(self, now: i64) -> Hook {
        match self {
            Hook::Launched { pos, facing, .. } => Hook::Retracting {
                pos,
                reached: pos,
                facing,
                started: now,
            },
            Hook::Locked { end, facing, .. } => Hook::Retracting {
                pos: end,
                reached: end,
                facing,
                started: now,
            },
            _ => self,
        }
    }

    /// One tick of flight at time `now`. A launched hook loses speed, moves
    /// on along its facing, and turns back once its speed is under
    /// `EXHAUSTED`. A retracting hook is moved from where it turned back
    /// toward the dock, eased over one second, and is ready when it arrives.
    pub open spec fn fly_spec(self, dock: Vec2, now: i64) -> Hook {
        match self {
            Hook::Launched { vel, pos, facing } => {
                let vel = times_spec(vel, FLIGHT_DAMPING);
                let flown = Hook::Launched {
                    vel,
                    pos: pos.plus_spec(facing.scaled_spec(coarse_spec(vel))),
                    facing,
                };
                if vel < EXHAUSTED {
                    flown.retract_spec(now)
                } else {
                    flown
                }
            },
            Hook::Retracting { pos, reached, facing, started } => {
                let delta = smoothstep_spec(minus_spec(now, started));
                if delta >= ONE {
                    Hook::Ready { facing }
                } else {
                    Hook::Retracting {
                        pos: reached.lerp_spec(dock, delta),
                        reached,
                        facing,
                        started,
                    }
                }
            },
            _ => self,
        }
    }

    /// A launched hook locks onto `can`, the object at place `can_index`:
    /// the grip offset points from the object to the hook and is
    /// `GRIP_DEPTH` long, the tether ends at the object plus the offset, the
    /// hook faces against the offset, and the chain is as long as the hook is
    /// far from the dock, plus `CHAIN_SLACK`. In any other state nothing
    /// changes.
    pub open spec fn lock_spec(self, dock: Vec2, can_index: usize, can: Can) -> Hook {
        match self {
            Hook::Launched { pos, .. } => {
                let can_offset = pos.minus_spec(can.pos).normalize_spec().scaled_spec(GRIP_DEPTH);
                Hook::Locked {
                    end: can.pos.plus_spec(can_offset),
                    facing: can_offset.normalize_spec().neg_spec(),
                    chain_length: plus_spec(dock.minus_spec(pos).length_spec(), CHAIN_SLACK),
                    can_index,
                    can_offset,
                    vel: Vec2::zero_spec(),
                }
            },
            _ => self,
        }
    }

    /// The length of the chain after a tick in which the tether end is
    /// `hook_dist` from the dock: it shrinks to that distance, but not under
    /// `CHAIN_FLOOR`.
    pub open spec fn chain_spec(chain_length: i64, hook_dist: i64) -> i64 {
        max_spec(min_spec(chain_length, hook_dist), CHAIN_FLOOR)
    }

    /// One tick of a locked hook with the object it holds. Where the tether
    /// end is farther from the dock than the chain is long, it is pulled
    /// toward the dock in proportion to the excess; its velocity is damped
    /// and moves it. The object is then set `GRIP_DEPTH` from the tether
    /// end, in the direction in which it lies from there, and the hook faces
    /// from the object back to the tether end. In any other state nothing
    /// changes.
    pub open spec fn drag_spec(self, dock: Vec2, can: Can) -> (Hook, Can) {
        match self {
            Hook::Locked { end, facing, chain_length, can_index, can_offset, vel } => {
                let delta = end.minus_spec(dock);
                let hook_dist = delta.length_spec();
                let chain = Hook::chain_spec(chain_length, hook_dist);
                let pulled = if hook_dist > chain {
                    vel.plus_spec(delta.normalize_spec().scaled_spec(minus_spec(chain, hook_dist)))
                } else {
                    vel
                };
                let vel = pulled.scaled_spec(TETHER_DAMPING);
                let end = end.plus_spec(vel);
                let grip = can.pos.minus_spec(end).normalize_spec();
                (
                    Hook::Locked {
                        end,
                        facing: end.minus_spec(can.pos).normalize_spec(),
                        chain_length: chain,
                        can_index,
                        can_offset,
                        vel,
                    },
                    Can {
                        pos: end.plus_spec(grip.scaled_spec(GRIP_DEPTH)),
                        vel: can.vel,
                        kind: can.kind,
                    },
                )
            },
            _ => (self, can),
        }
    }

    /// A locked hook lets go at time `now`: the object it held is knocked
    /// with `RELEASE_GAIN` times the velocity of the tether end, and the
    /// hook starts its way back. In any other state nothing changes.
    pub open spec fn release_spec(self, can: Can, now: i64) -> (Hook, Can) {
        match self {
            Hook::Locked { vel, .. } => (
                self.retract_spec(now),
                can.knockback_spec(vel.scaled_spec(RELEASE_GAIN)),
            ),
            _ => (self, can),
        }
    }

    /// The circle of the hook: that of the tip of a launched hook, none in
    /// any other state.
    pub open spec fn circles_spec(self) -> Option<Circle> {
        match self {
            Hook::Launched { pos, facing, .. } => Some(
                Circle {
                    pos: pos.plus_spec(facing.scaled_spec(TIP_REACH)),
                    radius: TIP_RADIUS,
                    key: ArenaKey::Hook,
                },
            ),
            _ => None,
        }
    }

    /// A hook ready at the dock, facing along the x axis.
    pub fn new() -> (hook: Hook)
        ensures
            hook == (Hook::Ready { facing: Vec2 { x: ONE, y: 0 } }),
            hook.wf(),
    {
        Hook::Ready { facing: Vec2::unit_x() }
    }

    /// Turns a ready hook toward `goal`.
    pub fn face(&mut self, dock: Vec2, goal: Vec2)
        requires
            old(self).wf(),
            dock.wf(),
            goal.wf(),
        ensures
            *final(self) == old(self).face_spec(dock, goal),
            final(self).wf(),
    {
        match *self {
            Hook::Ready { facing } => {
                *self = Hook::Ready {
                    facing: slerp(goal.minus(dock).normalize(), facing, AIM_BLEND),
                };
            },
            _ => {},
        }
    }

    /// Launches a ready hook from `dock`.
    pub fn launch(&mut self, dock: Vec2)
        requires
            old(self).wf(),
            dock.wf(),
        ensures
            *final(self) == old(self).launch_spec(dock),
            final(self).wf(),
    {
        match *self {
            Hook::Ready { facing } => {
                *self = Hook::Launched { pos: dock, vel: LAUNCH_SPEED, facing };
            },
            _ => {},
        }
    }

    /// Sends a launched or locked hook on its way back.
    pub fn retract(&mut self, now: i64)
        requires
            old(self).wf(),
            in_range(now),
        ensures
            *final(self) == old(self).retract_spec(now),
            final(self).wf(),
    {
        match *self {
            Hook::Launched { pos, facing, .. } => {
                *self = Hook::Retracting { pos, reached: pos, facing, started: now };
            },
            Hook::Locked { end, facing, .. } => {
                *self = Hook::Retracting { pos: end, reached: end, facing, started: now };
            },
            _ => {},
        }
    }

    /// Flies a launched or retracting hook for one tick.
    pub fn fly(&mut self, dock: Vec2, now: i64)
        requires
            old(self).wf(),
            dock.wf(),
            in_range(now),
        ensures
            *final(self) == old(self).fly_spec(dock, now),
            final(self).wf(),
    {
        match *self {
            Hook::Launched { vel, pos, facing } => {
                let vel: i64 = times(vel, FLIGHT_DAMPING);
                *self = Hook::Launched { vel, pos: pos.plus(facing.scaled(coarse(vel))), facing };
                if vel < EXHAUSTED {
                    self.retract(now);
                }
            },
            Hook::Retracting { pos, reached, facing, started } => {
                let delta: i64 = smoothstep(minus(now, started));
                if delta >= ONE {
                    *self = Hook::Ready { facing };
                } else {
                    *self = Hook::Retracting {
                        pos: reached.lerp(dock, delta),
                        reached,
                        facing,
                        started,
                    };
                }
            },
            _ => {},
        }
    }

    /// Locks a launched hook onto `can`, which stays as it is.
    pub fn lock(&mut self, dock: Vec2, can_index: usize, can: &mut Can)
        requires
            old(self).wf(),
            dock.wf(),
            old(can).wf(),
        ensures
            *final(self) == old(self).lock_spec(dock, can_index, *old(can)),
            !(*old(self) is Launched) ==> *final(self) == *old(self),
            *final(can) == *old(can),
            final(self).wf(),
    {
        match *self {
            Hook::Launched { pos, .. } => {
                let can_offset = pos.minus(can.pos).normalize().scaled(GRIP_DEPTH);
                *self = Hook::Locked {
                    end: can.pos.plus(can_offset),
                    facing: can_offset.normalize().neg(),
                    chain_length: plus(dock.minus(pos).length(), CHAIN_SLACK),
                    can_index,
                    can_offset,
                    vel: Vec2::zero(),
                };
            },
            _ => {},
        }
    }

    /// Drags `can`, the object that a locked hook holds, for one tick.
    pub fn drag(&mut self, dock: Vec2, can: &mut Can)
        requires
            old(self).wf(),
            dock.wf(),
            old(can).wf(),
        ensures
            (*final(self), *final(can)) == old(self).drag_spec(dock, *old(can)),
            *old(self) is Locked ==> *final(self) is Locked && (final(self)->Locked_facing.is_zero()
                || final(self)->Locked_facing.is_unit()),
            *old(self) is Locked ==> final(self)->Locked_chain_length >= CHAIN_FLOOR,
            final(can).vel == old(can).vel,
            final(self).wf(),
            final(can).wf(),
    {
        match *self {
            Hook::Locked { end, facing, chain_length, can_index, can_offset, vel } => {
                let delta = end.minus(dock);
                let hook_dist: i64 = delta.length();
                let chain: i64 = max(min(chain_length, hook_dist), CHAIN_FLOOR);
                let mut vel = vel;
                if hook_dist > chain {
                    vel = vel.plus(delta.normalize().scaled(minus(chain, hook_dist)));
                }
                vel = vel.scaled(TETHER_DAMPING);
                let end = end.plus(vel);
                let grip = can.pos.minus(end).normalize();
                *self = Hook::Locked {
                    end,
                    facing: end.minus(can.pos).normalize(),
                    chain_length: chain,
                    can_index,
                    can_offset,
                    vel,
                };
                can.pos = end.plus(grip.scaled(GRIP_DEPTH));
            },
            _ => {},
        }
    }

    /// Lets go of `can`, the object that a locked hook holds.
    pub fn release(&mut self, can: &mut Can, now: i64)
        requires
            old(self).wf(),
            old(can).wf(),
            in_range(now),
        ensures
            (*final(self), *final(can)) == old(self).release_spec(*old(can), now),
            *old(self) is Locked ==> *final(self) is Retracting,
            final(self).wf(),
            final(can).wf(),
    {
        match *self {
            Hook::Locked { vel, .. } => {
                can.knockback(vel.scaled(RELEASE_GAIN));
                self.retract(now);
            },
            _ => {},
        }
    }

    /// The circle with which the hook takes part in collisions, if any.
    pub fn circles(&self) -> (circle: Option<Circle>)
        requires
            self.wf(),
        ensures
            circle == self.circles_spec(),
            circle matches Some(c) ==> c.wf(),
    {
        match *self {
            Hook::Launched { pos, facing, .. } => Some(
                Circle {
                    pos: pos.plus(facing.scaled(TIP_REACH)),
                    radius: TIP_RADIUS,
                    key: ArenaKey::Hook,
                },
            ),
            _ => None,
        }
    }
}

/// The hook after `n` ticks of flight, tick `k` with the dock at `docks(k)`
/// and at the time `times(k)`.
pub open spec fn flights(
    hook: Hook,
    docks: spec_fn(int) -> Vec2,
    times: spec_fn(int) -> i64,
    n: int,
) -> Hook
    decreases n,
{
    if n <= 0 {
        hook
    } else {
        flights(hook, docks, times, n - 1).fly_spec(docks(n - 1), times(n - 1))
    }
}

/// Whether `hook` is on its way back since the time `started`, facing
/// `facing`.
pub open spec fn retracts(hook: Hook, facing: Vec2, started: i64) -> bool {
    hook is Retracting && hook->Retracting_facing == facing && hook->Retracting_started
        == started
}

/// Whether `hook` is ready, facing `facing`.
pub open spec fn rests(hook: Hook, facing: Vec2) -> bool {
    hook == (Hook::Ready { facing })
}

/// A hook that has just been launched from `dock`, facing `facing`.
pub open spec fn launched(facing: Vec2, dock: Vec2) -> Hook {
    (Hook::Ready { facing }).launch_spec(dock)
}

/// Docks and times that the hook can be flown with.
pub open spec fn flyable(docks: spec_fn(int) -> Vec2, times: spec_fn(int) -> i64) -> bool {
    forall|k: int| (#[trigger] docks(k)).wf() && in_range(#[trigger] times(k))
}

/// Only a launched hook locks: in any other state `lock` changes nothing.
pub proof fn lemma_lock_needs_launched(hook: Hook, dock: Vec2, can_index: usize, can: Can)
    requires
        !(hook is Launched),
    ensures
        hook.lock_spec(dock, can_index, can) == hook,
{
}

/// A tick of flight slows a launched hook down: it keeps flying only with a
/// speed that is smaller than before and at least `EXHAUSTED`.
pub proof fn lemma_flight_slows(hook: Hook, dock: Vec2, now: i64)
    requires
        hook.wf(),
        in_range(now),
        hook is Launched,
    ensures
        hook.fly_spec(dock, now).wf(),
        hook.fly_spec(dock, now) is Launched || retracts(
            hook.fly_spec(dock, now),
            hook->Launched_facing,
            now,
        ),
        hook.fly_spec(dock, now) is Launched ==> EXHAUSTED <= hook.fly_spec(
            dock,
            now,
        )->Launched_vel < hook->Launched_vel,
        hook.fly_spec(dock, now) is Launched ==> hook.fly_spec(dock, now)->Launched_facing
            == hook->Launched_facing,
{
    let vel = hook->Launched_vel;
    if vel >= 0 {
        assert((vel * FLIGHT_DAMPING) / (ONE as int) <= vel) by (nonlinear_arith)
            requires
                vel >= 0,
        ;
        assert((vel * FLIGHT_DAMPING) / (ONE as int) < vel || vel == 0) by (nonlinear_arith)
            requires
                vel >= 0,
        ;
        assert(vel * FLIGHT_DAMPING >= 0) by (nonlinear_arith)
            requires
                vel >= 0,
        ;
        assert((vel * FLIGHT_DAMPING) / (ONE as int) >= 0) by (nonlinear_arith)
            requires
                vel * FLIGHT_DAMPING >= 0,
        ;
    } else {
        assert(vel * FLIGHT_DAMPING < 0) by (nonlinear_arith)
            requires
                vel < 0,
        ;
        assert((-(vel * FLIGHT_DAMPING)) / (ONE as int) >= 0) by (nonlinear_arith)
            requires
                -(vel * FLIGHT_DAMPING) > 0,
        ;
    }
}

/// A retracting hook that is flown stays on its way back, with the same
/// facing and the same start, until a tick comes a second or more after the
/// start: that tick makes it ready, with the same facing.
pub proof fn lemma_retraction_ends(hook: Hook, dock: Vec2, now: i64)
    requires
        hook.wf(),
        dock.wf(),
        in_range(now),
        hook is Retracting,
    ensures
        hook.fly_spec(dock, now).wf(),
        now - hook->Retracting_started >= ONE ==> rests(
            hook.fly_spec(dock, now),
            hook->Retracting_facing,
        ),
        now - hook->Retracting_started < ONE ==> retracts(
            hook.fly_spec(dock, now),
            hook->Retracting_facing,
            hook->Retracting_started,
        ),
        rests(hook.fly_spec(dock, now), hook->Retracting_facing) || retracts(
            hook.fly_spec(dock, now),
            hook->Retracting_facing,
            hook->Retracting_started,
        ),
{
    let elapsed = minus_spec(now, hook->Retracting_started);
    lemma_smoothstep_full(elapsed);
    lemma_smoothstep_grows(elapsed, elapsed);
}

/// A retracting hook never moves away from a dock that stands still: of
/// two times at which it is still on its way back, the later finds it no
/// farther from the dock than the earlier.
pub proof fn lemma_retraction_approaches(hook: Hook, dock: Vec2, earlier: i64, later: i64)
    requires
        hook.wf(),
        dock.wf(),
        hook is Retracting,
        in_range(earlier),
        in_range(later),
        earlier <= later,
        hook.fly_spec(dock, later) is Retracting,
    ensures
        hook.fly_spec(dock, earlier) is Retracting,
        hook.fly_spec(dock, later)->Retracting_pos.minus_spec(dock).length_spec()
            <= hook.fly_spec(dock, earlier)->Retracting_pos.minus_spec(dock).length_spec(),
{
    let started = hook->Retracting_started;
    lemma_smoothstep_grows(minus_spec(earlier, started), minus_spec(later, started));
    lemma_lerp_approaches(
        hook->Retracting_reached,
        dock,
        smoothstep_spec(minus_spec(earlier, started)),
        smoothstep_spec(minus_spec(later, started)),
    );
}

/// A ready hook stays as it is when it is flown.
pub proof fn lemma_ready_rests(hook: Hook, dock: Vec2, now: i64)
    requires
        hook is Ready,
    ensures
        hook.fly_spec(dock, now) == hook,
{
}

/// A launched hook that is flown and never locks turns back after a number
/// of ticks: the lemma gives that number. Up to then the hook is launched;
/// then it is retracting, with the facing it was launched with, since the
/// time of that tick.
pub proof fn lemma_flight_ends(
    hook: Hook,
    docks: spec_fn(int) -> Vec2,
    times: spec_fn(int) -> i64,
    flown: int,
) -> (n: int)
    requires
        hook.wf(),
        flyable(docks, times),
        0 <= flown,
        forall|k: int| 0 <= k <= flown ==> #[trigger] flights(hook, docks, times, k) is Launched,
        flights(hook, docks, times, flown).wf(),
    ensures
        flown < n,
        forall|k: int| 0 <= k < n ==> #[trigger] flights(hook, docks, times, k) is Launched,
        retracts(
            flights(hook, docks, times, n),
            flights(hook, docks, times, flown)->Launched_facing,
            times(n - 1),
        ),
        flights(hook, docks, times, n).wf(),
    decreases flights(hook, docks, times, flown)->Launched_vel,
{
    let now = flights(hook, docks, times, flown);
    let next = flights(hook, docks, times, flown + 1);
    assert(docks(flown).wf() && in_range(times(flown)));
    assert(next == now.fly_spec(docks(flown), times(flown)));
    lemma_flight_slows(now, docks(flown), times(flown));
    if next is Retracting {
        flown + 1
    } else {
        assert forall|k: int| 0 <= k <= flown + 1 implies #[trigger] flights(
            hook,
            docks,
            times,
            k,
        ) is Launched by {}
        lemma_flight_ends(hook, docks, times, flown + 1)
    }
}

/// The speed of a hook `k` ticks after its launch.
pub open spec fn speed_after(k: int) -> i64
    decreases k,
{
    if k <= 0 {
        LAUNCH_SPEED
    } else {
        times_spec(speed_after(k - 1), FLIGHT_DAMPING)
    }
}

/// After 59 ticks the speed of a launched hook is still `EXHAUSTED` or more;
/// after 60 it is less.
pub proof fn lemma_speed_runs_out()
    ensures
        forall|k: int| 0 <= k <= 59 ==> #[trigger] speed_after(k) >= EXHAUSTED,
        forall|k: int| 0 <= k <= 60 ==> in_range(#[trigger] speed_after(k)),
        speed_after(60) < EXHAUSTED,
{
    reveal_with_fuel(speed_after, 2);
    assert(speed_after(0) == LAUNCH_SPEED);
    assert(speed_after(1) == 1025000000000);
    assert(speed_after(2) == 840500000000);
    assert(speed_after(3) == 689210000000);
    assert(speed_after(4) == 565152200000);
    assert(speed_after(5) == 463424804000);
    assert(speed_after(6) == 380008339280);
    assert(speed_after(7) == 311606838209);
    assert(speed_after(8) == 255517607331);
    assert(speed_after(9) == 209524438011);
    assert(speed_after(10) == 171810039169);
    assert(speed_after(11) == 140884232118);
    assert(speed_after(12) == 115525070336);
    assert(speed_after(13) == 94730557675);
    assert(speed_after(14) == 77679057293);
    assert(speed_after(15) == 63696826980);
    assert(speed_after(16) == 52231398123);
    assert(speed_after(17) == 42829746460);
    assert(speed_after(18) == 35120392097);
    assert(speed_after(19) == 28798721519);
    assert(speed_after(20) == 23614951645);
    assert(speed_after(21) == 19364260348);
    assert(speed_after(22) == 15878693485);
    assert(speed_after(23) == 13020528657);
    assert(speed_after(24) == 10676833498);
    assert(speed_after(25) == 8755003468);
    assert(speed_after(26) == 7179102843);
    assert(speed_after(27) == 5886864331);
    assert(speed_after(28) == 4827228751);
    assert(speed_after(29) == 3958327575);
    assert(speed_after(30) == 3245828611);
    assert(speed_after(31) == 2661579461);
    assert(speed_after(32) == 2182495158);
    assert(speed_after(33) == 1789646029);
    assert(speed_after(34) == 1467509743);
    assert(speed_after(35) == 1203357989);
    assert(speed_after(36) == 986753550);
    assert(speed_after(37) == 809137911);
    assert(speed_after(38) == 663493087);
    assert(speed_after(39) == 544064331);
    assert(speed_after(40) == 446132751);
    assert(speed_after(41) == 365828855);
    assert(speed_after(42) == 299979661);
    assert(speed_after(43) == 245983322);
    assert(speed_after(44) == 201706324);
    assert(speed_after(45) == 165399185);
    assert(speed_after(46) == 135627331);
    assert(speed_after(47) == 111214411);
    assert(speed_after(48) == 91195817);
    assert(speed_after(49) == 74780569);
    assert(speed_after(50) == 61320066);
    assert(speed_after(51) == 50282454);
    assert(speed_after(52) == 41231612);
    assert(speed_after(53) == 33809921);
    assert(speed_after(54) == 27724135);
    assert(speed_after(55) == 22733790);
    assert(speed_after(56) == 18641707);
    assert(speed_after(57) == 15286199);
    assert(speed_after(58) == 12534683);
    assert(speed_after(59) == 10278440);
    assert(speed_after(60) == 8428320);
    assert forall|k: int| 0 <= k <= 59 implies #[trigger] speed_after(k) >= EXHAUSTED by {
        lemma_speed_falls(k, 59);
    }
    assert forall|k: int| 0 <= k <= 60 implies in_range(#[trigger] speed_after(k)) by {
        lemma_speed_falls(0, k);
        lemma_speed_falls(k, 60);
    }
}

/// The speed of a launched hook never rises, and never falls under zero.
pub proof fn lemma_speed_falls(j: int, k: int)
    requires
        0 <= j <= k,
    ensures
        0 <= speed_after(k) <= speed_after(j) <= LAUNCH_SPEED,
    decreases k,
{
    if k > 0 {
        if j < k {
            lemma_speed_falls(j, k - 1);
        } else {
            lemma_speed_falls(j - 1, k - 1);
        }
        lemma_speed_falls(0, k - 1);
        let v = speed_after(k - 1);
        assert(0 <= (v * FLIGHT_DAMPING) / (ONE as int) <= v) by (nonlinear_arith)
            requires
                v >= 0,
        ;
        assert(v * FLIGHT_DAMPING >= 0) by (nonlinear_arith)
            requires
                v >= 0,
        ;
    }
}

/// A hook that is launched and flown without ever locking flies for 59
/// ticks and turns back on the 60th, wherever the dock goes and whatever the
/// clock shows.
pub proof fn lemma_flight_lasts(
    facing: Vec2,
    dock: Vec2,
    docks: spec_fn(int) -> Vec2,
    times: spec_fn(int) -> i64,
    k: int,
)
    requires
        facing.wf(),
        dock.wf(),
        flyable(docks, times),
        0 <= k <= 60,
    ensures
        flights(launched(facing, dock), docks, times, k).wf(),
        k <= 59 ==> flights(launched(facing, dock), docks, times, k) is Launched && flights(
            launched(facing, dock),
            docks,
            times,
            k,
        )->Launched_vel == speed_after(k) && flights(
            launched(facing, dock),
            docks,
            times,
            k,
        )->Launched_facing == facing,
        k == 60 ==> retracts(flights(launched(facing, dock), docks, times, k), facing, times(59)),
    decreases k,
{
    lemma_speed_runs_out();
    if k > 0 {
        lemma_flight_lasts(facing, dock, docks, times, k - 1);
        assert(docks(k - 1).wf() && in_range(times(k - 1)));
        let before = flights(launched(facing, dock), docks, times, k - 1);
        lemma_flight_slows(before, docks(k - 1), times(k - 1));
        assert(speed_after(k) == times_spec(speed_after(k - 1), FLIGHT_DAMPING));
    }
}

/// A hook that has turned back at tick `n` is ready again, with the facing
/// it had, after any later tick that comes a second or more after tick `n`.
pub proof fn lemma_return_ends(
    hook: Hook,
    docks: spec_fn(int) -> Vec2,
    times: spec_fn(int) -> i64,
    n: int,
    m: int,
)
    requires
        flyable(docks, times),
        0 <= n <= m,
        flights(hook, docks, times, n).wf(),
        flights(hook, docks, times, n) is Retracting,
    ensures
        flights(hook, docks, times, m).wf(),
        rests(flights(hook, docks, times, m), flights(hook, docks, times, n)->Retracting_facing)
            || retracts(
            flights(hook, docks, times, m),
            flights(hook, docks, times, n)->Retracting_facing,
            flights(hook, docks, times, n)->Retracting_started,
        ),
        n < m && times(m - 1) - flights(hook, docks, times, n)->Retracting_started >= ONE
            ==> rests(
            flights(hook, docks, times, m),
            flights(hook, docks, times, n)->Retracting_facing,
        ),
    decreases m - n,
{
    if n < m {
        lemma_return_ends(hook, docks, times, n, m - 1);
        let before = flights(hook, docks, times, m - 1);
        assert(docks(m - 1).wf() && in_range(times(m - 1)));
        if before is Retracting {
            lemma_retraction_ends(before, docks(m - 1), times(m - 1));
        } else {
            lemma_ready_rests(before, docks(m - 1), times(m - 1));
        }
    }
}

/// The life of a hook closes: launched from ready and flown without ever
/// locking, it turns back after some ticks, and once the clock shows a
/// second more than at that tick it is ready again, facing as before. The
/// lemma gives the tick at which the hook turns back.
pub proof fn lemma_lifecycle_closes(
    facing: Vec2,
    dock: Vec2,
    docks: spec_fn(int) -> Vec2,
    times: spec_fn(int) -> i64,
) -> (n: int)
    requires
        facing.wf(),
        dock.wf(),
        flyable(docks, times),
    ensures
        1 <= n,
        forall|k: int|
            0 <= k < n ==> #[trigger] flights(launched(facing, dock), docks, times, k) is Launched,
        retracts(flights(launched(facing, dock), docks, times, n), facing, times(n - 1)),
        forall|m: int|
            n < m && times(m - 1) - times(n - 1) >= ONE ==> rests(
                #[trigger] flights(launched(facing, dock), docks, times, m),
                facing,
            ),
{
    let start = launched(facing, dock);
    let n = lemma_flight_ends(start, docks, times, 0);
    assert forall|m: int| n < m && times(m - 1) - times(n - 1) >= ONE implies rests(
        #[trigger] flights(start, docks, times, m),
        facing,
    ) by {
        lemma_return_ends(start, docks, times, n, m);
    }
    n
}

/// Letting go hands the velocity of the tether on: a barrel that was held
/// leaves with its own velocity plus `RELEASE_GAIN` times that of the tether
/// end, where it was; a rock stays as it is; and the hook is on its way back.
pub proof fn lemma_release_transfers(hook: Hook, can: Can, now: i64)
    requires
        hook is Locked,
    ensures
        hook.release_spec(can, now).0 is Retracting,
        hook.release_spec(can, now).1.pos == can.pos,
        can.kind.is_movable_spec() ==> hook.release_spec(can, now).1.vel == can.vel.plus_spec(
            hook->Locked_vel.scaled_spec(RELEASE_GAIN),
        ),
        !can.kind.is_movable_spec() ==> hook.release_spec(can, now).1 == can,
{
}

/// A hook that locks grips the object at grip depth: the offset from the
/// object to the tether end is `GRIP_DEPTH` long, to within four
/// millionths, and the hook faces the object, its facing one long to within
/// two, unless the hook was on the object's centre itself.
pub proof fn lemma_lock_grips(hook: Hook, dock: Vec2, can_index: usize, can: Can)
    requires
        hook is Launched,
        hook->Launched_pos != can.pos,
    ensures
        hook.lock_spec(dock, can_index, can) is Locked,
        hook.lock_spec(dock, can_index, can)->Locked_can_index == can_index,
        GRIP_DEPTH - 4 <= hook.lock_spec(dock, can_index, can)->Locked_can_offset.length_spec()
            <= GRIP_DEPTH,
        hook.lock_spec(dock, can_index, can)->Locked_facing.is_unit(),
        hook.lock_spec(dock, can_index, can)->Locked_vel.is_zero(),
{
    let apart = hook->Launched_pos.minus_spec(can.pos);
    lemma_normalize_unit(apart);
    lemma_scaled_unit(apart.normalize_spec(), GRIP_DEPTH);
    let offset = apart.normalize_spec().scaled_spec(GRIP_DEPTH);
    lemma_length_sign(offset);
    lemma_normalize_unit(offset);
    let facing = offset.normalize_spec();
    assert(facing.neg_spec().x * facing.neg_spec().x == facing.x * facing.x
        && facing.neg_spec().y * facing.neg_spec().y == facing.y * facing.y) by (nonlinear_arith)
        requires
            facing.neg_spec().x == -facing.x,
            facing.neg_spec().y == -facing.y,
    ;
}

/// After a drag the object sits at grip depth from the tether end, to within
/// four millionths, and the hook's facing is one long, to within two,
/// unless the object was on the new tether end itself.
pub proof fn lemma_drag_grips(hook: Hook, dock: Vec2, can: Can)
    requires
        hook is Locked,
        can.pos != hook.drag_spec(dock, can).0->Locked_end,
        clear_of_limit(hook.drag_spec(dock, can).0->Locked_end),
    ensures
        GRIP_DEPTH - 4 <= hook.drag_spec(dock, can).1.pos.minus_spec(
            hook.drag_spec(dock, can).0->Locked_end,
        ).length_spec() <= GRIP_DEPTH,
        hook.drag_spec(dock, can).0->Locked_facing.is_unit(),
        hook.drag_spec(dock, can).0->Locked_facing == can.pos.minus_spec(
            hook.drag_spec(dock, can).0->Locked_end,
        ).normalize_spec().neg_spec(),
        hook.drag_spec(dock, can).1.vel == can.vel,
{
    let end = hook.drag_spec(dock, can).0->Locked_end;
    let apart = can.pos.minus_spec(end);
    let grip = apart.normalize_spec();
    lemma_normalize_unit(apart);
    lemma_scaled_unit(grip, GRIP_DEPTH);
    let reach = grip.scaled_spec(GRIP_DEPTH);
    assert(end.plus_spec(reach).minus_spec(end) == reach);
    lemma_minus_flips(end, can.pos);
    lemma_normalize_neg(apart);
    lemma_normalize_unit(end.minus_spec(can.pos));
}

/// What speed is handed on: a barrel at rest leaves `RELEASE_GAIN` times as
/// fast as the tether end was, up to rounding. It is no slower than that by
/// more than four millionths, and no faster than `RELEASE_GAIN` times the
/// speed of the tether end and a millionth.
pub proof fn lemma_release_speed(hook: Hook, can: Can, now: i64)
    requires
        hook is Locked,
        scales_freely(hook->Locked_vel, RELEASE_GAIN),
        can.kind.is_movable_spec(),
        can.vel.is_zero(),
    ensures
        times_spec(hook->Locked_vel.length_spec(), RELEASE_GAIN) - 4 <= hook.release_spec(
            can,
            now,
        ).1.vel.length_spec(),
        hook.release_spec(can, now).1.vel.length_spec() <= times_spec(
            (hook->Locked_vel.length_spec() + 1) as i64,
            RELEASE_GAIN,
        ),
{
    lemma_scaled_length(hook->Locked_vel, RELEASE_GAIN);
}

/// The faster the tether, the faster the object it lets go: of two locked
/// hooks that release a barrel at rest, the one whose tether end is the
/// faster by 4 millionths or more leaves the barrel at least as fast. (Below
/// that difference the rounding of the components can turn the order
/// around.)
pub proof fn lemma_release_grows(slow: Hook, fast: Hook, can: Can, now: i64)
    requires
        slow is Locked,
        fast is Locked,
        scales_freely(slow->Locked_vel, RELEASE_GAIN),
        scales_freely(fast->Locked_vel, RELEASE_GAIN),
        can.kind.is_movable_spec(),
        can.vel.is_zero(),
        slow->Locked_vel.length_spec() + 4 <= fast->Locked_vel.length_spec(),
    ensures
        slow.release_spec(can, now).1.vel.length_spec() <= fast.release_spec(
            can,
            now,
        ).1.vel.length_spec(),
{
    lemma_scaled_keeps_order(slow->Locked_vel, fast->Locked_vel, RELEASE_GAIN);
}

/// Whatever the difference, a tether end that is at least as fast in both
/// directions leaves a barrel at rest at least as fast.
pub proof fn lemma_release_grows_by_component(slow: Hook, fast: Hook, can: Can, now: i64)
    requires
        slow is Locked,
        fast is Locked,
        slow.wf(),
        fast.wf(),
        can.kind.is_movable_spec(),
        can.vel.is_zero(),
        magnitude(slow->Locked_vel.x) <= magnitude(fast->Locked_vel.x),
        magnitude(slow->Locked_vel.y) <= magnitude(fast->Locked_vel.y),
    ensures
        slow.release_spec(can, now).1.vel.length_spec() <= fast.release_spec(
            can,
            now,
        ).1.vel.length_spec(),
{
    let v = slow->Locked_vel;
    let w = fast->Locked_vel;
    lemma_times_monotone(v.x, w.x, RELEASE_GAIN);
    lemma_times_monotone(v.y, w.y, RELEASE_GAIN);
    lemma_length_monotone(v.scaled_spec(RELEASE_GAIN), w.scaled_spec(RELEASE_GAIN));
}

} // verus!
