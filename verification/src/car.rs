//! The car: a throttle that ramps up the longer the pedal is held, a speed
//! that collapses when the car slides sideways, and steering that turns the
//! heading by a step that grows with the speed.

use crate::circle::{ArenaKey, Circle};
use crate::fixed::{
    in_range, lemma_over_grows, lemma_smoothstep_grows, lemma_times_monotone, lemma_times_part,
    lemma_times_unit, max, max_spec, min, min_spec, minus, minus_spec, over, over_spec, plus,
    plus_spec, smoothstep, smoothstep_spec, times, times_spec, HALF, ONE,
};
use crate::math::{
    clear_of_limit, lemma_dot_short, lemma_length_sign, lemma_normalize_unit, lemma_normalize_wf,
    lemma_scaled_short, Vec2,
};
use vstd::prelude::*;

verus! {

/// The speed at full throttle, per tick.
pub const MAX_SPEED: i64 = 75_000;

/// Seconds of held pedal after which the throttle reaches its plateau.
pub const ZERO_TO_PLATEAU: i64 = 700_000;

/// The throttle on the plateau.
pub const PLATEAU: i64 = 500_000;

/// Seconds of held pedal after which the throttle leaves the plateau.
pub const MAX_START: i64 = 2_000_000;

/// Seconds the throttle takes from the plateau to its maximum.
pub const PLATEAU_TO_MAX: i64 = 2_200_000;

/// The most seconds of held pedal that a release remembers.
pub const FORWARD_CAP: i64 = 4_000_000;

/// The alignment of velocity and heading below which the car has no speed.
pub const ALIGNMENT_FLOOR: i64 = 870_000;

/// The span of alignment over which the speed grows from nothing to full.
pub const ALIGNMENT_SPAN: i64 = 100_000;

/// The thrust that full throttle adds to the velocity along the heading.
pub const THRUST: i64 = 40_000;

/// The most a car moves in one tick: 0.0975, and a millionth for rounding.
pub const MAX_STEP: i64 = 97_501;

/// The angle, in radians, by which the heading turns per tick at full speed.
pub const TURN_STEP: i64 = 14_544;

/// How long the pedal has been held, or how long ago it was let go.
#[derive(Clone, Copy, PartialEq, Eq, Structural, Debug)]
pub enum ThrottleSlide {
    /// The pedal was let go at `start`, after `forward_time` seconds of ramp.
    Back { start: i64, forward_time: i64 },
    /// The pedal is held; the ramp began at `start`.
    Forward { start: i64 },
    /// The pedal has not been touched yet.
    Nah,
}

impl ThrottleSlide {
    pub open spec fn wf(self) -> bool {
        match self {
            ThrottleSlide::Back { start, forward_time } => in_range(start) && in_range(
                forward_time,
            ),
            ThrottleSlide::Forward { start } => in_range(start),
            ThrottleSlide::Nah => true,
        }
    }

    /// The state after the pedal is seen `forward` at time `now`. Pressing
    /// after a release resumes the ramp where the coasting has brought it;
    /// releasing remembers the ramp, up to `FORWARD_CAP`.
    pub open spec fn pedal_spec(self, forward: bool, now: i64) -> ThrottleSlide {
        match self {
            ThrottleSlide::Nah => if forward {
                ThrottleSlide::Forward { start: now }
            } else {
                self
            },
            ThrottleSlide::Back { start, forward_time } => if forward {
                ThrottleSlide::Forward {
                    start: minus_spec(
                        now,
                        max_spec(minus_spec(forward_time, minus_spec(now, start)), 0),
                    ),
                }
            } else {
                self
            },
            ThrottleSlide::Forward { start } => if forward {
                self
            } else {
                ThrottleSlide::Back {
                    start: now,
                    forward_time: min_spec(minus_spec(now, start), FORWARD_CAP),
                }
            },
        }
    }

    /// The seconds of ramp that count at time `now`: the time the pedal has
    /// been held, or what is left of it while coasting down at twice the pace.
    pub open spec fn ramp_spec(self, now: i64) -> i64 {
        match self {
            ThrottleSlide::Forward { start } => minus_spec(now, start),
            ThrottleSlide::Back { start, forward_time } => {
                let gone = minus_spec(now, start);
                max_spec(minus_spec(forward_time, plus_spec(gone, gone)), 0)
            },
            ThrottleSlide::Nah => 0,
        }
    }

    pub fn pedal(self, forward: bool, now: i64) -> (r: ThrottleSlide)
        requires
            self.wf(),
            in_range(now),
        ensures
            r == self.pedal_spec(forward, now),
            r.wf(),
    {
        match self {
            ThrottleSlide::Nah => if forward {
                ThrottleSlide::Forward { start: now }
            } else {
                self
            },
            ThrottleSlide::Back { start, forward_time } => if forward {
                let left: i64 = max(minus(forward_time, minus(now, start)), 0);
                ThrottleSlide::Forward { start: minus(now, left) }
            } else {
                self
            },
            ThrottleSlide::Forward { start } => if forward {
                self
            } else {
                ThrottleSlide::Back {
                    start: now,
                    forward_time: min(minus(now, start), FORWARD_CAP),
                }
            },
        }
    }

    pub fn ramp(self, now: i64) -> (r: i64)
        requires
            self.wf(),
            in_range(now),
        ensures
            r == self.ramp_spec(now),
            in_range(r),
    {
        match self {
            ThrottleSlide::Forward { start } => minus(now, start),
            ThrottleSlide::Back { start, forward_time } => {
                let gone: i64 = minus(now, start);
                max(minus(forward_time, plus(gone, gone)), 0)
            },
            ThrottleSlide::Nah => 0,
        }
    }
}

/// The throttle after `t` seconds of ramp: an eased rise to the plateau, the
/// plateau, then an eased rise to 1.
pub open spec fn throttle_spec(t: i64) -> i64 {
    if t < ZERO_TO_PLATEAU {
        times_spec(smoothstep_spec(over_spec(t, ZERO_TO_PLATEAU)), PLATEAU)
    } else if t > MAX_START {
        plus_spec(
            times_spec(
                smoothstep_spec(over_spec(minus_spec(t, MAX_START), PLATEAU_TO_MAX)),
                minus_spec(ONE, PLATEAU),
            ),
            PLATEAU,
        )
    } else {
        PLATEAU
    }
}

/// The throttle lies between 0 and 1.
pub proof fn lemma_throttle_bounds(t: i64)
    ensures
        0 <= throttle_spec(t) <= ONE,
{
    lemma_smoothstep_grows(over_spec(t, ZERO_TO_PLATEAU), over_spec(t, ZERO_TO_PLATEAU));
    lemma_times_part(smoothstep_spec(over_spec(t, ZERO_TO_PLATEAU)), PLATEAU);
    let late = over_spec(minus_spec(t, MAX_START), PLATEAU_TO_MAX);
    lemma_smoothstep_grows(late, late);
    lemma_times_part(smoothstep_spec(late), minus_spec(ONE, PLATEAU));
}

/// The throttle never falls as the ramp goes on.
pub proof fn lemma_throttle_grows(earlier: i64, later: i64)
    requires
        earlier <= later,
    ensures
        throttle_spec(earlier) <= throttle_spec(later),
{
    lemma_throttle_bounds(earlier);
    lemma_throttle_bounds(later);
    let (a, b) = (over_spec(earlier, ZERO_TO_PLATEAU), over_spec(later, ZERO_TO_PLATEAU));
    lemma_over_grows(earlier, later, ZERO_TO_PLATEAU);
    lemma_smoothstep_grows(a, b);
    lemma_times_monotone(smoothstep_spec(a), smoothstep_spec(b), PLATEAU);
    lemma_times_part(smoothstep_spec(a), PLATEAU);
    lemma_times_part(smoothstep_spec(b), PLATEAU);
    let (c, d) = (
        over_spec(minus_spec(earlier, MAX_START), PLATEAU_TO_MAX),
        over_spec(minus_spec(later, MAX_START), PLATEAU_TO_MAX),
    );
    lemma_over_grows(
        minus_spec(earlier, MAX_START),
        minus_spec(later, MAX_START),
        PLATEAU_TO_MAX,
    );
    lemma_smoothstep_grows(c, d);
    lemma_times_monotone(smoothstep_spec(c), smoothstep_spec(d), minus_spec(ONE, PLATEAU));
    lemma_times_part(smoothstep_spec(c), minus_spec(ONE, PLATEAU));
    lemma_times_part(smoothstep_spec(d), minus_spec(ONE, PLATEAU));
}

/// A car whose velocity is not aligned with its heading stands still: where
/// the alignment is `ALIGNMENT_FLOOR` or less, a tick leaves the speed at
/// zero and the car where it is.
pub proof fn lemma_car_stalls(
    car: Car,
    forward: bool,
    left: bool,
    right: bool,
    now: i64,
    friction: i64,
)
    requires
        car.wf(),
        in_range(friction),
        car.vel.dot_spec(car.dir) <= ALIGNMENT_FLOOR,
    ensures
        car.controls_spec(forward, left, right, now, friction).speed == 0,
        car.controls_spec(forward, left, right, now, friction).pos == car.pos,
{
    let ramp = car.throttle_slide.pedal_spec(forward, now).ramp_spec(now);
    let throttle = throttle_spec(ramp);
    lemma_throttle_bounds(ramp);
    lemma_times_unit(times_spec(MAX_SPEED, throttle));
    lemma_times_unit(friction);
    lemma_normalize_wf(car.vel.plus_spec(car.dir.scaled_spec(THRUST).scaled_spec(throttle)));
    let after = car.controls_spec(forward, left, right, now, friction);
    lemma_times_unit(after.vel.x);
    lemma_times_unit(after.vel.y);
}

/// How far a tick moves the car: no farther than its speed after the tick,
/// which is at most `MAX_STEP` times the friction, for a car whose heading
/// and velocity are no longer than 1 on ground that does not speed it up.
pub proof fn lemma_car_step(
    car: Car,
    forward: bool,
    left: bool,
    right: bool,
    now: i64,
    friction: i64,
)
    requires
        car.wf(),
        car.vel.length_spec() <= ONE,
        car.dir.length_spec() <= ONE,
        0 <= friction <= ONE,
        clear_of_limit(car.pos),
    ensures
        0 <= car.controls_spec(forward, left, right, now, friction).speed <= times_spec(
            MAX_STEP,
            friction,
        ),
        car.controls_spec(forward, left, right, now, friction).pos.minus_spec(
            car.pos,
        ).length_spec() <= car.controls_spec(forward, left, right, now, friction).speed,
{
    let m = ONE as int;
    let ramp = car.throttle_slide.pedal_spec(forward, now).ramp_spec(now);
    let throttle = throttle_spec(ramp);
    lemma_throttle_bounds(ramp);
    lemma_dot_short(car.vel, car.dir);
    let lead = max_spec(minus_spec(car.vel.dot_spec(car.dir), ALIGNMENT_FLOOR), 0);
    assert(0 <= lead <= 130_002);
    assert(0 <= (lead * m) / (ALIGNMENT_SPAN as int) <= 1_300_020) by (nonlinear_arith)
        requires
            0 <= lead <= 130_002,
            m == 1_000_000,
    ;
    assert(lead * m >= 0) by (nonlinear_arith)
        requires
            lead >= 0,
            m > 0,
    ;
    let alignment = over_spec(lead, ALIGNMENT_SPAN);
    assert(0 <= alignment <= 1_300_020);
    let base = times_spec(MAX_SPEED, throttle);
    assert(0 <= (MAX_SPEED * throttle) / m <= MAX_SPEED) by (nonlinear_arith)
        requires
            0 <= throttle <= m,
            m == 1_000_000,
    ;
    assert(MAX_SPEED * throttle >= 0) by (nonlinear_arith)
        requires
            throttle >= 0,
    ;
    assert(0 <= base <= MAX_SPEED);
    let speed = times_spec(base, alignment);
    assert(0 <= base * alignment <= 75_000 * 1_300_020) by (nonlinear_arith)
        requires
            0 <= base <= 75_000,
            0 <= alignment <= 1_300_020,
    ;
    assert(0 <= (base * alignment) / m <= MAX_STEP) by (nonlinear_arith)
        requires
            0 <= base * alignment <= 75_000 * 1_300_020,
            m == 1_000_000,
    ;
    assert(0 <= speed <= MAX_STEP);
    lemma_times_monotone(speed, MAX_STEP, friction);
    lemma_times_part(friction, speed);
    assert(speed * friction == friction * speed) by (nonlinear_arith);
    assert(MAX_STEP * friction >= 0 && speed * friction >= 0) by (nonlinear_arith)
        requires
            speed >= 0,
            friction >= 0,
    ;
    assert((speed * friction) / m >= 0 && (MAX_STEP * friction) / m >= 0) by (nonlinear_arith)
        requires
            speed * friction >= 0,
            MAX_STEP * friction >= 0,
            m > 0,
    ;
    let slowed = times_spec(speed, friction);
    assert(0 <= slowed <= speed);
    let pushed = car.vel.plus_spec(car.dir.scaled_spec(THRUST).scaled_spec(throttle));
    let after = car.controls_spec(forward, left, right, now, friction);
    lemma_length_sign(pushed);
    if !pushed.is_zero() {
        lemma_normalize_unit(pushed);
    }
    lemma_scaled_short(after.vel, slowed);
    let step = after.vel.scaled_spec(slowed);
    assert(car.pos.plus_spec(step).minus_spec(car.pos) == step);
}

/// The throttle after `t` seconds of ramp.
pub fn throttle(t: i64) -> (r: i64)
    requires
        in_range(t),
    ensures
        r == throttle_spec(t),
        0 <= r <= ONE,
{
    proof {
        lemma_throttle_bounds(t);
    }
    if t < ZERO_TO_PLATEAU {
        times(smoothstep(over(t, ZERO_TO_PLATEAU)), PLATEAU)
    } else if t > MAX_START {
        plus(
            times(smoothstep(over(minus(t, MAX_START), PLATEAU_TO_MAX)), minus(ONE, PLATEAU)),
            PLATEAU,
        )
    } else {
        PLATEAU
    }
}

/// The signed angle by which the heading turns in one tick: none unless
/// exactly one of `left` and `right` is held, else `TURN_STEP` scaled by
/// the speed as a fraction of `MAX_SPEED`, at most 1, negative to the left.
pub open spec fn turn_spec(speed: i64, left: bool, right: bool) -> i64 {
    if left == right {
        0
    } else {
        let step = times_spec(TURN_STEP, min_spec(over_spec(speed, MAX_SPEED), ONE));
        if left {
            (-step) as i64
        } else {
            step
        }
    }
}

/// The signed angle by which the heading turns in one tick.
pub fn turn(speed: i64, left: bool, right: bool) -> (r: i64)
    requires
        in_range(speed),
    ensures
        r == turn_spec(speed, left, right),
        in_range(r),
{
    if left == right {
        0
    } else {
        let step: i64 = times(TURN_STEP, min(over(speed, MAX_SPEED), ONE));
        if left {
            -step
        } else {
            step
        }
    }
}

/// `dir` turned by the small angle `step` and brought back to unit length.
/// The rotation takes `1 - step^2 / 2` for the cosine and `step` for the
/// sine, which is exact to a millionth for angles up to `TURN_STEP`.
pub open spec fn turned_spec(dir: Vec2, step: i64) -> Vec2 {
    let c = minus_spec(ONE, times_spec(times_spec(step, step), HALF));
    (Vec2 {
        x: minus_spec(times_spec(dir.x, c), times_spec(dir.y, step)),
        y: plus_spec(times_spec(dir.x, step), times_spec(dir.y, c)),
    }).normalize_spec()
}

/// Turns `dir` by the small angle `step`.
pub fn turned(dir: Vec2, step: i64) -> (r: Vec2)
    requires
        dir.wf(),
        in_range(step),
    ensures
        r == turned_spec(dir, step),
        r.is_zero() || r.is_unit(),
        r.wf(),
{
    let c: i64 = minus(ONE, times(times(step, step), HALF));
    let raw = Vec2 {
        x: minus(times(dir.x, c), times(dir.y, step)),
        y: plus(times(dir.x, step), times(dir.y, c)),
    };
    raw.normalize()
}

/// The car. `vel` is a direction: how far the car moves per tick is `speed`.
#[derive(Clone, Copy, PartialEq, Eq, Structural, Debug)]
pub struct Car {
    pub pos: Vec2,
    pub dir: Vec2,
    pub speed: i64,
    pub vel: Vec2,
    pub throttle_slide: ThrottleSlide,
    /// The radius of the circle with which the car collides.
    pub radius: i64,
}

impl Car {
    pub open spec fn wf(self) -> bool {
        &&& self.pos.wf()
        &&& self.dir.wf()
        &&& in_range(self.speed)
        &&& self.vel.wf()
        &&& self.throttle_slide.wf()
        &&& in_range(self.radius)
    }

    /// The car after one tick with the pedal and the steering as given, at
    /// time `now`, on ground of the given friction.
    pub open spec fn controls_spec(
        self,
        forward: bool,
        left: bool,
        right: bool,
        now: i64,
        friction: i64,
    ) -> Car {
        let slide = self.throttle_slide.pedal_spec(forward, now);
        let throttle = throttle_spec(slide.ramp_spec(now));
        let alignment = over_spec(
            max_spec(minus_spec(self.vel.dot_spec(self.dir), ALIGNMENT_FLOOR), 0),
            ALIGNMENT_SPAN,
        );
        let speed = times_spec(times_spec(MAX_SPEED, throttle), alignment);
        let pushed = self.vel.plus_spec(self.dir.scaled_spec(THRUST).scaled_spec(throttle));
        let vel = if pushed.is_zero() {
            pushed
        } else {
            pushed.normalize_spec()
        };
        let dir = if left == right {
            self.dir
        } else {
            turned_spec(self.dir, turn_spec(speed, left, right))
        };
        let slowed = times_spec(speed, friction);
        Car {
            pos: self.pos.plus_spec(vel.scaled_spec(slowed)),
            dir,
            speed: slowed,
            vel,
            throttle_slide: slide,
            radius: self.radius,
        }
    }

    /// The circle of the car: around its position, with its radius.
    pub open spec fn circles_spec(self) -> Circle {
        Circle { pos: self.pos, radius: self.radius, key: ArenaKey::Car }
    }

    /// A car at rest at the origin, heading along the x axis.
    pub fn new(radius: i64) -> (car: Car)
        requires
            in_range(radius),
        ensures
            car == (Car {
                pos: Vec2 { x: 0, y: 0 },
                dir: Vec2 { x: ONE, y: 0 },
                speed: 0,
                vel: Vec2 { x: 0, y: 0 },
                throttle_slide: ThrottleSlide::Nah,
                radius,
            }),
            car.wf(),
    {
        Car {
            pos: Vec2 { x: 0, y: 0 },
            dir: Vec2 { x: ONE, y: 0 },
            speed: 0,
            vel: Vec2 { x: 0, y: 0 },
            throttle_slide: ThrottleSlide::Nah,
            radius,
        }
    }

    /// Advances the car by one tick.
    pub fn controls(&mut self, forward: bool, left: bool, right: bool, now: i64, friction: i64)
        requires
            old(self).wf(),
            in_range(now),
            in_range(friction),
        ensures
            *final(self) == old(self).controls_spec(forward, left, right, now, friction),
            final(self).vel.is_zero() || final(self).vel.is_unit(),
            final(self).dir == old(self).dir || final(self).dir.is_zero()
                || final(self).dir.is_unit(),
            final(self).radius == old(self).radius,
            final(self).wf(),
    {
        self.throttle_slide = self.throttle_slide.pedal(forward, now);
        let throttle: i64 = throttle(self.throttle_slide.ramp(now));
        let alignment: i64 = over(
            max(minus(self.vel.dot(self.dir), ALIGNMENT_FLOOR), 0),
            ALIGNMENT_SPAN,
        );
        self.speed = times(times(MAX_SPEED, throttle), alignment);
        self.vel = self.vel.plus(self.dir.scaled(THRUST).scaled(throttle));
        if self.vel.x != 0 || self.vel.y != 0 {
            self.vel = self.vel.normalize();
        }
        if left != right {
            self.dir = turned(self.dir, turn(self.speed, left, right));
        }
        self.speed = times(self.speed, friction);
        self.pos = self.pos.plus(self.vel.scaled(self.speed));
    }

    /// The point of the car at which the hook is docked.
    pub fn dock(&self) -> (p: Vec2)
        ensures
            p == self.pos,
    {
        self.pos
    }

    /// The circle with which the car takes part in collisions.
    pub fn circles(&self) -> (c: Circle)
        ensures
            c == self.circles_spec(),
    {
        Circle { pos: self.pos, radius: self.radius, key: ArenaKey::Car }
    }
}

} // verus!
