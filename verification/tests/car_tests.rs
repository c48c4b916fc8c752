use donuts::car::{
    throttle, turn, turned, Car, ThrottleSlide, FORWARD_CAP, MAX_SPEED, MAX_START, MAX_STEP,
    PLATEAU, PLATEAU_TO_MAX, TURN_STEP, ZERO_TO_PLATEAU,
};
use donuts::circle::{ArenaKey, Circle};
use donuts::fixed::ONE;
use donuts::math::vec2;

fn spawned() -> Car {
    let mut car = Car::new(400_000);
    car.pos = vec2(0, 32_500_000);
    car
}

#[test]
fn car_constants() {
    assert_eq!(MAX_SPEED, 75_000);
    assert_eq!(ZERO_TO_PLATEAU, 700_000);
    assert_eq!(PLATEAU, 500_000);
    assert_eq!(MAX_START, 2 * ONE);
    assert_eq!(PLATEAU_TO_MAX, 2_200_000);
    assert_eq!(FORWARD_CAP, 4 * ONE);
    assert_eq!(TURN_STEP, 14_544);
}

#[test]
fn new_car_rests_at_the_origin() {
    assert_eq!(
        Car::new(400_000),
        Car {
            pos: vec2(0, 0),
            dir: vec2(ONE, 0),
            speed: 0,
            vel: vec2(0, 0),
            throttle_slide: ThrottleSlide::Nah,
            radius: 400_000,
        }
    );
}

#[test]
fn dock_and_circle_are_at_the_car() {
    let car = spawned();
    assert_eq!(car.dock(), vec2(0, 32_500_000));
    assert_eq!(
        car.circles(),
        Circle { pos: vec2(0, 32_500_000), radius: 400_000, key: ArenaKey::Car }
    );
}

#[test]
fn throttle_ramps_in_two_steps() {
    assert_eq!(throttle(-ONE), 0);
    assert_eq!(throttle(0), 0);
    assert_eq!(throttle(350_000), 250_000);
    assert_eq!(throttle(699_999), 499_999);
    assert_eq!(throttle(700_000), 500_000);
    assert_eq!(throttle(ONE), 500_000);
    assert_eq!(throttle(2 * ONE), 500_000);
    assert_eq!(throttle(3_100_000), 750_000);
    assert_eq!(throttle(4_200_000), ONE);
    assert_eq!(throttle(5 * ONE), ONE);
}

#[test]
fn pedal_pressed_for_the_first_time() {
    assert_eq!(ThrottleSlide::Nah.pedal(true, 5 * ONE), ThrottleSlide::Forward { start: 5 * ONE });
    assert_eq!(ThrottleSlide::Nah.pedal(false, 5 * ONE), ThrottleSlide::Nah);
}

#[test]
fn pedal_held_and_let_go() {
    let held = ThrottleSlide::Forward { start: ONE };
    assert_eq!(held.pedal(true, 3 * ONE), held);
    assert_eq!(held.pedal(false, 3 * ONE), ThrottleSlide::Back { start: 3 * ONE, forward_time: 2 * ONE });
    assert_eq!(held.pedal(false, 9 * ONE), ThrottleSlide::Back { start: 9 * ONE, forward_time: 4 * ONE });
}

#[test]
fn pedal_pressed_again_resumes_the_ramp() {
    let coasting = ThrottleSlide::Back { start: 3 * ONE, forward_time: 2 * ONE };
    assert_eq!(coasting.pedal(false, 4 * ONE), coasting);
    assert_eq!(coasting.pedal(true, 3_500_000), ThrottleSlide::Forward { start: 2 * ONE });
    assert_eq!(coasting.pedal(true, 5 * ONE), ThrottleSlide::Forward { start: 5 * ONE });
    assert_eq!(coasting.pedal(true, 8 * ONE), ThrottleSlide::Forward { start: 8 * ONE });
}

#[test]
fn ramp_counts_held_time_and_coasts_down_twice_as_fast() {
    assert_eq!(ThrottleSlide::Nah.ramp(7 * ONE), 0);
    assert_eq!(ThrottleSlide::Forward { start: ONE }.ramp(3_500_000), 2_500_000);
    let coasting = ThrottleSlide::Back { start: 3 * ONE, forward_time: 2 * ONE };
    assert_eq!(coasting.ramp(3 * ONE), 2 * ONE);
    assert_eq!(coasting.ramp(3_250_000), 1_500_000);
    assert_eq!(coasting.ramp(4 * ONE), 0);
    assert_eq!(coasting.ramp(9 * ONE), 0);
}

#[test]
fn turn_needs_exactly_one_side() {
    assert_eq!(turn(MAX_SPEED, false, false), 0);
    assert_eq!(turn(MAX_SPEED, true, true), 0);
    assert_eq!(turn(MAX_SPEED, false, true), 14_544);
    assert_eq!(turn(MAX_SPEED, true, false), -14_544);
}

#[test]
fn turn_grows_with_the_speed_up_to_full_speed() {
    assert_eq!(turn(0, false, true), 0);
    assert_eq!(turn(37_500, true, false), -7_272);
    assert_eq!(turn(37_500, false, true), 7_272);
    assert_eq!(turn(200_000, false, true), 14_544);
}

#[test]
fn turned_rotates_and_keeps_unit_length() {
    assert_eq!(turned(vec2(ONE, 0), 0), vec2(ONE, 0));
    assert_eq!(turned(vec2(ONE, 0), 14_544), vec2(999_895, 14_544));
    assert_eq!(turned(vec2(ONE, 0), -14_544), vec2(999_895, -14_544));
    assert_eq!(turned(vec2(0, ONE), 14_544), vec2(-14_544, 999_895));
    assert_eq!(turned(vec2(0, 2 * ONE), 0), vec2(0, ONE));
}

#[test]
fn car_speeds_up_along_its_heading() {
    let mut car = spawned();
    car.controls(true, false, false, 100_000, 960_000);
    assert_eq!(car.throttle_slide, ThrottleSlide::Forward { start: 100_000 });
    assert_eq!((car.pos, car.speed, car.vel), (vec2(0, 32_500_000), 0, vec2(0, 0)));
    car.controls(true, false, false, 200_000, 960_000);
    assert_eq!((car.pos, car.speed, car.vel), (vec2(0, 32_500_000), 0, vec2(ONE, 0)));
    car.controls(true, false, false, 300_000, 960_000);
    assert_eq!((car.pos, car.speed, car.vel), (vec2(9_277, 32_500_000), 9_277, vec2(ONE, 0)));
    car.controls(true, false, false, 400_000, 960_000);
    assert_eq!((car.pos, car.speed, car.vel), (vec2(27_695, 32_500_000), 18_418, vec2(ONE, 0)));
    car.controls(true, false, false, 500_000, 960_000);
    assert_eq!((car.pos, car.speed, car.vel), (vec2(56_074, 32_500_000), 28_379, vec2(ONE, 0)));
    assert_eq!(car.dir, vec2(ONE, 0));
    assert_eq!(car.radius, 400_000);
}

#[test]
fn car_steers_coasts_and_speeds_up_again() {
    let mut car = spawned();
    for tick in 1..=5 {
        car.controls(true, false, false, tick * 100_000, 960_000);
    }
    car.controls(true, false, true, 600_000, 960_000);
    assert_eq!(
        (car.pos, car.dir, car.speed, car.vel),
        (vec2(93_594, 32_500_000), vec2(999_972, 7_579), 37_520, vec2(ONE, 0))
    );
    car.controls(true, false, true, 700_000, 960_000);
    assert_eq!(
        (car.pos, car.dir, car.speed, car.vel),
        (vec2(137_790, 32_500_006), vec2(999_864, 16_503), 44_196, vec2(ONE, 140))
    );
    car.controls(true, false, true, 800_000, 960_000);
    assert_eq!(
        (car.pos, car.dir, car.speed, car.vel),
        (vec2(184_541, 32_500_027), vec2(999_664, 25_942), 46_751, vec2(ONE, 460))
    );
    car.controls(false, true, false, 900_000, 980_000);
    assert_eq!(car.throttle_slide, ThrottleSlide::Back { start: 900_000, forward_time: 800_000 });
    assert_eq!(
        (car.pos, car.dir, car.speed, car.vel),
        (vec2(232_196, 32_500_072), vec2(999_864, 16_515), 47_655, vec2(ONE, 958))
    );
    car.controls(false, true, false, ONE, 980_000);
    assert_eq!(
        (car.pos, car.dir, car.speed, car.vel),
        (vec2(277_280, 32_500_128), vec2(999_972, 7_595), 45_084, vec2(ONE, 1_245))
    );
    car.controls(false, true, false, 1_100_000, 980_000);
    assert_eq!(
        (car.pos, car.dir, car.speed, car.vel),
        (vec2(306_245, 32_500_166), vec2(999_999, 1_864), 28_965, vec2(ONE, 1_319))
    );
    car.controls(true, false, false, 1_150_000, 980_000);
    assert_eq!(car.throttle_slide, ThrottleSlide::Forward { start: 600_000 });
    assert_eq!(
        (car.pos, car.dir, car.speed, car.vel),
        (vec2(348_378, 32_500_221), vec2(999_999, 1_864), 42_133, vec2(ONE, 1_327))
    );
}

#[test]
fn both_sides_held_cancel() {
    let mut steered = spawned();
    let mut straight = spawned();
    for tick in 1..=8 {
        steered.controls(true, true, true, tick * 100_000, 960_000);
        straight.controls(true, false, false, tick * 100_000, 960_000);
    }
    assert_eq!(steered, straight);
    assert_eq!(steered.dir, vec2(ONE, 0));
}

#[test]
fn car_that_slides_sideways_has_no_speed() {
    let mut car = spawned();
    car.vel = vec2(0, ONE);
    car.throttle_slide = ThrottleSlide::Forward { start: 0 };
    car.controls(true, false, false, 5 * ONE, ONE);
    assert_eq!(car.speed, 0);
    assert_eq!(car.pos, vec2(0, 32_500_000));
    assert_eq!(car.vel, vec2(39_968, 999_201));
}

#[test]
fn the_smallest_thrust_gives_a_unit_velocity() {
    let mut car = Car::new(400_000);
    car.dir = vec2(707_107, 707_107);
    car.throttle_slide = ThrottleSlide::Forward { start: 0 };
    car.controls(true, false, false, 3_500, 960_000);
    assert_eq!(car.vel, vec2(707_107, 707_107));
    assert_eq!(car.vel.length(), ONE);
    assert_eq!(car.pos, vec2(0, 0));
}

#[test]
fn throttle_stays_between_nothing_and_full() {
    for t in (-ONE..6 * ONE).step_by(7_919) {
        let now = throttle(t);
        assert!(0 <= now && now <= ONE);
    }
}

#[test]
fn car_moves_no_farther_than_its_speed() {
    assert_eq!(MAX_STEP, 97_501);
    let mut car = Car::new(400_000);
    for tick in 1..=400 {
        let before = car.pos;
        let left = tick % 7 < 3;
        car.controls(true, left, false, tick * 16_000, 980_000);
        assert!(car.speed <= 95_551);
        assert!(car.pos.minus(before).length() <= car.speed);
        assert!(car.vel.length() >= ONE - 2 || car.vel == vec2(0, 0));
        assert!(car.vel.length() <= ONE);
    }
    assert!(car.speed > 70_000);
}

#[test]
fn car_across_its_heading_stands_still() {
    let mut car = Car::new(400_000);
    car.pos = vec2(3 * ONE, -ONE);
    car.vel = vec2(492_000, 870_603);
    car.speed = 50_000;
    car.throttle_slide = ThrottleSlide::Forward { start: 0 };
    car.controls(true, false, false, 5 * ONE, ONE);
    assert_eq!(car.speed, 0);
    assert_eq!(car.pos, vec2(3 * ONE, -ONE));
}

#[test]
fn throttle_never_falls_as_the_pedal_is_held() {
    let mut last = 0;
    for t in (0..5 * ONE).step_by(1_237) {
        let now = throttle(t);
        assert!(last <= now);
        last = now;
    }
    assert_eq!(last, ONE);
}
