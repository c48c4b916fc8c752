use donuts::fixed::{LIMIT, ONE};
use donuts::math::{slerp, vec2, Vec2};

#[test]
fn vec2_holds_its_components() {
    let v = vec2(3, -4);
    assert_eq!(v, Vec2 { x: 3, y: -4 });
    assert_eq!(Vec2::zero(), Vec2 { x: 0, y: 0 });
    assert_eq!(Vec2::unit_x(), Vec2 { x: ONE, y: 0 });
}

#[test]
fn plus_minus_neg_work_by_component() {
    let a = vec2(1_500_000, -2_000_000);
    let b = vec2(250_000, 750_000);
    assert_eq!(a.plus(b), vec2(1_750_000, -1_250_000));
    assert_eq!(a.minus(b), vec2(1_250_000, -2_750_000));
    assert_eq!(a.neg(), vec2(-1_500_000, 2_000_000));
    assert_eq!(vec2(LIMIT, -LIMIT).plus(vec2(1, -1)), vec2(LIMIT, -LIMIT));
}

#[test]
fn scaled_multiplies_each_component() {
    assert_eq!(vec2(ONE, -2 * ONE).scaled(880_000), vec2(880_000, -1_760_000));
    assert_eq!(vec2(3, -3).scaled(500_000), vec2(1, -1));
}

#[test]
fn dot_rounds_once() {
    assert_eq!(vec2(ONE, 0).dot(vec2(0, ONE)), 0);
    assert_eq!(vec2(ONE, 0).dot(vec2(ONE, 0)), ONE);
    assert_eq!(vec2(600_000, 800_000).dot(vec2(600_000, 800_000)), ONE);
    assert_eq!(vec2(1, 1).dot(vec2(500_000, 500_000)), 1);
    assert_eq!(vec2(2 * ONE, 3 * ONE).dot(vec2(-ONE, ONE)), ONE);
}

#[test]
fn length_is_the_root_of_the_squares() {
    assert_eq!(vec2(3 * ONE, 4 * ONE).length(), 5 * ONE);
    assert_eq!(vec2(-3 * ONE, 4 * ONE).length(), 5 * ONE);
    assert_eq!(vec2(ONE, ONE).length(), 1_414_213);
    assert_eq!(vec2(1, 1).length(), 1);
    assert_eq!(vec2(0, 0).length(), 0);
    assert_eq!(vec2(LIMIT, LIMIT).length(), LIMIT);
}

#[test]
fn normalize_gives_unit_length() {
    assert_eq!(vec2(3 * ONE, 4 * ONE).normalize(), vec2(600_000, 800_000));
    assert_eq!(vec2(25_000, 0).normalize(), vec2(ONE, 0));
    assert_eq!(vec2(ONE, ONE).normalize(), vec2(707_107, 707_107));
    assert_eq!(vec2(-ONE, ONE).normalize(), vec2(-707_107, 707_107));
}

#[test]
fn normalize_of_zero_is_zero() {
    assert_eq!(vec2(0, 0).normalize(), vec2(0, 0));
}

#[test]
fn lerp_moves_from_self_to_other() {
    let a = vec2(ONE, ONE);
    let b = vec2(3 * ONE, -ONE);
    assert_eq!(a.lerp(b, 0), a);
    assert_eq!(a.lerp(b, ONE), b);
    assert_eq!(a.lerp(b, 250_000), vec2(1_500_000, 500_000));
}

#[test]
fn slerp_returns_second_at_zero_and_first_at_one() {
    let a = vec2(ONE, 0);
    let b = vec2(0, ONE);
    assert_eq!(slerp(a, b, 0), b);
    assert_eq!(slerp(a, b, ONE), a);
    let c = vec2(600_000, -800_000);
    let d = vec2(-707_107, 707_107);
    assert_eq!(slerp(c, d, 0), d);
    assert_eq!(slerp(c, d, ONE), c);
}

#[test]
fn slerp_between_perpendicular_directions() {
    let a = vec2(ONE, 0);
    let b = vec2(0, ONE);
    assert_eq!(slerp(a, b, 500_000), vec2(706_377, 706_377));
    assert_eq!(slerp(a, b, 200_000), vec2(308_597, 950_608));
    assert_eq!(slerp(b, a, 800_000), vec2(308_597, 950_608));
}

#[test]
fn slerp_of_equal_directions_is_that_direction() {
    let a = vec2(ONE, 0);
    assert_eq!(slerp(a, a, 200_000), a);
    assert_eq!(slerp(a, a, 500_000), a);
}

#[test]
fn slerp_of_opposite_directions_stays_finite() {
    let a = vec2(ONE, 0);
    let r = slerp(a, a.neg(), 500_000);
    assert_eq!(r, vec2(0, 0));
}

#[test]
fn clamped_brings_components_into_range() {
    assert_eq!(vec2(3, -4).clamped(), vec2(3, -4));
    assert_eq!(vec2(i64::MAX, i64::MIN).clamped(), vec2(LIMIT, -LIMIT));
    assert_eq!(vec2(LIMIT + 1, -LIMIT).clamped(), vec2(LIMIT, -LIMIT));
}

#[test]
fn normalized_vectors_are_one_long_up_to_rounding() {
    for v in [
        vec2(3 * ONE, 4 * ONE),
        vec2(ONE, ONE),
        vec2(-7 * ONE, 2 * ONE),
        vec2(1_234_567, -7_654_321),
        vec2(LIMIT / 2, LIMIT / 3),
    ] {
        let long = v.normalize().length();
        assert!(ONE - 2 <= long && long <= ONE);
    }
    for v in [vec2(1, 1), vec2(3, -4), vec2(0, 999), vec2(17, 400), vec2(999_999, 1)] {
        let long = v.normalize().length();
        assert!(ONE - 2 <= long && long <= ONE);
    }
    assert_eq!(vec2(1, 1).normalize(), vec2(707_107, 707_107));
    assert_eq!(vec2(17, 400).normalize(), vec2(42_461, 999_098));
    assert_eq!(vec2(LIMIT, LIMIT).normalize(), vec2(707_106, 707_106));
    assert_eq!(vec2(LIMIT, -LIMIT).normalize().length(), ONE - 2);
}

#[test]
fn scaling_keeps_the_order_of_lengths_that_differ_enough() {
    let slow = vec2(300_000, -400_000);
    let fast = vec2(300_003, -400_003);
    assert!(slow.length() + 4 <= fast.length());
    assert!(slow.scaled(1_400_000).length() <= fast.scaled(1_400_000).length());
}

#[test]
fn rounding_can_turn_the_order_of_equal_lengths() {
    assert_eq!(vec2(5, 0).length(), vec2(3, 4).length());
    assert_eq!(vec2(5, 0).scaled(1_400_000).length(), 7);
    assert_eq!(vec2(3, 4).scaled(1_400_000).length(), 6);
}
