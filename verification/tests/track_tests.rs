use donuts::math::vec2;
use donuts::track::{Track, GROUND_FRICTION, TRACK_FRICTION, TRACK_RADIUS, TRACK_WIDTH};

#[test]
fn car_spawns_on_the_track() {
    let track = Track;
    assert_eq!(track.car_spawn(), vec2(0, 32_500_000));
    assert_eq!(track.terrain_friction(track.car_spawn()), TRACK_FRICTION);
}

#[test]
fn friction_inside_on_and_outside_the_ring() {
    let track = Track;
    assert_eq!(GROUND_FRICTION, 980_000);
    assert_eq!(TRACK_FRICTION, 960_000);
    assert_eq!(track.terrain_friction(vec2(0, 0)), 980_000);
    assert_eq!(track.terrain_friction(vec2(24_999_999, 0)), 980_000);
    assert_eq!(track.terrain_friction(vec2(25_000_000, 0)), 960_000);
    assert_eq!(track.terrain_friction(vec2(0, -30_000_000)), 960_000);
    assert_eq!(track.terrain_friction(vec2(-35_000_000, 0)), 960_000);
    assert_eq!(track.terrain_friction(vec2(35_000_001, 0)), 980_000);
    assert_eq!(track.terrain_friction(vec2(21_000_000, 28_000_000)), 960_000);
    assert_eq!(track.terrain_friction(vec2(30_000_000, 30_000_000)), 980_000);
}

#[test]
fn the_ring_is_ten_wide() {
    assert_eq!(TRACK_RADIUS, 35_000_000);
    assert_eq!(TRACK_WIDTH, 10_000_000);
}
