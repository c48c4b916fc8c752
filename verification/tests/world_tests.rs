use donuts::can::{Can, CanType};
use donuts::car::Car;
use donuts::circle::{ArenaKey, Circle, Collision};
use donuts::fixed::ONE;
use donuts::hook::Hook;
use donuts::math::vec2;
use donuts::world::{Input, World, NUDGE, RESTING_SPEED};

fn idle(now: i64) -> Input {
    Input { aim: vec2(10 * ONE, 0), forward: false, left: false, right: false, trigger: false, now }
}

fn pulled(now: i64) -> Input {
    Input { trigger: true, ..idle(now) }
}

fn world_with(cans: Vec<Can>) -> World {
    World::new(Car::new(300_000), cans)
}

fn contact(first: ArenaKey, second: ArenaKey, normal_x: i64, depth: i64) -> Collision {
    Collision { members: [first, second], normal: vec2(normal_x, 0), depth }
}

#[test]
fn routing_constants() {
    assert_eq!(RESTING_SPEED, 500_000);
    assert_eq!(NUDGE, 100_000);
}

#[test]
fn new_world_has_a_ready_hook() {
    let world = world_with(vec![Can::new(vec2(2 * ONE, 0), CanType::Barrel)]);
    assert_eq!(world.hook, Hook::Ready { facing: vec2(ONE, 0) });
    assert_eq!(world.car, Car::new(300_000));
    assert_eq!(world.cans.cans, vec![Can::new(vec2(2 * ONE, 0), CanType::Barrel)]);
}

#[test]
fn circles_are_car_then_cans_then_tip() {
    let mut world = world_with(vec![
        Can::new(vec2(2 * ONE, 0), CanType::Barrel),
        Can::new(vec2(0, 3 * ONE), CanType::Rock),
    ]);
    let fixed = vec![
        Circle { pos: vec2(0, 0), radius: 300_000, key: ArenaKey::Car },
        Circle { pos: vec2(2 * ONE, 0), radius: 500_000, key: ArenaKey::Can(0) },
        Circle { pos: vec2(0, 3 * ONE), radius: 500_000, key: ArenaKey::Can(1) },
    ];
    assert_eq!(world.circles(), fixed);
    world.hook = Hook::Launched { vel: ONE, pos: vec2(ONE, ONE), facing: vec2(0, ONE) };
    let mut with_tip = fixed.clone();
    with_tip.push(Circle { pos: vec2(ONE, 1_750_000), radius: 100_000, key: ArenaKey::Hook });
    assert_eq!(world.circles(), with_tip);
}

#[test]
fn hook_contact_locks_onto_the_can() {
    let mut world = world_with(vec![
        Can::new(vec2(5 * ONE, 0), CanType::Barrel),
        Can::new(vec2(2 * ONE, 0), CanType::Barrel),
    ]);
    world.hook = Hook::Launched { vel: 1_025_000 * ONE, pos: vec2(1_025_000, 0), facing: vec2(ONE, 0) };
    world.resolve(&contact(ArenaKey::Hook, ArenaKey::Can(1), -ONE, 375_000));
    assert_eq!(
        world.hook,
        Hook::Locked {
            end: vec2(1_120_000, 0),
            facing: vec2(ONE, 0),
            chain_length: 1_525_000,
            can_index: 1,
            can_offset: vec2(-880_000, 0),
            vel: vec2(0, 0),
        }
    );
    assert_eq!(world.cans.cans[1], Can::new(vec2(2 * ONE, 0), CanType::Barrel));
    let locked = world.hook;
    world.resolve(&contact(ArenaKey::Hook, ArenaKey::Can(0), -ONE, 375_000));
    assert_eq!(world.hook, locked);
}

#[test]
fn resting_can_grazed_by_the_hook_is_nudged() {
    let mut world = world_with(vec![Can::new(vec2(2 * ONE, 0), CanType::Barrel)]);
    world.resolve(&contact(ArenaKey::Can(0), ArenaKey::Hook, ONE, 375_000));
    assert_eq!(world.cans.cans[0].vel, vec2(100_000, 0));
    assert_eq!(world.cans.cans[0].pos, vec2(2 * ONE, 0));
    assert_eq!(world.hook, Hook::new());
}

#[test]
fn moving_can_hit_by_the_hook_is_pushed_by_depth() {
    let mut world = world_with(vec![Can {
        pos: vec2(2 * ONE, 0),
        vel: vec2(300_000, 400_000),
        kind: CanType::Barrel,
    }]);
    world.resolve(&contact(ArenaKey::Can(0), ArenaKey::Hook, ONE, 375_000));
    assert_eq!(world.cans.cans[0].vel, vec2(675_000, 400_000));
    world.cans.cans[0].vel = vec2(300_000, 399_999);
    world.resolve(&contact(ArenaKey::Can(0), ArenaKey::Hook, ONE, 375_000));
    assert_eq!(world.cans.cans[0].vel, vec2(400_000, 399_999));
}

#[test]
fn can_hit_by_anything_else_is_pushed_by_depth() {
    let mut world = world_with(vec![
        Can::new(vec2(2 * ONE, 0), CanType::Barrel),
        Can::new(vec2(2_500_000, 0), CanType::Barrel),
    ]);
    world.resolve(&contact(ArenaKey::Can(0), ArenaKey::Car, ONE, 250_000));
    assert_eq!(world.cans.cans[0].vel, vec2(250_000, 0));
    world.resolve(&contact(ArenaKey::Can(1), ArenaKey::Can(0), ONE, 500_000));
    assert_eq!(world.cans.cans[1].vel, vec2(500_000, 0));
    world.resolve(&contact(ArenaKey::Can(0), ArenaKey::Rock, -ONE, 100_000));
    assert_eq!(world.cans.cans[0].vel, vec2(150_000, 0));
}

#[test]
fn rock_kind_is_not_pushed() {
    let mut world = world_with(vec![Can::new(vec2(2 * ONE, 0), CanType::Rock)]);
    world.resolve(&contact(ArenaKey::Can(0), ArenaKey::Car, ONE, 250_000));
    world.resolve(&contact(ArenaKey::Can(0), ArenaKey::Hook, ONE, 250_000));
    assert_eq!(world.cans.cans[0], Can::new(vec2(2 * ONE, 0), CanType::Rock));
}

#[test]
fn other_contacts_change_nothing() {
    let mut world = world_with(vec![Can::new(vec2(2 * ONE, 0), CanType::Barrel)]);
    world.hook = Hook::Launched { vel: 1_025_000 * ONE, pos: vec2(1_025_000, 0), facing: vec2(ONE, 0) };
    let hook = world.hook;
    for members in [
        [ArenaKey::Car, ArenaKey::Can(0)],
        [ArenaKey::Car, ArenaKey::Hook],
        [ArenaKey::Hook, ArenaKey::Car],
        [ArenaKey::Rock, ArenaKey::Can(0)],
        [ArenaKey::Hook, ArenaKey::Rock],
        [ArenaKey::Rock, ArenaKey::Car],
    ] {
        world.resolve(&Collision { members, normal: vec2(ONE, 0), depth: 250_000 });
        assert_eq!(world.hook, hook);
        assert_eq!(world.car, Car::new(300_000));
        assert_eq!(world.cans.cans, vec![Can::new(vec2(2 * ONE, 0), CanType::Barrel)]);
    }
}

#[test]
fn trigger_launches_a_ready_hook_and_releases_a_locked_one() {
    let mut world = world_with(vec![Can::new(vec2(2 * ONE, 0), CanType::Barrel)]);
    world.pull_trigger(0);
    assert_eq!(world.hook, Hook::Launched { pos: vec2(0, 0), vel: 1_250_000 * ONE, facing: vec2(ONE, 0) });
    let launched = world.hook;
    world.pull_trigger(16_000);
    assert_eq!(world.hook, launched);
    world.hook = Hook::Locked {
        end: vec2(1_120_000, 0),
        facing: vec2(ONE, 0),
        chain_length: 1_525_000,
        can_index: 0,
        can_offset: vec2(-880_000, 0),
        vel: vec2(-100_000, 50_000),
    };
    world.pull_trigger(32_000);
    assert_eq!(
        world.hook,
        Hook::Retracting {
            pos: vec2(1_120_000, 0),
            reached: vec2(1_120_000, 0),
            facing: vec2(ONE, 0),
            started: 32_000,
        }
    );
    assert_eq!(world.cans.cans[0].vel, vec2(-140_000, 70_000));
}

#[test]
fn cans_slide_on_the_ground_they_lie_on() {
    let mut world = world_with(vec![
        Can { pos: vec2(2 * ONE, 0), vel: vec2(100_000, 0), kind: CanType::Barrel },
        Can { pos: vec2(30 * ONE, 0), vel: vec2(100_000, 0), kind: CanType::Barrel },
        Can { pos: vec2(0, 30 * ONE), vel: vec2(100_000, 0), kind: CanType::Rock },
    ]);
    world.slide();
    assert_eq!(
        world.cans.cans,
        vec![
            Can { pos: vec2(2_098_000, 0), vel: vec2(98_000, 0), kind: CanType::Barrel },
            Can { pos: vec2(30_096_000, 0), vel: vec2(96_000, 0), kind: CanType::Barrel },
            Can { pos: vec2(0, 30 * ONE), vel: vec2(100_000, 0), kind: CanType::Rock },
        ]
    );
}

#[test]
fn hook_is_launched_locks_drags_and_lets_go() {
    let mut world = world_with(vec![Can::new(vec2(2 * ONE, 0), CanType::Barrel)]);

    world.tick(pulled(16_000));
    assert_eq!(world.hook, Hook::Launched { pos: vec2(0, 0), vel: 1_250_000 * ONE, facing: vec2(ONE, 0) });
    assert_eq!(world.cans.cans[0], Can::new(vec2(2 * ONE, 0), CanType::Barrel));

    world.tick(idle(32_000));
    assert_eq!(
        world.hook,
        Hook::Locked {
            end: vec2(1_120_000, 0),
            facing: vec2(ONE, 0),
            chain_length: 1_525_000,
            can_index: 0,
            can_offset: vec2(-880_000, 0),
            vel: vec2(0, 0),
        }
    );
    assert_eq!(
        world.cans.cans[0],
        Can { pos: vec2(2 * ONE, 0), vel: vec2(100_000, 0), kind: CanType::Barrel }
    );

    world.tick(idle(48_000));
    assert_eq!(
        world.hook,
        Hook::Locked {
            end: vec2(1_120_000, 0),
            facing: vec2(-ONE, 0),
            chain_length: 1_500_000,
            can_index: 0,
            can_offset: vec2(-880_000, 0),
            vel: vec2(0, 0),
        }
    );
    assert_eq!(
        world.cans.cans[0],
        Can { pos: vec2(2_098_000, 0), vel: vec2(98_000, 0), kind: CanType::Barrel }
    );

    world.tick(pulled(64_000));
    assert_eq!(
        world.hook,
        Hook::Retracting {
            pos: vec2(1_120_000, 0),
            reached: vec2(1_120_000, 0),
            facing: vec2(-ONE, 0),
            started: 64_000,
        }
    );
    assert_eq!(world.car, Car::new(300_000));
}

#[test]
fn car_pushes_a_can_out_of_its_way() {
    let mut world = world_with(vec![Can::new(vec2(600_000, 0), CanType::Barrel)]);
    world.tick(idle(16_000));
    assert_eq!(
        world.cans.cans[0],
        Can { pos: vec2(600_000, 0), vel: vec2(200_000, 0), kind: CanType::Barrel }
    );
    world.tick(idle(32_000));
    assert_eq!(
        world.cans.cans[0],
        Can { pos: vec2(796_000, 0), vel: vec2(200_000, 0), kind: CanType::Barrel }
    );
}

#[test]
fn tick_leaves_no_contact_in_the_arena() {
    let mut world = world_with(vec![
        Can::new(vec2(600_000, 0), CanType::Barrel),
        Can::new(vec2(900_000, 0), CanType::Barrel),
    ]);
    world.tick(idle(16_000));
    assert_ne!(world.cans.cans[0].vel, vec2(0, 0));
    assert_eq!(world.arena.collided().len(), 0);
    world.tick(pulled(32_000));
    assert_eq!(world.arena.collided().len(), 0);
}
