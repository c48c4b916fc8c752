use donuts::circle::{ArenaKey, Circle, CircleArena, Collision};
use donuts::fixed::ONE;
use donuts::math::vec2;

fn circle(x: i64, y: i64, radius: i64, key: ArenaKey) -> Circle {
    Circle { pos: vec2(x, y), radius, key }
}

#[test]
fn new_arena_has_no_contacts() {
    let mut arena = CircleArena::new();
    assert_eq!(arena.collided().len(), 0);
}

#[test]
fn overlapping_pair_gives_two_mirrored_contacts() {
    let mut arena = CircleArena::new();
    arena.collide(vec![
        circle(0, 0, ONE, ArenaKey::Car),
        circle(1_500_000, 0, ONE, ArenaKey::Can(0)),
    ]);
    let contacts = arena.collided();
    assert_eq!(
        contacts,
        vec![
            Collision {
                members: [ArenaKey::Car, ArenaKey::Can(0)],
                normal: vec2(-ONE, 0),
                depth: 500_000,
            },
            Collision {
                members: [ArenaKey::Can(0), ArenaKey::Car],
                normal: vec2(ONE, 0),
                depth: 500_000,
            },
        ]
    );
    assert_eq!(contacts[0].normal, contacts[1].normal.neg());
    assert_eq!(contacts[0].depth, contacts[1].depth);
}

#[test]
fn oblique_pair_has_opposite_normals() {
    let mut arena = CircleArena::new();
    arena.collide(vec![
        circle(ONE, ONE, 3 * ONE, ArenaKey::Hook),
        circle(4 * ONE, 5 * ONE, 3 * ONE, ArenaKey::Rock),
    ]);
    let contacts = arena.collided();
    assert_eq!(contacts.len(), 2);
    assert_eq!(contacts[0].members, [ArenaKey::Hook, ArenaKey::Rock]);
    assert_eq!(contacts[0].normal, vec2(-600_000, -800_000));
    assert_eq!(contacts[0].depth, ONE);
    assert_eq!(contacts[1].members, [ArenaKey::Rock, ArenaKey::Hook]);
    assert_eq!(contacts[1].normal, vec2(600_000, 800_000));
    assert_eq!(contacts[1].depth, ONE);
}

#[test]
fn circles_with_the_same_key_never_touch() {
    let mut arena = CircleArena::new();
    arena.collide(vec![
        circle(0, 0, ONE, ArenaKey::Rock),
        circle(100_000, 0, ONE, ArenaKey::Rock),
        circle(0, 0, ONE, ArenaKey::Can(3)),
        circle(0, 100_000, ONE, ArenaKey::Can(3)),
    ]);
    let contacts = arena.collided();
    assert_eq!(contacts.len(), 8);
    for contact in &contacts {
        assert_ne!(contact.members[0], contact.members[1]);
    }
}

#[test]
fn cans_at_different_places_are_different_entities() {
    let mut arena = CircleArena::new();
    arena.collide(vec![
        circle(0, 0, ONE, ArenaKey::Can(0)),
        circle(ONE, 0, ONE, ArenaKey::Can(1)),
    ]);
    let contacts = arena.collided();
    assert_eq!(contacts.len(), 2);
    assert_eq!(contacts[0].members, [ArenaKey::Can(0), ArenaKey::Can(1)]);
    assert_eq!(contacts[1].members, [ArenaKey::Can(1), ArenaKey::Can(0)]);
}

#[test]
fn circles_that_only_touch_give_no_contact() {
    let mut arena = CircleArena::new();
    arena.collide(vec![
        circle(0, 0, ONE, ArenaKey::Car),
        circle(2 * ONE, 0, ONE, ArenaKey::Can(0)),
        circle(0, 5 * ONE, ONE, ArenaKey::Hook),
    ]);
    assert_eq!(arena.collided().len(), 0);
}

#[test]
fn the_smallest_overlap_is_a_contact() {
    let mut arena = CircleArena::new();
    arena.collide(vec![
        circle(0, 0, ONE, ArenaKey::Car),
        circle(2 * ONE - 1, 0, ONE, ArenaKey::Can(0)),
    ]);
    let contacts = arena.collided();
    assert_eq!(contacts.len(), 2);
    assert_eq!(contacts[0].depth, 1);
    assert_eq!(contacts[1].depth, 1);
}

#[test]
fn coincident_centres_give_a_zero_normal() {
    let mut arena = CircleArena::new();
    arena.collide(vec![
        circle(ONE, ONE, 500_000, ArenaKey::Car),
        circle(ONE, ONE, 250_000, ArenaKey::Hook),
    ]);
    let contacts = arena.collided();
    assert_eq!(contacts.len(), 2);
    assert_eq!(contacts[0].normal, vec2(0, 0));
    assert_eq!(contacts[0].depth, 750_000);
    assert_eq!(contacts[1].normal, vec2(0, 0));
    assert_eq!(contacts[1].depth, 750_000);
}

#[test]
fn contacts_come_in_the_order_of_the_pairs() {
    let mut arena = CircleArena::new();
    arena.collide(vec![
        circle(0, 0, ONE, ArenaKey::Car),
        circle(ONE, 0, ONE, ArenaKey::Can(0)),
        circle(0, ONE, ONE, ArenaKey::Can(1)),
    ]);
    let contacts = arena.collided();
    let members: Vec<[ArenaKey; 2]> = contacts.iter().map(|c| c.members).collect();
    assert_eq!(
        members,
        vec![
            [ArenaKey::Car, ArenaKey::Can(0)],
            [ArenaKey::Car, ArenaKey::Can(1)],
            [ArenaKey::Can(0), ArenaKey::Car],
            [ArenaKey::Can(0), ArenaKey::Can(1)],
            [ArenaKey::Can(1), ArenaKey::Car],
            [ArenaKey::Can(1), ArenaKey::Can(0)],
        ]
    );
}

#[test]
fn contacts_are_handed_out_once() {
    let mut arena = CircleArena::new();
    arena.collide(vec![
        circle(0, 0, ONE, ArenaKey::Car),
        circle(ONE, 0, ONE, ArenaKey::Can(0)),
    ]);
    assert_eq!(arena.collided().len(), 2);
    assert_eq!(arena.collided().len(), 0);
}

#[test]
fn collide_forgets_earlier_circles_and_contacts() {
    let mut arena = CircleArena::new();
    arena.collide(vec![
        circle(0, 0, ONE, ArenaKey::Car),
        circle(ONE, 0, ONE, ArenaKey::Can(0)),
    ]);
    arena.collide(vec![circle(0, 0, ONE, ArenaKey::Car)]);
    assert_eq!(arena.collided().len(), 0);
}

#[test]
fn no_circles_no_contacts() {
    let mut arena = CircleArena::new();
    arena.collide(Vec::new());
    assert_eq!(arena.collided().len(), 0);
}

#[test]
fn nearly_coincident_centres_give_a_unit_normal() {
    let mut arena = CircleArena::new();
    arena.collide(vec![
        circle(0, 0, 500_000, ArenaKey::Car),
        circle(1, 1, 500_000, ArenaKey::Can(0)),
    ]);
    let contacts = arena.collided();
    assert_eq!(contacts.len(), 2);
    assert_eq!(contacts[0].normal, vec2(-707_107, -707_107));
    assert_eq!(contacts[1].normal, vec2(707_107, 707_107));
    assert_eq!(contacts[0].normal.length(), ONE);
    assert_eq!(contacts[0].depth, 999_999);
}
