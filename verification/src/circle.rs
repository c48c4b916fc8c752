//! The collision arena: every tick it is handed one circle per live entity
//! and lists the pairs that overlap, each pair from both sides.

use crate::fixed::{in_range, minus, minus_spec, plus, plus_spec};
use crate::math::{
    lemma_length_sign, lemma_normalize_neg, lemma_normalize_unit, lemma_normalize_wf, Vec2,
};
use vstd::arithmetic::div_mod::lemma_fundamental_div_mod_converse;
use vstd::prelude::*;

verus! {

/// Which entity a circle belongs to. `Can` carries the place of the can in
/// the can collection at the time the circles were gathered.
#[derive(Copy, Clone, PartialEq, Eq, Structural, Debug)]
pub enum ArenaKey {
    Hook,
    Car,
    Rock,
    Can(usize),
}

/// The part of an entity that can collide.
#[derive(Copy, Clone, PartialEq, Eq, Structural, Debug)]
pub struct Circle {
    pub pos: Vec2,
    pub radius: i64,
    pub key: ArenaKey,
}

/// Two overlapping circles: whose they are, the unit vector that points from
/// the second to the first, and how far they reach into each other.
#[derive(Copy, Clone, PartialEq, Eq, Debug)]
pub struct Collision {
    pub members: [ArenaKey; 2],
    pub normal: Vec2,
    pub depth: i64,
}

impl Circle {
    pub open spec fn wf(self) -> bool {
        self.pos.wf() && in_range(self.radius)
    }
}

/// How far `c0` and `c1` reach into each other: the sum of the radii less
/// the distance of the centres.
pub open spec fn depth_spec(c0: Circle, c1: Circle) -> i64 {
    minus_spec(plus_spec(c0.radius, c1.radius), c0.pos.minus_spec(c1.pos).length_spec())
}

/// Whether the pair gives a contact: the circles belong to different
/// entities and overlap.
pub open spec fn touching(c0: Circle, c1: Circle) -> bool {
    c0.key != c1.key && depth_spec(c0, c1) > 0
}

/// The contact of `c0` with `c1`, seen from `c0`.
pub open spec fn contact_spec(c0: Circle, c1: Circle) -> Collision {
    Collision {
        members: [c0.key, c1.key],
        normal: c0.pos.minus_spec(c1.pos).normalize_spec(),
        depth: depth_spec(c0, c1),
    }
}

/// The contacts among the first `k` ordered pairs of circles, the pairs
/// taken row by row: pair number `p` is circle `p / n` with circle `p % n`.
pub open spec fn pair_contacts(circles: Seq<Circle>, k: int) -> Seq<Collision>
    decreases k,
{
    if k <= 0 || circles.len() == 0 {
        Seq::empty()
    } else {
        let before = pair_contacts(circles, k - 1);
        let c0 = circles[(k - 1) / (circles.len() as int)];
        let c1 = circles[(k - 1) % (circles.len() as int)];
        if touching(c0, c1) {
            before.push(contact_spec(c0, c1))
        } else {
            before
        }
    }
}

/// The contacts of a set of circles: one for every ordered pair of circles of
/// different entities that overlap, in the order of the pairs.
pub open spec fn contacts_spec(circles: Seq<Circle>) -> Seq<Collision> {
    pair_contacts(circles, (circles.len() * circles.len()) as int)
}

/// Whether a contact joins two different entities that overlap.
pub open spec fn proper(contact: Collision) -> bool {
    contact.members[0] != contact.members[1] && contact.depth > 0
}

/// Whether every circle holds quantities in range.
pub open spec fn all_wf(circles: Seq<Circle>) -> bool {
    forall|i: int| 0 <= i < circles.len() ==> (#[trigger] circles[i]).wf()
}

/// The circles of one tick and the contacts found among them.
pub struct CircleArena {
    circles: Vec<Circle>,
    collided: Vec<Collision>,
}

impl CircleArena {
    /// The circles of the last `collide`.
    pub closed spec fn circles(&self) -> Seq<Circle> {
        self.circles@
    }

    /// The contacts that have been found and not yet taken.
    pub closed spec fn pending(&self) -> Seq<Collision> {
        self.collided@
    }

    pub fn new() -> (arena: CircleArena)
        ensures
            arena.circles() == Seq::<Circle>::empty(),
            arena.pending() == Seq::<Collision>::empty(),
    {
        CircleArena { circles: Vec::new(), collided: Vec::new() }
    }

    /// Replaces the circles and finds their contacts; contacts that were
    /// still pending are dropped.
    pub fn collide(&mut self, new_circles: Vec<Circle>)
        requires
            all_wf(new_circles@),
        ensures
            final(self).circles() == new_circles@,
            final(self).pending() == contacts_spec(new_circles@),
            forall|k: int|
                0 <= k < final(self).pending().len() ==> proper(
                    #[trigger] final(self).pending()[k],
                ),
    {
        let n: usize = new_circles.len();
        self.circles = new_circles;
        self.collided.clear();
        let ghost all = self.circles@;
        let mut i: usize = 0;
        while i < n
            invariant
                i <= n,
                n == all.len(),
                self.circles@ == all,
                all_wf(all),
                self.collided@ == pair_contacts(all, i * n),
            decreases n - i,
        {
            let mut j: usize = 0;
            while j < n
                invariant
                    i < n,
                    j <= n,
                    n == all.len(),
                    self.circles@ == all,
                    all_wf(all),
                    self.collided@ == pair_contacts(all, i * n + j),
                decreases n - j,
            {
                let c0 = self.circles[i];
                let c1 = self.circles[j];
                proof {
                    lemma_fundamental_div_mod_converse(i * n + j, n as int, i as int, j as int);
                }
                if c0.key != c1.key {
                    let delta = c0.pos.minus(c1.pos);
                    let depth: i64 = minus(plus(c0.radius, c1.radius), delta.length());
                    if depth > 0 {
                        self.collided.push(
                            Collision {
                                members: [c0.key, c1.key],
                                normal: delta.normalize(),
                                depth,
                            },
                        );
                    }
                }
                j = j + 1;
            }
            proof {
                assert(i * n + n == (i + 1) * n) by (nonlinear_arith);
            }
            i = i + 1;
        }
        proof {
            assert forall|k: int| 0 <= k < self.collided@.len() implies proper(
                #[trigger] self.collided@[k],
            ) by {
                lemma_contacts_proper(all, self.collided@[k]);
            }
        }
    }

    /// Hands out the pending contacts and forgets them: each contact is
    /// handed out once.
    pub fn collided(&mut self) -> (contacts: Vec<Collision>)
        ensures
            contacts@ == old(self).pending(),
            final(self).pending() == Seq::<Collision>::empty(),
            final(self).circles() == old(self).circles(),
    {
        let mut contacts: Vec<Collision> = Vec::new();
        std::mem::swap(&mut self.collided, &mut contacts);
        contacts
    }
}

/// The ordered pair `(i, j)` is pair number `i * n + j`.
pub proof fn lemma_pair_number(n: int, i: int, j: int)
    requires
        0 <= i < n,
        0 <= j < n,
    ensures
        0 <= i * n + j < n * n,
        (i * n + j) / n == i,
        (i * n + j) % n == j,
{
    lemma_fundamental_div_mod_converse(i * n + j, n, i, j);
    assert(0 <= i * n + j < n * n) by (nonlinear_arith)
        requires
            0 <= i < n,
            0 <= j < n,
    ;
}

/// Every contact among the first `k` pairs is the contact of one of those
/// pairs, and that pair touches.
pub proof fn lemma_contact_source(circles: Seq<Circle>, k: int, c: Collision) -> (p: (int, int))
    requires
        0 <= k <= circles.len() * circles.len(),
        pair_contacts(circles, k).contains(c),
    ensures
        0 <= p.0 < circles.len(),
        0 <= p.1 < circles.len(),
        p.0 * circles.len() + p.1 < k,
        touching(circles[p.0], circles[p.1]),
        c == contact_spec(circles[p.0], circles[p.1]),
    decreases k,
{
    let n = circles.len() as int;
    if k <= 0 || n == 0 {
        assert(pair_contacts(circles, k) =~= Seq::<Collision>::empty());
        assert(false);
        (0, 0)
    } else {
        let i = (k - 1) / n;
        let j = (k - 1) % n;
        assert(0 <= i < n && 0 <= j < n && i * n + j == k - 1) by (nonlinear_arith)
            requires
                0 <= k - 1 < n * n,
                i == (k - 1) / n,
                j == (k - 1) % n,
                n > 0,
        ;
        let before = pair_contacts(circles, k - 1);
        if touching(circles[i], circles[j]) && c == contact_spec(circles[i], circles[j]) {
            (i, j)
        } else {
            if touching(circles[i], circles[j]) {
                let at = choose|at: int|
                    0 <= at < before.push(contact_spec(circles[i], circles[j])).len()
                        && before.push(contact_spec(circles[i], circles[j]))[at] == c;
                assert(before[at] == c);
            }
            assert(before.contains(c));
            lemma_contact_source(circles, k - 1, c)
        }
    }
}

/// The contacts among the first `k` pairs stay in the list as more pairs
/// are taken.
pub proof fn lemma_contacts_grow(circles: Seq<Circle>, k: int, m: int, c: Collision)
    requires
        0 <= k <= m,
        pair_contacts(circles, k).contains(c),
    ensures
        pair_contacts(circles, m).contains(c),
    decreases m - k,
{
    if k < m {
        lemma_contacts_grow(circles, k, m - 1, c);
        let before = pair_contacts(circles, m - 1);
        let at = choose|at: int| 0 <= at < before.len() && before[at] == c;
        let after = pair_contacts(circles, m);
        assert(circles.len() > 0);
        assert(after[at] == c);
    }
}

/// Every pair of circles that touches has its contact in the list.
pub proof fn lemma_touching_listed(circles: Seq<Circle>, i: int, j: int)
    requires
        0 <= i < circles.len(),
        0 <= j < circles.len(),
        touching(circles[i], circles[j]),
    ensures
        contacts_spec(circles).contains(contact_spec(circles[i], circles[j])),
{
    let n = circles.len() as int;
    lemma_pair_number(n, i, j);
    let k = i * n + j + 1;
    let listed = pair_contacts(circles, k);
    assert(listed.last() == contact_spec(circles[i], circles[j]));
    assert(listed.contains(contact_spec(circles[i], circles[j])));
    lemma_contacts_grow(circles, k, n * n, contact_spec(circles[i], circles[j]));
}

/// Whether two contacts are one contact seen from its two sides: the members
/// swapped, the normals opposite, the depths equal.
pub open spec fn mirrored(one: Collision, other: Collision) -> bool {
    &&& other.members[0] == one.members[1]
    &&& other.members[1] == one.members[0]
    &&& other.normal == one.normal.neg_spec()
    &&& other.depth == one.depth
}

/// Two overlapping circles of different entities give two contacts, one
/// from each side.
pub proof fn lemma_collision_symmetry(circles: Seq<Circle>, i: int, j: int)
    requires
        all_wf(circles),
        0 <= i < circles.len(),
        0 <= j < circles.len(),
        touching(circles[i], circles[j]),
    ensures
        contacts_spec(circles).contains(contact_spec(circles[i], circles[j])),
        contacts_spec(circles).contains(contact_spec(circles[j], circles[i])),
        mirrored(contact_spec(circles[i], circles[j]), contact_spec(circles[j], circles[i])),
{
    lemma_contact_mirror(circles[i], circles[j]);
    lemma_touching_listed(circles, i, j);
    lemma_touching_listed(circles, j, i);
}

/// Seen from the other side, the same pair touches as deep, along the
/// opposite normal.
pub proof fn lemma_contact_mirror(c0: Circle, c1: Circle)
    requires
        c0.wf(),
        c1.wf(),
    ensures
        touching(c0, c1) == touching(c1, c0),
        mirrored(contact_spec(c0, c1), contact_spec(c1, c0)),
{
    let d = c0.pos.minus_spec(c1.pos);
    let e = c1.pos.minus_spec(c0.pos);
    assert(e == d.neg_spec());
    assert(d.x * d.x == e.x * e.x && d.y * d.y == e.y * e.y) by (nonlinear_arith)
        requires
            e.x == -d.x,
            e.y == -d.y,
    ;
    assert(d.length_spec() == e.length_spec());
    lemma_normalize_neg(d);
}

/// The shape of a contact: it is deeper than nothing and no deeper than the
/// two radii together, and its normal is one long, to within two
/// millionths, unless the two centres are one point.
pub proof fn lemma_contact_shape(c0: Circle, c1: Circle)
    requires
        touching(c0, c1),
    ensures
        0 < contact_spec(c0, c1).depth <= c0.radius + c1.radius,
        c0.pos != c1.pos ==> contact_spec(c0, c1).normal.is_unit(),
        c0.pos == c1.pos ==> contact_spec(c0, c1).normal.is_zero(),
{
    let d = c0.pos.minus_spec(c1.pos);
    lemma_length_sign(d);
    lemma_normalize_wf(d);
    if c0.pos != c1.pos {
        lemma_normalize_unit(d);
    }
}

/// No contact joins two circles of the same entity, and none joins circles
/// that do not overlap: every contact in the list has two different members
/// and a depth above zero.
pub proof fn lemma_contacts_proper(circles: Seq<Circle>, c: Collision)
    requires
        contacts_spec(circles).contains(c),
    ensures
        proper(c),
{
    let p = lemma_contact_source(circles, (circles.len() * circles.len()) as int, c);
}

/// Circles whose centres are at least the sum of their radii apart give no
/// contact.
pub proof fn lemma_apart_no_contact(c0: Circle, c1: Circle)
    requires
        c0.wf(),
        c1.wf(),
        c0.pos.minus_spec(c1.pos).length_spec() >= c0.radius + c1.radius,
    ensures
        !touching(c0, c1),
{
}

} // verus!
