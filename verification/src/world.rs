//! One tick of the whole simulation: the hook, the car and the objects are
//! advanced, one circle per entity is gathered, and each contact that the
//! arena finds is routed to the entity it concerns.

use crate::can::{Can, Cantainer, CAN_RADIUS};
use crate::car::Car;
use crate::circle::{
    all_wf, contacts_spec, lemma_contact_source, ArenaKey, Circle, CircleArena, Collision,
};
use crate::fixed::{in_range, ONE};
use crate::hook::Hook;
use crate::math::{lemma_normalize_wf, Vec2};
use crate::track::Track;
use vstd::prelude::*;

verus! {

/// The speed under which an object counts as resting when the hook grazes it.
pub const RESTING_SPEED: i64 = 500_000;

/// The size of the nudge that the hook gives a resting object.
pub const NUDGE: i64 = 100_000;

/// What the player does during one tick.
#[derive(Clone, Copy, PartialEq, Eq, Structural, Debug)]
pub struct Input {
    /// The point the player aims at.
    pub aim: Vec2,
    /// Whether the pedal is held.
    pub forward: bool,
    /// Whether the player steers to the left.
    pub left: bool,
    /// Whether the player steers to the right.
    pub right: bool,
    /// Whether the button that launches and releases the hook is held.
    pub trigger: bool,
    /// The time, in seconds.
    pub now: i64,
}

impl Input {
    pub open spec fn wf(self) -> bool {
        self.aim.wf() && in_range(self.now)
    }
}

/// What a tick changes: the car, the hook and the objects, and what the
/// arena holds.
pub struct State {
    pub car: Car,
    pub hook: Hook,
    pub cans: Seq<Can>,
    /// The circles that the arena was last given.
    pub seen: Seq<Circle>,
    /// The contacts that the arena has found and that were not taken.
    pub pending: Seq<Collision>,
}

impl State {
    /// Every quantity is in range, and a locked hook holds an object that
    /// exists.
    pub open spec fn wf(self) -> bool {
        &&& self.car.wf()
        &&& self.hook.wf()
        &&& forall|i: int| 0 <= i < self.cans.len() ==> (#[trigger] self.cans[i]).wf()
        &&& self.hook matches Hook::Locked { can_index, .. } ==> can_index < self.cans.len()
    }

    /// The hook follows the aim while ready, flies while launched or
    /// retracting, and drags the object it holds while locked.
    pub open spec fn advance_hook(self, aim: Vec2, now: i64) -> State {
        let dock = self.car.pos;
        match self.hook {
            Hook::Ready { .. } => State { hook: self.hook.face_spec(dock, aim), ..self },
            Hook::Locked { can_index, .. } => {
                let (hook, can) = self.hook.drag_spec(dock, self.cans[can_index as int]);
                State { hook, cans: self.cans.update(can_index as int, can), ..self }
            },
            _ => State { hook: self.hook.fly_spec(dock, now), ..self },
        }
    }

    /// The car is driven on the ground it stands on.
    pub open spec fn drive(self, input: Input) -> State {
        State {
            car: self.car.controls_spec(
                input.forward,
                input.left,
                input.right,
                input.now,
                Track::terrain_friction_spec(self.car.pos),
            ),
            ..self
        }
    }

    /// Every object slides on the ground it lies on.
    pub open spec fn slide(self) -> State {
        State {
            cans: Seq::new(
                self.cans.len(),
                |i: int| self.cans[i].slide_spec(Track::terrain_friction_spec(self.cans[i].pos)),
            ),
            ..self
        }
    }

    /// While the trigger is held, a ready hook is launched and a locked
    /// hook lets go of the object it holds.
    pub open spec fn pull_trigger(self, now: i64) -> State {
        match self.hook {
            Hook::Ready { .. } => State { hook: self.hook.launch_spec(self.car.pos), ..self },
            Hook::Locked { can_index, .. } => {
                let (hook, can) = self.hook.release_spec(self.cans[can_index as int], now);
                State { hook, cans: self.cans.update(can_index as int, can), ..self }
            },
            _ => self,
        }
    }

    /// The circles of the objects, each tagged with the place of its object.
    pub open spec fn can_circles(self) -> Seq<Circle> {
        Seq::new(
            self.cans.len(),
            |i: int|
                Circle {
                    pos: self.cans[i].pos,
                    radius: CAN_RADIUS,
                    key: ArenaKey::Can(i as usize),
                },
        )
    }

    /// One circle per entity: the car, then the objects in their order, then
    /// the tip of the hook if the hook is launched.
    pub open spec fn circles(self) -> Seq<Circle> {
        let fixed = seq![self.car.circles_spec()] + self.can_circles();
        match self.hook.circles_spec() {
            Some(tip) => fixed.push(tip),
            None => fixed,
        }
    }

    /// Whether the objects that `contact` names exist.
    pub open spec fn knows(self, contact: Collision) -> bool {
        &&& contact.members[0] matches ArenaKey::Can(i) ==> i < self.cans.len()
        &&& contact.members[1] matches ArenaKey::Can(i) ==> i < self.cans.len()
    }

    /// The state after one contact. A contact of the hook with an object
    /// locks the hook onto it. A contact of an object with the hook nudges
    /// the object along the normal if it rests. Any other contact of an
    /// object knocks it along the normal, as hard as the contact is deep.
    /// Other contacts change nothing.
    pub open spec fn resolve_spec(self, contact: Collision) -> State {
        match (contact.members[0], contact.members[1]) {
            (ArenaKey::Hook, ArenaKey::Can(i)) => State {
                hook: self.hook.lock_spec(self.car.pos, i, self.cans[i as int]),
                ..self
            },
            (ArenaKey::Can(i), other) => {
                let can = self.cans[i as int];
                let impulse = if other == ArenaKey::Hook && can.vel.length_spec()
                    < RESTING_SPEED {
                    contact.normal.scaled_spec(NUDGE)
                } else {
                    contact.normal.scaled_spec(contact.depth)
                };
                State { cans: self.cans.update(i as int, can.knockback_spec(impulse)), ..self }
            },
            _ => self,
        }
    }

    /// The state after the first `k` of the contacts, one after the other.
    pub open spec fn resolve_all(self, contacts: Seq<Collision>, k: int) -> State
        decreases k,
    {
        if k <= 0 {
            self
        } else {
            self.resolve_all(contacts, k - 1).resolve_spec(contacts[k - 1])
        }
    }

    /// What the first phases of a tick make of a state, up to the point
    /// where the circles are gathered.
    pub open spec fn moved(self, input: Input) -> State {
        let stepped = self.advance_hook(input.aim, input.now).drive(input).slide();
        if input.trigger {
            stepped.pull_trigger(input.now)
        } else {
            stepped
        }
    }

    /// The state once the arena has been given the circles and its
    /// contacts have been taken: it has seen the circles and holds no
    /// contact.
    pub open spec fn gathered(self) -> State {
        State { seen: self.circles(), pending: Seq::empty(), ..self }
    }

    /// The state after one tick: each contact among the circles of the
    /// moved state is routed, and none is left in the arena.
    pub open spec fn tick_spec(self, input: Input) -> State {
        let moved = self.moved(input);
        let contacts = contacts_spec(moved.circles());
        moved.gathered().resolve_all(contacts, contacts.len() as int)
    }
}

/// Everything that a tick advances, and the arena it uses to find contacts.
/// The arena holds nothing from one tick to the next but the circles of the
/// last tick: every contact it finds is taken and routed within the tick.
pub struct World {
    pub car: Car,
    pub hook: Hook,
    pub cans: Cantainer,
    pub arena: CircleArena,
}

impl View for World {
    type V = State;

    open spec fn view(&self) -> State {
        State {
            car: self.car,
            hook: self.hook,
            cans: self.cans.cans@,
            seen: self.arena.circles(),
            pending: self.arena.pending(),
        }
    }
}

impl World {
    pub open spec fn wf(&self) -> bool {
        self@.wf()
    }

    /// A world with a ready hook.
    pub fn new(car: Car, cans: Vec<Can>) -> (world: World)
        ensures
            world@ == (State {
                car,
                hook: Hook::Ready { facing: Vec2 { x: ONE, y: 0 } },
                cans: cans@,
                seen: Seq::empty(),
                pending: Seq::empty(),
            }),
            car.wf() && (forall|i: int| 0 <= i < cans.len() ==> (#[trigger] cans[i]).wf())
                ==> world.wf(),
    {
        World { car, hook: Hook::new(), cans: Cantainer::new(cans), arena: CircleArena::new() }
    }

    /// The first phase of a tick: the hook.
    pub fn advance_hook(&mut self, aim: Vec2, now: i64)
        requires
            old(self).wf(),
            aim.wf(),
            in_range(now),
        ensures
            final(self)@ == old(self)@.advance_hook(aim, now),
            final(self).arena == old(self).arena,
            final(self).wf(),
    {
        let dock = self.car.dock();
        match self.hook {
            Hook::Ready { .. } => {
                self.hook.face(dock, aim);
            },
            Hook::Locked { can_index, .. } => {
                let mut can = self.cans.cans[can_index];
                self.hook.drag(dock, &mut can);
                self.cans.cans.set(can_index, can);
            },
            _ => {
                self.hook.fly(dock, now);
            },
        }
    }

    /// The second phase of a tick: the car.
    pub fn drive(&mut self, input: Input)
        requires
            old(self).wf(),
            input.wf(),
        ensures
            final(self)@ == old(self)@.drive(input),
            final(self).arena == old(self).arena,
            final(self).wf(),
    {
        let track = Track;
        let friction: i64 = track.terrain_friction(self.car.pos);
        self.car.controls(input.forward, input.left, input.right, input.now, friction);
    }

    /// The third phase of a tick: the objects.
    pub fn slide(&mut self)
        requires
            old(self).wf(),
        ensures
            final(self)@ == old(self)@.slide(),
            final(self).arena == old(self).arena,
            final(self).wf(),
    {
        let track = Track;
        let n: usize = self.cans.cans.len();
        let ghost before = self.cans.cans@;
        let mut i: usize = 0;
        while i < n
            invariant
                i <= n,
                n == before.len(),
                self.cans.cans@.len() == n,
                self.car == old(self).car,
                self.hook == old(self).hook,
                self.arena == old(self).arena,
                before == old(self).cans.cans@,
                forall|k: int| 0 <= k < n ==> (#[trigger] before[k]).wf(),
                forall|k: int|
                    0 <= k < i ==> self.cans.cans@[k] == before[k].slide_spec(
                        Track::terrain_friction_spec(before[k].pos),
                    ),
                forall|k: int| i <= k < n ==> self.cans.cans@[k] == before[k],
            decreases n - i,
        {
            let mut can = self.cans.cans[i];
            let friction: i64 = track.terrain_friction(can.pos);
            can.slide(friction);
            self.cans.cans.set(i, can);
            i = i + 1;
        }
        assert(self.cans.cans@ =~= old(self)@.slide().cans);
    }

    /// What the held trigger does to the hook.
    pub fn pull_trigger(&mut self, now: i64)
        requires
            old(self).wf(),
            in_range(now),
        ensures
            final(self)@ == old(self)@.pull_trigger(now),
            final(self).arena == old(self).arena,
            final(self).wf(),
    {
        let dock = self.car.dock();
        match self.hook {
            Hook::Ready { .. } => {
                self.hook.launch(dock);
            },
            Hook::Locked { can_index, .. } => {
                let mut can = self.cans.cans[can_index];
                self.hook.release(&mut can, now);
                self.cans.cans.set(can_index, can);
            },
            _ => {},
        }
    }

    /// One circle per entity, for the arena.
    pub fn circles(&self) -> (circles: Vec<Circle>)
        requires
            self.wf(),
        ensures
            circles@ == self@.circles(),
            all_wf(circles@),
    {
        let mut circles: Vec<Circle> = Vec::new();
        circles.push(self.car.circles());
        let of_cans = self.cans.circles();
        let n: usize = of_cans.len();
        let mut i: usize = 0;
        while i < n
            invariant
                i <= n,
                n == of_cans.len(),
                n == self.cans.cans.len(),
                self.wf(),
                forall|k: int| 0 <= k < n ==> of_cans[k] == self.cans.circle_spec(k),
                circles@ == seq![self.car.circles_spec()] + self@.can_circles().take(i as int),
            decreases n - i,
        {
            circles.push(of_cans[i]);
            assert(self@.can_circles().take(i as int).push(self@.can_circles()[i as int])
                =~= self@.can_circles().take(i + 1));
            i = i + 1;
        }
        assert(self@.can_circles().take(n as int) =~= self@.can_circles());
        match self.hook.circles() {
            Some(tip) => {
                circles.push(tip);
            },
            None => {},
        }
        proof {
            assert forall|k: int| 0 <= k < circles@.len() implies (#[trigger] circles@[k]).wf() by {
                if 1 <= k <= n {
                    assert(circles@[k] == self@.can_circles()[k - 1]);
                    assert(self@.cans[k - 1].wf());
                }
            }
        }
        circles
    }

    /// Routes one contact to the entity it concerns.
    pub fn resolve(&mut self, contact: &Collision)
        requires
            old(self).wf(),
            old(self)@.knows(*contact),
            contact.normal.wf(),
            in_range(contact.depth),
        ensures
            final(self)@ == old(self)@.resolve_spec(*contact),
            final(self).arena == old(self).arena,
            final(self).wf(),
            final(self)@.cans.len() == old(self)@.cans.len(),
    {
        let dock = self.car.dock();
        match (contact.members[0], contact.members[1]) {
            (ArenaKey::Hook, ArenaKey::Can(i)) => {
                let mut can = self.cans.cans[i];
                self.hook.lock(dock, i, &mut can);
            },
            (ArenaKey::Can(i), other) => {
                let mut can = self.cans.cans[i];
                let resting = other == ArenaKey::Hook && can.vel.length() < RESTING_SPEED;
                if resting {
                    can.knockback(contact.normal.scaled(NUDGE));
                } else {
                    can.knockback(contact.normal.scaled(contact.depth));
                }
                self.cans.cans.set(i, can);
            },
            _ => {},
        }
    }

    /// Advances the simulation by one tick.
    pub fn tick(&mut self, input: Input)
        requires
            old(self).wf(),
            input.wf(),
        ensures
            final(self)@ == old(self)@.tick_spec(input),
            final(self)@.seen == old(self)@.moved(input).circles(),
            final(self)@.pending == Seq::<Collision>::empty(),
            final(self).wf(),
            final(self)@.cans.len() == old(self)@.cans.len(),
    {
        self.advance_hook(input.aim, input.now);
        self.drive(input);
        self.slide();
        if input.trigger {
            self.pull_trigger(input.now);
        }
        let circles = self.circles();
        let ghost gathered = circles@;
        self.arena.collide(circles);
        let contacts = self.arena.collided();
        let ghost moved = old(self)@.moved(input);
        let ghost start = moved.gathered();
        assert(self@ == start);
        let mut k: usize = 0;
        while k < contacts.len()
            invariant
                k <= contacts.len(),
                self.wf(),
                moved.wf(),
                moved == old(self)@.moved(input),
                start == moved.gathered(),
                gathered == moved.circles(),
                contacts@ == contacts_spec(gathered),
                self@ == start.resolve_all(contacts@, k as int),
                self@.cans.len() == moved.cans.len(),
                moved.cans.len() == old(self)@.cans.len(),
                self@.car == moved.car,
                self@.seen == gathered,
                self@.pending == Seq::<Collision>::empty(),
            decreases contacts.len() - k,
        {
            proof {
                lemma_contact_known(moved, contacts@[k as int]);
            }
            self.resolve(&contacts[k]);
            k = k + 1;
        }
    }
}

/// The contacts that the arena finds among the circles of a state name only
/// objects of that state, and hold quantities in range.
pub proof fn lemma_contact_known(state: State, contact: Collision)
    requires
        state.wf(),
        contacts_spec(state.circles()).contains(contact),
    ensures
        state.knows(contact),
        contact.normal.wf(),
        in_range(contact.depth),
{
    let circles = state.circles();
    let p = lemma_contact_source(circles, (circles.len() * circles.len()) as int, contact);
    lemma_normalize_wf(circles[p.0].pos.minus_spec(circles[p.1].pos));
    lemma_circle_keys(state, p.0);
    lemma_circle_keys(state, p.1);
}

/// A circle of a state that is tagged as an object is tagged with the place
/// of an object of that state.
pub proof fn lemma_circle_keys(state: State, at: int)
    requires
        0 <= at < state.circles().len(),
    ensures
        state.circles()[at].key matches ArenaKey::Can(i) ==> i < state.cans.len(),
{
    if 1 <= at <= state.cans.len() {
        assert(state.circles()[at] == state.can_circles()[at - 1]);
    }
}

} // verus!
