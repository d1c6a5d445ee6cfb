use vstd::prelude::*;
use crate::action::{attack_resolved, attack_target, offset};
use crate::activity::Activity;
use crate::ai;
use crate::event::{current_turn_ran, update_current_event, Event};
use crate::grid::Point;
use crate::id::{lemma_prefix_extend, Id, IdGenerator};
use crate::input::Input;
use crate::navigation::{below, settled, Navigation};
use crate::relations::{HasMany, HasOne, Is, ManyToOne};
use crate::spatial_map::SpatialMap;
use crate::timeline::{pops, Timeline};
use crate::turn::Controls;
use crate::visibility::{computes, FieldOfView};

verus! {

/// Drawing order of an entity: mobs above the terrain.
#[derive(Debug, Clone, Copy, PartialEq, Eq, Structural, PartialOrd, Ord)]
pub enum Layer {
    Terrain,
    Mob,
}

/// How the map is shown.
#[derive(Debug, Clone, Copy, PartialEq, Eq, Structural)]
pub enum ViewType {
    Normal,
    Navigation,
    Revealed,
}

impl Default for ViewType {
    fn default() -> (r: ViewType)
        ensures
            r == ViewType::Normal,
    {
        ViewType::Normal
    }
}

/// The whole simulation state: the clock, the timeline, the pending input
/// and every attribute table.
pub struct World {
    pub input: Input,
    pub tick: usize,
    pub time: usize,
    pub timeline: Timeline<Event>,
    pub auto_step: Option<usize>,
    pub current_event: Option<Event>,
    pub view_target: Id,
    pub view_type: ViewType,
    pub ids: IdGenerator,
    pub name: HasOne<&'static str>,
    pub icon: HasOne<char>,
    pub layer: HasOne<Layer>,
    pub position: SpatialMap,
    pub solidity: Is,
    pub opacity: Is,
    pub controls: HasOne<Controls>,
    pub ai: HasOne<ai::Ai>,
    pub navigation: Navigation,
    pub health: HasOne<i32>,
    pub fov: HasOne<FieldOfView>,
    pub held_by: ManyToOne,
    pub provides_activity: HasMany<Activity>,
}

impl World {
    /// The tables that keep an internal invariant all keep it.
    pub open spec fn wf(&self) -> bool {
        &&& self.position.wf()
        &&& self.held_by.wf()
        &&& self.provides_activity.wf()
        &&& forall|k: usize| #[trigger]
            self.fov.values().contains_key(k) ==> self.fov.values()[k].wf()
    }

    /// An empty world; its first identity is the one it looks through.
    pub fn new() -> (r: World)
        ensures
            r.wf(),
            r.time == 0,
            r.input == Input::Empty,
            r.current_event is None,
            r.timeline.entries().len() == 0,
            r.view_target == Id(0),
            r.ids.upcoming() == 1,
            r.auto_step is None,
            r.view_type == ViewType::Normal,
            r.position.positions() == Map::<usize, Point>::empty(),
            r.health.values() == Map::<usize, i32>::empty(),
            r.fov.values() == Map::<usize, FieldOfView>::empty(),
            r.controls.values() == Map::<usize, Controls>::empty(),
            r.ai.values() == Map::<usize, ai::Ai>::empty(),
            r.held_by.rights() == Map::<usize, Id>::empty(),
            r.provides_activity.values() == Map::<usize, Seq<Activity>>::empty(),
            r.solidity.members() == Set::<usize>::empty(),
            r.opacity.members() == Set::<usize>::empty(),
            r.navigation.values() == Map::<Point, usize>::empty(),
    {
        let mut ids = IdGenerator::new();
        let view_target = Id::new(&mut ids);
        let r = World {
            input: Input::Empty,
            tick: 0,
            time: 0,
            timeline: Timeline::new(),
            auto_step: None,
            current_event: None,
            view_target,
            view_type: ViewType::Normal,
            ids,
            name: HasOne::new(),
            icon: HasOne::new(),
            layer: HasOne::new(),
            position: SpatialMap::new(),
            solidity: Is::new(),
            opacity: Is::new(),
            controls: HasOne::new(),
            ai: HasOne::new(),
            navigation: Navigation::new(),
            health: HasOne::new(),
            fov: HasOne::new(),
            held_by: ManyToOne::new(),
            provides_activity: HasMany::new(),
        };
        r
    }
}

/// The clock, the queue of turns, the input and the generator of
/// identities are the same in `a` and `b`.
pub open spec fn same_schedule(a: &World, b: &World) -> bool {
    &&& a.input == b.input
    &&& a.tick == b.tick
    &&& a.time == b.time
    &&& a.timeline == b.timeline
    &&& a.auto_step == b.auto_step
    &&& a.current_event == b.current_event
    &&& a.view_target == b.view_target
    &&& a.view_type == b.view_type
    &&& a.ids == b.ids
}

/// Every attribute table but positions and health is the same in `a` and `b`.
pub open spec fn same_attributes(a: &World, b: &World) -> bool {
    &&& a.name == b.name
    &&& a.icon == b.icon
    &&& a.layer == b.layer
    &&& a.solidity == b.solidity
    &&& a.opacity == b.opacity
    &&& a.controls == b.controls
    &&& a.ai == b.ai
    &&& a.navigation == b.navigation
    &&& a.fov == b.fov
    &&& a.held_by == b.held_by
    &&& a.provides_activity == b.provides_activity
}

/// `b` is `a` with `entry` added to the timeline and nothing else changed.
pub open spec fn pushed(a: &World, b: &World, entry: (usize, Event)) -> bool {
    &&& b.timeline.entries() == a.timeline.entries().push(entry)
    &&& a.input == b.input
    &&& a.tick == b.tick
    &&& a.time == b.time
    &&& a.auto_step == b.auto_step
    &&& a.current_event == b.current_event
    &&& a.view_target == b.view_target
    &&& a.view_type == b.view_type
    &&& a.ids == b.ids
    &&& same_attributes(a, b)
    &&& a.position == b.position
    &&& a.health == b.health
}

/// `b` is `a` with at most its input and its current event changed.
pub open spec fn same_but_turn(a: &World, b: &World) -> bool {
    &&& a.tick == b.tick
    &&& a.time == b.time
    &&& a.timeline == b.timeline
    &&& a.auto_step == b.auto_step
    &&& a.view_target == b.view_target
    &&& a.view_type == b.view_type
    &&& a.ids == b.ids
    &&& same_attributes(a, b)
    &&& a.position == b.position
    &&& a.health == b.health
}

/// `t` later, saturating at the end of time.
pub open spec fn later(time: usize, t: usize) -> usize {
    if time + t > usize::MAX {
        usize::MAX
    } else {
        (time + t) as usize
    }
}

/// `new` is `old` without entity `id`: it is gone from every attribute
/// table, and the items it held are held by nobody.
pub open spec fn entity_removed(old: &World, new: &World, id: Id) -> bool {
    let rights = old.held_by.rights().remove(id@);
    &&& same_schedule(old, new)
    &&& new.navigation == old.navigation
    &&& new.name.values() == old.name.values().remove(id@)
    &&& new.icon.values() == old.icon.values().remove(id@)
    &&& new.layer.values() == old.layer.values().remove(id@)
    &&& new.position.positions() == old.position.positions().remove(id@)
    &&& new.solidity.members() == old.solidity.members().remove(id@)
    &&& new.opacity.members() == old.opacity.members().remove(id@)
    &&& new.controls.values() == old.controls.values().remove(id@)
    &&& new.ai.values() == old.ai.values().remove(id@)
    &&& new.health.values() == old.health.values().remove(id@)
    &&& new.fov.values() == old.fov.values().remove(id@)
    &&& forall|l: usize| #[trigger]
        new.held_by.rights().contains_key(l) <==> (rights.contains_key(l) && rights[l] != id)
    &&& forall|l: usize| #[trigger]
        new.held_by.rights().contains_key(l) ==> new.held_by.rights()[l] == rights[l]
    &&& new.provides_activity.values() == old.provides_activity.values().remove(id@)
}

/// Whether the first of `ids` that is either the viewer or opaque is opaque.
pub open spec fn cell_blocks(ids: Seq<Id>, viewer: Id, opacity: Set<usize>) -> bool
    decreases ids.len(),
{
    if ids.len() == 0 {
        false
    } else if ids[0] == viewer {
        false
    } else if opacity.contains(ids[0]@) {
        true
    } else {
        cell_blocks(ids.drop_first(), viewer, opacity)
    }
}

/// Whether the cell at `p` relative to `origin` blocks the sight of
/// `viewer`.
pub open spec fn blocks_sight(position: SpatialMap, opacity: Is, viewer: Id, origin: Point, p: Point) -> bool {
    match offset(origin, p) {
        Some(c) => cell_blocks(position.cell(c), viewer, opacity.members()),
        None => false,
    }
}

/// The opacity that entity `e` sees the world with.
pub open spec fn sight_of(w: &World, e: Id) -> spec_fn(Point) -> bool {
    let origin = w.position.positions()[e@];
    |p: Point| blocks_sight(w.position, w.opacity, e, origin, p)
}

/// The field of view of `e` in `new` is the one in `old` refreshed against
/// the world `old`: what it sees from where `e` stands, or nothing when `e`
/// has no place.
pub open spec fn fov_refreshed(old: &World, new: &World, e: usize) -> bool {
    let before = old.fov.values()[e];
    let after = new.fov.values()[e];
    &&& after.wf()
    &&& after.cache() == before.cache()
    &&& forall|p: Point| #[trigger]
        after.visible(p) <==> (old.position.positions().contains_key(e) && before.cache().sees(
            sight_of(old, Id(e)),
            p,
        ))
}

fn sees_from(position: &SpatialMap, opacity: &Is, viewer: Id, origin: Point, p: Point) -> (r: bool)
    requires
        position.wf(),
    ensures
        r == blocks_sight(*position, *opacity, viewer, origin, p),
{
    let x = match origin.0.checked_add(p.0) {
        Some(x) => x,
        None => return false,
    };
    let y = match origin.1.checked_add(p.1) {
        Some(y) => y,
        None => return false,
    };
    let ids = match position.at((x, y)) {
        Some(ids) => ids,
        None => return false,
    };
    let mut j: usize = 0;
    assert(ids@.subrange(0, ids@.len() as int) =~= ids@);
    assert(blocks_sight(*position, *opacity, viewer, origin, p) == cell_blocks(
        ids@,
        viewer,
        opacity.members(),
    ));
    while j < ids.len()
        invariant
            0 <= j <= ids@.len(),
            blocks_sight(*position, *opacity, viewer, origin, p) == cell_blocks(
                ids@,
                viewer,
                opacity.members(),
            ),
            cell_blocks(ids@, viewer, opacity.members()) == cell_blocks(
                ids@.subrange(j as int, ids@.len() as int),
                viewer,
                opacity.members(),
            ),
        decreases ids@.len() - j,
    {
        let ghost rest = ids@.subrange(j as int, ids@.len() as int);
        assert(rest.drop_first() =~= ids@.subrange(j + 1, ids@.len() as int));
        assert(rest[0] == ids@[j as int]);
        let id_at = ids[j];
        if id_at == viewer {
            return false;
        }
        if opacity.contains(&id_at) {
            return true;
        }
        j = j + 1;
    }
    false
}

impl World {
    /// Takes entity `id` out of every attribute table.
    pub fn remove_entity(&mut self, id: &Id)
        requires
            old(self).wf(),
        ensures
            final(self).wf(),
            entity_removed(old(self), final(self), *id),
    {
        self.name.remove(id);
        self.icon.remove(id);
        self.layer.remove(id);
        self.position.remove(id);
        self.solidity.remove(id);
        self.opacity.remove(id);
        self.controls.remove(id);
        self.ai.remove(id);
        self.health.remove(id);
        self.fov.remove(id);
        self.held_by.remove_by_left(id);
        let ghost rights = self.held_by.rights();
        self.held_by.remove_by_right(id);
        self.provides_activity.remove_by_left(id);
        assert(self.held_by.rights() =~= rights.restrict(
            rights.dom().filter(|l: usize| rights[l] != *id),
        ));
        assert(same_schedule(old(self), self));
        assert(self.position.positions() == old(self).position.positions().remove(id@));
        assert(self.health.values() == old(self).health.values().remove(id@));
        assert(self.fov.values() == old(self).fov.values().remove(id@));
        assert(self.provides_activity.values() == old(self).provides_activity.values().remove(id@));
    }

    /// Puts the typed character in place as the pending input and applies
    /// the keys that switch the view; returns the time it was typed at.
    pub fn accept_input(&mut self, input: char) -> (last_input_time: usize)
        requires
            old(self).wf(),
        ensures
            final(self).wf(),
            last_input_time == old(self).time,
            view_switched(&World { input: Input::Key(input), ..*old(self) }, final(self)),
    {
        self.input = Input::Key(input);
        update_view_type(self);
        self.time
    }

    /// Refreshes what every viewer sees and the flow field, then brings up
    /// the first turn.
    pub fn startup(&mut self)
        requires
            old(self).wf(),
        ensures
            final(self).wf(),
            exists|w1: World, w2: World|
                #[trigger] sight_refreshed(old(self), &w1) && #[trigger] flow_rebuilt(&w1, &w2)
                    && timeline_advanced(&w2, final(self)),
    {
        let ghost w0 = *self;
        update_fov(self);
        let ghost w1 = *self;
        update_navigation(self);
        let ghost w2 = *self;
        update_timeline(self);
        assert(sight_refreshed(&w0, &w1) && flow_rebuilt(&w1, &w2));
    }

    /// Runs one turn of the update cycle: brings up the next turn, runs it,
    /// sweeps the dead, refreshes sight and the flow field. Returns whether
    /// the cycle goes on: not when no turn was left, not when a turn waits
    /// for input, and not once more than the auto-step interval has passed
    /// since `last_input_time`.
    pub fn step(&mut self, last_input_time: usize) -> (go_on: bool)
        requires
            old(self).wf(),
        ensures
            final(self).wf(),
            cycle_step(old(self), final(self), last_input_time, go_on),
    {
        let ghost w0 = *self;
        update_timeline(self);
        let ghost w1 = *self;
        if self.current_event.is_none() {
            assert(timeline_advanced(&w0, &w1));
            return false;
        }
        update_current_event(self);
        let ghost w2 = *self;
        update_dead_entities(self);
        let ghost w3 = *self;
        update_fov(self);
        let ghost w4 = *self;
        update_navigation(self);
        let go_on = if self.input.is_requested() {
            false
        } else if let Some(interval) = self.auto_step {
            let elapsed_time = self.time.saturating_sub(last_input_time);
            elapsed_time <= interval
        } else {
            true
        };
        proof {
            assert(timeline_advanced(&w0, &w1));
            assert(current_turn_ran(&w1, &w2));
            assert(swept(&w2, &w3));
            assert(sight_refreshed(&w3, &w4));
            assert(flow_rebuilt(&w4, self));
        }
        go_on
    }
}

/// Whether the update cycle goes on after a turn that ended in `w`.
pub open spec fn goes_on(w: &World, last_input_time: usize) -> bool {
    &&& w.input != Input::Requested
    &&& w.auto_step matches Some(interval) ==> (if w.time >= last_input_time {
        w.time - last_input_time
    } else {
        0
    }) <= interval
}

/// `new` is `old` after one turn of the update cycle, which then goes on
/// exactly when `go_on` says so.
pub open spec fn cycle_step(old: &World, new: &World, last_input_time: usize, go_on: bool) -> bool {
    exists|w1: World|
        {
            &&& #[trigger] timeline_advanced(old, &w1)
            &&& if w1.current_event is None {
                *new == w1 && !go_on
            } else {
                exists|w2: World|
                    {
                        &&& #[trigger] current_turn_ran(&w1, &w2)
                        &&& exists|w3: World|
                            {
                                &&& #[trigger] swept(&w2, &w3)
                                &&& exists|w4: World|
                                    {
                                        &&& #[trigger] sight_refreshed(&w3, &w4)
                                        &&& flow_rebuilt(&w4, new)
                                        &&& go_on == goes_on(new, last_input_time)
                                    }
                            }
                    }
            }
        }
}

/// `new` is `old` after the view keys were applied: '1', '2' and '3' pick
/// the normal, flow-field and revealed views and are used up.
pub open spec fn view_switched(old: &World, new: &World) -> bool {
    let switched = if old.input == Input::Key('1') {
        Some(ViewType::Normal)
    } else if old.input == Input::Key('2') {
        Some(ViewType::Navigation)
    } else if old.input == Input::Key('3') {
        Some(ViewType::Revealed)
    } else {
        None
    };
    match switched {
        Some(v) => *new == World { input: Input::Empty, view_type: v, ..*old },
        None => *new == *old,
    }
}

/// `new` is `old` after bringing up the next turn: when no turn is current
/// and one is scheduled, the earliest one becomes current and the clock
/// moves to its time; otherwise nothing changes.
pub open spec fn timeline_advanced(old: &World, new: &World) -> bool {
    if old.current_event is Some || old.timeline.entries().len() == 0 {
        *new == *old
    } else {
        &&& new.current_event matches Some(e) && pops(
            old.timeline.entries(),
            (new.time, e),
            new.timeline.entries(),
        )
        &&& same_attributes(old, new)
        &&& new.position == old.position
        &&& new.health == old.health
        &&& new.input == old.input
        &&& new.auto_step == old.auto_step
        &&& new.view_target == old.view_target
    }
}

/// When no turn is current, brings up the earliest scheduled one and moves
/// the clock to its time.
pub fn update_timeline(world: &mut World)
    requires
        old(world).wf(),
    ensures
        final(world).wf(),
        timeline_advanced(old(world), final(world)),
{
    if world.current_event.is_some() || world.timeline.len() == 0 {
        return;
    }
    let (time, event) = match world.timeline.pop() {
        Some(entry) => entry,
        None => return,
    };
    world.time = time;
    world.current_event = Some(event);
}

/// Applies the keys that switch the view.
pub fn update_view_type(world: &mut World)
    requires
        old(world).wf(),
    ensures
        final(world).wf(),
        view_switched(old(world), final(world)),
{
    if world.input.try_consume('1') {
        world.view_type = ViewType::Normal;
    } else if world.input.try_consume('2') {
        world.view_type = ViewType::Navigation;
    } else if world.input.try_consume('3') {
        world.view_type = ViewType::Revealed;
    }
}

/// The entity numbered `k` has no attribute left but, perhaps, a place.
pub open spec fn gone(w: &World, k: usize) -> bool {
    &&& !w.name.values().contains_key(k)
    &&& !w.icon.values().contains_key(k)
    &&& !w.layer.values().contains_key(k)
    &&& !w.solidity.members().contains(k)
    &&& !w.opacity.members().contains(k)
    &&& !w.controls.values().contains_key(k)
    &&& !w.ai.values().contains_key(k)
    &&& !w.health.values().contains_key(k)
    &&& !w.fov.values().contains_key(k)
    &&& !w.held_by.rights().contains_key(k)
    &&& !w.provides_activity.values().contains_key(k)
}

/// `new` is `old` after the sweep of the dead: exactly the entities whose
/// health is zero or less have lost their health, each of them has lost
/// every attribute, and the clock, the timeline, the current turn and the
/// input are untouched.
pub open spec fn swept(old: &World, new: &World) -> bool {
    &&& new.health.values() == old.health.values().restrict(
        old.health.values().dom().filter(|k: usize| old.health.values()[k] > 0),
    )
    &&& forall|k: usize|
        old.health.values().contains_key(k) && old.health.values()[k] <= 0 ==> #[trigger] gone(new, k)
    &&& new.time == old.time
    &&& new.timeline == old.timeline
    &&& new.current_event == old.current_event
    &&& new.input == old.input
}

/// An attack that brings its target to zero health leaves it in place; the
/// next sweep of the dead takes it out.
pub proof fn lemma_removal_on_sweep(
    w0: &World,
    w1: &World,
    w2: &World,
    actor: Id,
    v: Point,
    damage: i32,
    target: Id,
)
    requires
        attack_resolved(w0, w1, actor, v, damage),
        attack_target(w0, actor, v) == Some(target),
        w1.health.values()[target@] == 0,
        swept(w1, w2),
    ensures
        w1.position == w0.position,
        w1.health.values().contains_key(target@),
        !w2.health.values().contains_key(target@),
        gone(w2, target@),
{
}

/// Removes every entity whose health reached zero or less; when the entity
/// looked through dies, a marker takes its place and the cycle steps on by
/// itself.
pub fn update_dead_entities(world: &mut World)
    requires
        old(world).wf(),
    ensures
        final(world).wf(),
        swept(old(world), final(world)),
{
    let ids = world.health.keys();
    let mut dead: Vec<Id> = Vec::new();
    let mut j: usize = 0;
    while j < ids.len()
        invariant
            0 <= j <= ids@.len(),
            forall|e: Id| #[trigger] ids@.contains(e) <==> world.health.values().contains_key(e@),
            ids@.no_duplicates(),
            dead@.no_duplicates(),
            forall|e: Id| #[trigger]
                dead@.contains(e) <==> (ids@.subrange(0, j as int).contains(e)
                    && world.health.values()[e@] <= 0),
        decreases ids@.len() - j,
    {
        let id = ids[j];
        assert(ids@.contains(id));
        proof {
            lemma_prefix_extend(ids@, j as int);
        }
        let health = *world.health.get(&id).unwrap();
        assert(health == world.health.values()[id@]);
        let ghost before_dead = dead@;
        if health <= 0 {
            assert(!dead@.contains(id));
            dead.push(id);
        }
        assert forall|e: Id| #[trigger] dead@.contains(e) <==> (ids@.subrange(0, j + 1).contains(e)
            && world.health.values()[e@] <= 0) by {
            vstd::seq_lib::lemma_seq_contains_after_push(before_dead, id, e);
        }
        j = j + 1;
    }
    assert(ids@.subrange(0, ids@.len() as int) =~= ids@);
    let ghost before = *world;
    let ghost doomed = before.health.values().dom().filter(|k: usize| before.health.values()[k] <= 0);
    assert forall|k: usize| #[trigger] doomed.contains(k) <==> dead@.contains(Id(k)) by {
        assert(Id(k)@ == k);
    }
    let mut j: usize = 0;
    while j < dead.len()
        invariant
            0 <= j <= dead@.len(),
            world.wf(),
            dead@.no_duplicates(),
            forall|k: usize| #[trigger] doomed.contains(k) <==> dead@.contains(Id(k)),
            doomed == before.health.values().dom().filter(|k: usize| before.health.values()[k] <= 0),
            world.health.values() == before.health.values().restrict(
                before.health.values().dom().filter(|k: usize| !dead@.subrange(0, j as int).contains(Id(k))),
            ),
            forall|i: int| 0 <= i < j ==> #[trigger] gone(world, dead@[i]@),
            world.time == before.time,
            world.timeline == before.timeline,
            world.current_event == before.current_event,
            world.input == before.input,
        decreases dead@.len() - j,
    {
        let id = dead[j];
        let ghost w0 = *world;
        update_dead_view_target(world, id);
        let ghost w1 = *world;
        world.remove_entity(&id);
        proof {
            assert forall|i: int| 0 <= i < j + 1 implies #[trigger] gone(world, dead@[i]@) by {
                if i < j {
                    assert(gone(&w0, dead@[i]@));
                    assert(gone(&w1, dead@[i]@));
                }
            }
            let sub1 = dead@.subrange(0, j + 1);
            lemma_prefix_extend(dead@, j as int);
            assert(world.health.values() =~= before.health.values().restrict(
                before.health.values().dom().filter(|k: usize| !sub1.contains(Id(k))),
            ));
        }
        j = j + 1;
    }
    proof {
        assert(dead@.subrange(0, dead@.len() as int) =~= dead@);
        assert(world.health.values() =~= before.health.values().restrict(
            before.health.values().dom().filter(|k: usize| before.health.values()[k] > 0),
        ));
        assert forall|k: usize|
            before.health.values().contains_key(k) && before.health.values()[k] <= 0 implies #[trigger] gone(
            world,
            k,
        ) by {
            assert(doomed.contains(k));
            assert(dead@.contains(Id(k)));
            let i = choose|i: int| 0 <= i < dead@.len() && dead@[i] == Id(k);
            assert(gone(world, dead@[i]@));
        }
    }
}

/// When `id` is the entity looked through, puts a marker in its place to
/// look through instead and lets the cycle step on by itself.
pub fn update_dead_view_target(world: &mut World, id: Id)
    requires
        old(world).wf(),
    ensures
        final(world).wf(),
        final(world).health == old(world).health,
        final(world).time == old(world).time,
        final(world).timeline == old(world).timeline,
        final(world).current_event == old(world).current_event,
        final(world).input == old(world).input,
        same_attributes(old(world), final(world)),
        id == old(world).view_target && old(world).position.positions().contains_key(id@) ==> {
            &&& final(world).view_target@ == old(world).ids.upcoming()
            &&& final(world).auto_step == Some(10usize)
            &&& final(world).position.positions() == old(world).position.positions().insert(
                final(world).view_target@,
                old(world).position.positions()[id@],
            )
        },
        !(id == old(world).view_target && old(world).position.positions().contains_key(id@))
            ==> *final(world) == *old(world),
{
    if id != world.view_target {
        return;
    }
    let position = match world.position.get(&id) {
        Some(position) => *position,
        None => return,
    };
    let marker = Id::new(&mut world.ids);
    world.position.insert(marker, position);
    world.auto_step = Some(10);
    world.view_target = marker;
}

/// `new` is `old` with the field of view of every entity that has one
/// refreshed, and nothing else changed.
pub open spec fn sight_refreshed(old: &World, new: &World) -> bool {
    &&& new.fov.values().dom() == old.fov.values().dom()
    &&& forall|k: usize| #[trigger] old.fov.values().contains_key(k) ==> fov_refreshed(old, new, k)
    &&& same_schedule(old, new)
    &&& new.position == old.position
    &&& new.health == old.health
    &&& new.held_by == old.held_by
    &&& new.provides_activity == old.provides_activity
    &&& new.navigation == old.navigation
    &&& new.ai == old.ai
    &&& new.controls == old.controls
    &&& new.solidity == old.solidity
    &&& new.opacity == old.opacity
}

/// Refreshes the field of view of every entity that has one.
pub fn update_fov(world: &mut World)
    requires
        old(world).wf(),
    ensures
        final(world).wf(),
        sight_refreshed(old(world), final(world)),
{
    let viewers = world.fov.keys();
    let ghost before = *world;
    let mut j: usize = 0;
    while j < viewers.len()
        invariant
            0 <= j <= viewers@.len(),
            world.wf(),
            viewers@.no_duplicates(),
            forall|e: Id| #[trigger] viewers@.contains(e) <==> before.fov.values().contains_key(e@),
            world.fov.values().dom() == before.fov.values().dom(),
            forall|k: usize| #[trigger] world.fov.values().contains_key(k) ==> (
                if viewers@.subrange(0, j as int).contains(Id(k)) {
                    fov_refreshed(&before, world, k)
                } else {
                    world.fov.values()[k] == before.fov.values()[k]
                }),
            same_schedule(&before, world),
            world.position == before.position,
            world.health == before.health,
            world.held_by == before.held_by,
            world.provides_activity == before.provides_activity,
            world.navigation == before.navigation,
            world.ai == before.ai,
            world.controls == before.controls,
            world.solidity == before.solidity,
            world.opacity == before.opacity,
        decreases viewers@.len() - j,
    {
        let id = viewers[j];
        assert(viewers@.contains(id));
        let mut fov = world.fov.remove(&id).unwrap();
        proof {
            lemma_prefix_extend(viewers@, j as int);
            assert(before.fov.values().contains_key(id@));
        }
        let ghost old_fov = fov;
        match world.position.get(&id) {
            Some(origin) => {
                let origin = *origin;
                let position = &world.position;
                let opacity = &world.opacity;
                let check_opaque = |p: Point| -> (r: bool)
                    ensures
                        r == blocks_sight(*position, *opacity, id, origin, p),
                    { sees_from(position, opacity, id, origin, p) };
                fov.update(check_opaque);
                proof {
                    assert(computes(check_opaque, sight_of(&before, id)));
                }
            },
            None => {
                fov.clear();
            },
        }
        world.fov.insert(id, fov);
        proof {
            lemma_prefix_extend(viewers@, j as int);
            assert(world.fov.values().dom() =~= before.fov.values().dom());
            assert(fov_refreshed(&before, world, id@));
        }
        j = j + 1;
    }
    proof {
        assert(viewers@.subrange(0, viewers@.len() as int) =~= viewers@);
        assert forall|k: usize| #[trigger] before.fov.values().contains_key(k) implies fov_refreshed(&before, world, k) by {
            assert(viewers@.contains(Id(k)));
        }
    }
}

/// `new` is `old` with the flow field rebuilt from scratch: the goal is the
/// cell of the entity looked through when it has a place and health, and
/// the field is the largest settled one below that seed.
pub open spec fn flow_rebuilt(old: &World, new: &World) -> bool {
    let seed = if old.position.positions().contains_key(old.view_target@)
        && old.health.values().contains_key(old.view_target@) {
        Map::<Point, usize>::empty().insert(old.position.positions()[old.view_target@], 0)
    } else {
        Map::<Point, usize>::empty()
    };
    &&& below(new.navigation.values(), seed)
    &&& settled(new.navigation.values())
    &&& forall|g: Map<Point, usize>|
        below(g, seed) && #[trigger] settled(g) ==> below(g, new.navigation.values())
    &&& same_schedule(old, new)
    &&& new.position == old.position
    &&& new.health == old.health
    &&& new.fov == old.fov
}

/// Rebuilds the flow field toward the entity looked through, when it has a
/// place and health.
pub fn update_navigation(world: &mut World)
    requires
        old(world).wf(),
    ensures
        final(world).wf(),
        flow_rebuilt(old(world), final(world)),
{
    world.navigation.reset();
    if let Some(position) = world.position.get(&world.view_target) {
        if world.health.contains_key(&world.view_target) {
            world.navigation.set_value(*position, 0);
        }
    }
    world.navigation.calculate();
}

/// Whether entity `a` sees entity `b`; `None` when `a` has no field of
/// view or one of them has no place.
pub fn can_see(world: &World, a: Id, b: Id) -> (r: Option<bool>)
    ensures
        ({
            let fovs = world.fov.values();
            let places = world.position.positions();
            if fovs.contains_key(a@) && places.contains_key(a@) && places.contains_key(b@) {
                let pa = places[a@];
                let pb = places[b@];
                let dx = pb.0 - pa.0;
                let dy = pb.1 - pa.1;
                r == Some(
                    i32::MIN <= dx <= i32::MAX && i32::MIN <= dy <= i32::MAX && fovs[a@].visible(
                        (dx as i32, dy as i32),
                    ),
                )
            } else {
                r is None
            }
        }),
{
    let fov = match world.fov.get(&a) {
        Some(fov) => fov,
        None => return None,
    };
    let pa = match world.position.get(&a) {
        Some(p) => *p,
        None => return None,
    };
    let pb = match world.position.get(&b) {
        Some(p) => *p,
        None => return None,
    };
    let dx = match pb.0.checked_sub(pa.0) {
        Some(d) => d,
        None => return Some(false),
    };
    let dy = match pb.1.checked_sub(pa.1) {
        Some(d) => d,
        None => return Some(false),
    };
    Some(fov.is_visible((dx, dy)))
}

impl Default for World {
    fn default() -> (r: World)
        ensures
            r.wf(),
            r.time == 0,
            r.input == Input::Empty,
            r.current_event is None,
            r.timeline.entries().len() == 0,
            r.view_target == Id(0),
            r.ids.upcoming() == 1,
    {
        World::new()
    }
}

} // verus!
