use vstd::prelude::*;
use crate::action::{action_resolved, update_action, Action};
use crate::activity::{available_activities, collect_activities, ActivityType};
use crate::ai::{ai_decision, pick_ai_action};
use crate::event::Event;
use crate::grid::{abs, Point};
use crate::id::Id;
use crate::input::Input;
use crate::world::{later, pushed, same_but_turn, World};

verus! {

/// The keys a player acts with.
#[derive(Debug, Clone, Copy, PartialEq, Eq, Structural)]
pub struct Controls {
    pub act_up: char,
    pub act_down: char,
    pub act_left: char,
    pub act_right: char,
    pub act_center: char,
    pub activity_previous: char,
    pub activity_next: char,
}

/// The two kinds of turn.
#[derive(Debug)]
pub enum TurnType {
    Player(Player),
    Ai(Ai),
}

/// A turn decided by the keyboard; remembers the selected activity.
#[derive(Debug)]
pub struct Player {
    pub selected_activity_index: usize,
}

/// A turn decided by the entity itself; carries the action decided on the
/// previous turn, which is resolved first.
#[derive(Debug)]
pub struct Ai {
    pub pending_action: Option<Action>,
}

impl Player {
    /// The first turn of a player, with the first activity selected.
    pub fn new_turn(id: Id) -> (r: Event)
        ensures
            r == Event::Turn(id, TurnType::Player(Player { selected_activity_index: 0 })),
    {
        let turn = Player { selected_activity_index: 0 };
        Event::Turn(id, TurnType::Player(turn))
    }

    /// The following turn of the same player, keeping the selection.
    pub fn next_turn(self, id: Id) -> (r: Event)
        ensures
            r == Event::Turn(
                id,
                TurnType::Player(Player { selected_activity_index: self.selected_activity_index }),
            ),
    {
        let turn = Player { selected_activity_index: self.selected_activity_index };
        Event::Turn(id, TurnType::Player(turn))
    }
}

impl Ai {
    /// The first turn of an entity that decides for itself.
    pub fn new_turn(id: Id) -> (r: Event)
        ensures
            r == Event::Turn(id, TurnType::Ai(Ai { pending_action: None })),
    {
        Event::Turn(id, TurnType::Ai(Ai { pending_action: None }))
    }
}

/// The index `delta` places away from `index` among `total` activities,
/// wrapping around at both ends.
pub open spec fn shifted_index(index: usize, delta: i32, total: usize) -> usize {
    let magnitude = abs(delta as int);
    if delta < 0 {
        if magnitude > index {
            if total >= magnitude - index {
                (total - (magnitude - index)) as usize
            } else {
                0
            }
        } else {
            (index - magnitude) as usize
        }
    } else if total == 0 {
        0
    } else {
        let sum = if index + magnitude > usize::MAX {
            usize::MAX as int
        } else {
            index + magnitude
        };
        (sum % total as int) as usize
    }
}

/// Selecting the previous activity at the first one gives the last one,
/// and selecting the next one at the last one gives the first one.
pub proof fn lemma_activity_wraparound(total: usize)
    requires
        total > 0,
    ensures
        shifted_index(0, -1i32, total) == total - 1,
        shifted_index((total - 1) as usize, 1i32, total) == 0,
{
    assert(total as int % total as int == 0) by (nonlinear_arith)
        requires
            total > 0,
    ;
}

/// The direction bound to key `c`, the first binding winning.
pub open spec fn direction_key(controls: Controls, c: char) -> Option<Point> {
    if c == controls.act_up {
        Some((0i32, -1i32))
    } else if c == controls.act_down {
        Some((0i32, 1i32))
    } else if c == controls.act_left {
        Some((-1i32, 0i32))
    } else if c == controls.act_right {
        Some((1i32, 0i32))
    } else if c == controls.act_center {
        Some((0i32, 0i32))
    } else {
        None
    }
}

/// The change of selection bound to key `c`, when it is no direction key.
pub open spec fn selection_key(controls: Controls, c: char) -> Option<i32> {
    if c == controls.activity_previous {
        Some(-1i32)
    } else if c == controls.activity_next {
        Some(1i32)
    } else {
        None
    }
}

/// `new` is `old` after player `id` acted with the activity at `index` in
/// `direction`: the activity is resolved and the next turn scheduled after
/// its time cost. Without an activity at that index nothing happens.
pub open spec fn player_acted(old: &World, new: &World, id: Id, index: usize, direction: Point) -> bool {
    let activities = available_activities(old, id);
    if index >= activities.len() {
        *new == *old
    } else {
        let activity = activities[index as int].1;
        let entry = (
            later(old.time, activity.speed),
            Event::Turn(id, TurnType::Player(Player { selected_activity_index: index })),
        );
        match activity.activity_type {
            ActivityType::Wait() => pushed(old, new, entry),
            ActivityType::Step() => exists|mid: World|
                action_resolved(old, &mid, id, Action::Move(direction)) && #[trigger] pushed(
                    &mid,
                    new,
                    entry,
                ),
            ActivityType::MeleeAttack(damage) => exists|mid: World|
                action_resolved(old, &mid, id, Action::Attack(direction, damage)) && #[trigger] pushed(
                    &mid,
                    new,
                    entry,
                ),
        }
    }
}

/// `new` is `old` after the turn of player `id` with `index` selected,
/// whose own event was already taken out of `old`.
pub open spec fn player_turn_done(old: &World, new: &World, id: Id, index: usize) -> bool {
    if !old.controls.values().contains_key(id@) {
        *new == *old
    } else {
        let controls = old.controls.values()[id@];
        let rearmed = Some(Event::Turn(id, TurnType::Player(Player { selected_activity_index: index })));
        match old.input {
            Input::Key(c) => {
                let consumed = World { input: Input::Empty, current_event: None, ..*old };
                match direction_key(controls, c) {
                    Some(d) => player_acted(&consumed, new, id, index, d) && new.current_event
                        is None,
                    None => match selection_key(controls, c) {
                        Some(delta) => {
                            let total = available_activities(old, id).len() as usize;
                            let moved = Player { selected_activity_index: shifted_index(index, delta, total) };
                            same_but_turn(old, new) && new.input == Input::Empty
                                && new.current_event == Some(Event::Turn(id, TurnType::Player(moved)))
                        },
                        None => same_but_turn(old, new) && new.input == Input::Empty
                            && new.current_event == rearmed,
                    },
                }
            },
            _ => same_but_turn(old, new) && new.input == Input::Requested && new.current_event
                == rearmed,
        }
    }
}

/// `new` is `old` after the turn of entity `id` that decides for itself:
/// the action decided last turn is resolved, then a new one is decided and,
/// when there is one, scheduled with the next turn.
pub open spec fn ai_turn_done(old: &World, new: &World, id: Id, pending: Option<Action>) -> bool {
    exists|mid: World|
        {
            &&& match pending {
                Some(action) => action_resolved(old, &mid, id, action),
                None => mid == *old,
            }
            &&& #[trigger] mid.wf()
            &&& {
                let (speed, decided) = ai_decision(&mid, id);
                match decided {
                    Some(_) => pushed(
                        &mid,
                        new,
                        (
                            later(mid.time, speed),
                            Event::Turn(id, TurnType::Ai(Ai { pending_action: decided })),
                        ),
                    ),
                    None => *new == mid,
                }
            }
        }
}

/// `new` is `old` after `turn` of entity `id` ran.
pub open spec fn turn_done(old: &World, new: &World, id: Id, turn: TurnType) -> bool {
    match turn {
        TurnType::Player(p) => player_turn_done(old, new, id, p.selected_activity_index),
        TurnType::Ai(a) => ai_turn_done(old, new, id, a.pending_action),
    }
}

impl TurnType {
    /// Runs this turn of entity `id`.
    pub fn update(self, world: &mut World, id: Id)
        requires
            old(world).wf(),
        ensures
            final(world).wf(),
            turn_done(old(world), final(world), id, self),
    {
        match self {
            TurnType::Player(player) => player.update(world, id),
            TurnType::Ai(ai) => ai.update(world, id),
        }
    }
}

impl Player {
    fn update(self, world: &mut World, id: Id)
        requires
            old(world).wf(),
        ensures
            final(world).wf(),
            player_turn_done(old(world), final(world), id, self.selected_activity_index),
    {
        let controls = match world.controls.get(&id) {
            Some(controls) => *controls,
            None => return,
        };
        let index = self.selected_activity_index;
        world.current_event = None;
        let key = world.input.take_or_request();
        let result = match key {
            Some(c) => {
                let direction = if c == controls.act_up {
                    Some((0i32, -1i32))
                } else if c == controls.act_down {
                    Some((0i32, 1i32))
                } else if c == controls.act_left {
                    Some((-1i32, 0i32))
                } else if c == controls.act_right {
                    Some((1i32, 0i32))
                } else if c == controls.act_center {
                    Some((0i32, 0i32))
                } else {
                    None
                };
                assert(direction == direction_key(controls, c));
                match direction {
                    Some(d) => self.act(world, id, d),
                    None => if c == controls.activity_previous {
                        self.select_activity(world, id, -1)
                    } else if c == controls.activity_next {
                        self.select_activity(world, id, 1)
                    } else {
                        Some(self)
                    },
                }
            },
            None => Some(self),
        };
        let ghost acted = *world;
        world.current_event = match result {
            Some(r) => Some(Event::Turn(id, TurnType::Player(r))),
            None => None,
        };
        proof {
            if result is None {
                assert(*world == acted);
            }
        }
    }

    fn select_activity(self, world: &World, id: Id, delta: i32) -> (r: Option<Player>)
        requires
            world.wf(),
        ensures
            r == Some(
                Player {
                    selected_activity_index: shifted_index(
                        self.selected_activity_index,
                        delta,
                        available_activities(world, id).len() as usize,
                    ),
                },
            ),
    {
        let total = collect_activities(world, id).len();
        let magnitude: usize = if delta < 0 {
            (-(delta as i64)) as usize
        } else {
            delta as usize
        };
        let index = if delta < 0 {
            if magnitude > self.selected_activity_index {
                let from_end = magnitude - self.selected_activity_index;
                total.saturating_sub(from_end)
            } else {
                self.selected_activity_index - magnitude
            }
        } else if total == 0 {
            0
        } else {
            self.selected_activity_index.saturating_add(magnitude) % total
        };
        Some(Player { selected_activity_index: index })
    }

    fn act(self, world: &mut World, id: Id, direction: (i32, i32)) -> (r: Option<Player>)
        requires
            old(world).wf(),
        ensures
            final(world).wf(),
            r is None,
            player_acted(old(world), final(world), id, self.selected_activity_index, direction),
    {
        let activities = collect_activities(world, id);
        if self.selected_activity_index >= activities.len() {
            return None;
        }
        let activity = activities[self.selected_activity_index].1;
        let time = world.time.saturating_add(activity.speed);
        match activity.activity_type {
            ActivityType::Wait() => {
                world.timeline.push(time, self.next_turn(id));
            },
            ActivityType::Step() => {
                update_action(world, id, Action::Move(direction));
                let ghost mid = *world;
                world.timeline.push(time, self.next_turn(id));
                assert(pushed(&mid, world, (time, Event::Turn(id, TurnType::Player(Player { selected_activity_index: self.selected_activity_index })))));
            },
            ActivityType::MeleeAttack(damage) => {
                update_action(world, id, Action::Attack(direction, damage));
                let ghost mid = *world;
                world.timeline.push(time, self.next_turn(id));
                assert(pushed(&mid, world, (time, Event::Turn(id, TurnType::Player(Player { selected_activity_index: self.selected_activity_index })))));
            },
        }
        None
    }
}

impl Ai {
    fn update(self, world: &mut World, id: Id)
        requires
            old(world).wf(),
        ensures
            final(world).wf(),
            ai_turn_done(old(world), final(world), id, self.pending_action),
    {
        if let Some(action) = self.pending_action {
            update_action(world, id, action);
        }
        let ghost mid = *world;
        let (speed, action) = pick_ai_action(world, id);
        if action.is_some() {
            let time = world.time.saturating_add(speed);
            world.timeline.push(time, Event::Turn(id, TurnType::Ai(Ai { pending_action: action })));
        }
        assert(mid.wf());
    }
}

} // verus!
