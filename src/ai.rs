use vstd::prelude::*;
use crate::action::Action;
use crate::activity::{available_activities, collect_activities, Activity, ActivityType};
use crate::grid::{abs, Point};
use crate::id::Id;
use crate::navigation::best_step;
use crate::world::World;

verus! {

/// An entity that decides its own turns, and whom it goes after.
#[derive(Debug, Clone, Copy, PartialEq, Eq, Structural)]
pub struct Ai {
    pub target: Id,
}

/// The time cost of the first Step activity of `s`.
pub open spec fn step_speed(s: Seq<(Id, Activity)>) -> Option<usize>
    decreases s.len(),
{
    if s.len() == 0 {
        None
    } else if s[0].1.activity_type == ActivityType::Step() {
        Some(s[0].1.speed)
    } else {
        step_speed(s.drop_first())
    }
}

/// The time cost and damage of the first MeleeAttack activity of `s`.
pub open spec fn melee_attack(s: Seq<(Id, Activity)>) -> Option<(usize, i32)>
    decreases s.len(),
{
    if s.len() == 0 {
        None
    } else {
        match s[0].1.activity_type {
            ActivityType::MeleeAttack(damage) => Some((s[0].1.speed, damage)),
            _ => melee_attack(s.drop_first()),
        }
    }
}

pub open spec fn sign(x: int) -> int {
    if x > 0 {
        1
    } else if x < 0 {
        -1
    } else {
        0
    }
}

/// One step from `from` toward `to` along the axis with the larger
/// distance; on a tie, along the vertical axis.
pub open spec fn greedy_step(from: Point, to: Point) -> Point {
    let dx = to.0 - from.0;
    let dy = to.1 - from.1;
    if abs(dx) > abs(dy) {
        (sign(dx) as i32, 0i32)
    } else {
        (0i32, sign(dy) as i32)
    }
}

/// The cell entity `id` heads for: the best neighbour of the flow field
/// when there is one, else one greedy step toward its target.
pub open spec fn ai_destination(w: &World, id: Id) -> Option<Point> {
    let p = w.position.positions()[id@];
    let target = w.ai.values()[id@].target;
    match best_step(w.navigation.values(), p) {
        Some((q, _)) => Some(q),
        None => if w.position.positions().contains_key(target@) {
            let g = greedy_step(p, w.position.positions()[target@]);
            Some(((p.0 + g.0) as i32, (p.1 + g.1) as i32))
        } else {
            None
        },
    }
}

/// What entity `id` decides to do, and after how long it acts again: a
/// move toward its destination with its Step activity, or an attack with
/// its MeleeAttack activity when the destination is where its target
/// stands; nothing when it cannot step or has nowhere to go.
pub open spec fn ai_decision(w: &World, id: Id) -> (usize, Option<Action>) {
    if !w.ai.values().contains_key(id@) || !w.position.positions().contains_key(id@) {
        (1, None)
    } else {
        match ai_destination(w, id) {
            None => (1, None),
            Some(d) => {
                let p = w.position.positions()[id@];
                let v = ((d.0 - p.0) as i32, (d.1 - p.1) as i32);
                let activities = available_activities(w, id);
                let target = w.ai.values()[id@].target;
                match step_speed(activities) {
                    None => (1, None),
                    Some(move_speed) => if w.position.located(target, d) && melee_attack(
                        activities,
                    ) is Some {
                        let (attack_speed, damage) = melee_attack(activities)->0;
                        (attack_speed, Some(Action::Attack(v, damage)))
                    } else {
                        (move_speed, Some(Action::Move(v)))
                    },
                }
            },
        }
    }
}

/// The time cost of the first Step activity.
pub fn pick_step(activities: &Vec<(Id, Activity)>) -> (r: Option<usize>)
    ensures
        r == step_speed(activities@),
{
    let mut j: usize = 0;
    assert(activities@.subrange(0, activities@.len() as int) =~= activities@);
    while j < activities.len()
        invariant
            0 <= j <= activities@.len(),
            step_speed(activities@) == step_speed(activities@.subrange(j as int, activities@.len() as int)),
        decreases activities@.len() - j,
    {
        let ghost rest = activities@.subrange(j as int, activities@.len() as int);
        assert(rest.drop_first() =~= activities@.subrange(j + 1, activities@.len() as int));
        assert(rest[0] == activities@[j as int]);
        if activities[j].1.activity_type == ActivityType::Step() {
            return Some(activities[j].1.speed);
        }
        j = j + 1;
    }
    assert(activities@.subrange(j as int, activities@.len() as int).len() == 0);
    None
}

/// The time cost and damage of the first MeleeAttack activity.
pub fn pick_melee_attack(activities: &Vec<(Id, Activity)>) -> (r: Option<(usize, i32)>)
    ensures
        r == melee_attack(activities@),
{
    let mut j: usize = 0;
    assert(activities@.subrange(0, activities@.len() as int) =~= activities@);
    while j < activities.len()
        invariant
            0 <= j <= activities@.len(),
            melee_attack(activities@) == melee_attack(activities@.subrange(j as int, activities@.len() as int)),
        decreases activities@.len() - j,
    {
        let ghost rest = activities@.subrange(j as int, activities@.len() as int);
        assert(rest.drop_first() =~= activities@.subrange(j + 1, activities@.len() as int));
        assert(rest[0] == activities@[j as int]);
        if let ActivityType::MeleeAttack(damage) = activities[j].1.activity_type {
            return Some((activities[j].1.speed, damage));
        }
        j = j + 1;
    }
    assert(activities@.subrange(j as int, activities@.len() as int).len() == 0);
    None
}

fn unit(delta: i64) -> (r: i32)
    ensures
        r == sign(delta as int),
{
    if delta > 0 {
        1
    } else if delta < 0 {
        -1
    } else {
        0
    }
}

/// Decides the next action of entity `id` and the time it costs.
pub fn pick_ai_action(world: &World, id: Id) -> (r: (usize, Option<Action>))
    requires
        world.wf(),
    ensures
        r == ai_decision(world, id),
{
    let ai = match world.ai.get(&id) {
        Some(ai) => *ai,
        None => return (1, None),
    };
    let position = match world.position.get(&id) {
        Some(position) => *position,
        None => return (1, None),
    };
    let target_position = match world.position.get(&ai.target) {
        Some(p) => Some(*p),
        None => None,
    };
    let destination = match world.navigation.best_neighbor(position) {
        Some((q, _)) => q,
        None => match target_position {
            Some(t) => {
                let dx = t.0 as i64 - position.0 as i64;
                let dy = t.1 as i64 - position.1 as i64;
                let adx = if dx < 0 {
                    -dx
                } else {
                    dx
                };
                let ady = if dy < 0 {
                    -dy
                } else {
                    dy
                };
                if adx > ady {
                    (position.0 + unit(dx), position.1)
                } else {
                    (position.0, position.1 + unit(dy))
                }
            },
            None => return (1, None),
        },
    };
    proof {
        if best_step(world.navigation.values(), position) is Some {
            let k = choose|k: int|
                {
                    &&& #[trigger] crate::navigation::usable(world.navigation.values(), position, k)
                    &&& destination == crate::navigation::neighbor(position, k)->0
                };
        }
    }
    let vector = (destination.0 - position.0, destination.1 - position.1);
    let activities = collect_activities(world, id);
    let move_speed = match pick_step(&activities) {
        Some(speed) => speed,
        None => return (1, None),
    };
    let at_target = match target_position {
        Some(t) => t.0 == destination.0 && t.1 == destination.1,
        None => false,
    };
    if at_target {
        if let Some((attack_speed, damage)) = pick_melee_attack(&activities) {
            return (attack_speed, Some(Action::Attack(vector, damage)));
        }
    }
    (move_speed, Some(Action::Move(vector)))
}

} // verus!
