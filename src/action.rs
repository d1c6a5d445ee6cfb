use vstd::prelude::*;
use crate::grid::Point;
use crate::id::Id;
use crate::spatial_map::lemma_cell_members;
use crate::world::{same_attributes, same_schedule, World};

verus! {

/// What an entity does with its turn; resolved at once, never stored.
#[derive(Debug, Clone, Copy)]
pub enum Action {
    /// Step by the vector.
    Move((i32, i32)),
    /// Hit what stands at the vector, for the damage.
    Attack((i32, i32), i32),
}

/// The cell `v` away from `from`, when it lies on the grid.
pub open spec fn offset(from: Point, v: Point) -> Option<Point> {
    let x = from.0 + v.0;
    let y = from.1 + v.1;
    if i32::MIN <= x <= i32::MAX && i32::MIN <= y <= i32::MAX {
        Some((x as i32, y as i32))
    } else {
        None
    }
}

/// The cell `actor` aims at with vector `v`.
pub open spec fn aimed_cell(w: &World, actor: Id, v: Point) -> Option<Point> {
    if w.position.positions().contains_key(actor@) {
        offset(w.position.positions()[actor@], v)
    } else {
        None
    }
}

/// Some solid entity other than `actor` stands in cell `c`.
pub open spec fn blocked(w: &World, actor: Id, c: Point) -> bool {
    exists|e: Id| #[trigger] w.position.located(e, c) && e != actor && w.solidity.members().contains(e@)
}

/// The first of `ids` that has health.
pub open spec fn first_with_health(w: &World, ids: Seq<Id>) -> Option<Id>
    decreases ids.len(),
{
    if ids.len() == 0 {
        None
    } else if w.health.values().contains_key(ids[0]@) {
        Some(ids[0])
    } else {
        first_with_health(w, ids.drop_first())
    }
}

proof fn lemma_first_with_health(w: &World, ids: Seq<Id>)
    ensures
        first_with_health(w, ids) matches Some(t) ==> w.health.values().contains_key(t@),
    decreases ids.len(),
{
    if ids.len() > 0 {
        lemma_first_with_health(w, ids.drop_first());
    }
}

/// Health `h` after taking `damage`, never below zero.
pub open spec fn after_damage(h: i32, damage: i32) -> i32 {
    let v = h - damage;
    if v < 0 {
        0
    } else if v > i32::MAX {
        i32::MAX
    } else {
        v as i32
    }
}

/// The entity that an attack of `actor` with vector `v` hits: the first
/// one with health, in arrival order, in the aimed cell.
pub open spec fn attack_target(w: &World, actor: Id, v: Point) -> Option<Id> {
    match aimed_cell(w, actor, v) {
        Some(c) => first_with_health(w, w.position.cell(c)),
        None => None,
    }
}

/// `new` is `old` after `actor` moved by `v`: into the aimed cell unless
/// another solid entity stands there, in which case nothing changes.
pub open spec fn move_resolved(old: &World, new: &World, actor: Id, v: Point) -> bool {
    &&& same_schedule(old, new)
    &&& same_attributes(old, new)
    &&& new.health == old.health
    &&& match aimed_cell(old, actor, v) {
        Some(c) => if blocked(old, actor, c) {
            new.position == old.position
        } else {
            new.position.positions() == old.position.positions().insert(actor@, c)
        },
        None => new.position == old.position,
    }
}

/// `new` is `old` after `actor` attacked by `v` for `damage`: the target
/// loses that much health, down to zero at most; nothing else changes.
pub open spec fn attack_resolved(old: &World, new: &World, actor: Id, v: Point, damage: i32) -> bool {
    &&& same_schedule(old, new)
    &&& same_attributes(old, new)
    &&& new.position == old.position
    &&& match attack_target(old, actor, v) {
        Some(t) => new.health.values() == old.health.values().insert(
            t@,
            after_damage(old.health.values()[t@], damage),
        ),
        None => new.health == old.health,
    }
}

/// `new` is `old` after `actor` performed `action`.
pub open spec fn action_resolved(old: &World, new: &World, actor: Id, action: Action) -> bool {
    match action {
        Action::Move(v) => move_resolved(old, new, actor, v),
        Action::Attack(v, damage) => attack_resolved(old, new, actor, v, damage),
    }
}

/// Resolves `action` for entity `id`.
pub fn update_action(world: &mut World, id: Id, action: Action)
    requires
        old(world).wf(),
    ensures
        final(world).wf(),
        action_resolved(old(world), final(world), id, action),
{
    match action {
        Action::Move(vector) => update_move(world, id, vector),
        Action::Attack(vector, damage) => update_attack(world, id, vector, damage),
    }
}

fn aimed(world: &World, id: Id, vector: (i32, i32)) -> (r: Option<Point>)
    ensures
        r == aimed_cell(world, id, vector),
{
    let position = match world.position.get(&id) {
        Some(position) => *position,
        None => return None,
    };
    let x = match position.0.checked_add(vector.0) {
        Some(x) => x,
        None => return None,
    };
    let y = match position.1.checked_add(vector.1) {
        Some(y) => y,
        None => return None,
    };
    Some((x, y))
}

fn update_move(world: &mut World, id: Id, vector: (i32, i32))
    requires
        old(world).wf(),
    ensures
        final(world).wf(),
        move_resolved(old(world), final(world), id, vector),
{
    let destination = match aimed(world, id, vector) {
        Some(destination) => destination,
        None => return,
    };
    let mut is_blocked = false;
    proof {
        lemma_cell_members(world.position, destination);
    }
    if let Some(ids) = world.position.at(destination) {
        let mut j: usize = 0;
        while j < ids.len() && !is_blocked
            invariant
                0 <= j <= ids@.len(),
                ids@ == world.position.cell(destination),
                forall|e: Id| #[trigger]
                    world.position.cell(destination).contains(e) <==> world.position.located(
                        e,
                        destination,
                    ),
                is_blocked ==> blocked(world, id, destination),
                !is_blocked ==> forall|k: int|
                    0 <= k < j ==> ids@[k] == id || !world.solidity.members().contains(
                        #[trigger] ids@[k]@,
                    ),
            decreases ids@.len() - j + if is_blocked { 0int } else { 1int },
        {
            let target_id = ids[j];
            if target_id != id && world.solidity.contains(&target_id) {
                assert(ids@.contains(target_id));
                assert(world.position.located(target_id, destination));
                is_blocked = true;
            } else {
                j = j + 1;
            }
        }
        proof {
            if !is_blocked {
                assert forall|e: Id| #[trigger] world.position.located(e, destination) && e != id
                    implies !world.solidity.members().contains(e@) by {
                    assert(ids@.contains(e));
                    let k = choose|k: int| 0 <= k < ids@.len() && ids@[k] == e;
                    assert(ids@[k] == id || !world.solidity.members().contains(ids@[k]@));
                }
            }
        }
    } else {
        proof {
            assert forall|e: Id| #[trigger] world.position.located(e, destination) implies false by {
                assert(world.position.cell(destination).contains(e));
            }
        }
    }
    if !is_blocked {
        world.position.insert(id, destination);
    }
}

fn update_attack(world: &mut World, id: Id, vector: (i32, i32), damage: i32)
    requires
        old(world).wf(),
    ensures
        final(world).wf(),
        attack_resolved(old(world), final(world), id, vector, damage),
{
    let destination = match aimed(world, id, vector) {
        Some(destination) => destination,
        None => return,
    };
    let ids = match world.position.at(destination) {
        Some(ids) => ids,
        None => return,
    };
    let mut target_id: Option<Id> = None;
    let mut j: usize = 0;
    assert(ids@.subrange(0, ids@.len() as int) =~= ids@);
    while j < ids.len() && target_id.is_none()
        invariant
            0 <= j <= ids@.len(),
            ids@ == world.position.cell(destination),
            target_id is None ==> first_with_health(world, ids@) == first_with_health(
                world,
                ids@.subrange(j as int, ids@.len() as int),
            ),
            target_id matches Some(t) ==> first_with_health(world, ids@) == Some(t),
        decreases ids@.len() - j + if target_id is None { 1int } else { 0int },
    {
        let candidate = ids[j];
        proof {
            let rest = ids@.subrange(j as int, ids@.len() as int);
            assert(rest.drop_first() =~= ids@.subrange(j + 1, ids@.len() as int));
            assert(rest[0] == candidate);
        }
        if world.health.contains_key(&candidate) {
            target_id = Some(candidate);
        } else {
            j = j + 1;
        }
    }
    let target_id = match target_id {
        Some(target_id) => target_id,
        None => {
            assert(ids@.subrange(ids@.len() as int, ids@.len() as int) =~= Seq::<Id>::empty());
            return;
        },
    };
    proof {
        lemma_first_with_health(world, ids@);
    }
    let health = match world.health.get(&target_id) {
        Some(health) => *health,
        None => return,
    };
    let reduced = health as i64 - damage as i64;
    let clamped: i32 = if reduced < 0 {
        0
    } else if reduced > i32::MAX as i64 {
        i32::MAX
    } else {
        reduced as i32
    };
    world.health.insert(target_id, clamped);
}

/// An attack never leaves health below zero; when it brings health down to
/// zero the target keeps its place in the world until the next sweep of
/// dead entities.
pub proof fn lemma_attack_clamps(old: &World, new: &World, actor: Id, v: Point, damage: i32)
    requires
        attack_resolved(old, new, actor, v, damage),
    ensures
        attack_target(old, actor, v) matches Some(t) ==> {
            &&& new.health.values().contains_key(t@)
            &&& new.health.values()[t@] >= 0
            &&& damage >= 0 && old.health.values()[t@] >= damage ==> new.health.values()[t@]
                == old.health.values()[t@] - damage
            &&& new.position.positions() == old.position.positions()
        },
{
}

} // verus!
