use vstd::prelude::*;
use crate::id::Id;
use crate::relations::{Comparable, HasMany};
use crate::world::World;
use vstd::string::StringSliceAdditionalSpecFns;

verus! {

/// What an activity does.
#[derive(Debug, Clone, Copy, PartialEq, Eq, Structural)]
pub enum ActivityType {
    Wait(),
    Step(),
    MeleeAttack(i32),
}

/// One thing an entity can do on its turn, and how long it takes.
#[derive(Debug, Clone, Copy)]
pub struct Activity {
    pub name: &'static str,
    pub speed: usize,
    pub activity_type: ActivityType,
}

impl Comparable for Activity {
    open spec fn same(&self, other: &Self) -> bool {
        &&& self.name.spec_bytes() == other.name.spec_bytes()
        &&& self.speed == other.speed
        &&& self.activity_type == other.activity_type
    }

    fn is_same(&self, other: &Self) -> (r: bool) {
        if self.speed != other.speed || self.activity_type != other.activity_type {
            return false;
        }
        let a = self.name.as_bytes();
        let b = other.name.as_bytes();
        if a.len() != b.len() {
            assert(a@.len() != b@.len());
            return false;
        }
        let mut j: usize = 0;
        while j < a.len()
            invariant
                a@ == self.name.spec_bytes(),
                b@ == other.name.spec_bytes(),
                a@.len() == b@.len(),
                0 <= j <= a@.len(),
                forall|k: int| 0 <= k < j ==> a@[k] == b@[k],
            decreases a@.len() - j,
        {
            if a[j] != b[j] {
                assert(a@[j as int] != b@[j as int]);
                assert(a@ != b@);
                return false;
            }
            j = j + 1;
        }
        assert(a@ =~= b@);
        true
    }
}

/// The activities that entity `e` provides itself, each tagged with `e`.
pub open spec fn own_activities(provided: HasMany<Activity>, e: Id) -> Seq<(Id, Activity)> {
    if provided.values().contains_key(e@) {
        provided.values()[e@].map_values(|a: Activity| (e, a))
    } else {
        Seq::empty()
    }
}

/// The activities of each of `items` in turn, each tagged with its item.
pub open spec fn activities_of_items(provided: HasMany<Activity>, items: Seq<Id>) -> Seq<(Id, Activity)>
    decreases items.len(),
{
    if items.len() == 0 {
        Seq::empty()
    } else {
        activities_of_items(provided, items.drop_last()) + own_activities(provided, items.last())
    }
}

/// Everything entity `e` can do: its own activities first, then those of
/// the items it holds, in the order it took them.
pub open spec fn available_activities(w: &World, e: Id) -> Seq<(Id, Activity)> {
    own_activities(w.provides_activity, e) + activities_of_items(
        w.provides_activity,
        w.held_by.lefts_in_order(e),
    )
}

/// The items that `id` holds, in the order it took them.
pub fn held_items(world: &World, id: Id) -> (r: Vec<Id>)
    requires
        world.wf(),
    ensures
        r@ == world.held_by.lefts_in_order(id),
{
    let mut r: Vec<Id> = Vec::new();
    if let Some(items) = world.held_by.get_lefts(&id) {
        let mut j: usize = 0;
        while j < items.len()
            invariant
                0 <= j <= items@.len(),
                r@ == items@.subrange(0, j as int),
            decreases items@.len() - j,
        {
            r.push(items[j]);
            j = j + 1;
        }
        assert(items@.subrange(0, items@.len() as int) =~= items@);
    }
    r
}

/// Appends the activities of `e`, tagged with `e`, to `out`.
fn push_own_activities(world: &World, e: Id, out: &mut Vec<(Id, Activity)>)
    ensures
        final(out)@ == old(out)@ + own_activities(world.provides_activity, e),
{
    if let Some(activities) = world.provides_activity.get(&e) {
        let ghost start = out@;
        let mut j: usize = 0;
        while j < activities.len()
            invariant
                0 <= j <= activities@.len(),
                out@ == start + activities@.subrange(0, j as int).map_values(
                    |a: Activity| (e, a),
                ),
            decreases activities@.len() - j,
        {
            out.push((e, activities[j]));
            j = j + 1;
            assert(out@ =~= start + activities@.subrange(0, j as int).map_values(
                |a: Activity| (e, a),
            ));
        }
        assert(activities@.subrange(0, activities@.len() as int) =~= activities@);
    } else {
        assert(out@ =~= old(out)@ + own_activities(world.provides_activity, e));
    }
}

/// Everything `id` can do, tagged with the entity that provides it: its
/// own activities, then those of each item it holds.
pub fn collect_activities(world: &World, id: Id) -> (r: Vec<(Id, Activity)>)
    requires
        world.wf(),
    ensures
        r@ == available_activities(world, id),
{
    let mut r: Vec<(Id, Activity)> = Vec::new();
    push_own_activities(world, id, &mut r);
    let ghost own = r@;
    let items = held_items(world, id);
    let mut j: usize = 0;
    while j < items.len()
        invariant
            0 <= j <= items@.len(),
            r@ == own + activities_of_items(world.provides_activity, items@.subrange(0, j as int)),
        decreases items@.len() - j,
    {
        push_own_activities(world, items[j], &mut r);
        proof {
            let next = items@.subrange(0, j + 1);
            assert(next.drop_last() =~= items@.subrange(0, j as int));
            assert(next.last() == items@[j as int]);
        }
        j = j + 1;
    }
    assert(items@.subrange(0, items@.len() as int) =~= items@);
    assert(own =~= own_activities(world.provides_activity, id) + Seq::<(Id, Activity)>::empty());
    r
}

} // verus!
