use vstd::prelude::*;
use crate::id::Id;
use crate::turn::{turn_done, TurnType};
use crate::world::World;

verus! {

/// Something scheduled on the timeline.
#[derive(Debug)]
pub enum Event {
    /// The turn of an entity.
    Turn(Id, TurnType),
}

/// `new` is `old` after its current event, if any, was taken out and run.
pub open spec fn current_turn_ran(old: &World, new: &World) -> bool {
    match old.current_event {
        None => *new == *old,
        Some(Event::Turn(id, turn)) => turn_done(
            &World { current_event: None, ..*old },
            new,
            id,
            turn,
        ),
    }
}

/// Runs the current event, if any, taking it out of the world first.
pub fn update_current_event(world: &mut World)
    requires
        old(world).wf(),
    ensures
        final(world).wf(),
        current_turn_ran(old(world), final(world)),
{
    let current_event = world.current_event.take();
    match current_event {
        None => {},
        Some(Event::Turn(id, turn)) => turn.update(world, id),
    }
}

} // verus!
