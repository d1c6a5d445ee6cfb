use rust_like::action::Action;
use rust_like::ai::{pick_ai_action, pick_melee_attack, pick_step, Ai};
use rust_like::{Activity, ActivityType, Id, World};

fn goblin(world: &mut World, at: (i32, i32), with_club: bool) -> Id {
    let player = world.view_target;
    let id = Id::new(&mut world.ids);
    world.position.insert(id, at);
    world.ai.insert(id, Ai { target: player });
    world.provides_activity.insert(
        id,
        Activity { name: "Walk", speed: 10, activity_type: ActivityType::Step() },
    );
    if with_club {
        let club = Id::new(&mut world.ids);
        world.provides_activity.insert(
            club,
            Activity { name: "Wallop", speed: 7, activity_type: ActivityType::MeleeAttack(2) },
        );
        world.held_by.insert(club, id);
    }
    id
}

#[test]
fn greedy_step_follows_the_longer_axis() {
    let mut world = World::new();
    let player = world.view_target;
    world.position.insert(player, (0, 0));
    let g = goblin(&mut world, (5, 2), false);
    match pick_ai_action(&world, g) {
        (10, Some(Action::Move(v))) => assert_eq!(v, (-1, 0)),
        other => panic!("unexpected {:?}", other),
    }
}

#[test]
fn greedy_tie_goes_vertical() {
    let mut world = World::new();
    let player = world.view_target;
    world.position.insert(player, (0, 0));
    let g = goblin(&mut world, (3, -3), false);
    match pick_ai_action(&world, g) {
        (10, Some(Action::Move(v))) => assert_eq!(v, (0, 1)),
        other => panic!("unexpected {:?}", other),
    }
}

#[test]
fn adjacent_target_is_attacked_with_the_held_weapon() {
    let mut world = World::new();
    let player = world.view_target;
    world.position.insert(player, (0, 0));
    let g = goblin(&mut world, (0, 1), true);
    match pick_ai_action(&world, g) {
        (7, Some(Action::Attack(v, 2))) => assert_eq!(v, (0, -1)),
        other => panic!("unexpected {:?}", other),
    }
}

#[test]
fn flow_field_wins_over_greedy() {
    let mut world = World::new();
    let player = world.view_target;
    world.position.insert(player, (0, 0));
    let g = goblin(&mut world, (2, 0), false);
    world.navigation.set_value((2, 1), 1);
    world.navigation.set_value((1, 0), 9);
    match pick_ai_action(&world, g) {
        (10, Some(Action::Move(v))) => assert_eq!(v, (0, 1)),
        other => panic!("unexpected {:?}", other),
    }
}

#[test]
fn no_ai_no_action() {
    let world = World::new();
    let id = world.view_target;
    assert!(pick_ai_action(&world, id).1.is_none());
    assert_eq!(pick_ai_action(&world, id).0, 1);
}

#[test]
fn first_matching_activities_are_picked() {
    let me = Id(7);
    let list = vec![
        (me, Activity { name: "Hold", speed: 3, activity_type: ActivityType::Wait() }),
        (me, Activity { name: "Jab", speed: 4, activity_type: ActivityType::MeleeAttack(1) }),
        (me, Activity { name: "Walk", speed: 6, activity_type: ActivityType::Step() }),
        (me, Activity { name: "Run", speed: 2, activity_type: ActivityType::Step() }),
        (me, Activity { name: "Slam", speed: 9, activity_type: ActivityType::MeleeAttack(4) }),
    ];
    assert_eq!(pick_step(&list), Some(6));
    assert_eq!(pick_melee_attack(&list), Some((4, 1)));
    assert_eq!(pick_step(&Vec::new()), None);
    assert_eq!(pick_melee_attack(&list[..1].to_vec()), None);
}
