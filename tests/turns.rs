use rust_like::event::update_current_event;
use rust_like::turn::Ai;
use rust_like::world::update_dead_entities;
use rust_like::{Activity, ActivityType, Controls, Event, Id, Input, Player, TurnType, World};

fn controls() -> Controls {
    Controls {
        act_up: 'k',
        act_down: 'j',
        act_left: 'h',
        act_right: 'l',
        act_center: 'g',
        activity_previous: 'y',
        activity_next: 'u',
    }
}

fn walker(world: &mut World) -> Id {
    let player = world.view_target;
    world.position.insert(player, (0, 0));
    world.controls.insert(player, controls());
    world.provides_activity.insert(
        player,
        Activity { name: "Walk", speed: 5, activity_type: ActivityType::Step() },
    );
    player
}

fn press(world: &mut World, player: Id, index: usize, key: char) {
    world.input = Input::Key(key);
    world.current_event = Some(Event::Turn(player, TurnType::Player(Player { selected_activity_index: index })));
    update_current_event(world);
}

fn next_scheduled(world: &mut World) -> (usize, Id, usize) {
    match world.timeline.pop() {
        Some((time, Event::Turn(id, TurnType::Player(p)))) => (time, id, p.selected_activity_index),
        _ => panic!("no player turn scheduled"),
    }
}

#[test]
fn step_into_an_empty_cell() {
    let mut world = World::new();
    let player = walker(&mut world);
    world.time = 10;
    press(&mut world, player, 0, 'l');
    assert_eq!(world.position.get(&player), Some(&(1, 0)));
    assert!(world.current_event.is_none());
    assert_eq!(next_scheduled(&mut world), (15, player, 0));
}

#[test]
fn step_into_a_wall_wastes_the_turn() {
    let mut world = World::new();
    let player = walker(&mut world);
    let wall = Id::new(&mut world.ids);
    world.position.insert(wall, (1, 0));
    world.solidity.insert(wall);
    world.time = 10;
    press(&mut world, player, 0, 'l');
    assert_eq!(world.position.get(&player), Some(&(0, 0)));
    assert_eq!(next_scheduled(&mut world), (15, player, 0));
}

#[test]
fn non_solid_neighbour_does_not_block() {
    let mut world = World::new();
    let player = walker(&mut world);
    let rug = Id::new(&mut world.ids);
    world.position.insert(rug, (0, 1));
    press(&mut world, player, 0, 'j');
    assert_eq!(world.position.get(&player), Some(&(0, 1)));
    assert_eq!(world.position.at((0, 1)).unwrap().len(), 2);
}

#[test]
fn selection_wraps_both_ways() {
    let mut world = World::new();
    let player = walker(&mut world);
    world.provides_activity.insert(
        player,
        Activity { name: "Hold", speed: 3, activity_type: ActivityType::Wait() },
    );
    let sword = Id::new(&mut world.ids);
    world.provides_activity.insert(
        sword,
        Activity { name: "Stab", speed: 5, activity_type: ActivityType::MeleeAttack(1) },
    );
    world.held_by.insert(sword, player);
    press(&mut world, player, 0, 'y');
    match &world.current_event {
        Some(Event::Turn(_, TurnType::Player(p))) => assert_eq!(p.selected_activity_index, 2),
        _ => panic!("turn not re-armed"),
    }
    press(&mut world, player, 2, 'u');
    match &world.current_event {
        Some(Event::Turn(_, TurnType::Player(p))) => assert_eq!(p.selected_activity_index, 0),
        _ => panic!("turn not re-armed"),
    }
    assert_eq!(world.timeline.len(), 0);
}

#[test]
fn missing_input_is_requested() {
    let mut world = World::new();
    let player = walker(&mut world);
    world.input = Input::Empty;
    world.current_event = Some(Player::new_turn(player));
    update_current_event(&mut world);
    assert_eq!(world.input, Input::Requested);
    assert!(world.current_event.is_some());
    assert_eq!(world.position.get(&player), Some(&(0, 0)));
}

#[test]
fn unknown_key_rearms_the_turn() {
    let mut world = World::new();
    let player = walker(&mut world);
    press(&mut world, player, 0, 'z');
    assert_eq!(world.input, Input::Empty);
    assert!(world.current_event.is_some());
    assert_eq!(world.timeline.len(), 0);
}

#[test]
fn wait_schedules_without_moving() {
    let mut world = World::new();
    let player = world.view_target;
    world.position.insert(player, (4, 4));
    world.controls.insert(player, controls());
    world.provides_activity.insert(
        player,
        Activity { name: "Hold", speed: 3, activity_type: ActivityType::Wait() },
    );
    press(&mut world, player, 0, 'k');
    assert_eq!(world.position.get(&player), Some(&(4, 4)));
    assert_eq!(next_scheduled(&mut world), (3, player, 0));
}

#[test]
fn attack_clamps_health_and_sweep_removes() {
    let mut world = World::new();
    let player = world.view_target;
    world.position.insert(player, (0, 0));
    world.controls.insert(player, controls());
    world.provides_activity.insert(
        player,
        Activity { name: "Smash", speed: 4, activity_type: ActivityType::MeleeAttack(5) },
    );
    let goblin = Id::new(&mut world.ids);
    world.position.insert(goblin, (1, 0));
    world.health.insert(goblin, 2);
    press(&mut world, player, 0, 'l');
    assert_eq!(world.health.get(&goblin), Some(&0));
    assert_eq!(world.position.get(&goblin), Some(&(1, 0)));
    update_dead_entities(&mut world);
    assert_eq!(world.health.get(&goblin), None);
    assert_eq!(world.position.get(&goblin), None);
    assert_eq!(world.position.get(&player), Some(&(0, 0)));
}

#[test]
fn ai_resolves_its_pending_action_then_plans() {
    let mut world = World::new();
    let player = world.view_target;
    world.position.insert(player, (0, 0));
    world.health.insert(player, 3);
    let goblin = Id::new(&mut world.ids);
    world.position.insert(goblin, (3, 0));
    world.ai.insert(goblin, rust_like::ai::Ai { target: player });
    world.provides_activity.insert(
        goblin,
        Activity { name: "Walk", speed: 10, activity_type: ActivityType::Step() },
    );
    world.current_event = Some(Ai::new_turn(goblin));
    update_current_event(&mut world);
    assert_eq!(world.position.get(&goblin), Some(&(3, 0)));
    let (time, event) = world.timeline.pop().unwrap();
    assert_eq!(time, 10);
    world.time = time;
    world.current_event = Some(event);
    update_current_event(&mut world);
    assert_eq!(world.position.get(&goblin), Some(&(2, 0)));
}

#[test]
fn ai_without_step_goes_idle() {
    let mut world = World::new();
    let player = world.view_target;
    world.position.insert(player, (0, 0));
    let statue = Id::new(&mut world.ids);
    world.position.insert(statue, (2, 2));
    world.ai.insert(statue, rust_like::ai::Ai { target: player });
    world.current_event = Some(Ai::new_turn(statue));
    update_current_event(&mut world);
    assert_eq!(world.timeline.len(), 0);
    assert_eq!(world.position.get(&statue), Some(&(2, 2)));
}
