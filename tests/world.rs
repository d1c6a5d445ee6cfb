use rust_like::world::{can_see, update_dead_entities, update_fov, update_navigation, update_timeline};
use rust_like::{Activity, ActivityType, Controls, Event, FieldOfView, Id, Input, Player, TurnType, ViewType, VisibilityCache, World};
use std::rc::Rc;

fn keys() -> Controls {
    Controls {
        act_up: 'k',
        act_down: 'j',
        act_left: 'h',
        act_right: 'l',
        act_center: 'g',
        activity_previous: 'y',
        activity_next: 'u',
    }
}

fn seeing_player(world: &mut World, radius: i32) -> Id {
    let player = world.view_target;
    world.position.insert(player, (0, 0));
    world.controls.insert(player, keys());
    world.health.insert(player, 3);
    world.fov.insert(player, FieldOfView::new(Rc::new(VisibilityCache::new(radius))));
    world.provides_activity.insert(
        player,
        Activity { name: "Walk", speed: 5, activity_type: ActivityType::Step() },
    );
    world.timeline.push(0, Player::new_turn(player));
    player
}

#[test]
fn one_key_runs_until_input_is_needed_again() {
    let mut world = World::new();
    let player = seeing_player(&mut world, 4);
    world.startup();
    assert!(world.current_event.is_some());
    assert_eq!(can_see(&world, player, player), Some(true));
    let last = world.accept_input('l');
    assert_eq!(last, 0);
    let mut rounds = 0;
    while world.step(last) {
        rounds += 1;
        assert!(rounds < 10);
    }
    assert_eq!(world.position.get(&player), Some(&(1, 0)));
    assert_eq!(world.time, 5);
    assert_eq!(world.input, Input::Requested);
    match &world.current_event {
        Some(Event::Turn(id, TurnType::Player(_))) => assert_eq!(*id, player),
        _ => panic!("the player's next turn should be current"),
    }
}

#[test]
fn step_without_turns_stops() {
    let mut world = World::new();
    assert!(!world.step(0));
    assert!(world.current_event.is_none());
}

#[test]
fn view_keys_switch_the_view() {
    let mut world = World::new();
    world.accept_input('2');
    assert_eq!(world.view_type, ViewType::Navigation);
    assert_eq!(world.input, Input::Empty);
    world.accept_input('3');
    assert_eq!(world.view_type, ViewType::Revealed);
    world.accept_input('1');
    assert_eq!(world.view_type, ViewType::Normal);
    world.accept_input('x');
    assert_eq!(world.input, Input::Key('x'));
}

#[test]
fn walls_hide_what_is_behind_them() {
    let mut world = World::new();
    let player = seeing_player(&mut world, 6);
    let wall = Id::new(&mut world.ids);
    world.position.insert(wall, (2, 0));
    world.opacity.insert(wall);
    let behind = Id::new(&mut world.ids);
    world.position.insert(behind, (4, 0));
    let beside = Id::new(&mut world.ids);
    world.position.insert(beside, (0, 3));
    update_fov(&mut world);
    assert_eq!(can_see(&world, player, wall), Some(true));
    assert_eq!(can_see(&world, player, behind), Some(false));
    assert_eq!(can_see(&world, player, beside), Some(true));
    assert_eq!(can_see(&world, wall, player), None);
}

#[test]
fn viewer_without_place_sees_nothing() {
    let mut world = World::new();
    let player = seeing_player(&mut world, 3);
    update_fov(&mut world);
    world.position.remove(&player);
    update_fov(&mut world);
    assert!(!world.fov.get(&player).unwrap().is_visible((0, 0)));
}

#[test]
fn flow_field_starts_at_the_viewed_entity() {
    let mut world = World::new();
    let player = seeing_player(&mut world, 2);
    world.position.insert(player, (3, 4));
    update_navigation(&mut world);
    assert_eq!(world.navigation.get_value((3, 4)), Some(0));
    world.health.remove(&player);
    update_navigation(&mut world);
    assert_eq!(world.navigation.get_value((3, 4)), None);
}

#[test]
fn timeline_brings_up_the_earliest_turn() {
    let mut world = World::new();
    let player = world.view_target;
    world.timeline.push(8, Player::new_turn(player));
    world.timeline.push(2, Player::new_turn(player));
    update_timeline(&mut world);
    assert_eq!(world.time, 2);
    assert!(world.current_event.is_some());
    update_timeline(&mut world);
    assert_eq!(world.time, 2);
    assert_eq!(world.timeline.len(), 1);
}

#[test]
fn removing_an_entity_frees_its_items() {
    let mut world = World::new();
    let player = seeing_player(&mut world, 2);
    let sword = Id::new(&mut world.ids);
    world.held_by.insert(sword, player);
    world.solidity.insert(player);
    world.remove_entity(&player);
    assert_eq!(world.position.get(&player), None);
    assert!(!world.solidity.contains(&player));
    assert!(world.fov.get(&player).is_none());
    assert!(world.provides_activity.get(&player).is_none());
    assert_eq!(world.held_by.get_right(&sword), None);
}

#[test]
fn dead_view_target_leaves_a_marker() {
    let mut world = World::new();
    let player = seeing_player(&mut world, 2);
    world.position.insert(player, (7, 7));
    world.health.insert(player, 0);
    let upcoming = Id(1);
    update_dead_entities(&mut world);
    assert_ne!(world.view_target, player);
    assert_eq!(world.view_target, upcoming);
    assert_eq!(world.position.get(&world.view_target), Some(&(7, 7)));
    assert_eq!(world.auto_step, Some(10));
    assert_eq!(world.health.get(&player), None);
}

#[test]
fn far_apart_entities_do_not_see_each_other() {
    let mut world = World::new();
    let player = seeing_player(&mut world, 3);
    world.position.insert(player, (i32::MIN, 0));
    let far = Id::new(&mut world.ids);
    world.position.insert(far, (i32::MAX, 0));
    update_fov(&mut world);
    assert_eq!(can_see(&world, player, far), Some(false));
}
