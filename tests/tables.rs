use rust_like::{Activity, ActivityType, HasMany, HasOne, Id, Input, Is, ManyToOne};

#[test]
fn flag_table() {
    let mut is = Is::new();
    assert!(is.insert(Id(1)));
    assert!(!is.insert(Id(1)));
    assert!(is.contains(&Id(1)));
    assert_eq!(is.get(&Id(1)), Some(Id(1)));
    assert_eq!(is.get(&Id(2)), None);
    assert!(is.remove(&Id(1)));
    assert!(!is.remove(&Id(1)));
}

#[test]
fn one_value_table() {
    let mut t = HasOne::new();
    assert_eq!(t.insert(Id(3), 'a'), None);
    assert_eq!(t.insert(Id(3), 'b'), Some('a'));
    assert_eq!(t.get(&Id(3)), Some(&'b'));
    assert!(t.contains_key(&Id(3)));
    assert_eq!(t.keys(), vec![Id(3)]);
    assert_eq!(t.remove(&Id(3)), Some('b'));
    assert!(!t.contains_key(&Id(3)));
}

#[test]
fn many_values_keep_their_order_without_repeats() {
    let walk = Activity { name: "Walk", speed: 5, activity_type: ActivityType::Step() };
    let hold = Activity { name: "Hold", speed: 3, activity_type: ActivityType::Wait() };
    let mut t = HasMany::new();
    assert!(t.insert(Id(1), walk));
    assert!(t.insert(Id(1), hold));
    assert!(!t.insert(Id(1), Activity { name: "Walk", speed: 5, activity_type: ActivityType::Step() }));
    let names: Vec<&str> = t.get(&Id(1)).unwrap().iter().map(|a| a.name).collect();
    assert_eq!(names, vec!["Walk", "Hold"]);
    assert!(t.remove_by_right(&Id(1), &walk));
    assert!(!t.remove_by_right(&Id(1), &walk));
    assert!(t.remove_by_right(&Id(1), &hold));
    assert!(!t.contains_key(&Id(1)));
    assert!(t.insert(Id(2), walk));
    assert_eq!(t.remove_by_left(&Id(2)).map(|v| v.len()), Some(1));
}

#[test]
fn holder_table_both_directions() {
    let mut held = ManyToOne::new();
    assert_eq!(held.insert(Id(10), Id(1)), None);
    assert_eq!(held.insert(Id(11), Id(1)), None);
    assert_eq!(held.get_lefts(&Id(1)).unwrap(), &vec![Id(10), Id(11)]);
    assert_eq!(held.insert(Id(10), Id(2)), Some(Id(1)));
    assert_eq!(held.get_lefts(&Id(1)).unwrap(), &vec![Id(11)]);
    assert_eq!(held.get_right(&Id(10)), Some(&Id(2)));
    assert_eq!(held.remove_by_left(&Id(11)), Some(Id(1)));
    assert!(held.get_lefts(&Id(1)).is_none());
    held.insert(Id(12), Id(2));
    let freed = held.remove_by_right(&Id(2)).unwrap();
    assert_eq!(freed.len(), 2);
    assert_eq!(held.get_right(&Id(10)), None);
    assert_eq!(held.get_right(&Id(12)), None);
}

#[test]
fn input_states() {
    let mut input = Input::Key('x');
    assert!(!input.try_consume('y'));
    assert!(input.try_consume('x'));
    assert_eq!(input, Input::Empty);
    assert_eq!(input.take_or_request(), None);
    assert!(input.is_requested());
    assert_eq!(input.take_or_request(), None);
    let mut typed = Input::Key('q');
    assert_eq!(typed.take_or_request(), Some('q'));
    assert_eq!(typed, Input::Empty);
}

#[test]
fn one_value_changed_in_place() {
    let mut t = HasOne::new();
    t.insert(Id(4), 10);
    if let Some(v) = t.get_mut(&Id(4)) {
        *v += 5;
    }
    assert_eq!(t.get(&Id(4)), Some(&15));
    assert!(t.get_mut(&Id(5)).is_none());
}
