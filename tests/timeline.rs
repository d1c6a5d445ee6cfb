use rust_like::Timeline;

#[test]
fn earliest_entry_comes_out_first() {
    let mut timeline = Timeline::new();
    timeline.push(5, 'A');
    timeline.push(5, 'B');
    timeline.push(3, 'C');
    assert_eq!(timeline.pop(), Some((3, 'C')));
    let second = timeline.pop().unwrap();
    let third = timeline.pop().unwrap();
    assert_eq!(second.0, 5);
    assert_eq!(third.0, 5);
    let mut rest = vec![second.1, third.1];
    rest.sort();
    assert_eq!(rest, vec!['A', 'B']);
    assert_eq!(timeline.pop(), None);
}

#[test]
fn equal_times_before_later_times() {
    let mut timeline = Timeline::new();
    timeline.push(9, "late");
    timeline.push(5, "a");
    timeline.push(5, "b");
    timeline.push(3, "first");
    assert_eq!(timeline.pop().unwrap().0, 3);
    assert_eq!(timeline.pop().unwrap().0, 5);
    assert_eq!(timeline.pop().unwrap().0, 5);
    assert_eq!(timeline.pop(), Some((9, "late")));
}

#[test]
fn pops_never_go_back_in_time() {
    let mut timeline = Timeline::new();
    for (i, t) in [7usize, 2, 9, 2, 0, 11, 4, 4, 8].iter().enumerate() {
        timeline.push(*t, i);
    }
    let mut last = 0;
    let mut count = 0;
    while let Some((t, _)) = timeline.pop() {
        assert!(t >= last);
        last = t;
        count += 1;
    }
    assert_eq!(count, 9);
}

#[test]
fn pop_on_empty_gives_none() {
    let mut timeline: Timeline<u8> = Timeline::new();
    assert_eq!(timeline.pop(), None);
    assert_eq!(timeline.len(), 0);
}

#[test]
fn iter_lists_entries_without_taking_them() {
    let mut timeline = Timeline::new();
    timeline.push(4, 'x');
    timeline.push(1, 'y');
    let listed = timeline.iter();
    assert_eq!(listed.len(), 2);
    assert_eq!(listed[0], (4, &'x'));
    assert_eq!(listed[1], (1, &'y'));
    assert_eq!(timeline.len(), 2);
}
