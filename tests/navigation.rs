use rust_like::Navigation;

#[test]
fn best_neighbor_picks_smallest_finite_value() {
    let mut nav = Navigation::new();
    nav.set_value((-1, 0), 4);
    nav.set_value((1, 0), 2);
    nav.set_value((0, -1), usize::MAX);
    nav.set_value((0, 1), 2);
    assert_eq!(nav.best_neighbor((0, 0)), Some(((1, 0), 2)));
    assert_eq!(nav.best_neighbor((5, 5)), None);
}

#[test]
fn unreachable_cells_are_skipped() {
    let mut nav = Navigation::new();
    nav.set_value((0, 1), usize::MAX);
    assert_eq!(nav.best_neighbor((0, 0)), None);
}

#[test]
fn calculate_spreads_distances() {
    let mut nav = Navigation::new();
    for x in 0..5 {
        nav.set_value((x, 0), usize::MAX);
    }
    nav.set_value((0, 0), 0);
    nav.set_value((9, 9), usize::MAX);
    nav.calculate();
    for x in 0..5 {
        assert_eq!(nav.get_value((x, 0)), Some(x as usize));
    }
    assert_eq!(nav.get_value((9, 9)), Some(usize::MAX));
    assert_eq!(nav.get_value((7, 7)), None);
}

#[test]
fn reset_forgets_everything() {
    let mut nav = Navigation::new();
    nav.set_value((1, 1), 3);
    nav.reset();
    assert_eq!(nav.get_value((1, 1)), None);
}
