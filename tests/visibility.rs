use rust_like::grid;
use rust_like::{FieldOfView, VisibilityCache};
use std::rc::Rc;

fn points(a: (i32, i32), b: (i32, i32)) -> Vec<(i32, i32)> {
    let mut cells = grid::line(a, b);
    let mut out = Vec::new();
    while let Some(p) = cells.next() {
        out.push(p);
    }
    out
}

#[test]
fn line_runs_from_end_to_end() {
    assert_eq!(points((0, 0), (3, 1)), vec![(0, 0), (1, 0), (2, 1), (3, 1)]);
    assert_eq!(points((0, 0), (1, 3)), vec![(0, 0), (0, 1), (1, 2), (1, 3)]);
    assert_eq!(points((0, 0), (3, 2)), vec![(0, 0), (1, 1), (2, 1), (3, 2)]);
    assert_eq!(points((2, 2), (2, 2)), vec![(2, 2)]);
    assert_eq!(points((1, 1), (-2, 1)), vec![(1, 1), (0, 1), (-1, 1), (-2, 1)]);
}

#[test]
fn transparent_world_shows_the_whole_disk() {
    let cache = Rc::new(VisibilityCache::new(3));
    let mut fov = FieldOfView::new(cache);
    fov.update(|_| false);
    for x in -5..=5 {
        for y in -5..=5 {
            assert_eq!(fov.is_visible((x, y)), x * x + y * y <= 9, "cell {:?}", (x, y));
        }
    }
}

#[test]
fn own_cell_is_always_visible() {
    let cache = Rc::new(VisibilityCache::new(4));
    let mut fov = FieldOfView::new(cache);
    fov.update(|_| true);
    assert!(fov.is_visible((0, 0)));
    assert!(!fov.is_visible((1, 0)));
    assert!(!fov.is_visible((0, 2)));
}

#[test]
fn nothing_is_visible_before_the_first_refresh() {
    let cache = Rc::new(VisibilityCache::new(2));
    let fov = FieldOfView::new(cache);
    assert!(!fov.is_visible((0, 0)));
    assert!(!fov.is_visible((1, 1)));
}

#[test]
fn wall_is_seen_but_not_through() {
    let cache = Rc::new(VisibilityCache::new(5));
    let mut fov = FieldOfView::new(cache);
    fov.update(|p| p == (2, 0));
    assert!(fov.is_visible((1, 0)));
    assert!(fov.is_visible((2, 0)));
    assert!(!fov.is_visible((3, 0)));
    assert!(!fov.is_visible((4, 0)));
    assert!(fov.is_visible((-4, 0)));
}

#[test]
fn clear_hides_everything() {
    let cache = Rc::new(VisibilityCache::new(3));
    let mut fov = FieldOfView::new(cache);
    fov.update(|_| false);
    assert!(fov.is_visible((1, 1)));
    fov.clear();
    assert!(!fov.is_visible((0, 0)));
    assert!(!fov.is_visible((1, 1)));
}

#[test]
fn refresh_forgets_what_was_seen_before() {
    let cache = Rc::new(VisibilityCache::new(3));
    let mut fov = FieldOfView::new(cache);
    fov.update(|_| false);
    assert!(fov.is_visible((3, 0)));
    fov.update(|p| p == (1, 0));
    assert!(fov.is_visible((1, 0)));
    assert!(!fov.is_visible((3, 0)));
}

#[test]
fn line_at_the_edge_of_the_grid() {
    assert_eq!(
        points((i32::MAX - 2, 5), (i32::MAX, 4)),
        vec![(i32::MAX - 2, 5), (i32::MAX - 1, 4), (i32::MAX, 4)]
    );
    assert_eq!(points((i32::MIN, 0), (i32::MIN, 2)), vec![(i32::MIN, 0), (i32::MIN, 1), (i32::MIN, 2)]);
}

#[test]
fn radius_zero_sees_only_its_own_cell() {
    let cache = Rc::new(VisibilityCache::new(0));
    let mut fov = FieldOfView::new(cache);
    fov.update(|_| false);
    assert!(fov.is_visible((0, 0)));
    assert!(!fov.is_visible((1, 0)));
    assert!(!fov.is_visible((0, -1)));
}
