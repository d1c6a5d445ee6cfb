use rust_like::{Id, IdGenerator, SpatialMap};

fn ids(n: usize) -> Vec<Id> {
    let mut generator = IdGenerator::new();
    (0..n).map(|_| Id::new(&mut generator)).collect()
}

#[test]
fn insert_places_and_reports_previous_cell() {
    let e = ids(1)[0];
    let mut map = SpatialMap::new();
    assert_eq!(map.insert(e, (1, 2)), None);
    assert_eq!(map.get(&e), Some(&(1, 2)));
    assert_eq!(map.insert(e, (3, 4)), Some((1, 2)));
    assert_eq!(map.get(&e), Some(&(3, 4)));
    assert!(map.at((1, 2)).is_none());
    assert_eq!(map.at((3, 4)).unwrap(), &vec![e]);
}

#[test]
fn many_entities_share_a_cell() {
    let all = ids(3);
    let mut map = SpatialMap::new();
    for e in &all {
        map.insert(*e, (0, 0));
    }
    let cell = map.at((0, 0)).unwrap();
    assert_eq!(cell.len(), 3);
    for e in &all {
        assert!(cell.contains(e));
    }
}

#[test]
fn remove_clears_both_directions() {
    let all = ids(2);
    let mut map = SpatialMap::new();
    map.insert(all[0], (5, 5));
    map.insert(all[1], (5, 5));
    assert_eq!(map.remove(&all[0]), Some((5, 5)));
    assert_eq!(map.get(&all[0]), None);
    assert_eq!(map.at((5, 5)).unwrap(), &vec![all[1]]);
    assert_eq!(map.remove(&all[1]), Some((5, 5)));
    assert!(map.at((5, 5)).is_none());
    assert_eq!(map.remove(&all[1]), None);
}

#[test]
fn cells_and_positions_agree_after_many_moves() {
    let all = ids(6);
    let mut map = SpatialMap::new();
    let moves = [(0, (0, 0)), (1, (0, 0)), (2, (1, 0)), (0, (1, 0)), (3, (2, 2)), (1, (2, 2)), (4, (0, 0)), (5, (1, 0))];
    for (k, c) in moves.iter() {
        map.insert(all[*k], *c);
    }
    map.remove(&all[2]);
    map.remove(&all[4]);
    for x in -1..4 {
        for y in -1..4 {
            for e in &all {
                let in_cell = map.at((x, y)).map_or(false, |cell| cell.contains(e));
                assert_eq!(in_cell, map.get(e) == Some(&(x, y)));
            }
        }
    }
}

#[test]
fn identities_count_up_and_wrap_at_the_end() {
    let mut generator = IdGenerator::new();
    assert_eq!(Id::new(&mut generator), Id(0));
    assert_eq!(Id::new(&mut generator), Id(1));
    let mut last = IdGenerator::starting_at(usize::MAX);
    assert_eq!(Id::new(&mut last), Id(usize::MAX));
    assert_eq!(Id::new(&mut last), Id(0));
}

#[test]
fn extreme_coordinates_are_fine() {
    let e = ids(1)[0];
    let mut map = SpatialMap::new();
    map.insert(e, (i32::MIN, i32::MAX));
    assert_eq!(map.get(&e), Some(&(i32::MIN, i32::MAX)));
    assert_eq!(map.at((i32::MIN, i32::MAX)).unwrap(), &vec![e]);
}
