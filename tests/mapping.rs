use rust_like::grid::spiral;
use rust_like::mapping::{hash_u32, Random};

#[test]
fn hash_scrambles_bits() {
    assert_eq!(hash_u32(0), 0);
    assert_eq!(hash_u32(1), 1364076727);
    assert_eq!(hash_u32(41), 1862275992);
}

#[test]
fn random_draws_follow_the_hash() {
    let mut random = Random::new(41);
    assert_eq!(random.next_u32(), 1862275992);
    assert_eq!(random.next_u32(), 943189823);
    let mut coin = Random::new(41);
    assert!(coin.bool());
    assert!(!coin.bool());
}

#[test]
fn spiral_walks_out_from_the_centre() {
    let mut cells = spiral((0, 0), 1);
    let mut out = Vec::new();
    while let Some(p) = cells.next() {
        out.push(p);
    }
    assert_eq!(
        out,
        vec![(0, 0), (1, 0), (1, 1), (0, 1), (-1, 1), (-1, 0), (-1, -1), (0, -1), (1, -1)]
    );
}

#[test]
fn spiral_covers_its_square_once() {
    let mut cells = spiral((3, -2), 4);
    let mut out = Vec::new();
    while let Some(p) = cells.next() {
        out.push(p);
    }
    assert_eq!(out.len(), 81);
    let mut sorted = out.clone();
    sorted.sort();
    sorted.dedup();
    assert_eq!(sorted.len(), 81);
    assert!(out.iter().all(|(x, y)| (x - 3).abs() <= 4 && (y + 2).abs() <= 4));
}
