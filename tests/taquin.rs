use taquin::taquin::{Taquin, TaquinError};
use taquin::tile::{Direction, TileCoordinates, TileValue};

fn grid(rows: &[&[i8]]) -> Taquin {
    let rows: Vec<Vec<TileValue>> = rows
        .iter()
        .map(|r| r.iter().map(|v| TileValue(*v)).collect())
        .collect();
    Taquin::from_rows(&rows).unwrap()
}

#[test]
fn test_is_solvable() {
    assert_eq!(grid(&[&[1, 2], &[3, 4]]).is_solvable(), true);
    assert_eq!(grid(&[&[4, 3], &[2, 1]]).is_solvable(), true);
    assert_eq!(grid(&[&[2, 3], &[1, 4]]).is_solvable(), true);
}

#[test]
fn test_is_not_solvable() {
    assert_eq!(grid(&[&[2, 1], &[3, 4]]).is_solvable(), false);
    assert_eq!(grid(&[&[4, 1], &[2, 3]]).is_solvable(), false);
}

#[test]
fn new_rejects_sizes_out_of_range() {
    for size in [-3i8, 0, 1, 12, 127] {
        assert_eq!(Taquin::new(size).err(), Some(TaquinError::InvalidSize));
    }
    for size in 2i8..=11 {
        let t = Taquin::new(size).unwrap();
        assert_eq!(t.size(), size);
        assert_eq!(t.tiles_nb(), (size as usize) * (size as usize));
    }
}

#[test]
fn new_grid_is_ascending_with_empty_slot_last() {
    let t = Taquin::new(3).unwrap();
    let values: Vec<i8> = t.tiles().iter().map(|v| v.0).collect();
    assert_eq!(values, vec![1, 2, 3, 4, 5, 6, 7, 8, 9]);
    assert!(t.is_solved());
    assert!(t.is_solvable());
    assert_eq!(t.get_inversion_count(), 0);
    assert_eq!(t.get_empty_tile_coordinates(), TileCoordinates::new(2, 2));
    assert_eq!(t.value_at(TileCoordinates::new(1, 2)), TileValue(8));
}

#[test]
fn from_rows_rejects_bad_shapes() {
    let one: Vec<Vec<TileValue>> = vec![vec![TileValue(1)]];
    assert_eq!(Taquin::from_rows(&one).err(), Some(TaquinError::InvalidSize));
    let ragged = vec![vec![TileValue(1), TileValue(2)], vec![TileValue(3)]];
    assert_eq!(Taquin::from_rows(&ragged).err(), Some(TaquinError::InvalidSize));
    let wide = vec![
        vec![TileValue(1), TileValue(2), TileValue(3)],
        vec![TileValue(4), TileValue(5), TileValue(6)],
    ];
    assert_eq!(Taquin::from_rows(&wide).err(), Some(TaquinError::InvalidSize));
}

#[test]
fn from_rows_rejects_non_permutations() {
    let duplicate = vec![vec![TileValue(1), TileValue(1)], vec![TileValue(3), TileValue(4)]];
    assert_eq!(Taquin::from_rows(&duplicate).err(), Some(TaquinError::InvalidTiles));
    let too_large = vec![vec![TileValue(1), TileValue(2)], vec![TileValue(3), TileValue(5)]];
    assert_eq!(Taquin::from_rows(&too_large).err(), Some(TaquinError::InvalidTiles));
    let zero = vec![vec![TileValue(0), TileValue(2)], vec![TileValue(3), TileValue(4)]];
    assert_eq!(Taquin::from_rows(&zero).err(), Some(TaquinError::InvalidTiles));
}

#[test]
fn two_by_two_ascending_is_solved_and_solvable() {
    let t = grid(&[&[1, 2], &[3, 4]]);
    assert!(t.is_solved());
    assert!(t.is_solvable());
    assert_eq!(t.get_empty_tile_coordinates(), TileCoordinates::new(1, 1));
}

#[test]
fn two_by_two_single_inversion_is_not_solvable() {
    let t = grid(&[&[2, 1], &[3, 4]]);
    assert_eq!(t.get_inversion_count(), 1);
    assert_eq!(t.get_empty_tile_coordinates().j, 1);
    assert!(!t.is_solvable());
    assert!(!t.is_solved());
    assert!(!reachable_states(2).contains(&vec![2, 1, 3, 4]));
}

#[test]
fn inversion_count_skips_the_empty_slot() {
    // 9 is the empty slot: only 3>1, 3>2, 5>4 count.
    let t = grid(&[&[9, 3, 1], &[2, 5, 4], &[6, 7, 8]]);
    assert_eq!(t.get_inversion_count(), 3);
    assert_eq!(t.get_empty_tile_coordinates(), TileCoordinates::new(0, 0));
    assert!(!t.is_solvable());
    let t = grid(&[&[1, 2, 3, 4], &[5, 6, 7, 8], &[9, 10, 11, 12], &[13, 15, 14, 16]]);
    assert_eq!(t.get_inversion_count(), 1);
    assert!(!t.is_solvable());
    let t = grid(&[&[1, 2, 3, 4], &[5, 6, 7, 8], &[9, 10, 16, 12], &[13, 14, 11, 15]]);
    assert_eq!(t.get_inversion_count(), 3);
    assert!(t.is_solvable());
}

#[test]
fn is_solved_needs_every_adjacent_pair_increasing() {
    assert!(!grid(&[&[1, 2, 3], &[4, 5, 6], &[7, 9, 8]]).is_solved());
    assert!(!grid(&[&[2, 1, 3], &[4, 5, 6], &[7, 8, 9]]).is_solved());
    assert!(grid(&[&[1, 2, 3], &[4, 5, 6], &[7, 8, 9]]).is_solved());
}

#[test]
fn swap_tiles_exchanges_two_cells() {
    let mut t = Taquin::new(3).unwrap();
    t.swap_tiles(TileCoordinates::new(0, 0), TileCoordinates::new(2, 1));
    let values: Vec<i8> = t.tiles().iter().map(|v| v.0).collect();
    assert_eq!(values, vec![6, 2, 3, 4, 5, 1, 7, 8, 9]);
    t.swap_tiles(TileCoordinates::new(2, 2), TileCoordinates::new(0, 0));
    assert_eq!(t.get_empty_tile_coordinates(), TileCoordinates::new(0, 0));
}

#[test]
fn next_selection_wraps_and_skips_the_empty_slot() {
    let t = Taquin::new(3).unwrap();
    let c = TileCoordinates::new(0, 0);
    assert_eq!(t.get_next_selection_coordinates(&c, Direction::Left), TileCoordinates::new(2, 0));
    assert_eq!(t.get_next_selection_coordinates(&c, Direction::Up), TileCoordinates::new(0, 2));
    assert_eq!(t.get_next_selection_coordinates(&c, Direction::Right), TileCoordinates::new(1, 0));
    assert_eq!(t.get_next_selection_coordinates(&c, Direction::Down), TileCoordinates::new(0, 1));
    // (2, 1) going down lands on the empty slot (2, 2) and goes on to (2, 0).
    let c = TileCoordinates::new(2, 1);
    assert_eq!(t.get_next_selection_coordinates(&c, Direction::Down), TileCoordinates::new(2, 0));
    let c = TileCoordinates::new(1, 2);
    assert_eq!(t.get_next_selection_coordinates(&c, Direction::Right), TileCoordinates::new(0, 2));
    // On a 2×2 grid skipping the empty slot can come back to the start.
    let t = grid(&[&[1, 4], &[3, 2]]);
    let c = TileCoordinates::new(0, 0);
    assert_eq!(t.get_next_selection_coordinates(&c, Direction::Right), TileCoordinates::new(0, 0));
}

#[test]
fn next_selection_never_lands_on_the_empty_slot() {
    let t = grid(&[&[5, 3, 1, 4], &[2, 16, 6, 7], &[8, 9, 10, 11], &[12, 13, 14, 15]]);
    let empty = t.get_empty_tile_coordinates();
    for j in 0..4i8 {
        for i in 0..4i8 {
            for d in [Direction::Left, Direction::Right, Direction::Up, Direction::Down] {
                let r = t.get_next_selection_coordinates(&TileCoordinates::new(i, j), d);
                assert_ne!(r, empty);
                assert!(!t.value_at(r).is_empty(4));
            }
        }
    }
}

#[test]
fn tile_value_and_coordinates_helpers() {
    assert!(TileValue(9).is_empty(3));
    assert!(!TileValue(8).is_empty(3));
    assert!(TileValue(16).is_empty(4));
    let c = TileCoordinates::new(1, 1);
    assert!(c.is_neighbour_of(&TileCoordinates::new(1, 0)));
    assert!(c.is_neighbour_of(&TileCoordinates::new(2, 1)));
    assert!(c.is_neighbour_of(&TileCoordinates::new(1, 2)));
    assert!(c.is_neighbour_of(&TileCoordinates::new(0, 1)));
    assert!(!c.is_neighbour_of(&TileCoordinates::new(1, 1)));
    assert!(!c.is_neighbour_of(&TileCoordinates::new(2, 2)));
    assert!(!c.is_neighbour_of(&TileCoordinates::new(1, 3)));
    assert!(!TileCoordinates::new(0, 0).is_neighbour_of(&TileCoordinates::new(2, 0)));
}

/// Every arrangement reachable from the solved `n×n` grid by sliding tiles,
/// up to `max_depth` slides away.
fn reachable_within(n: usize, max_depth: usize) -> std::collections::HashSet<Vec<i8>> {
    let start: Vec<i8> = (1..=(n * n) as i8).collect();
    let mut seen = std::collections::HashSet::new();
    let mut frontier = vec![start.clone()];
    seen.insert(start);
    for _ in 0..max_depth {
        let mut next = Vec::new();
        for s in &frontier {
            let b = s.iter().position(|v| *v as usize == n * n).unwrap();
            let (bi, bj) = (b % n, b / n);
            let mut others = Vec::new();
            if bi > 0 {
                others.push(b - 1);
            }
            if bi + 1 < n {
                others.push(b + 1);
            }
            if bj > 0 {
                others.push(b - n);
            }
            if bj + 1 < n {
                others.push(b + n);
            }
            for o in others {
                let mut t = s.clone();
                t.swap(b, o);
                if seen.insert(t.clone()) {
                    next.push(t);
                }
            }
        }
        if next.is_empty() {
            break;
        }
        frontier = next;
    }
    seen
}

fn reachable_states(n: usize) -> std::collections::HashSet<Vec<i8>> {
    reachable_within(n, usize::MAX)
}

fn from_flat(n: usize, cells: &[i8]) -> Taquin {
    let rows: Vec<Vec<TileValue>> = cells.chunks(n).map(|r| r.iter().map(|v| TileValue(*v)).collect()).collect();
    Taquin::from_rows(&rows).unwrap()
}

fn permutations(items: Vec<i8>) -> Vec<Vec<i8>> {
    if items.len() <= 1 {
        return vec![items];
    }
    let mut out = Vec::new();
    for k in 0..items.len() {
        let mut rest = items.clone();
        let first = rest.remove(k);
        for mut p in permutations(rest) {
            p.insert(0, first);
            out.push(p);
        }
    }
    out
}

#[test]
fn solvability_agrees_with_search_on_two_by_two() {
    let reachable = reachable_states(2);
    assert_eq!(reachable.len(), 12);
    let all = permutations(vec![1, 2, 3, 4]);
    assert_eq!(all.len(), 24);
    for cells in all {
        assert_eq!(from_flat(2, &cells).is_solvable(), reachable.contains(&cells), "{:?}", cells);
    }
}

#[test]
fn solvability_agrees_with_search_near_three_by_three_solved() {
    let reachable = reachable_within(3, 12);
    assert!(reachable.len() > 1000);
    for cells in &reachable {
        assert!(from_flat(3, cells).is_solvable(), "{:?}", cells);
        // Exchanging two tiles (not the empty slot) leaves the reachable half.
        let mut other = cells.clone();
        let a = other.iter().position(|v| *v != 9).unwrap();
        let b = other.iter().rposition(|v| *v != 9).unwrap();
        other.swap(a, b);
        assert!(!from_flat(3, &other).is_solvable(), "{:?}", other);
    }
}

#[test]
fn solvability_agrees_with_search_near_four_by_four_solved() {
    let reachable = reachable_within(4, 8);
    for cells in &reachable {
        assert!(from_flat(4, cells).is_solvable(), "{:?}", cells);
        let mut other = cells.clone();
        let a = other.iter().position(|v| *v != 16).unwrap();
        let b = other.iter().rposition(|v| *v != 16).unwrap();
        other.swap(a, b);
        assert!(!from_flat(4, &other).is_solvable(), "{:?}", other);
    }
}
