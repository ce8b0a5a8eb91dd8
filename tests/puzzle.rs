use taquin::counter::MoveCounter;
use taquin::puzzle::{Puzzle, Transition};
use taquin::taquin::{Taquin, TaquinError};
use taquin::tile::{Direction, TileCoordinates, TileValue};

fn puzzle(rows: &[&[i8]]) -> Puzzle {
    let rows: Vec<Vec<TileValue>> = rows
        .iter()
        .map(|r| r.iter().map(|v| TileValue(*v)).collect())
        .collect();
    Puzzle::from_taquin(Taquin::from_rows(&rows).unwrap())
}

fn cells(p: &Puzzle) -> Vec<i8> {
    p.taquin().tiles().iter().map(|v| v.0).collect()
}

#[test]
fn new_puzzle_is_solved_with_top_left_selected() {
    let p = Puzzle::new(3).unwrap();
    assert_eq!(p.selected(), TileCoordinates::new(0, 0));
    assert!(!p.is_shuffled());
    assert!(p.taquin().is_solved());
    assert_eq!(Puzzle::new(1).err(), Some(TaquinError::InvalidSize));
}

#[test]
fn selection_avoids_the_empty_top_left_cell() {
    let p = puzzle(&[&[4, 1], &[2, 3]]);
    assert_eq!(p.selected(), TileCoordinates::new(1, 0));
}

#[test]
fn selection_moves_and_skips_the_empty_slot() {
    let mut p = Puzzle::new(3).unwrap();
    p.move_tile_selection(Direction::Up);
    assert_eq!(p.selected(), TileCoordinates::new(0, 2));
    p.move_tile_selection(Direction::Left);
    // (2, 2) is the empty slot: the selection goes on to (1, 2).
    assert_eq!(p.selected(), TileCoordinates::new(1, 2));
    assert_eq!(cells(&p), vec![1, 2, 3, 4, 5, 6, 7, 8, 9]);
}

#[test]
fn move_without_adjacency_changes_nothing() {
    let mut p = Puzzle::new(3).unwrap();
    p.move_tile_selection(Direction::Right);
    p.move_tile_selection(Direction::Down);
    assert_eq!(p.selected(), TileCoordinates::new(1, 1));
    let events = p.move_selected_tile();
    assert!(events.is_empty());
    assert_eq!(cells(&p), vec![1, 2, 3, 4, 5, 6, 7, 8, 9]);
    assert_eq!(p.selected(), TileCoordinates::new(1, 1));
}

#[test]
fn move_next_to_the_empty_slot_swaps_once() {
    let mut p = Puzzle::new(3).unwrap();
    p.move_tile_selection(Direction::Up);
    p.move_tile_selection(Direction::Right);
    assert_eq!(p.selected(), TileCoordinates::new(1, 2));
    let events = p.move_selected_tile();
    assert_eq!(events, vec![Transition::TileMoved]);
    assert_eq!(cells(&p), vec![1, 2, 3, 4, 5, 6, 7, 9, 8]);
    assert_eq!(p.selected(), TileCoordinates::new(2, 2));
    assert_eq!(p.taquin().get_empty_tile_coordinates(), TileCoordinates::new(1, 2));
}

#[test]
fn right_down_move_that_restores_order_emits_solved() {
    let mut p = puzzle(&[&[1, 2, 3], &[4, 5, 6], &[7, 9, 8]]);
    p.move_tile_selection(Direction::Right);
    p.move_tile_selection(Direction::Down);
    assert_eq!(p.selected(), TileCoordinates::new(1, 1));
    p.move_tile_selection(Direction::Right);
    p.move_tile_selection(Direction::Down);
    assert_eq!(p.selected(), TileCoordinates::new(2, 2));
    let events = p.move_selected_tile();
    assert_eq!(events, vec![Transition::TileMoved, Transition::Solved { was_shuffled: false }]);
    assert!(p.taquin().is_solved());
}

#[test]
fn solving_after_a_shuffle_reports_it_once() {
    let mut p = Puzzle::new(2).unwrap();
    p.shuffle();
    assert!(p.is_shuffled());
    // Solve by search over moves of the library itself.
    let mut solved = false;
    for _ in 0..10_000 {
        let empty = p.taquin().get_empty_tile_coordinates();
        // On a 2×2 grid rotating the empty slot clockwise visits every
        // arrangement of its class.
        let target = match (empty.i, empty.j) {
            (0, 0) => TileCoordinates::new(0, 1),
            (0, 1) => TileCoordinates::new(1, 1),
            (1, 1) => TileCoordinates::new(1, 0),
            _ => TileCoordinates::new(0, 0),
        };
        while p.selected() != target {
            p.move_tile_selection(Direction::Right);
            if p.selected() != target {
                p.move_tile_selection(Direction::Down);
            }
        }
        let events = p.move_selected_tile();
        assert_eq!(events[0], Transition::TileMoved);
        if events.len() == 2 {
            assert_eq!(events[1], Transition::Solved { was_shuffled: true });
            solved = true;
            break;
        }
    }
    assert!(solved);
    assert!(!p.is_shuffled());
}

#[test]
fn shuffle_gives_unsolved_solvable_grids() {
    for size in 2i8..=5 {
        let mut p = Puzzle::new(size).unwrap();
        for _ in 0..5 {
            let before = p.taquin().value_at(p.selected());
            let events = p.shuffle();
            assert_eq!(events, vec![Transition::Shuffled]);
            assert!(p.is_shuffled());
            assert!(!p.taquin().is_solved());
            assert!(p.taquin().is_solvable());
            assert_eq!(p.taquin().value_at(p.selected()), before);
            let mut sorted = cells(&p);
            sorted.sort();
            let expected: Vec<i8> = (1..=size * size).collect();
            assert_eq!(sorted, expected);
        }
    }
}

#[test]
fn do_shuffle_keeps_a_permutation_and_reports_acceptance() {
    let mut p = Puzzle::new(3).unwrap();
    for _ in 0..10 {
        let accepted = p.do_shuffle();
        assert_eq!(accepted, !p.taquin().is_solved() && p.taquin().is_solvable());
        let mut sorted = cells(&p);
        sorted.sort();
        assert_eq!(sorted, vec![1, 2, 3, 4, 5, 6, 7, 8, 9]);
    }
}

#[test]
fn transpose_cells_keeps_the_selected_tile() {
    let mut p = Puzzle::new(3).unwrap();
    p.transpose_cells(0, 5);
    assert_eq!(cells(&p), vec![6, 2, 3, 4, 5, 1, 7, 8, 9]);
    assert_eq!(p.selected(), TileCoordinates::new(2, 1));
    p.transpose_cells(3, 4);
    assert_eq!(cells(&p), vec![6, 2, 3, 5, 4, 1, 7, 8, 9]);
    assert_eq!(p.selected(), TileCoordinates::new(2, 1));
}

#[test]
fn move_counter_counts_and_resets() {
    let mut c = MoveCounter::default();
    assert_eq!(c.value(), 0);
    c.incr();
    c.incr();
    assert_eq!(c.value(), 2);
    c.reset();
    assert_eq!(c.value(), 0);
}
