//! The puzzle state: the grid, the selected tile and whether the grid was
//! shuffled, with the three commands a player issues (move the selection,
//! slide the selected tile, shuffle).

use rand::Rng;
use vstd::prelude::*;

use crate::board::{
    ascending, blank, blank_coordinates, cell_index, is_ascending, is_solvable_board,
    is_valid_board, lemma_cell_index_bound, lemma_one_slide_from_solved,
    next_selection, position_coordinates, swap_cells,
};
use crate::taquin::{Taquin, TaquinError};
use crate::tile::{are_neighbours, in_grid, Direction, TileCoordinates, MAX_SIZE};

verus! {

/// Relies on rand::thread_rng and rand::Rng::gen_range: a value drawn from
/// `0..bound`; gen_range panics on an empty range, hence `bound > 0`.
#[verifier::external_body]
fn random_below(bound: usize) -> (r: usize)
    requires
        bound > 0,
    ensures
        r < bound,
{
    rand::thread_rng().gen_range(0..bound)
}

/// How many rejected shuffle rounds are tolerated before the grid is set to a
/// fixed solvable, unsolved arrangement instead.
pub const SHUFFLE_ATTEMPTS: usize = 100;

/// A change of the puzzle that collaborators observe, in the order produced.
#[derive(Clone, Copy, Debug, PartialEq, Eq, Structural)]
pub enum Transition {
    /// The grid was replaced by a shuffled arrangement.
    Shuffled,
    /// One tile slid into the empty slot.
    TileMoved,
    /// The grid reads in ascending order; `was_shuffled` tells whether a
    /// shuffle preceded, so that a celebration is due.
    Solved { was_shuffled: bool },
}

/// The abstract value of a puzzle.
pub struct PuzzleView {
    pub size: int,
    pub cells: Seq<int>,
    pub selected: TileCoordinates,
    pub is_shuffled: bool,
}

/// A valid grid, with the selection on a tile and not on the empty slot.
pub open spec fn is_valid_state(p: PuzzleView) -> bool {
    &&& is_valid_board(p.size, p.cells)
    &&& in_grid(p.selected, p.size)
    &&& p.cells[cell_index(p.selected, p.size)] != blank(p.size)
}

/// The value of the selected tile.
pub open spec fn selected_value(p: PuzzleView) -> int {
    p.cells[cell_index(p.selected, p.size)]
}

/// The state and the transitions after the move command: when the selection
/// is 4-adjacent to the empty slot, the two cells exchange their values and
/// the selection takes the empty slot's old place; a move that solves the
/// grid is followed by `Solved` and clears the shuffled flag. Otherwise
/// nothing changes and nothing is emitted.
pub open spec fn after_move(p: PuzzleView) -> (PuzzleView, Seq<Transition>) {
    let empty = blank_coordinates(p.size, p.cells);
    let cells = swap_cells(p.cells, cell_index(p.selected, p.size), cell_index(empty, p.size));
    if !are_neighbours(p.selected, empty) {
        (p, Seq::empty())
    } else if is_ascending(cells) {
        (
            PuzzleView { size: p.size, cells, selected: empty, is_shuffled: false },
            seq![Transition::TileMoved, Transition::Solved { was_shuffled: p.is_shuffled }],
        )
    } else {
        (
            PuzzleView { size: p.size, cells, selected: empty, is_shuffled: p.is_shuffled },
            seq![Transition::TileMoved],
        )
    }
}

/// What every shuffle guarantees: a valid grid of the same size that is not
/// solved and passes the parity test, the shuffled flag set, and the
/// selection still on the tile it was on.
pub open spec fn is_shuffle_of(before: PuzzleView, after: PuzzleView) -> bool {
    &&& after.size == before.size
    &&& is_valid_state(after)
    &&& !is_ascending(after.cells)
    &&& is_solvable_board(after.size, after.cells)
    &&& after.is_shuffled
    &&& selected_value(after) == selected_value(before)
}

/// A sliding puzzle in play.
pub struct Puzzle {
    taquin: Taquin,
    selected: TileCoordinates,
    is_shuffled: bool,
}

impl View for Puzzle {
    type V = PuzzleView;

    closed spec fn view(&self) -> PuzzleView {
        PuzzleView {
            size: self.taquin@.size,
            cells: self.taquin@.cells,
            selected: self.selected,
            is_shuffled: self.is_shuffled,
        }
    }
}

/// Two distinct positions below `n`. The second draw ranges over the `n - 1`
/// positions other than the first, which samples the same pairs as drawing
/// both over `0..n` and redrawing when they coincide.
fn random_distinct_pair(n: usize) -> (r: (usize, usize))
    requires
        n >= 2,
    ensures
        r.0 < n,
        r.1 < n,
        r.0 != r.1,
{
    let a = random_below(n);
    let b = random_below(n - 1);
    if b >= a {
        (a, b + 1)
    } else {
        (a, b)
    }
}

impl Puzzle {
    pub open spec fn wf(&self) -> bool {
        is_valid_state(self@)
    }

    /// The solved puzzle of dimension `size`, with the top-left tile
    /// selected; fails with `InvalidSize` unless `2 <= size <= MAX_SIZE`.
    pub fn new(size: i8) -> (r: Result<Puzzle, TaquinError>)
        ensures
            match r {
                Ok(p) => {
                    &&& 2 <= size <= MAX_SIZE
                    &&& p.wf()
                    &&& p@.size == size
                    &&& p@.cells == ascending(size as int)
                    &&& p@.selected == (TileCoordinates { i: 0, j: 0 })
                    &&& !p@.is_shuffled
                },
                Err(e) => !(2 <= size <= MAX_SIZE) && e == TaquinError::InvalidSize,
            },
    {
        match Taquin::new(size) {
            Ok(taquin) => {
                let selected = TileCoordinates::new(0, 0);
                proof {
                    assert(cell_index(selected, size as int) == 0);
                    assert(ascending(size as int)[0] == 1);
                    assert(blank(size as int) >= 4) by (nonlinear_arith)
                        requires
                            size >= 2,
                    ;
                }
                Ok(Puzzle { taquin, selected, is_shuffled: false })
            },
            Err(e) => Err(e),
        }
    }

    /// A puzzle on an existing grid, not marked as shuffled, with the
    /// top-left tile selected (its right neighbour when the top-left cell is
    /// the empty slot).
    pub fn from_taquin(taquin: Taquin) -> (r: Puzzle)
        requires
            taquin.wf(),
        ensures
            r.wf(),
            r@.size == taquin@.size,
            r@.cells == taquin@.cells,
            !r@.is_shuffled,
            r@.selected == if taquin@.cells[0] == blank(taquin@.size) {
                TileCoordinates { i: 1, j: 0 }
            } else {
                TileCoordinates { i: 0, j: 0 }
            },
    {
        let origin = TileCoordinates::new(0, 0);
        let selected = if taquin.value_at(origin).is_empty(taquin.size()) {
            TileCoordinates::new(1, 0)
        } else {
            origin
        };
        proof {
            assert(cell_index(origin, taquin@.size) == 0);
            assert(cell_index(TileCoordinates { i: 1, j: 0 }, taquin@.size) == 1);
            assert(taquin@.cells.len() >= 4) by (nonlinear_arith)
                requires
                    taquin@.cells.len() == taquin@.size * taquin@.size,
                    taquin@.size >= 2,
            ;
            if taquin@.cells[0] == blank(taquin@.size) {
                assert(taquin@.cells[0] != taquin@.cells[1]);
            }
        }
        Puzzle { taquin, selected, is_shuffled: false }
    }

    /// The grid.
    pub fn taquin(&self) -> (r: &Taquin)
        ensures
            r@.size == self@.size,
            r@.cells == self@.cells,
    {
        &self.taquin
    }

    /// The selected cell.
    pub fn selected(&self) -> (r: TileCoordinates)
        ensures
            r == self@.selected,
    {
        self.selected
    }

    /// Whether the grid was shuffled and has not been solved since.
    pub fn is_shuffled(&self) -> (r: bool)
        ensures
            r == self@.is_shuffled,
    {
        self.is_shuffled
    }

    /// Moves the selection one cell in `direction`, wrapping around the edge
    /// and skipping over the empty slot.
    pub fn move_tile_selection(&mut self, direction: Direction)
        requires
            old(self).wf(),
        ensures
            final(self).wf(),
            final(self)@.size == old(self)@.size,
            final(self)@.cells == old(self)@.cells,
            final(self)@.is_shuffled == old(self)@.is_shuffled,
            final(self)@.selected == next_selection(
                old(self)@.size,
                old(self)@.cells,
                old(self)@.selected,
                direction,
            ),
    {
        self.selected = self.taquin.get_next_selection_coordinates(&self.selected, direction);
    }

    /// Slides the selected tile into the empty slot when the two are
    /// 4-adjacent, and reports what happened (see `after_move`).
    pub fn move_selected_tile(&mut self) -> (events: Vec<Transition>)
        requires
            old(self).wf(),
        ensures
            final(self).wf(),
            (final(self)@, events@) == after_move(old(self)@),
    {
        let mut events: Vec<Transition> = Vec::new();
        let empty = self.taquin.get_empty_tile_coordinates();
        if !self.selected.is_neighbour_of(&empty) {
            return events;
        }
        let ghost n = self@.size;
        let ghost before = self@.cells;
        let ghost ks = cell_index(self.selected, n);
        let ghost ke = cell_index(empty, n);
        proof {
            lemma_cell_index_bound(self.selected, n);
        }
        self.taquin.swap_tiles(self.selected, empty);
        proof {
            assert(self@.cells == swap_cells(before, ks, ke));
            assert(self@.cells[ke] == before[ks]);
        }
        self.selected = empty;
        events.push(Transition::TileMoved);
        if self.taquin.is_solved() {
            events.push(Transition::Solved { was_shuffled: self.is_shuffled });
            self.is_shuffled = false;
        }
        proof {
            let expected = after_move(old(self)@);
            assert(self@ == expected.0);
            assert(events@ =~= expected.1);
        }
        events
    }

    /// Exchanges the values at two row-major positions; the selection stays
    /// on the tile it was on.
    pub fn transpose_cells(&mut self, a: usize, b: usize)
        requires
            old(self).wf(),
            a < old(self)@.cells.len(),
            b < old(self)@.cells.len(),
        ensures
            final(self).wf(),
            final(self)@.size == old(self)@.size,
            final(self)@.cells == swap_cells(old(self)@.cells, a as int, b as int),
            final(self)@.is_shuffled == old(self)@.is_shuffled,
            final(self)@.selected == if cell_index(old(self)@.selected, old(self)@.size) == a {
                position_coordinates(old(self)@.size, b as int)
            } else if cell_index(old(self)@.selected, old(self)@.size) == b {
                position_coordinates(old(self)@.size, a as int)
            } else {
                old(self)@.selected
            },
            selected_value(final(self)@) == selected_value(old(self)@),
    {
        let k = self.taquin.index(self.selected);
        self.taquin.swap_positions(a, b);
        if k == a {
            self.selected = self.taquin.coordinates_of(b);
        } else if k == b {
            self.selected = self.taquin.coordinates_of(a);
        }
    }

    /// One shuffle round: `(N*N)^2` transpositions of two distinct cells
    /// drawn at random; true when the outcome is unsolved and solvable.
    pub fn do_shuffle(&mut self) -> (r: bool)
        requires
            old(self).wf(),
        ensures
            final(self).wf(),
            final(self)@.size == old(self)@.size,
            final(self)@.is_shuffled == old(self)@.is_shuffled,
            selected_value(final(self)@) == selected_value(old(self)@),
            r == (!is_ascending(final(self)@.cells) && is_solvable_board(
                final(self)@.size,
                final(self)@.cells,
            )),
    {
        let nb = self.taquin.tiles_nb();
        proof {
            assert(4 <= nb <= 121) by (nonlinear_arith)
                requires
                    nb == self@.size * self@.size,
                    2 <= self@.size <= 11,
            ;
            assert(nb * nb <= 14641) by (nonlinear_arith)
                requires
                    nb <= 121,
            ;
        }
        let rounds = nb * nb;
        let mut k: usize = 0;
        while k < rounds
            invariant
                self.wf(),
                self@.size == old(self)@.size,
                self@.cells.len() == nb,
                4 <= nb,
                self@.is_shuffled == old(self)@.is_shuffled,
                selected_value(self@) == selected_value(old(self)@),
            decreases rounds - k,
        {
            let (a, b) = random_distinct_pair(nb);
            self.transpose_cells(a, b);
            k = k + 1;
        }
        !self.taquin.is_solved() && self.taquin.is_solvable()
    }

    /// Sets the grid to the solved arrangement with its last two cells
    /// exchanged, keeping the selection on its tile.
    fn set_one_slide_from_solved(&mut self)
        requires
            old(self).wf(),
        ensures
            final(self).wf(),
            final(self)@.size == old(self)@.size,
            final(self)@.cells == swap_cells(
                ascending(old(self)@.size),
                old(self)@.size * old(self)@.size - 2,
                old(self)@.size * old(self)@.size - 1,
            ),
            final(self)@.is_shuffled == old(self)@.is_shuffled,
            selected_value(final(self)@) == selected_value(old(self)@),
    {
        let v = self.taquin.value_at(self.selected).0;
        match Taquin::new(self.taquin.size()) {
            Ok(t) => {
                let mut t = t;
                let nb = t.tiles_nb();
                proof {
                    lemma_cell_index_bound(self.selected, self@.size);
                    lemma_one_slide_from_solved(self@.size);
                    assert(4 <= nb) by (nonlinear_arith)
                        requires
                            nb == self@.size * self@.size,
                            2 <= self@.size,
                    ;
                }
                assert(1 <= v < nb);
                t.swap_positions(nb - 2, nb - 1);
                let pos = if v as usize == nb - 1 {
                    nb - 1
                } else {
                    v as usize - 1
                };
                self.selected = t.coordinates_of(pos);
                assert(t@.cells[pos as int] == v);
                self.taquin = t;
            },
            // Unreachable: the size of a valid grid is always accepted.
            Err(_) => {},
        }
    }

    /// Replaces the grid by a random arrangement that is solvable and not
    /// solved, by rejection sampling over shuffle rounds; sets the shuffled
    /// flag and reports `Shuffled`.
    pub fn shuffle(&mut self) -> (events: Vec<Transition>)
        requires
            old(self).wf(),
        ensures
            final(self).wf(),
            is_shuffle_of(old(self)@, final(self)@),
            events@ == seq![Transition::Shuffled],
    {
        let mut events: Vec<Transition> = Vec::new();
        events.push(Transition::Shuffled);
        let mut attempt: usize = 0;
        while attempt < SHUFFLE_ATTEMPTS
            invariant
                self.wf(),
                self@.size == old(self)@.size,
                selected_value(self@) == selected_value(old(self)@),
                events@ == seq![Transition::Shuffled],
            decreases SHUFFLE_ATTEMPTS - attempt,
        {
            if self.do_shuffle() {
                self.is_shuffled = true;
                return events;
            }
            attempt = attempt + 1;
        }
        self.set_one_slide_from_solved();
        proof {
            lemma_one_slide_from_solved(self@.size);
        }
        self.is_shuffled = true;
        events
    }
}

} // verus!
