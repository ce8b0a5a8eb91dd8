//! Properties of the puzzle that relate several of its operations, proved
//! over the model.

use vstd::prelude::*;

use crate::board::{
    ascending, blank, blank_coordinates, blank_index, blank_row, cell_index, inversions,
    is_ascending, is_solvable_board, is_valid_board, lemma_ascending_is_solved_and_solvable,
    lemma_blank_unique, lemma_cell_index_bound, lemma_coordinates_of, lemma_row_of,
    lemma_swap_valid, position_coordinates, swap_cells,
};
use crate::parity::{lemma_swap_with_earlier_marker, lemma_swap_with_later_marker};
use crate::puzzle::{after_move, is_valid_state, PuzzleView};
use crate::tile::{are_neighbours, MAX_SIZE};

verus! {

/// The grid in ascending order counts as solved.
pub proof fn law_ascending_is_solved(n: int)
    requires
        2 <= n <= MAX_SIZE,
    ensures
        is_ascending(ascending(n)),
{
    lemma_ascending_is_solved_and_solvable(n);
}

/// A grid with a decreasing adjacent pair in row-major order is not solved.
pub proof fn law_adjacent_inversion_is_unsolved(cells: Seq<int>, k: int)
    requires
        0 <= k < cells.len() - 1,
        cells[k] > cells[k + 1],
    ensures
        !is_ascending(cells),
{
}

/// The move command changes the grid exactly when the selection is
/// 4-adjacent to the empty slot; otherwise the whole state stays as it was.
pub proof fn law_move_changes_grid_iff_adjacent(p: PuzzleView)
    requires
        is_valid_state(p),
    ensures
        (after_move(p).0.cells != p.cells) <==> are_neighbours(p.selected, blank_coordinates(p.size, p.cells)),
        !are_neighbours(p.selected, blank_coordinates(p.size, p.cells)) ==> after_move(p).0 == p,
{
    let n = p.size;
    let empty = blank_coordinates(n, p.cells);
    let kb = blank_index(n, p.cells);
    assert(n * n >= 1) by (nonlinear_arith)
        requires
            n >= 2,
    ;
    lemma_blank_unique(n, p.cells, choose|k: int| 0 <= k < p.cells.len() && p.cells[k] == blank(n));
    lemma_coordinates_of(n, kb);
    lemma_cell_index_bound(p.selected, n);
    let ks = cell_index(p.selected, n);
    assert(cell_index(empty, n) == kb);
    if are_neighbours(p.selected, empty) {
        let cells = swap_cells(p.cells, ks, kb);
        assert(ks != kb);
        assert(cells[ks] == blank(n));
        assert(cells[ks] != p.cells[ks]);
    }
}

/// `b` is `a` after one slide: a tile 4-adjacent to the empty slot moved into
/// it.
pub open spec fn is_slide(n: int, a: Seq<int>, b: Seq<int>) -> bool {
    exists|p: int|
        0 <= p < a.len() && are_neighbours(position_coordinates(n, p), blank_coordinates(n, a))
            && b == swap_cells(a, p, blank_index(n, a))
}

/// A sequence of grids that starts at the solved grid, each one slide away
/// from the one before.
pub open spec fn is_slide_sequence(n: int, path: Seq<Seq<int>>) -> bool {
    &&& path.len() >= 1
    &&& path[0] == ascending(n)
    &&& forall|k: int| 0 <= k < path.len() - 1 ==> #[trigger] is_slide(n, path[k], path[k + 1])
}

/// A slide keeps the grid valid and does not change the outcome of the
/// parity test.
pub proof fn lemma_slide_keeps_solvability(n: int, a: Seq<int>, p: int)
    requires
        is_valid_board(n, a),
        0 <= p < a.len(),
        are_neighbours(position_coordinates(n, p), blank_coordinates(n, a)),
    ensures
        is_valid_board(n, swap_cells(a, p, blank_index(n, a))),
        is_solvable_board(n, swap_cells(a, p, blank_index(n, a))) == is_solvable_board(n, a),
{
    let e = blank(n);
    let q = blank_index(n, a);
    let b = swap_cells(a, p, q);
    assert(0 <= q < a.len() && a[q] == e);
    lemma_coordinates_of(n, p);
    lemma_coordinates_of(n, q);
    let pi = p % n;
    let pj = p / n;
    let qi = q % n;
    let qj = q / n;
    assert(position_coordinates(n, p).i == pi && position_coordinates(n, p).j == pj);
    assert(blank_coordinates(n, a).i == qi && blank_coordinates(n, a).j == qj);
    assert(pj * n - qj * n == (pj - qj) * n) by (nonlinear_arith);
    let d: int = if pj == qj {
        0
    } else {
        n - 1
    };
    if pj == qj {
        assert(p - q == pi - qi);
        assert(p - q == 1 || q - p == 1);
    } else {
        assert(pi == qi);
        assert(pj - qj == 1 || qj - pj == 1);
        assert(p - q == (pj - qj) * n);
        if pj - qj == 1 {
            assert((pj - qj) * n == n) by (nonlinear_arith)
                requires
                    pj - qj == 1,
            ;
        } else {
            assert((pj - qj) * n == -n) by (nonlinear_arith)
                requires
                    pj - qj == -1,
            ;
        }
    }
    if p < q {
        lemma_swap_with_later_marker(a, p, q, e);
        assert((inversions(b, e) + d) % 2 == inversions(a, e) % 2);
    } else {
        lemma_swap_with_earlier_marker(a, q, p, e);
        assert(swap_cells(a, q, p) =~= b);
        assert((inversions(b, e) + d) % 2 == inversions(a, e) % 2);
    }
    lemma_swap_valid(n, a, p, q);
    assert(b[p] == e);
    lemma_blank_unique(n, b, p);
    assert(blank_row(n, b) == pj);
    assert(blank_row(n, a) == qj);
}

/// Every grid reached from the solved grid by slides (the first grid of the
/// sequence being the solved one) is valid and passes the parity test.
pub proof fn law_reachable_grids_are_solvable(n: int, path: Seq<Seq<int>>)
    requires
        2 <= n <= MAX_SIZE,
        is_slide_sequence(n, path),
    ensures
        is_valid_board(n, path.last()),
        is_solvable_board(n, path.last()),
{
    lemma_slide_prefix(n, path, path.len() - 1);
}

proof fn lemma_slide_prefix(n: int, path: Seq<Seq<int>>, m: int)
    requires
        2 <= n <= MAX_SIZE,
        is_slide_sequence(n, path),
        0 <= m < path.len(),
    ensures
        is_valid_board(n, path[m]),
        is_solvable_board(n, path[m]),
    decreases m,
{
    if m == 0 {
        lemma_ascending_is_solved_and_solvable(n);
    } else {
        lemma_slide_prefix(n, path, m - 1);
        let k = m - 1;
        assert(is_slide(n, path[k], path[k + 1]));
        assert(path[k + 1] == path[m]);
        let p = choose|p: int|
            0 <= p < path[m - 1].len() && are_neighbours(
                position_coordinates(n, p),
                blank_coordinates(n, path[m - 1]),
            ) && path[m] == swap_cells(path[m - 1], p, blank_index(n, path[m - 1]));
        lemma_slide_keeps_solvability(n, path[m - 1], p);
    }
}

/// The move command, when it changes the grid, performs one slide.
pub proof fn law_move_is_a_slide(p: PuzzleView)
    requires
        is_valid_state(p),
        are_neighbours(p.selected, blank_coordinates(p.size, p.cells)),
    ensures
        is_slide(p.size, p.cells, after_move(p).0.cells),
{
    let n = p.size;
    let ks = cell_index(p.selected, n);
    lemma_cell_index_bound(p.selected, n);
    lemma_row_of(n, p.selected.j as int, p.selected.i as int);
    assert(position_coordinates(n, ks) == p.selected);
    let kb = blank_index(n, p.cells);
    assert(0 <= kb < p.cells.len() && p.cells[kb] == blank(n));
    lemma_coordinates_of(n, kb);
    assert(cell_index(blank_coordinates(n, p.cells), n) == kb);
    assert(after_move(p).0.cells == swap_cells(p.cells, ks, kb));
}

} // verus!
