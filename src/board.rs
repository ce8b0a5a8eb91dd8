//! The mathematical model of a puzzle grid: a dimension `n` and the tile
//! values read in row-major order, with the empty slot written as `n * n`.

use vstd::prelude::*;

use crate::tile::{wrapped_step, Direction, TileCoordinates, MAX_SIZE};

verus! {

/// The value that marks the empty slot on an `n×n` grid.
pub open spec fn blank(n: int) -> int {
    n * n
}

/// Position of cell `c` in the row-major reading of an `n×n` grid.
pub open spec fn cell_index(c: TileCoordinates, n: int) -> int {
    c.j * n + c.i
}

/// The solved grid: `1, 2, ..., n*n` in row-major order, so that the empty
/// slot is the bottom-right cell.
pub open spec fn ascending(n: int) -> Seq<int> {
    Seq::new((n * n) as nat, |k: int| k + 1)
}

/// A well-formed grid: `n*n` cells, every value in `1..=n*n`, no value
/// twice, and the empty-slot marker present.
pub open spec fn is_valid_board(n: int, cells: Seq<int>) -> bool {
    &&& 2 <= n <= MAX_SIZE
    &&& cells.len() == n * n
    &&& forall|k: int| 0 <= k < cells.len() ==> 1 <= #[trigger] cells[k] <= n * n
    &&& forall|a: int, b: int|
        0 <= a < cells.len() && 0 <= b < cells.len() && a != b ==> #[trigger] cells[a]
            != #[trigger] cells[b]
    &&& exists|k: int| 0 <= k < cells.len() && cells[k] == blank(n)
}

/// Every adjacent pair in row-major order is increasing.
pub open spec fn is_ascending(cells: Seq<int>) -> bool {
    forall|k: int| 0 <= k < cells.len() - 1 ==> #[trigger] cells[k] < cells[k + 1]
}

/// How many elements of `t`, other than the marker `e`, exceed `v`.
pub open spec fn count_above(t: Seq<int>, v: int, e: int) -> nat
    decreases t.len(),
{
    if t.len() == 0 {
        0
    } else {
        count_above(t.drop_last(), v, e) + if t.last() != e && t.last() > v {
            1nat
        } else {
            0nat
        }
    }
}

/// The number of pairs of positions `a < b` with `s[a] > s[b]`, where neither
/// holds the marker `e`.
pub open spec fn inversions(s: Seq<int>, e: int) -> nat
    decreases s.len(),
{
    if s.len() == 0 {
        0
    } else {
        inversions(s.drop_last(), e) + if s.last() != e {
            count_above(s.drop_last(), s.last(), e)
        } else {
            0nat
        }
    }
}

/// Position of the empty slot in a valid grid.
pub open spec fn blank_index(n: int, cells: Seq<int>) -> int {
    choose|k: int| 0 <= k < cells.len() && cells[k] == blank(n)
}

/// The cell at row-major position `k` of an `n×n` grid.
pub open spec fn position_coordinates(n: int, k: int) -> TileCoordinates {
    TileCoordinates { i: (k % n) as i8, j: (k / n) as i8 }
}

/// The cell of the empty slot in a valid grid.
pub open spec fn blank_coordinates(n: int, cells: Seq<int>) -> TileCoordinates {
    position_coordinates(n, blank_index(n, cells))
}

/// Row (from the top, from zero) of the empty slot in a valid grid.
pub open spec fn blank_row(n: int, cells: Seq<int>) -> int {
    blank_index(n, cells) / n
}

/// The parity test for reachability from the solved grid: for odd `n` the
/// inversion count must be even; for even `n` the parity of the inversion
/// count must differ from the parity of the empty slot's row.
pub open spec fn is_solvable_board(n: int, cells: Seq<int>) -> bool {
    let inv = inversions(cells, blank(n));
    if n % 2 == 1 {
        inv % 2 == 0
    } else {
        (inv % 2 == 0) != (blank_row(n, cells) % 2 == 0)
    }
}

pub proof fn lemma_count_above_bound(t: Seq<int>, v: int, e: int)
    ensures
        count_above(t, v, e) <= t.len(),
    decreases t.len(),
{
    if t.len() > 0 {
        lemma_count_above_bound(t.drop_last(), v, e);
    }
}

pub proof fn lemma_inversions_bound(s: Seq<int>, e: int)
    ensures
        inversions(s, e) <= s.len() * s.len(),
    decreases s.len(),
{
    if s.len() > 0 {
        let m = s.drop_last();
        lemma_inversions_bound(m, e);
        lemma_count_above_bound(m, s.last(), e);
        let l = m.len() as int;
        assert(l * l + l <= (l + 1) * (l + 1)) by (nonlinear_arith)
            requires
                l >= 0,
        ;
    }
}

/// In a sequence whose unmarked elements are increasing, nothing in `t`
/// exceeds a later unmarked element.
pub proof fn lemma_count_above_zero(t: Seq<int>, v: int, e: int)
    requires
        forall|k: int| 0 <= k < t.len() && t[k] != e ==> t[k] < v,
    ensures
        count_above(t, v, e) == 0,
    decreases t.len(),
{
    if t.len() > 0 {
        lemma_count_above_zero(t.drop_last(), v, e);
    }
}

/// A sequence whose unmarked elements are increasing has no inversion.
pub proof fn lemma_no_inversions(s: Seq<int>, e: int)
    requires
        forall|a: int, b: int|
            0 <= a < b < s.len() && s[a] != e && s[b] != e ==> s[a] < s[b],
    ensures
        inversions(s, e) == 0,
    decreases s.len(),
{
    if s.len() > 0 {
        let m = s.drop_last();
        lemma_no_inversions(m, e);
        if s.last() != e {
            assert forall|k: int| 0 <= k < m.len() && m[k] != e implies m[k] < s.last() by {
                assert(s[k] == m[k]);
            }
            lemma_count_above_zero(m, s.last(), e);
        }
    }
}

/// `k / n` and `k % n` of a row-major position on an `n×n` grid.
pub proof fn lemma_row_of(n: int, row: int, col: int)
    requires
        n > 0,
        0 <= col < n,
    ensures
        (row * n + col) / n == row,
        (row * n + col) % n == col,
{
    vstd::arithmetic::div_mod::lemma_fundamental_div_mod_converse(row * n + col, n, row, col);
}

/// `s` with the entries at positions `p` and `q` exchanged.
pub open spec fn swap_cells(s: Seq<int>, p: int, q: int) -> Seq<int> {
    s.update(p, s[q]).update(q, s[p])
}

/// The cell that a selection at `c` moves to for direction `d`: one wrapped
/// step, and one more in the same direction when the first lands on the
/// empty slot.
pub open spec fn next_selection(n: int, cells: Seq<int>, c: TileCoordinates, d: Direction) -> TileCoordinates {
    let first = wrapped_step(c, d, n);
    if cells[cell_index(first, n)] == blank(n) {
        wrapped_step(first, d, n)
    } else {
        first
    }
}

/// The empty slot of a valid grid is the only cell holding the marker.
pub proof fn lemma_blank_unique(n: int, cells: Seq<int>, k: int)
    requires
        is_valid_board(n, cells),
        0 <= k < cells.len(),
        cells[k] == blank(n),
    ensures
        blank_index(n, cells) == k,
{
    let b = blank_index(n, cells);
    assert(0 <= b < cells.len() && cells[b] == blank(n));
}

/// Exchanging two cells of a valid grid gives a valid grid.
pub proof fn lemma_swap_valid(n: int, cells: Seq<int>, p: int, q: int)
    requires
        is_valid_board(n, cells),
        0 <= p < cells.len(),
        0 <= q < cells.len(),
    ensures
        is_valid_board(n, swap_cells(cells, p, q)),
{
    let s = swap_cells(cells, p, q);
    let from = |k: int|
        if k == p {
            q
        } else if k == q {
            p
        } else {
            k
        };
    assert forall|k: int| 0 <= k < s.len() implies s[k] == cells[from(k)] by {}
    assert forall|a: int, b: int| 0 <= a < s.len() && 0 <= b < s.len() && a != b implies #[trigger] s[a]
        != #[trigger] s[b] by {
        assert(s[a] == cells[from(a)]);
        assert(s[b] == cells[from(b)]);
    }
    let k = blank_index(n, cells);
    assert(s[from(k)] == blank(n));
}

/// Row-major position `k` of an `n×n` grid lies in row `k / n`, column
/// `k % n`.
pub proof fn lemma_coordinates_of(n: int, k: int)
    requires
        n > 0,
        0 <= k < n * n,
    ensures
        0 <= k / n < n,
        0 <= k % n < n,
        (k / n) * n + k % n == k,
{
    vstd::arithmetic::div_mod::lemma_fundamental_div_mod(k, n);
    let r = k / n;
    let m = k % n;
    assert(0 <= m < n);
    assert(r * n == n * r) by (nonlinear_arith);
    assert(0 <= r < n) by (nonlinear_arith)
        requires
            k == n * r + m,
            0 <= m < n,
            0 <= k < n * n,
    ;
}

/// A cell of an `n×n` grid has a row-major position below `n * n`.
pub proof fn lemma_cell_index_bound(c: TileCoordinates, n: int)
    requires
        0 <= c.i < n,
        0 <= c.j < n,
    ensures
        0 <= cell_index(c, n) < n * n,
{
    let i = c.i as int;
    let j = c.j as int;
    assert(0 <= j * n + i < n * n) by (nonlinear_arith)
        requires
            0 <= i < n,
            0 <= j < n,
    ;
}

/// The solved grid is valid, in ascending order, and passes the parity test.
pub proof fn lemma_ascending_is_solved_and_solvable(n: int)
    requires
        2 <= n <= MAX_SIZE,
    ensures
        is_valid_board(n, ascending(n)),
        is_ascending(ascending(n)),
        is_solvable_board(n, ascending(n)),
        blank_index(n, ascending(n)) == n * n - 1,
{
    let s = ascending(n);
    assert(n * n >= 4) by (nonlinear_arith)
        requires
            n >= 2,
    ;
    assert(s[n * n - 1] == blank(n));
    assert(is_valid_board(n, s));
    lemma_no_inversions(s, blank(n));
    let k = blank_index(n, s);
    assert(k == n * n - 1);
    lemma_row_of(n, n - 1, n - 1);
    assert((n - 1) * n + (n - 1) == n * n - 1) by (nonlinear_arith);
}

/// The grid one slide away from solved (the tile left of the empty slot moved
/// right): valid, not solved, and passing the parity test.
pub proof fn lemma_one_slide_from_solved(n: int)
    requires
        2 <= n <= MAX_SIZE,
    ensures
        is_valid_board(n, swap_cells(ascending(n), n * n - 2, n * n - 1)),
        !is_ascending(swap_cells(ascending(n), n * n - 2, n * n - 1)),
        is_solvable_board(n, swap_cells(ascending(n), n * n - 2, n * n - 1)),
{
    let nb = n * n;
    let s = swap_cells(ascending(n), nb - 2, nb - 1);
    assert(nb >= 4) by (nonlinear_arith)
        requires
            nb == n * n,
            n >= 2,
    ;
    lemma_ascending_is_solved_and_solvable(n);
    lemma_swap_valid(n, ascending(n), nb - 2, nb - 1);
    assert(s[nb - 2] == nb && s[nb - 1] == nb - 1);
    assert forall|a: int, b: int|
        0 <= a < b < s.len() && s[a] != nb && s[b] != nb implies s[a] < s[b] by {
        if b == nb - 1 {
            assert(s[a] == a + 1);
        } else {
            assert(s[a] == a + 1 && s[b] == b + 1);
        }
    }
    lemma_no_inversions(s, nb);
    lemma_blank_unique(n, s, nb - 2);
    assert((n - 1) * n + (n - 2) == nb - 2) by (nonlinear_arith)
        requires
            nb == n * n,
    ;
    lemma_row_of(n, n - 1, n - 2);
}

} // verus!
