//! The puzzle grid: an owned, size-checked `N×N` array of tile values that
//! always holds a permutation of `1..=N*N`.

use vstd::prelude::*;

use crate::board::{
    ascending, blank, blank_coordinates, blank_index, cell_index, count_above, inversions, is_ascending,
    is_solvable_board, is_valid_board, lemma_ascending_is_solved_and_solvable,
    lemma_blank_unique, lemma_cell_index_bound, lemma_coordinates_of, lemma_count_above_bound,
    lemma_inversions_bound, lemma_row_of, lemma_swap_valid, next_selection, position_coordinates, swap_cells,
};
use crate::tile::{in_grid, wrapped_step, Direction, TileCoordinates, TileValue, MAX_SIZE};

verus! {

/// Why a grid could not be built.
#[derive(Clone, Copy, Debug, PartialEq, Eq, Structural)]
pub enum TaquinError {
    /// The dimension is below 2 or above `MAX_SIZE`, or the rows do not form
    /// a square.
    InvalidSize,
    /// The values are not a permutation of `1..=N*N`.
    InvalidTiles,
}

/// The abstract value of a grid: its dimension and its cells in row-major
/// order.
pub struct Board {
    pub size: int,
    pub cells: Seq<int>,
}

/// The integer values of a sequence of tiles.
pub open spec fn values(tiles: Seq<TileValue>) -> Seq<int> {
    Seq::new(tiles.len(), |k: int| tiles[k].0 as int)
}

/// The row-major reading of the first `n` entries of each of the first `n`
/// rows.
pub open spec fn rows_cells(rows: Seq<Vec<TileValue>>, n: int) -> Seq<int> {
    Seq::new((n * n) as nat, |k: int| rows[k / n]@[k % n].0 as int)
}

/// The rows form an `n×n` square with `n` in the supported range.
pub open spec fn is_square(rows: Seq<Vec<TileValue>>) -> bool {
    &&& 2 <= rows.len() <= MAX_SIZE
    &&& forall|j: int| 0 <= j < rows.len() ==> (#[trigger] rows[j])@.len() == rows.len()
}

/// An `N×N` sliding-puzzle grid.
pub struct Taquin {
    size: i8,
    tiles: Vec<TileValue>,
}

impl View for Taquin {
    type V = Board;

    closed spec fn view(&self) -> Board {
        Board { size: self.size as int, cells: values(self.tiles@) }
    }
}

/// `n * n` for a supported dimension, as an `i8`.
fn square(n: i8) -> (r: i8)
    requires
        2 <= n <= MAX_SIZE,
    ensures
        r as int == n * n,
        4 <= r <= 121,
{
    assert(4 <= n * n <= 121) by (nonlinear_arith)
        requires
            2 <= n <= 11,
    ;
    n * n
}

impl Taquin {
    /// The grid invariant: a permutation of `1..=N*N` on `N*N` cells.
    pub open spec fn wf(&self) -> bool {
        is_valid_board(self@.size, self@.cells)
    }

    /// The solved grid of dimension `size`; fails with `InvalidSize` unless
    /// `2 <= size <= MAX_SIZE`.
    pub fn new(size: i8) -> (r: Result<Taquin, TaquinError>)
        ensures
            match r {
                Ok(t) => {
                    &&& 2 <= size <= MAX_SIZE
                    &&& t.wf()
                    &&& t@.size == size
                    &&& t@.cells == ascending(size as int)
                },
                Err(e) => !(2 <= size <= MAX_SIZE) && e == TaquinError::InvalidSize,
            },
    {
        if size < 2 || size > MAX_SIZE {
            return Err(TaquinError::InvalidSize);
        }
        let nb = square(size);
        let mut tiles: Vec<TileValue> = Vec::new();
        let mut v: i8 = 1;
        while v <= nb
            invariant
                1 <= v <= nb + 1,
                nb <= 121,
                tiles@.len() == v - 1,
                forall|k: int| 0 <= k < tiles@.len() ==> #[trigger] tiles@[k].0 == k + 1,
            decreases nb + 1 - v,
        {
            tiles.push(TileValue(v));
            v = v + 1;
        }
        let t = Taquin { size, tiles };
        proof {
            lemma_ascending_is_solved_and_solvable(size as int);
            assert(t@.cells =~= ascending(size as int));
        }
        Ok(t)
    }

    /// Whether `tiles` is a valid `n×n` grid: every value in `1..=n*n`, no
    /// value twice, and the empty-slot marker present.
    fn tiles_are_valid(tiles: &Vec<TileValue>, n: i8) -> (r: bool)
        requires
            2 <= n <= MAX_SIZE,
            tiles@.len() == n * n,
        ensures
            r == is_valid_board(n as int, values(tiles@)),
    {
        let ghost c = values(tiles@);
        let nb = square(n);
        let len = tiles.len();
        let mut has_blank = false;
        let mut a: usize = 0;
        while a < len
            invariant
                c == values(tiles@),
                len == tiles@.len() == c.len(),
                nb == n * n,
                0 <= a <= len,
                forall|k: int| 0 <= k < a ==> 1 <= #[trigger] c[k] <= nb,
                forall|x: int, y: int| 0 <= y < x < a ==> #[trigger] c[x] != #[trigger] c[y],
                has_blank <==> exists|k: int| 0 <= k < a && c[k] == nb,
            decreases len - a,
        {
            let v = tiles[a].0;
            assert(c[a as int] == v);
            if v < 1 || v > nb {
                return false;
            }
            let mut b: usize = 0;
            while b < a
                invariant
                    c == values(tiles@),
                    len == tiles@.len() == c.len(),
                    0 <= b <= a < len,
                    c[a as int] == v,
                    forall|y: int| 0 <= y < b ==> #[trigger] c[y] != v,
                decreases a - b,
            {
                assert(c[b as int] == tiles@[b as int].0);
                if tiles[b].0 == v {
                    assert(c[a as int] == c[b as int]);
                    return false;
                }
                b = b + 1;
            }
            if v == nb {
                has_blank = true;
            }
            a = a + 1;
        }
        assert(forall|x: int, y: int|
            0 <= x < len && 0 <= y < len && x != y ==> #[trigger] c[x] != #[trigger] c[y]) by {
            assert forall|x: int, y: int| 0 <= x < len && 0 <= y < len && x != y implies #[trigger] c[x]
                != #[trigger] c[y] by {
                if y < x {
                    assert(c[x] != c[y]);
                } else {
                    assert(c[y] != c[x]);
                }
            }
        }
        has_blank
    }

    /// Builds a grid from its rows, top to bottom. Fails with `InvalidSize`
    /// unless the rows form an `N×N` square with `2 <= N <= MAX_SIZE`, and
    /// otherwise with `InvalidTiles` unless the values are a permutation of
    /// `1..=N*N`.
    pub fn from_rows(rows: &Vec<Vec<TileValue>>) -> (r: Result<Taquin, TaquinError>)
        ensures
            match r {
                Ok(t) => {
                    &&& is_square(rows@)
                    &&& t.wf()
                    &&& t@.size == rows@.len()
                    &&& t@.cells == rows_cells(rows@, rows@.len() as int)
                },
                Err(e) => if !is_square(rows@) {
                    e == TaquinError::InvalidSize
                } else {
                    &&& e == TaquinError::InvalidTiles
                    &&& !is_valid_board(rows@.len() as int, rows_cells(rows@, rows@.len() as int))
                },
            },
    {
        let n = rows.len();
        if n < 2 || n > 11 {
            return Err(TaquinError::InvalidSize);
        }
        let mut j: usize = 0;
        while j < n
            invariant
                n == rows@.len(),
                0 <= j <= n,
                forall|y: int| 0 <= y < j ==> (#[trigger] rows@[y])@.len() == n,
            decreases n - j,
        {
            if rows[j].len() != n {
                return Err(TaquinError::InvalidSize);
            }
            j = j + 1;
        }
        let ghost want = rows_cells(rows@, n as int);
        let mut tiles: Vec<TileValue> = Vec::new();
        let mut j: usize = 0;
        while j < n
            invariant
                n == rows@.len(),
                2 <= n <= 11,
                is_square(rows@),
                want == rows_cells(rows@, n as int),
                0 <= j <= n,
                tiles@.len() == j * n,
                forall|k: int| 0 <= k < tiles@.len() ==> #[trigger] tiles@[k].0 as int == want[k],
            decreases n - j,
        {
            assert(j * n + n <= n * n) by (nonlinear_arith)
                requires
                    j < n,
            ;
            let mut i: usize = 0;
            while i < n
                invariant
                    n == rows@.len(),
                    2 <= n <= 11,
                    is_square(rows@),
                    want == rows_cells(rows@, n as int),
                    0 <= j < n,
                    0 <= i <= n,
                    j * n + n <= n * n,
                    tiles@.len() == j * n + i,
                    forall|k: int| 0 <= k < tiles@.len() ==> #[trigger] tiles@[k].0 as int == want[k],
                decreases n - i,
            {
                proof {
                    lemma_row_of(n as int, j as int, i as int);
                    assert(rows@[j as int]@.len() == n);
                }
                tiles.push(rows[j][i]);
                i = i + 1;
            }
            assert(j * n + n == (j + 1) * n) by (nonlinear_arith);
            j = j + 1;
        }
        let size = n as i8;
        assert(values(tiles@) =~= want);
        if !Self::tiles_are_valid(&tiles, size) {
            return Err(TaquinError::InvalidTiles);
        }
        Ok(Taquin { size, tiles })
    }

    /// The dimension `N` of the grid.
    pub fn size(&self) -> (r: i8)
        ensures
            r as int == self@.size,
    {
        self.size
    }

    /// The number of cells, `N * N`.
    pub fn tiles_nb(&self) -> (r: usize)
        requires
            self.wf(),
        ensures
            r == self@.size * self@.size,
    {
        self.tiles.len()
    }

    /// The cells in row-major order.
    pub fn tiles(&self) -> (r: &Vec<TileValue>)
        ensures
            values(r@) == self@.cells,
    {
        &self.tiles
    }

    /// Row-major position of a cell of the grid.
    pub(crate) fn index(&self, c: TileCoordinates) -> (r: usize)
        requires
            self.wf(),
            in_grid(c, self@.size),
        ensures
            r as int == cell_index(c, self@.size),
            r < self@.cells.len(),
    {
        proof {
            lemma_cell_index_bound(c, self@.size);
        }
        c.j as usize * self.size as usize + c.i as usize
    }

    /// The value held by a cell.
    pub fn value_at(&self, c: TileCoordinates) -> (r: TileValue)
        requires
            self.wf(),
            in_grid(c, self@.size),
        ensures
            r.0 as int == self@.cells[cell_index(c, self@.size)],
    {
        let k = self.index(c);
        self.tiles[k]
    }

    /// Row-major position of the empty slot.
    fn blank_position(&self) -> (r: usize)
        requires
            self.wf(),
        ensures
            r < self.tiles@.len(),
            r as int == blank_index(self@.size, self@.cells),
            self@.cells[r as int] == blank(self@.size),
    {
        let ghost c = self@.cells;
        let nb = square(self.size);
        let mut k: usize = 0;
        loop
            invariant
                self.wf(),
                c == self@.cells,
                nb == blank(self@.size),
                0 <= k <= c.len(),
                exists|m: int| k <= m < c.len() && c[m] == nb,
            decreases c.len() - k,
        {
            assert(c[k as int] == self.tiles@[k as int].0);
            if self.tiles[k].0 == nb {
                proof {
                    lemma_blank_unique(self@.size, c, k as int);
                }
                return k;
            }
            k = k + 1;
        }
    }

    /// The cell at a row-major position.
    pub fn coordinates_of(&self, k: usize) -> (r: TileCoordinates)
        requires
            self.wf(),
            k < self@.cells.len(),
        ensures
            r == position_coordinates(self@.size, k as int),
            in_grid(r, self@.size),
            cell_index(r, self@.size) == k,
    {
        let n = self.size as usize;
        proof {
            lemma_coordinates_of(n as int, k as int);
        }
        TileCoordinates::new((k % n) as i8, (k / n) as i8)
    }

    /// The coordinates of the empty slot, the only cell holding `N * N`.
    pub fn get_empty_tile_coordinates(&self) -> (r: TileCoordinates)
        requires
            self.wf(),
        ensures
            r == blank_coordinates(self@.size, self@.cells),
            in_grid(r, self@.size),
            cell_index(r, self@.size) == blank_index(self@.size, self@.cells),
            self@.cells[cell_index(r, self@.size)] == blank(self@.size),
    {
        let k = self.blank_position();
        self.coordinates_of(k)
    }

    /// The number of pairs of cells, in row-major order and neither of them
    /// the empty slot, whose values are out of order.
    pub fn get_inversion_count(&self) -> (r: usize)
        requires
            self.wf(),
        ensures
            r == inversions(self@.cells, blank(self@.size)),
    {
        let ghost c = self@.cells;
        let nb = square(self.size);
        let len = self.tiles.len();
        let mut count: usize = 0;
        let mut j: usize = 0;
        while j < len
            invariant
                self.wf(),
                c == self@.cells,
                len == c.len() <= 121,
                nb == blank(self@.size),
                0 <= j <= len,
                count == inversions(c.take(j as int), nb as int),
            decreases len - j,
        {
            let v = self.tiles[j].0;
            assert(c[j as int] == v);
            proof {
                lemma_inversions_bound(c.take(j as int), nb as int);
                assert(j * j + j <= 121 * 121) by (nonlinear_arith)
                    requires
                        j < 121,
                ;
            }
            let mut i: usize = 0;
            while i < j
                invariant
                    self.wf(),
                    c == self@.cells,
                    len == c.len() <= 121,
                    nb == blank(self@.size),
                    0 <= i <= j < len,
                    c[j as int] == v,
                    inversions(c.take(j as int), nb as int) <= j * j,
                    j * j + j <= 121 * 121,
                    count == inversions(c.take(j as int), nb as int) + if v != nb {
                        count_above(c.take(i as int), v as int, nb as int)
                    } else {
                        0
                    },
                decreases j - i,
            {
                proof {
                    assert(c.take(i + 1).drop_last() =~= c.take(i as int));
                    lemma_count_above_bound(c.take(i as int), v as int, nb as int);
                }
                assert(c[i as int] == self.tiles@[i as int].0);
                if self.tiles[i].0 != nb && v != nb && self.tiles[i].0 > v {
                    count = count + 1;
                }
                i = i + 1;
            }
            assert(c.take(j + 1).drop_last() =~= c.take(j as int));
            j = j + 1;
        }
        assert(c.take(len as int) =~= c);
        count
    }

    /// The parity test for reachability from the solved grid: for odd `N`
    /// the inversion count must be even; for even `N` the parity of the
    /// inversion count must differ from the parity of the empty slot's row.
    pub fn is_solvable(&self) -> (r: bool)
        requires
            self.wf(),
        ensures
            r == is_solvable_board(self@.size, self@.cells),
    {
        let inversion_count = self.get_inversion_count();
        let empty = self.get_empty_tile_coordinates();
        proof {
            lemma_row_of(self@.size, empty.j as int, empty.i as int);
        }
        if self.size % 2 == 1 {
            return inversion_count % 2 == 0;
        }
        if empty.j % 2 == 1 {
            return inversion_count % 2 == 0;
        }
        inversion_count % 2 == 1
    }

    /// Whether every adjacent pair of cells in row-major order is increasing,
    /// that is, whether the grid reads `1, 2, ..., N*N`.
    pub fn is_solved(&self) -> (r: bool)
        requires
            self.wf(),
        ensures
            r == is_ascending(self@.cells),
    {
        let ghost c = self@.cells;
        let len = self.tiles.len();
        let mut k: usize = 1;
        while k < len
            invariant
                c == self@.cells,
                len == c.len(),
                1 <= k <= len,
                forall|m: int| 0 <= m < k - 1 ==> #[trigger] c[m] < c[m + 1],
            decreases len - k,
        {
            assert(c[k - 1] == self.tiles@[k - 1].0 && c[k as int] == self.tiles@[k as int].0);
            if self.tiles[k - 1].0 >= self.tiles[k].0 {
                return false;
            }
            k = k + 1;
        }
        true
    }

    /// One step from `c` in direction `d`, wrapping around the grid's edge.
    fn step(&self, c: TileCoordinates, d: Direction) -> (r: TileCoordinates)
        requires
            self.wf(),
            in_grid(c, self@.size),
        ensures
            r == wrapped_step(c, d, self@.size),
            in_grid(r, self@.size),
            r != c,
    {
        let n = self.size;
        proof {
            let m = n as int;
            lemma_row_of(m, 0, m - 1);
            lemma_row_of(m, 1, 0);
            if c.i > 0 {
                lemma_row_of(m, 1, c.i - 1);
            }
            if c.i + 1 < m {
                lemma_row_of(m, 0, c.i + 1);
            }
            if c.j > 0 {
                lemma_row_of(m, 1, c.j - 1);
            }
            if c.j + 1 < m {
                lemma_row_of(m, 0, c.j + 1);
            }
        }
        match d {
            Direction::Left => TileCoordinates::new(
                if c.i == 0 {
                    n - 1
                } else {
                    c.i - 1
                },
                c.j,
            ),
            Direction::Right => TileCoordinates::new(
                if c.i == n - 1 {
                    0
                } else {
                    c.i + 1
                },
                c.j,
            ),
            Direction::Up => TileCoordinates::new(
                c.i,
                if c.j == 0 {
                    n - 1
                } else {
                    c.j - 1
                },
            ),
            Direction::Down => TileCoordinates::new(
                c.i,
                if c.j == n - 1 {
                    0
                } else {
                    c.j + 1
                },
            ),
        }
    }

    /// Where the selection goes from `current_coordinates` for `direction`:
    /// one step with wraparound, and one more in the same direction when that
    /// step lands on the empty slot. The result never is the empty slot.
    pub fn get_next_selection_coordinates(
        &self,
        current_coordinates: &TileCoordinates,
        direction: Direction,
    ) -> (r: TileCoordinates)
        requires
            self.wf(),
            in_grid(*current_coordinates, self@.size),
        ensures
            r == next_selection(self@.size, self@.cells, *current_coordinates, direction),
            in_grid(r, self@.size),
            self@.cells[cell_index(r, self@.size)] != blank(self@.size),
    {
        let first = self.step(*current_coordinates, direction);
        if !self.value_at(first).is_empty(self.size) {
            return first;
        }
        let second = self.step(first, direction);
        proof {
            let n = self@.size;
            lemma_row_of(n, first.j as int, first.i as int);
            lemma_row_of(n, second.j as int, second.i as int);
            lemma_cell_index_bound(first, n);
            lemma_cell_index_bound(second, n);
            assert(cell_index(first, n) != cell_index(second, n));
        }
        second
    }

    /// Exchanges the values of two cells. Adjacency is not required here: it
    /// is the caller's rule.
    pub fn swap_tiles(&mut self, a: TileCoordinates, b: TileCoordinates)
        requires
            old(self).wf(),
            in_grid(a, old(self)@.size),
            in_grid(b, old(self)@.size),
        ensures
            final(self).wf(),
            final(self)@.size == old(self)@.size,
            final(self)@.cells == swap_cells(
                old(self)@.cells,
                cell_index(a, old(self)@.size),
                cell_index(b, old(self)@.size),
            ),
    {
        let ka = self.index(a);
        let kb = self.index(b);
        self.swap_positions(ka, kb);
    }

    /// Exchanges the values at two row-major positions.
    pub fn swap_positions(&mut self, ka: usize, kb: usize)
        requires
            old(self).wf(),
            ka < old(self)@.cells.len(),
            kb < old(self)@.cells.len(),
        ensures
            final(self).wf(),
            final(self)@.size == old(self)@.size,
            final(self)@.cells == swap_cells(old(self)@.cells, ka as int, kb as int),
    {
        let ghost before = self@.cells;
        let ta = self.tiles[ka];
        let tb = self.tiles[kb];
        self.tiles.set(ka, tb);
        self.tiles.set(kb, ta);
        proof {
            assert(self@.cells =~= swap_cells(before, ka as int, kb as int));
            lemma_swap_valid(self@.size, before, ka as int, kb as int);
        }
    }
}

} // verus!
