//! Tile values, grid coordinates and navigation directions.

use vstd::prelude::*;

verus! {

/// The largest supported puzzle dimension: every tile value, up to `N * N`,
/// must fit in an `i8`.
pub const MAX_SIZE: i8 = 11;

/// The value written on a tile. On an `N×N` grid values range over `1..=N*N`,
/// and `N*N` marks the empty slot.
#[derive(Clone, Copy, Debug, PartialEq, Eq, PartialOrd, Structural)]
pub struct TileValue(pub i8);

impl TileValue {
    /// Whether this value is the empty-slot marker of a grid of the given size.
    pub fn is_empty(&self, taquin_size: i8) -> (r: bool)
        requires
            -MAX_SIZE <= taquin_size <= MAX_SIZE,
        ensures
            r == (self.0 as int == taquin_size as int * taquin_size as int),
    {
        assert(0 <= taquin_size as int * taquin_size as int <= 121) by (nonlinear_arith)
            requires
                -11 <= taquin_size as int <= 11,
        ;
        self.0 == taquin_size * taquin_size
    }
}

/// A cell address: `i` is the column, `j` the row, both counted from zero at
/// the top-left corner.
#[derive(Clone, Copy, Debug, PartialEq, Eq, Structural)]
pub struct TileCoordinates {
    pub i: i8,
    pub j: i8,
}

/// Absolute value of an integer.
pub open spec fn abs(x: int) -> int {
    if x < 0 {
        -x
    } else {
        x
    }
}

/// Two cells are 4-adjacent when their Manhattan distance is exactly one
/// (no wraparound).
pub open spec fn are_neighbours(a: TileCoordinates, b: TileCoordinates) -> bool {
    abs(a.i - b.i) + abs(a.j - b.j) == 1
}

/// A cell lies on an `n×n` grid.
pub open spec fn in_grid(c: TileCoordinates, n: int) -> bool {
    0 <= c.i < n && 0 <= c.j < n
}

impl TileCoordinates {
    pub fn new(i: i8, j: i8) -> (r: Self)
        ensures
            r.i == i,
            r.j == j,
    {
        Self { i, j }
    }

    /// Whether `other` is one of the four cells that share a side with `self`.
    pub fn is_neighbour_of(&self, other: &TileCoordinates) -> (r: bool)
        ensures
            r == are_neighbours(*self, *other),
    {
        let di: i16 = self.i as i16 - other.i as i16;
        let dj: i16 = self.j as i16 - other.j as i16;
        (di == 1 || di == -1) && dj == 0 || di == 0 && (dj == 1 || dj == -1)
    }
}

/// A navigation input that moves the selection by one cell.
#[derive(Clone, Copy, Debug, PartialEq, Eq, Structural)]
pub enum Direction {
    Left,
    Right,
    Up,
    Down,
}

/// One step from `c` in direction `d` on an `n×n` grid, wrapping around the
/// edge of the axis that `d` moves along.
pub open spec fn wrapped_step(c: TileCoordinates, d: Direction, n: int) -> TileCoordinates {
    match d {
        Direction::Left => TileCoordinates { i: ((c.i - 1 + n) % n) as i8, j: c.j },
        Direction::Right => TileCoordinates { i: ((c.i + 1) % n) as i8, j: c.j },
        Direction::Up => TileCoordinates { i: c.i, j: ((c.j - 1 + n) % n) as i8 },
        Direction::Down => TileCoordinates { i: c.i, j: ((c.j + 1) % n) as i8 },
    }
}

} // verus!
