//! A sliding-tile puzzle engine ("taquin"): an N×N grid of numbered tiles with
//! one empty slot, its solvability test, a constrained random shuffle, and the
//! selection and move rules that let a player slide tiles.

pub mod board;
pub mod counter;
pub mod laws;
pub mod parity;
pub mod puzzle;
pub mod taquin;
pub mod tile;
