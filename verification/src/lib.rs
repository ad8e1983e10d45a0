//! A 9×9 Sudoku library: the grid, the rules of the game, and a backtracking
//! search that fills the empty squares.

use vstd::prelude::*;

pub mod algorithms;
pub mod game;
pub mod metrics;
pub mod puzzle;
pub mod rules;
pub mod search;
pub mod solution;
pub mod text;
pub mod tui;
pub mod util;

verus! {

/// The number of squares of a puzzle.
pub const PUZZLE_DIGITS: usize = 81;

} // verus!
