//! A verified solver for 9×9 Sudoku puzzles.
//!
//! A puzzle is a sequence of 81 cells in row-major order, 0 standing for a
//! blank. [`solve_sudoku`] returns the first completion of a puzzle, or
//! nothing when there is none. [`is_valid_sudoku`] tells whether a board
//! obeys the rule that no row, column or block holds a digit twice, and
//! [`solver`] is the backtracking search itself.
//!
//! The contracts speak of a board as the sequence of its cells:
//! [`units`] says where rows, columns and blocks lie in it and what the
//! rule is, [`completion`] what it means to complete a puzzle and which
//! completion is the first, and [`laws`] proves what follows for every
//! puzzle.

pub mod completion;
pub mod grid;
pub mod laws;
pub mod search;
pub mod units;
pub mod validator;

pub use grid::Grid;
pub use search::{is_valid_guess, solve_sudoku, solver};
pub use validator::{is_valid_sudoku, is_valid_unit};
