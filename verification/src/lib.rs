//! A solver for classic 9x9 Sudoku puzzles: candidate bitsets, constraint
//! propagation, hidden-single detection and backtracking search.

pub mod board_info;
pub mod candidate_set;
pub mod classic_board;
pub mod errors;
pub mod grid;
pub mod model;
pub mod rules;
pub mod singles;
