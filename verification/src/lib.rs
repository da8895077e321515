//! A verified solver for standard 9x9 Sudoku puzzles.
//!
//! A board holds, for each of its 81 cells, a candidate set: a 9-bit mask
//! where bit `d - 1` set means digit `d` is still possible in that cell.
//! Constraint propagation eliminates a resolved cell's digit from the
//! candidate sets of its peers (the cells sharing its row, column or 3x3
//! box), cascading whenever a peer is thereby reduced to a single
//! candidate. Backtracking search with a minimum-remaining-values
//! heuristic then enumerates the solutions.

pub mod board;
pub mod masks;
pub mod solver;

pub use board::Board;
pub use solver::solve;
