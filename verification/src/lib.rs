//! Minesweeper: board state and its renderings, a deduction solver, a
//! generator of boards that can be solved without guessing, and the rules of
//! play on a generated board.
pub mod state;
pub mod random;
pub mod solver;
pub mod generator;
pub mod game;
