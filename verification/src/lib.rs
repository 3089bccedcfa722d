//! A 9x9 Sudoku solver and generator with machine-checked contracts.
//!
//! Grids are solved by constraint propagation on bitmasks of candidates and
//! by backtracking search where propagation is stuck. Every function is
//! verified against its contract; the contracts are stated over plain
//! sequences of 81 bytes (see `rules`) and over the model of a search state
//! (see `board`).

pub mod batch;
pub mod board;
pub mod deduce;
pub mod eager;
pub mod laws;
pub mod mask;
pub mod parse;
mod random;
pub mod rules;
pub mod search;
pub mod singles;
pub mod solver;
pub mod sudoku;
pub mod topology;
pub mod types;

pub use crate::solver::SudokuSolver;
pub use crate::sudoku::{Sudoku, SudokuLine};
pub use crate::types::{
    BlockFormatParseError, Entry, LineFormatParseError, NotEnoughRows, PubEntry, Unsolvable,
};
