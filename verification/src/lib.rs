//! Sudoku boards of any square side, solved by deduction and search, counted,
//! and generated, with every exported function proved against its contract.
//!
//! A [`Sudoku`] is the board; its picture in contracts is a [`Board`]. A
//! [`SudokuSolver`] applies its [`SolvingStrategy`] list round after round and
//! searches where deduction ends; it also gives hints, counts solutions and
//! makes new puzzles of a chosen [`Difficulty`]. [`game::SudokuApp`] is a game
//! on one board, driven by keys.

pub mod arith;
pub mod cell;
pub mod census;
pub mod counting;
pub mod deduction;
pub mod game;
pub mod generator;
pub mod grid;
pub mod laws;
mod random;
pub mod solutions;
pub mod solver;
pub mod strategies;
pub mod sudoku;
pub mod text;
pub mod values;

pub use cell::Cell;
pub use generator::Difficulty;
pub use grid::Board;
pub use solver::{SolverStats, SudokuSolver};
pub use strategies::{
    get_all_strategies, BoxLineReduction, HiddenSingles, NakedPairs, NakedSingles, PointingPairs,
    SolvingStrategy, Swordfish, XWing,
};
pub use sudoku::Sudoku;
