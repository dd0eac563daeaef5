//! A Sudoku game: the board rules, the solvers and the puzzle generator,
//! with the keyboard-driven game state that a terminal front end runs.
pub mod grid;
pub mod search;
pub mod sudoku;
pub mod logic;
pub mod random;
pub mod app;
