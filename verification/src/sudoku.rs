//! A sudoku board, the rules of the game, and a solver.

pub mod gameboard;
pub mod position;
pub mod solver;

pub use crate::sudoku::gameboard::entity::{Cell, SudokuBoard, GAME_SIZE};
pub use crate::sudoku::position::Position;
