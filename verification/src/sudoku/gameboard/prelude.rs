//! What the game needs of the board.

pub use crate::sudoku::gameboard::entity::{Cell, SudokuBoard, GAME_SIZE};
