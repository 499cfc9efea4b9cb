//! Small command-line tools as a library: a Huffman codec, an infix
//! calculator, field selection by ranges, adjacent-line deduplication and a
//! sudoku board with a solver.

pub mod calculator;
pub mod cut;
pub mod huffman;
pub mod sudoku;
pub mod text;
pub mod uniq;
