//! An infix calculator: tokens, the change to postfix order, evaluation.

pub mod postfix;
pub mod tokens;
