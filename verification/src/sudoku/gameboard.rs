//! The board of the game.

pub mod entity;
pub mod prelude;
