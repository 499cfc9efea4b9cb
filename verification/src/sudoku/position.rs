//! A place on the board.

use vstd::prelude::*;

verus! {

/// A column `x` and a row `y`, both counted from zero.
#[derive(Debug, Copy, Clone)]
pub struct Position {
    pub x: usize,
    pub y: usize,
}

impl Position {
    /// The place in column `x` and row `y`.
    pub fn new(x: usize, y: usize) -> (p: Self)
        ensures
            p.x == x,
            p.y == y,
    {
        Position { x, y }
    }

    /// Whether the place is on the board.
    pub open spec fn on_board(self) -> bool {
        self.x < 9 && self.y < 9
    }
}

} // verus!
