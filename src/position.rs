use vstd::prelude::*;

verus! {

/// A cell of the grid: `x` is the column, `y` the row, both counted from zero.
#[derive(Clone, Copy, Debug, PartialEq, Eq, Structural)]
pub struct Position {
    /// Column.
    pub x: usize,
    /// Row.
    pub y: usize,
}

impl Position {
    /// The position at column `x` and row `y`.
    pub fn new(x: usize, y: usize) -> (r: Position)
        ensures
            r.x == x,
            r.y == y,
    {
        Position { x, y }
    }

    /// The position as a pair of mathematical integers (column, row).
    pub open spec fn cell(self) -> (int, int) {
        (self.x as int, self.y as int)
    }
}

} // verus!
