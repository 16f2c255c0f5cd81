use vstd::prelude::*;

verus! {

/// A cell position on the unbounded signed grid: a column index and a row
/// index, either of which may be negative or zero.
#[derive(Debug, Clone, Copy, PartialEq, Eq, Structural)]
pub struct Pos {
    pub x: i64,
    pub y: i64,
}

impl Pos {
    pub fn new(x: i64, y: i64) -> (r: Pos)
        ensures
            r.x == x,
            r.y == y,
    {
        Pos { x, y }
    }
}

} // verus!
