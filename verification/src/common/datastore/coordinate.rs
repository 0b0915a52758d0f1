use vstd::prelude::*;

verus! {

/// A cell offset or position, in cells.
#[derive(Debug, Clone, Copy, PartialEq, Eq, Hash, Structural)]
pub struct Coordinate {
    pub x: i8,
    pub y: i8,
}

impl Coordinate {
    pub fn new(x: i8, y: i8) -> (r: Self)
        ensures
            r.x == x,
            r.y == y,
    {
        Coordinate { x, y }
    }
}

} // verus!
