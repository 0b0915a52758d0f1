use vstd::prelude::*;
use super::rotate::Rotate;
use super::rotate_direction::RotateDirection;
use crate::sfinder_core::mino::mino::Mino;

verus! {

/// A successful rotation: where the shape ended up, by which test and in which direction.
#[derive(Debug, Clone, Copy, PartialEq, Eq, Structural)]
pub struct SpinResult {
    pub after_rotate: Rotate,
    pub x: u8,
    pub y: u8,
    pub test_pattern_index: u8,
    pub direction: RotateDirection,
    pub is_privilege_spins: bool,
}

impl SpinResult {
    /// The orientation the shape rotated into.
    pub open spec fn to_rotate(&self) -> Rotate {
        self.after_rotate
    }

    pub fn new(
        after: &Mino,
        x: u8,
        y: u8,
        test_pattern_index: u8,
        direction: RotateDirection,
        is_privilege_spins: bool,
    ) -> (r: Self)
        ensures
            r.to_rotate() == after.rotate_of(),
            r.x == x,
            r.y == y,
            r.test_pattern_index == test_pattern_index,
            r.direction == direction,
            r.is_privilege_spins == is_privilege_spins,
    {
        SpinResult { after_rotate: after.get_rotate(), x, y, test_pattern_index, direction, is_privilege_spins }
    }

    pub fn get_to_rotate(&self) -> (r: Rotate)
        ensures
            r == self.to_rotate(),
    {
        self.after_rotate
    }
}

} // verus!
