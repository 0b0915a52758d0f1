use vstd::prelude::*;
use super::mino_rotation::{MinoRotation, small_offsets};
use super::pattern::Pattern;
use super::rotate_direction::RotateDirection;
use crate::common::datastore::coordinate::Coordinate;

verus! {

/// A rotation system with 180-degree rotations.
pub struct MinoRotationImpl {
    cw_map: Vec<Pattern>,
    ccw_map: Vec<Pattern>,
    rotate_180_map: Vec<Pattern>,
}

/// A table of tests with one entry per shape, each with small moves.
pub open spec fn valid_map(map: Seq<Pattern>) -> bool {
    &&& map.len() == 28
    &&& forall|i: int| 0 <= i < 28 ==> small_offsets(#[trigger] map[i]@)
}

impl MinoRotationImpl {
    #[verifier::type_invariant]
    spec fn inv(self) -> bool {
        &&& valid_map(self.cw_map@)
        &&& valid_map(self.ccw_map@)
        &&& valid_map(self.rotate_180_map@)
    }

    pub fn new(cw_map: Vec<Pattern>, ccw_map: Vec<Pattern>, rotate_180_map: Vec<Pattern>) -> (r: Self)
        requires
            valid_map(cw_map@),
            valid_map(ccw_map@),
            valid_map(rotate_180_map@),
        ensures
            forall|i: int| 0 <= i < 28 ==> #[trigger] r.pattern_at(RotateDirection::Clockwise, i) == cw_map@[i]@,
            forall|i: int| 0 <= i < 28 ==> #[trigger] r.pattern_at(RotateDirection::CounterClockwise, i) == ccw_map@[i]@,
            forall|i: int| 0 <= i < 28 ==> #[trigger] r.pattern_at(RotateDirection::Rotate180, i) == rotate_180_map@[i]@,
    {
        MinoRotationImpl { cw_map, ccw_map, rotate_180_map }
    }
}

impl MinoRotation for MinoRotationImpl {
    closed spec fn pattern_at(&self, direction: RotateDirection, index: int) -> Seq<(Coordinate, bool)> {
        match direction {
            RotateDirection::Clockwise => self.cw_map@[index]@,
            RotateDirection::CounterClockwise => self.ccw_map@[index]@,
            RotateDirection::Rotate180 => self.rotate_180_map@[index]@,
        }
    }

    closed spec fn spec_supports_180(&self) -> bool {
        true
    }

    fn get_map(&self, direction: RotateDirection) -> (r: &Vec<Pattern>) {
        proof {
            use_type_invariant(self);
        }
        match direction {
            RotateDirection::Clockwise => &self.cw_map,
            RotateDirection::CounterClockwise => &self.ccw_map,
            RotateDirection::Rotate180 => &self.rotate_180_map,
        }
    }

    fn supports_180(&self) -> (r: bool) {
        true
    }
}

} // verus!
