use vstd::prelude::*;
use super::mino_rotation::{MinoRotation, small_offsets};
use super::mino_rotation_impl::valid_map;
use super::pattern::Pattern;
use super::rotate_direction::RotateDirection;
use crate::common::datastore::coordinate::Coordinate;

verus! {

/// A rotation system without 180-degree rotations.
pub struct MinoRotationNo180Impl {
    cw_map: Vec<Pattern>,
    ccw_map: Vec<Pattern>,
}

impl MinoRotationNo180Impl {
    #[verifier::type_invariant]
    spec fn inv(self) -> bool {
        &&& valid_map(self.cw_map@)
        &&& valid_map(self.ccw_map@)
    }

    pub fn new(cw_map: Vec<Pattern>, ccw_map: Vec<Pattern>) -> (r: Self)
        requires
            valid_map(cw_map@),
            valid_map(ccw_map@),
        ensures
            forall|i: int| 0 <= i < 28 ==> #[trigger] r.pattern_at(RotateDirection::Clockwise, i) == cw_map@[i]@,
            forall|i: int| 0 <= i < 28 ==> #[trigger] r.pattern_at(RotateDirection::CounterClockwise, i) == ccw_map@[i]@,
            !r.spec_supports_180(),
    {
        MinoRotationNo180Impl { cw_map, ccw_map }
    }
}

impl MinoRotation for MinoRotationNo180Impl {
    closed spec fn pattern_at(&self, direction: RotateDirection, index: int) -> Seq<(Coordinate, bool)> {
        match direction {
            RotateDirection::Clockwise => self.cw_map@[index]@,
            RotateDirection::CounterClockwise => self.ccw_map@[index]@,
            RotateDirection::Rotate180 => Seq::empty(),
        }
    }

    closed spec fn spec_supports_180(&self) -> bool {
        false
    }

    fn get_map(&self, direction: RotateDirection) -> (r: &Vec<Pattern>) {
        proof {
            use_type_invariant(self);
        }
        match direction {
            RotateDirection::Clockwise => &self.cw_map,
            _ => &self.ccw_map,
        }
    }

    fn supports_180(&self) -> (r: bool) {
        false
    }
}

} // verus!
