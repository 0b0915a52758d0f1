//! The SRS rotation system.

use vstd::prelude::*;
use super::mino_rotation::{MinoRotation, small_offsets};
use super::mino_rotation_impl::valid_map;
use super::mino_rotation_no_180_impl::MinoRotationNo180Impl;
use super::offset_define::{OffsetType, create_pattern, lemma_srs_privilege_tests, offset_type_of, srs_pattern};
use super::pattern::Pattern;
use super::rotate::Rotate;
use super::rotate_direction::RotateDirection;
use crate::sfinder_core::mino::piece::Piece;

verus! {

/// The shape with index `i` of the rotation tables.
pub open spec fn shape_of_index(i: int) -> (Piece, Rotate) {
    (Piece::from_index(i / 4), Rotate::from_index(i % 4))
}

/// The SRS tests of every shape for a quarter turn, clockwise if `clockwise`.
fn create_map(clockwise: bool) -> (r: Vec<Pattern>)
    ensures
        valid_map(r@),
        forall|i: int| 0 <= i < 28 ==> (#[trigger] r@[i])@ == srs_pattern(
            offset_type_of(shape_of_index(i).0),
            shape_of_index(i).1,
            if clockwise { shape_of_index(i).1.spec_apply(RotateDirection::Clockwise) } else { shape_of_index(i).1.spec_apply(RotateDirection::CounterClockwise) },
        ),
        forall|i: int, j: int| 0 <= i < 28 && 0 <= j < r@[i]@.len() ==> (#[trigger] r@[i]@[j]).1 == (shape_of_index(i).0
            == Piece::T && (shape_of_index(i).1 == Rotate::Spawn || shape_of_index(i).1 == Rotate::Reverse) && j == 4),
{
    let mut map: Vec<Pattern> = Vec::new();
    let mut i: u8 = 0;
    while i < 28
        invariant
            i <= 28,
            map@.len() == i,
            forall|j: int| 0 <= j < i ==> (#[trigger] map@[j])@ == srs_pattern(
                offset_type_of(shape_of_index(j).0),
                shape_of_index(j).1,
                if clockwise { shape_of_index(j).1.spec_apply(RotateDirection::Clockwise) } else { shape_of_index(j).1.spec_apply(RotateDirection::CounterClockwise) },
            ),
            forall|j: int| 0 <= j < i ==> small_offsets(#[trigger] map@[j]@),
        decreases 28 - i,
    {
        let piece = Piece::new(i / 4);
        let rotate = Rotate::new(i % 4);
        let next = if clockwise {
            rotate.get_cw_rotate()
        } else {
            rotate.get_ccw_rotate()
        };
        let pattern = create_pattern(OffsetType::from(piece), rotate, next);
        proof {
            assert(shape_of_index(i as int) == (piece, rotate));
            lemma_srs_small(offset_type_of(piece), rotate, next);
        }
        map.push(pattern);
        i = i + 1;
    }
    proof {
        assert forall|i: int, j: int| 0 <= i < 28 && 0 <= j < map@[i]@.len() implies (#[trigger] map@[i]@[j]).1 == (
        shape_of_index(i).0 == Piece::T && (shape_of_index(i).1 == Rotate::Spawn || shape_of_index(i).1 == Rotate::Reverse)
            && j == 4) by {
            let (p, c) = shape_of_index(i);
            let next = if clockwise {
                c.spec_apply(RotateDirection::Clockwise)
            } else {
                c.spec_apply(RotateDirection::CounterClockwise)
            };
            lemma_srs_privilege_tests(p, c, next, j);
        }
    }
    map
}

/// The SRS tests move a shape by at most 2 cells each way.
proof fn lemma_srs_small(offset_type: OffsetType, current: Rotate, next: Rotate)
    ensures
        small_offsets(srs_pattern(offset_type, current, next)),
{
}

/// The SRS rotation system, without 180-degree rotations.
pub fn create() -> (r: MinoRotationNo180Impl)
    ensures
        !r.spec_supports_180(),
        forall|i: int| 0 <= i < 28 ==> #[trigger] r.pattern_at(RotateDirection::Clockwise, i) == srs_pattern(
            offset_type_of(shape_of_index(i).0),
            shape_of_index(i).1,
            shape_of_index(i).1.spec_apply(RotateDirection::Clockwise),
        ),
        forall|i: int| 0 <= i < 28 ==> #[trigger] r.pattern_at(RotateDirection::CounterClockwise, i) == srs_pattern(
            offset_type_of(shape_of_index(i).0),
            shape_of_index(i).1,
            shape_of_index(i).1.spec_apply(RotateDirection::CounterClockwise),
        ),
        forall|i: int, j: int| 0 <= i < 28 && 0 <= j < r.pattern_at(RotateDirection::Clockwise, i).len() ==> (#[trigger] r.pattern_at(
            RotateDirection::Clockwise,
            i,
        )[j]).1 == (shape_of_index(i).0 == Piece::T && (shape_of_index(i).1 == Rotate::Spawn || shape_of_index(i).1
            == Rotate::Reverse) && j == 4),
        forall|i: int, j: int| 0 <= i < 28 && 0 <= j < r.pattern_at(RotateDirection::CounterClockwise, i).len() ==> (#[trigger] r.pattern_at(
            RotateDirection::CounterClockwise,
            i,
        )[j]).1 == (shape_of_index(i).0 == Piece::T && (shape_of_index(i).1 == Rotate::Spawn || shape_of_index(i).1
            == Rotate::Reverse) && j == 4),
{
    let cw_map = create_map(true);
    let ccw_map = create_map(false);
    MinoRotationNo180Impl::new(cw_map, ccw_map)
}

} // verus!
