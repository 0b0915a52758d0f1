//! The offset tables of SRS rotation tests.

use vstd::prelude::*;
use super::offset::{Offset, offset_difference, paired_len};
use super::pattern::Pattern;
use super::rotate::Rotate;
use crate::common::datastore::coordinate::Coordinate;
use crate::sfinder_core::mino::piece::Piece;

verus! {

/// The table of offsets a piece uses.
#[derive(Debug, Clone, Copy, PartialEq, Eq, Structural)]
pub enum OffsetType {
    I,
    O,
    T,
    Other,
}

/// The offset table of a piece.
pub open spec fn offset_type_of(piece: Piece) -> OffsetType {
    match piece {
        Piece::I => OffsetType::I,
        Piece::O => OffsetType::O,
        Piece::T => OffsetType::T,
        _ => OffsetType::Other,
    }
}

impl From<Piece> for OffsetType {
    fn from(piece: Piece) -> (r: Self) {
        match piece {
            Piece::I => OffsetType::I,
            Piece::O => OffsetType::O,
            Piece::T => OffsetType::T,
            _ => OffsetType::Other,
        }
    }
}

impl vstd::std_specs::convert::FromSpecImpl<Piece> for OffsetType {
    open spec fn obeys_from_spec() -> bool {
        true
    }

    open spec fn from_spec(piece: Piece) -> Self {
        offset_type_of(piece)
    }
}

/// A coordinate of the tables.
pub open spec fn at(x: int, y: int) -> Coordinate {
    Coordinate { x: x as i8, y: y as i8 }
}

/// The offsets of orientation `rotate` in the table `offset_type`, one per test.
pub open spec fn rotate_table(offset_type: OffsetType, rotate: Rotate) -> Seq<Coordinate> {
    match offset_type {
        OffsetType::I => match rotate {
            Rotate::Spawn => seq![at(0, 0), at(-1, 0), at(2, 0), at(-1, 0), at(2, 0)],
            Rotate::Right => seq![at(-1, 0), at(0, 0), at(0, 0), at(0, 1), at(0, -2)],
            Rotate::Reverse => seq![at(-1, 1), at(1, 1), at(-2, 1), at(1, 0), at(-2, 0)],
            Rotate::Left => seq![at(0, 1), at(0, 1), at(0, 1), at(0, -1), at(0, 2)],
        },
        OffsetType::O => match rotate {
            Rotate::Spawn => seq![at(0, 0)],
            Rotate::Right => seq![at(0, -1)],
            Rotate::Reverse => seq![at(-1, -1)],
            Rotate::Left => seq![at(-1, 0)],
        },
        _ => match rotate {
            Rotate::Spawn => seq![at(0, 0), at(0, 0), at(0, 0), at(0, 0), at(0, 0)],
            Rotate::Right => seq![at(0, 0), at(1, 0), at(1, -1), at(0, 2), at(1, 2)],
            Rotate::Reverse => seq![at(0, 0), at(0, 0), at(0, 0), at(0, 0), at(0, 0)],
            Rotate::Left => seq![at(0, 0), at(-1, 0), at(-1, -1), at(0, 2), at(-1, 2)],
        },
    }
}

/// Whether test `index` of a rotation of table `offset_type` into `next` raises a spin: in
/// SRS the last test of a T turning sideways does.
pub open spec fn privilege_spin(offset_type: OffsetType, next: Rotate, index: int) -> bool {
    offset_type == OffsetType::T && (next == Rotate::Right || next == Rotate::Left) && index == 4
}

/// The tests of the rotation from `current` to `next` with the table `offset_type`.
pub open spec fn srs_pattern(offset_type: OffsetType, current: Rotate, next: Rotate) -> Seq<(Coordinate, bool)> {
    let a = rotate_table(offset_type, current);
    let b = rotate_table(offset_type, next);
    Seq::new(
        paired_len(a, b) as nat,
        |i: int| (offset_difference(a[i], b[i]), privilege_spin(offset_type, next, i)),
    )
}

/// The offset table of `offset_type`, one offset list per orientation.
fn get_rotate_map(offset_type: OffsetType) -> (r: [Offset; 4])
    ensures
        forall|k: int| 0 <= k < 4 ==> (#[trigger] r@[k])@ == rotate_table(offset_type, Rotate::from_index(k)),
{
    let r = match offset_type {
        OffsetType::I => [
            Offset::new(vec![Coordinate::new(0, 0), Coordinate::new(-1, 0), Coordinate::new(2, 0), Coordinate::new(-1, 0), Coordinate::new(2, 0)]),
            Offset::new(vec![Coordinate::new(-1, 0), Coordinate::new(0, 0), Coordinate::new(0, 0), Coordinate::new(0, 1), Coordinate::new(0, -2)]),
            Offset::new(vec![Coordinate::new(-1, 1), Coordinate::new(1, 1), Coordinate::new(-2, 1), Coordinate::new(1, 0), Coordinate::new(-2, 0)]),
            Offset::new(vec![Coordinate::new(0, 1), Coordinate::new(0, 1), Coordinate::new(0, 1), Coordinate::new(0, -1), Coordinate::new(0, 2)]),
        ],
        OffsetType::O => [
            Offset::new(vec![Coordinate::new(0, 0)]),
            Offset::new(vec![Coordinate::new(0, -1)]),
            Offset::new(vec![Coordinate::new(-1, -1)]),
            Offset::new(vec![Coordinate::new(-1, 0)]),
        ],
        OffsetType::T => [
            Offset::new(vec![Coordinate::new(0, 0), Coordinate::new(0, 0), Coordinate::new(0, 0), Coordinate::new(0, 0), Coordinate::new(0, 0)]),
            Offset::new(vec![Coordinate::new(0, 0), Coordinate::new(1, 0), Coordinate::new(1, -1), Coordinate::new(0, 2), Coordinate::new(1, 2)]),
            Offset::new(vec![Coordinate::new(0, 0), Coordinate::new(0, 0), Coordinate::new(0, 0), Coordinate::new(0, 0), Coordinate::new(0, 0)]),
            Offset::new(vec![Coordinate::new(0, 0), Coordinate::new(-1, 0), Coordinate::new(-1, -1), Coordinate::new(0, 2), Coordinate::new(-1, 2)]),
        ],
        OffsetType::Other => [
            Offset::new(vec![Coordinate::new(0, 0), Coordinate::new(0, 0), Coordinate::new(0, 0), Coordinate::new(0, 0), Coordinate::new(0, 0)]),
            Offset::new(vec![Coordinate::new(0, 0), Coordinate::new(1, 0), Coordinate::new(1, -1), Coordinate::new(0, 2), Coordinate::new(1, 2)]),
            Offset::new(vec![Coordinate::new(0, 0), Coordinate::new(0, 0), Coordinate::new(0, 0), Coordinate::new(0, 0), Coordinate::new(0, 0)]),
            Offset::new(vec![Coordinate::new(0, 0), Coordinate::new(-1, 0), Coordinate::new(-1, -1), Coordinate::new(0, 2), Coordinate::new(-1, 2)]),
        ],
    };
    proof {
        assert forall|k: int| 0 <= k < 4 implies (#[trigger] r@[k])@ == rotate_table(offset_type, Rotate::from_index(k)) by {
            assert(r@[k]@ =~= rotate_table(offset_type, Rotate::from_index(k)));
        }
    }
    r
}

/// The tests of the SRS rotation from `current` to `next` with the table `offset_type`.
pub fn create_pattern(offset_type: OffsetType, current: Rotate, next: Rotate) -> (r: Pattern)
    ensures
        r@ == srs_pattern(offset_type, current, next),
{
    let rotate_map = get_rotate_map(offset_type);
    let a = &rotate_map[current.number() as usize];
    let b = &rotate_map[next.number() as usize];
    proof {
        assert(Rotate::from_index(current.index()) == current);
        assert(Rotate::from_index(next.index()) == next);
        assert(a@ == rotate_table(offset_type, current));
        assert(b@ == rotate_table(offset_type, next));
    }
    let r = if offset_type == OffsetType::T && (next == Rotate::Right || next == Rotate::Left) {
        a.to_pattern_with_privilege_spin(b, 4)
    } else {
        a.to_pattern(b)
    };
    proof {
        assert(r@ =~= srs_pattern(offset_type, current, next));
    }
    r
}

/// In SRS a rotation promotes a spin at one test only: the fifth and last test of a T piece
/// turning to Right or to Left. Every other test of every piece and turn leaves spins as they are.
pub proof fn lemma_srs_privilege_tests(p: Piece, current: Rotate, next: Rotate, j: int)
    requires
        0 <= j < srs_pattern(offset_type_of(p), current, next).len(),
    ensures
        srs_pattern(offset_type_of(p), current, next)[j].1 == (p == Piece::T && (next == Rotate::Right || next
            == Rotate::Left) && j == 4),
        p == Piece::T ==> srs_pattern(offset_type_of(p), current, next).len() == 5,
{
}

} // verus!
