use vstd::prelude::*;
use super::mino_rotation::{MinoRotation, first_fit, kick_tried, mino_index, small_offsets};
use super::rotate::Rotate;
use crate::sfinder_core::mino::mino_transform::signed_byte;
use crate::sfinder_core::mino::piece::Piece;
use super::pattern::Pattern;
use super::rotate_direction::RotateDirection;
use super::spin_result::SpinResult;
use crate::sfinder_core::field::field::{Field, FieldBoards};
use crate::sfinder_core::field::field_constants::FIELD_WIDTH;
use crate::sfinder_core::mino::mino::{Mino, mino_min_x, mino_max_x, mino_min_y};
use crate::sfinder_core::mino::mino_factory::MinoFactory;

verus! {

/// Rotations of shapes on a field, reporting which test succeeded.
pub struct MinoRotationDetail<'a, R: MinoRotation> {
    mino_factory: &'a MinoFactory,
    mino_rotation: &'a R,
}

impl<'a, R: MinoRotation> MinoRotationDetail<'a, R> {
    /// The rotation system used.
    pub closed spec fn rotation(&self) -> &'a R {
        self.mino_rotation
    }

    pub fn new(mino_factory: &'a MinoFactory, mino_rotation: &'a R) -> (r: Self)
        ensures
            r.rotation() == mino_rotation,
    {
        MinoRotationDetail { mino_factory, mino_rotation }
    }

    /// The result of the first test at which the shape `before` at `(before_x, before_y)`,
    /// rotated in `direction`, fits the field; `None` if no test does.
    pub fn get_kicks<F: Field>(&self, field: &F, direction: RotateDirection, before: &Mino, before_x: u8, before_y: u8) -> (r:
        Option<SpinResult>)
        requires
            direction != RotateDirection::Rotate180 || self.rotation().spec_supports_180(),
            tried_kicks_on_field(
                field,
                before.piece_of(),
                before.rotate_of().spec_apply(direction),
                signed_byte(before_x),
                signed_byte(before_y),
                self.rotation().pattern_at(direction, mino_index(before)),
            ),
        ensures
            r matches Some(s) ==> s.to_rotate() == before.rotate_of().spec_apply(direction) && s.direction == direction,
            match first_fit_after(
                field,
                before,
                direction,
                signed_byte(before_x),
                signed_byte(before_y),
                self.rotation().pattern_at(direction, mino_index(before)),
            ) {
                Some(i) => r matches Some(s) && s.test_pattern_index == i && s.x == signed_byte(before_x)
                    + self.rotation().pattern_at(direction, mino_index(before))[i].0.x && s.y == signed_byte(before_y)
                    + self.rotation().pattern_at(direction, mino_index(before))[i].0.y && s.is_privilege_spins
                    == self.rotation().pattern_at(direction, mino_index(before))[i].1,
                None => r is None,
            },
    {
        let offsets = self.mino_rotation.get_patterns_from(before, direction);
        let after_rotate = before.get_rotate().apply(direction);
        let factory = self.mino_factory;
        let after = factory.get(before.get_piece(), after_rotate);
        self.get_kicks_inner(field, direction, before, after, before_x, before_y, offsets)
    }

    fn get_kicks_inner<F: Field>(
        &self,
        field: &F,
        direction: RotateDirection,
        before: &Mino,
        after: &Mino,
        before_x: u8,
        before_y: u8,
        offsets: &Pattern,
    ) -> (r: Option<SpinResult>)
        requires
            small_offsets(offsets@),
            tried_kicks_on_field(
                field,
                after.piece_of(),
                after.rotate_of(),
                signed_byte(before_x),
                signed_byte(before_y),
                offsets@,
            ),
        ensures
            r matches Some(s) ==> s.to_rotate() == after.rotate_of() && s.direction == direction,
            match first_fit(
                field,
                after.piece_of(),
                after.rotate_of(),
                signed_byte(before_x),
                signed_byte(before_y),
                offsets@,
                0,
            ) {
                Some(i) => r matches Some(s) && s.test_pattern_index == i && s.x == signed_byte(before_x) + offsets@[i].0.x
                    && s.y == signed_byte(before_y) + offsets@[i].0.y && s.is_privilege_spins == offsets@[i].1,
                None => r is None,
            },
    {
        proof {
            Mino::lemma_cells_in_bounds(after.piece_of(), after.rotate_of());
        }
        let ghost p = after.piece_of();
        let ghost q = after.rotate_of();
        let ghost sx = signed_byte(before_x);
        let ghost sy = signed_byte(before_y);
        let min_x = -after.get_min_x();
        let max_x = FIELD_WIDTH as i8 - after.get_max_x();
        let min_y = -after.get_min_y();
        let bx = to_signed(before_x);
        let by = to_signed(before_y);
        let checks = offsets.get_checks();
        let mut index: usize = 0;
        while index < checks.len()
            invariant
                index <= checks@.len(),
                checks@ == offsets@,
                offsets@.len() < 256,
                small_offsets(offsets@),
                bx == sx,
                by == sy,
                sx == signed_byte(before_x),
                sy == signed_byte(before_y),
                p == after.piece_of(),
                q == after.rotate_of(),
                min_x == -mino_min_x(p, q),
                max_x == 10 - mino_max_x(p, q),
                min_y == -mino_min_y(p, q),
                tried_kicks_on_field(field, p, q, sx, sy, offsets@),
                first_fit(field, p, q, sx, sy, offsets@, 0) == first_fit(field, p, q, sx, sy, offsets@, index as int),
            decreases checks@.len() - index,
        {
            proof {
                crate::sfinder_core::action::locked_moves::lemma_first_fit_in_range(field, p, q, sx, sy, offsets@, index as int);
                assert(kick_tried(field, p, q, sx, sy, offsets@, index as int));
            }
            let (offset, is_privilege_spins) = checks[index];
            let to_x = (bx + offset.x) as u8;
            let to_y = (by + offset.y) as u8;
            proof {
                assert(0 <= sx + offsets@[index as int].0.x <= 127);
                assert(to_x as int == sx + offsets@[index as int].0.x);
                assert(to_y as int == sy + offsets@[index as int].0.y);
            }
            if min_x <= (to_x as i8) && (to_x as i8) < max_x && min_y <= (to_y as i8) && field.can_put(after, to_x, to_y) {
                proof {
                    assert(first_fit(field, p, q, sx, sy, offsets@, index as int) == Some(index as int));
                }
                return Some(SpinResult::new(after, to_x, to_y, index as u8, direction, is_privilege_spins));
            }
            index = index + 1;
        }
        None
    }
}

/// Whether every test tried from `(x, y)` moves the center to coordinates that fit an unsigned
/// signed byte (0 to 127), and, on a field of four boards, to a row below 26 wherever the shape
/// lies within the walls and above the floor there.
pub open spec fn tried_kicks_on_field<F: Field>(
    field: &F,
    p: Piece,
    r: Rotate,
    x: int,
    y: int,
    checks: Seq<(crate::common::datastore::coordinate::Coordinate, bool)>,
) -> bool {
    forall|j: int| #[trigger] kick_tried(field, p, r, x, y, checks, j) ==> {
        let to_x = x + checks[j].0.x;
        let to_y = y + checks[j].0.y;
        &&& 0 <= to_x <= 127
        &&& 0 <= to_y <= 127
        &&& field.boards().len() == 4 && -mino_min_x(p, r) <= to_x < 10 - mino_max_x(p, r) && -mino_min_y(p, r) <= to_y
            ==> to_y < 26
    }
}

/// The byte read as a two's complement signed byte.
fn to_signed(x: u8) -> (r: i8)
    ensures
        r == signed_byte(x),
{
    if x < 128 {
        x as i8
    } else {
        (x - 128) as i8 - 127 - 1
    }
}

/// The first test at which the shape `before`, rotated in `direction` from `(x, y)`, fits.
pub open spec fn first_fit_after<F: Field>(
    field: &F,
    before: &Mino,
    direction: RotateDirection,
    x: int,
    y: int,
    checks: Seq<(crate::common::datastore::coordinate::Coordinate, bool)>,
) -> Option<int> {
    first_fit(field, before.piece_of(), before.rotate_of().spec_apply(direction), x, y, checks, 0)
}

} // verus!
