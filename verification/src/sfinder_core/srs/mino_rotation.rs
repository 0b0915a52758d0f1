use vstd::prelude::*;
use super::pattern::Pattern;
use super::rotate_direction::RotateDirection;
use crate::common::datastore::coordinate::Coordinate;
use crate::sfinder_core::field::field::{Field, FieldBoards};
use crate::sfinder_core::field::field_constants::FIELD_WIDTH;
use crate::sfinder_core::mino::mino::{Mino, mino_max_x, mino_min_x, mino_min_y};
use crate::sfinder_core::mino::piece::Piece;
use super::rotate::Rotate;
use crate::sfinder_core::mino::mino_transform::signed_byte;

verus! {

/// Index of a shape in the rotation tables: its piece times 4 plus its orientation.
pub open spec fn mino_index(mino: &Mino) -> int {
    mino.piece_of().index() * 4 + mino.rotate_of().index()
}

/// Whether moving the shape `after` by `offset` from `(x, y)` keeps it within the walls, above
/// the floor and clear of the blocks of `field`.
pub open spec fn kick_fits<F: Field>(field: &F, p: Piece, r: Rotate, x: int, y: int, offset: Coordinate) -> bool {
    let to_x = x + offset.x;
    let to_y = y + offset.y;
    &&& -mino_min_x(p, r) <= to_x
    &&& to_x < 10 - mino_max_x(p, r)
    &&& -mino_min_y(p, r) <= to_y
    &&& field.can_put_spec(p, r, to_x, to_y)
}

/// The first test from `from` on whose move fits, if any.
pub open spec fn first_fit<F: Field>(
    field: &F,
    p: Piece,
    r: Rotate,
    x: int,
    y: int,
    checks: Seq<(Coordinate, bool)>,
    from: int,
) -> Option<int>
    decreases checks.len() - from,
{
    if from < 0 || from >= checks.len() {
        None
    } else if kick_fits(field, p, r, x, y, checks[from].0) {
        Some(from)
    } else {
        first_fit(field, p, r, x, y, checks, from + 1)
    }
}

/// Whether test `j` of `checks` is tried when rotating into piece `p` in orientation `r` from
/// `(x, y)`: the tests are tried in order up to the first that fits.
pub open spec fn kick_tried<F: Field>(
    field: &F,
    p: Piece,
    r: Rotate,
    x: int,
    y: int,
    checks: Seq<(Coordinate, bool)>,
    j: int,
) -> bool {
    &&& 0 <= j < checks.len()
    &&& first_fit(field, p, r, x, y, checks, 0) matches Some(i) ==> j <= i
}

/// Whether every test tried from `(x, y)` moves the center to coordinates that fit a signed
/// byte, and, on a field of four boards, to a row below 26 wherever the shape lies within the
/// walls and above the floor there.
pub open spec fn kicks_in_range<F: Field>(
    field: &F,
    p: Piece,
    r: Rotate,
    x: int,
    y: int,
    checks: Seq<(Coordinate, bool)>,
) -> bool {
    forall|j: int| #[trigger] kick_tried(field, p, r, x, y, checks, j) ==> {
        let to_x = x + checks[j].0.x;
        let to_y = y + checks[j].0.y;
        &&& -128 <= to_x <= 127
        &&& -128 <= to_y <= 127
        &&& field.boards().len() == 4 && -mino_min_x(p, r) <= to_x < 10 - mino_max_x(p, r) && -mino_min_y(p, r) <= to_y
            ==> to_y < 26
    }
}

/// A rotation's tests are fewer than 256 and move a shape by at most 16 cells each way.
pub open spec fn small_offsets(checks: Seq<(Coordinate, bool)>) -> bool {
    &&& checks.len() < 256
    &&& forall|j: int| 0 <= j < checks.len() ==> -16 <= (#[trigger] checks[j]).0.x <= 16 && -16 <= checks[j].0.y <= 16
}

/// A rotation system: for each shape and direction, the tests tried in order when rotating.
pub trait MinoRotation: Sized {
    /// The tests of a rotation in `direction` of the shape with index `index`.
    spec fn pattern_at(&self, direction: RotateDirection, index: int) -> Seq<(Coordinate, bool)>;

    /// Whether the system rotates by 180 degrees.
    spec fn spec_supports_180(&self) -> bool;

    /// The tests of every shape for a rotation in `direction`.
    fn get_map(&self, direction: RotateDirection) -> (r: &Vec<Pattern>)
        requires
            direction != RotateDirection::Rotate180 || self.spec_supports_180(),
        ensures
            r@.len() == 28,
            forall|i: int| 0 <= i < 28 ==> (#[trigger] r@[i])@ == self.pattern_at(direction, i),
            forall|i: int| 0 <= i < 28 ==> small_offsets(#[trigger] r@[i]@),
    ;

    /// The move of the first test at which the shape `before` at `(x, y)`, rotated in
    /// `direction` into `after`, fits the field; `None` where no test does or where the
    /// system does not rotate by 180 degrees and `direction` asks it to.
    fn get_kicks<F: Field>(&self, field: &F, before: &Mino, after: &Mino, x: u8, y: u8, direction: RotateDirection) -> (r:
        Option<Coordinate>)
        requires
            !(direction == RotateDirection::Rotate180 && !self.spec_supports_180()) ==> kicks_in_range(
                field,
                after.piece_of(),
                after.rotate_of(),
                signed_byte(x),
                signed_byte(y),
                self.pattern_at(direction, mino_index(before)),
            ),
        ensures
            direction == RotateDirection::Rotate180 && !self.spec_supports_180() ==> r is None,
            !(direction == RotateDirection::Rotate180 && !self.spec_supports_180()) ==> r == match first_fit(
                field,
                after.piece_of(),
                after.rotate_of(),
                signed_byte(x),
                signed_byte(y),
                self.pattern_at(direction, mino_index(before)),
                0,
            ) {
                Some(i) => Some(self.pattern_at(direction, mino_index(before))[i].0),
                None => None,
            },
    {
        if direction == RotateDirection::Rotate180 && self.no_supports_180() {
            return None;
        }
        proof {
            before.lemma_index_bounds();
        }
        _get_kicks(field, x, y, after, self.get_patterns_from(before, direction))
    }

    /// The tests of a rotation in `direction` of the shape `current`.
    fn get_patterns_from(&self, current: &Mino, direction: RotateDirection) -> (r: &Pattern)
        requires
            direction != RotateDirection::Rotate180 || self.spec_supports_180(),
        ensures
            r@ == self.pattern_at(direction, mino_index(current)),
            small_offsets(r@),
    {
        proof {
            current.lemma_index_bounds();
        }
        let map = self.get_map(direction);
        &map[into_val(current)]
    }

    fn supports_180(&self) -> (r: bool)
        ensures
            r == self.spec_supports_180(),
    ;

    fn no_supports_180(&self) -> (r: bool)
        ensures
            r == !self.spec_supports_180(),
    {
        !self.supports_180()
    }
}

fn into_val(mino: &Mino) -> (r: usize)
    ensures
        r == mino_index(mino),
        r < 28,
{
    proof {
        mino.lemma_index_bounds();
    }
    mino.get_piece().number() as usize * 4 + mino.get_rotate().number() as usize
}

fn _get_kicks<F: Field>(field: &F, x: u8, y: u8, after: &Mino, pattern: &Pattern) -> (r: Option<Coordinate>)
    requires
        small_offsets(pattern@),
        kicks_in_range(field, after.piece_of(), after.rotate_of(), signed_byte(x), signed_byte(y), pattern@),
    ensures
        r == match first_fit(field, after.piece_of(), after.rotate_of(), signed_byte(x), signed_byte(y), pattern@, 0) {
            Some(i) => Some(pattern@[i].0),
            None => None,
        },
{
    proof {
        Mino::lemma_cells_in_bounds(after.piece_of(), after.rotate_of());
    }
    let ghost p = after.piece_of();
    let ghost q = after.rotate_of();
    let ghost sx = signed_byte(x);
    let ghost sy = signed_byte(y);
    let min_x = -after.get_min_x();
    let max_x = FIELD_WIDTH as i8 - after.get_max_x();
    let min_y = -after.get_min_y();
    let bx = to_signed(x);
    let by = to_signed(y);
    let checks = pattern.get_checks();
    let mut i: usize = 0;
    while i < checks.len()
        invariant
            i <= checks@.len(),
            checks@ == pattern@,
            small_offsets(pattern@),
            bx == sx,
            by == sy,
            sx == signed_byte(x),
            sy == signed_byte(y),
            p == after.piece_of(),
            q == after.rotate_of(),
            min_x == -mino_min_x(p, q),
            max_x == 10 - mino_max_x(p, q),
            min_y == -mino_min_y(p, q),
            kicks_in_range(field, p, q, sx, sy, pattern@),
            first_fit(field, p, q, sx, sy, pattern@, 0) == first_fit(field, p, q, sx, sy, pattern@, i as int),
        decreases checks@.len() - i,
    {
        proof {
            crate::sfinder_core::action::locked_moves::lemma_first_fit_in_range(field, p, q, sx, sy, pattern@, i as int);
            assert(kick_tried(field, p, q, sx, sy, pattern@, i as int));
        }
        let offset = checks[i].0;
        let to_x = bx + offset.x;
        let to_y = by + offset.y;
        if min_x <= to_x && to_x < max_x && min_y <= to_y && field.can_put(after, to_x as u8, to_y as u8) {
            return Some(offset);
        }
        i = i + 1;
    }
    None
}

/// The byte read as a two's complement signed byte.
fn to_signed(x: u8) -> (r: i8)
    ensures
        r == signed_byte(x),
{
    if x < 128 {
        x as i8
    } else {
        (x - 128) as i8 - 127 - 1
    }
}

} // verus!
