//! Pieces shared by the searches for reachable placements.
use vstd::prelude::*;
use crate::sfinder_core::field::field::{Field, FieldBoards};
use crate::sfinder_core::field::field_constants::FIELD_WIDTH;
use crate::sfinder_core::mino::mino::{Mino, mino_min_x, mino_max_x, mino_min_y};
use crate::sfinder_core::mino::piece::Piece;
use crate::sfinder_core::mino::mino_shifter::{canonical_offset, canonical_rotate};
use crate::sfinder_core::srs::rotate::Rotate;

verus! {

/// The side from which a search stepped into a placement.
#[derive(Debug, Clone, Copy, PartialEq, Eq, Structural)]
pub enum FromDirection {
    Neither,
    Left,
    Right,
}

/// Whether the shape of `p` in orientation `r` centered on `(x, y)` lies between the walls
/// and above the floor.
pub open spec fn in_walls(p: Piece, r: Rotate, x: int, y: int) -> bool {
    &&& -mino_min_x(p, r) <= x
    &&& x < 10 - mino_max_x(p, r)
    &&& -mino_min_y(p, r) <= y
}

/// Whether `mino` centered on `(x, y)` lies within the field and overlaps no block.
pub fn can_put_mino_in_field<F: Field>(field: &F, mino: &Mino, x: u8, y: u8) -> (r: bool)
    requires
        y < 26 || field.boards().len() != 4,
    ensures
        r == (in_walls(mino.piece_of(), mino.rotate_of(), x as int, y as int) && field.can_put_spec(
            mino.piece_of(),
            mino.rotate_of(),
            x as int,
            y as int,
        )),
{
    proof {
        Mino::lemma_cells_in_bounds(mino.piece_of(), mino.rotate_of());
    }
    (-mino.get_min_x()) as u8 <= x && x < FIELD_WIDTH - mino.get_max_x() as u8 && (-mino.get_min_y()) as u8 <= y
        && field.can_put(mino, x, y)
}

/// A placement within the walls has every congruent placement within the walls too.
pub proof fn lemma_congruent_in_walls(p: Piece, r: Rotate, q: Rotate, x: int, y: int)
    requires
        canonical_rotate(p, q) == canonical_rotate(p, r),
        in_walls(p, r, x, y),
    ensures
        in_walls(
            p,
            q,
            x + canonical_offset(p, r).x - canonical_offset(p, q).x,
            y + canonical_offset(p, r).y - canonical_offset(p, q).y,
        ),
{
    p.lemma_bounds();
}

} // verus!
