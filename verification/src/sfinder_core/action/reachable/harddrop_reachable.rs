use vstd::prelude::*;
use super::reachable::Reachable;
use crate::sfinder_core::field::field::{Field, FieldBoards};
use crate::sfinder_core::mino::mino::{Mino, mino_min_y};
use crate::sfinder_core::mino::piece::Piece;
use crate::sfinder_core::srs::rotate::Rotate;

verus! {

/// Whether piece `p` in orientation `r`, dropped in column `x` from row `start_y`, comes to rest
/// at row `y`: the lowest row at or above the floor from which the shape fits at every row up
/// to `start_y`.
pub open spec fn lands_at<F: Field>(field: &F, p: Piece, r: Rotate, x: int, start_y: int, y: int) -> bool {
    &&& -mino_min_y(p, r) <= y
    &&& y <= start_y || y == -mino_min_y(p, r)
    &&& forall|yy: int| y <= yy < start_y ==> #[trigger] field.can_put_spec(p, r, x, yy)
    &&& y == -mino_min_y(p, r) || !field.can_put_spec(p, r, x, y - 1)
}

/// A drop comes to rest at one row only.
pub proof fn lemma_lands_at_unique<F: Field>(field: &F, p: Piece, r: Rotate, x: int, start_y: int, a: int, b: int)
    requires
        lands_at(field, p, r, x, start_y, a),
        lands_at(field, p, r, x, start_y, b),
    ensures
        a == b,
{
    if a < b {
        assert(field.can_put_spec(p, r, x, b - 1));
    } else if b < a {
        assert(field.can_put_spec(p, r, x, a - 1));
    }
}

/// Decides whether a piece reaches a placement by a straight drop from the row where pieces
/// appear.
pub struct HarddropReachable {
    appear_y: u8,
}

impl HarddropReachable {
    /// A search; the height is not used.
    pub fn new(_max_y: u8) -> (r: Self) {
        HarddropReachable { appear_y: 0 }
    }

    fn check_inner<F: Field>(&self, field: &F, mino: &Mino, x: u8, y: u8) -> (r: bool)
        requires
            x < 10,
            self.appear_y - mino_min_y(mino.piece_of(), mino.rotate_of()) <= 127,
            self.appear_y - mino_min_y(mino.piece_of(), mino.rotate_of()) <= 26 || field.boards().len() != 4,
        ensures
            r == lands_at(
                field,
                mino.piece_of(),
                mino.rotate_of(),
                x as int,
                self.appear_y - mino_min_y(mino.piece_of(), mino.rotate_of()),
                y as int,
            ),
    {
        proof {
            Mino::lemma_cells_in_bounds(mino.piece_of(), mino.rotate_of());
        }
        let max_y = self.appear_y + (-mino.get_min_y()) as u8;
        let harddrop_y = field.get_y_on_harddrop(mino, x, max_y);
        proof {
            let p = mino.piece_of();
            let q = mino.rotate_of();
            assert(lands_at(field, p, q, x as int, max_y as int, harddrop_y as int));
            if lands_at(field, p, q, x as int, max_y as int, y as int) {
                lemma_lands_at_unique(field, p, q, x as int, max_y as int, harddrop_y as int, y as int);
            }
        }
        harddrop_y == y
    }
}

impl<F: Field> Reachable<F> for HarddropReachable {
    open spec fn reachable_wf(&self) -> bool {
        true
    }

    open spec fn admits_checks(&self, field: &F, mino: &Mino, x: int, y: int, valid_height: int) -> bool {
        Reachable::<F>::admits_check(self, field, mino, x, y, valid_height)
    }

    open spec fn admits_check(&self, field: &F, mino: &Mino, x: int, y: int, valid_height: int) -> bool {
        &&& x < 10
        &&& valid_height - mino_min_y(mino.piece_of(), mino.rotate_of()) <= 127
        &&& valid_height - mino_min_y(mino.piece_of(), mino.rotate_of()) <= 26 || field.boards().len() != 4
    }

    /// Placements covering the same cells come to rest at the same cells, so only the one asked
    /// is tried.
    open spec fn spec_checks(&self, field: &F, mino: &Mino, x: int, y: int, valid_height: int) -> bool {
        Reachable::<F>::spec_check(self, field, mino, x, y, valid_height)
    }

    /// Whether `mino` dropped in column `x` from row `valid_height` comes to rest at row `y`.
    open spec fn spec_check(&self, field: &F, mino: &Mino, x: int, y: int, valid_height: int) -> bool {
        lands_at(field, mino.piece_of(), mino.rotate_of(), x, valid_height - mino_min_y(mino.piece_of(), mino.rotate_of()), y)
    }

    fn checks(&mut self, field: &F, mino: &Mino, x: u8, y: u8, valid_height: u8) -> (r: bool) {
        Reachable::<F>::check(self, field, mino, x, y, valid_height)
    }

    fn check(&mut self, field: &F, mino: &Mino, x: u8, y: u8, valid_height: u8) -> (r: bool) {
        self.appear_y = valid_height;
        self.check_inner(field, mino, x, y)
    }
}

} // verus!
