use vstd::prelude::*;
use super::harddrop_reachable::{HarddropReachable, lands_at};
use super::reachable::Reachable;
use super::reachable_facade::{LockedReachables, create_locked};
use crate::sfinder_core::action::locked_moves::{locked_reachable, search_admits};
use crate::sfinder_core::field::field::{Field, FieldBoards};
use crate::sfinder_core::mino::mino::{Mino, mino_min_y};
use crate::sfinder_core::mino::mino_factory::MinoFactory;
use crate::sfinder_core::mino::mino_shifter::{IMinoShifter, MinoShifter};
use crate::sfinder_core::mino::piece::Piece;
use crate::sfinder_core::srs::mino_rotation::MinoRotation;

verus! {

/// T pieces are searched with moves and rotations; the other pieces only by a straight drop.
pub struct SoftdropTOnlyReachable<'a, R: MinoRotation> {
    harddrop_reachable: HarddropReachable,
    locked_reachable: LockedReachables<'a, R>,
}

impl<'a, R: MinoRotation> SoftdropTOnlyReachable<'a, R> {
    pub closed spec fn locked(&self) -> LockedReachables<'a, R> {
        self.locked_reachable
    }

    pub fn new(
        mino_factory: &'a MinoFactory,
        mino_shifter: &'a MinoShifter,
        mino_rotation: &'a R,
        max_y: u8,
        use_180_rotation: bool,
    ) -> (r: Self)
        requires
            mino_shifter.shifter_wf(),
            use_180_rotation ==> mino_rotation.spec_supports_180(),
        ensures
            r.locked().wf(),
            r.locked().with_180() == use_180_rotation,
            r.locked().rotation() == mino_rotation,
            r.locked().max_y() == max_y,
    {
        SoftdropTOnlyReachable {
            harddrop_reachable: HarddropReachable::new(max_y),
            locked_reachable: create_locked(mino_factory, mino_shifter, mino_rotation, max_y, use_180_rotation),
        }
    }
}

impl<'a, F: Field, R: MinoRotation> Reachable<F> for SoftdropTOnlyReachable<'a, R> {
    open spec fn reachable_wf(&self) -> bool {
        self.locked().wf()
    }

    open spec fn admits_checks(&self, field: &F, mino: &Mino, x: int, y: int, valid_height: int) -> bool {
        Reachable::<F>::admits_check(self, field, mino, x, y, valid_height)
    }

    open spec fn admits_check(&self, field: &F, mino: &Mino, x: int, y: int, valid_height: int) -> bool {
        &&& x < 10
        &&& mino.piece_of() == Piece::T ==> search_admits(
            field,
            self.locked().rotation(),
            self.locked().with_180(),
            valid_height,
            self.locked().max_y(),
        )
        &&& mino.piece_of() != Piece::T ==> valid_height - mino_min_y(mino.piece_of(), mino.rotate_of()) <= 127
            && (valid_height - mino_min_y(mino.piece_of(), mino.rotate_of()) <= 26 || field.boards().len() != 4)
    }

    open spec fn spec_checks(&self, field: &F, mino: &Mino, x: int, y: int, valid_height: int) -> bool {
        Reachable::<F>::spec_check(self, field, mino, x, y, valid_height)
    }

    /// For a T piece, whether it can be brought to the placement by moves and rotations; for
    /// the others, whether a straight drop ends there.
    open spec fn spec_check(&self, field: &F, mino: &Mino, x: int, y: int, valid_height: int) -> bool {
        if mino.piece_of() == Piece::T {
            locked_reachable(
                field,
                self.locked().rotation(),
                mino.piece_of(),
                valid_height,
                self.locked().with_180(),
                (mino.rotate_of(), x, y),
            )
        } else {
            lands_at(
                field,
                mino.piece_of(),
                mino.rotate_of(),
                x,
                valid_height - mino_min_y(mino.piece_of(), mino.rotate_of()),
                y,
            )
        }
    }

    fn checks(&mut self, field: &F, mino: &Mino, x: u8, y: u8, valid_height: u8) -> (r: bool) {
        Reachable::<F>::check(self, field, mino, x, y, valid_height)
    }

    fn check(&mut self, field: &F, mino: &Mino, x: u8, y: u8, valid_height: u8) -> (r: bool) {
        if mino.get_piece() == Piece::T {
            self.locked_reachable.check(field, mino, x, y, valid_height)
        } else {
            Reachable::<F>::check(&mut self.harddrop_reachable, field, mino, x, y, valid_height)
        }
    }
}

} // verus!
