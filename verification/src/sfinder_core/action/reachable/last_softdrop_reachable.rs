use vstd::prelude::*;
use super::locked_reachable::congruent_or_same;
use super::reachable::{Reachable, ReachableForCover};
use super::reachable_facade::{LockedReachables, create_locked};
use crate::common::datastore::action::minimal_action::MinimalAction;
use crate::sfinder_core::action::common::in_walls;
use crate::sfinder_core::action::locked_moves::{locked_reachable, search_admits};
use crate::sfinder_core::field::field::{Field, FieldBoards};
use crate::sfinder_core::mino::mino::Mino;
use crate::sfinder_core::mino::mino_factory::MinoFactory;
use crate::sfinder_core::mino::mino_shifter::{IMinoShifter, MinoShifter, congruents_fit};
use crate::sfinder_core::srs::mino_rotation::MinoRotation;

verus! {

/// Searches with moves and rotations for the last pieces to place, and with another search
/// before them.
pub struct LastSoftdropReachable<'a, R: MinoRotation, Rc> {
    reachable: Rc,
    locked_reachable: LockedReachables<'a, R>,
    allow_depth: u8,
}

impl<'a, R: MinoRotation, Rc> LastSoftdropReachable<'a, R, Rc> {
    /// The search used before the last pieces.
    pub closed spec fn inner(&self) -> Rc {
        self.reachable
    }

    /// The search used for the last pieces.
    pub closed spec fn locked(&self) -> LockedReachables<'a, R> {
        self.locked_reachable
    }

    /// How many of the last pieces are searched with moves and rotations.
    pub closed spec fn depth(&self) -> int {
        self.allow_depth as int
    }

    pub fn new(
        mino_factory: &'a MinoFactory,
        mino_shifter: &'a MinoShifter,
        reachable: Rc,
        mino_rotation: &'a R,
        max_y: u8,
        allow_depth: u8,
        use_180_rotation: bool,
    ) -> (r: Self)
        requires
            allow_depth != 0,
            mino_shifter.shifter_wf(),
            use_180_rotation ==> mino_rotation.spec_supports_180(),
        ensures
            r.inner() == reachable,
            r.locked().wf(),
            r.locked().with_180() == use_180_rotation,
            r.locked().rotation() == mino_rotation,
            r.locked().max_y() == max_y,
            r.depth() == allow_depth,
    {
        LastSoftdropReachable {
            reachable,
            locked_reachable: create_locked(mino_factory, mino_shifter, mino_rotation, max_y, use_180_rotation),
            allow_depth,
        }
    }
}

impl<'a, F: Field, R: MinoRotation, Rc: Reachable<F>> ReachableForCover<F> for LastSoftdropReachable<'a, R, Rc> {
    open spec fn cover_wf(&self) -> bool {
        self.locked().wf() && self.inner().reachable_wf()
    }

    open spec fn admits_cover(
        &self,
        field: &F,
        mino: &Mino,
        x: int,
        y: int,
        valid_height: int,
        remaining_depth: int,
    ) -> bool {
        if remaining_depth <= self.depth() {
            &&& search_admits(field, self.locked().rotation(), self.locked().with_180(), valid_height, self.locked().max_y())
            &&& in_walls(mino.piece_of(), mino.rotate_of(), x, y)
            &&& congruents_fit(mino.piece_of(), mino.rotate_of(), x as u8, y as u8)
            &&& y < 26 || field.boards().len() != 4
            &&& field.can_put_spec(mino.piece_of(), mino.rotate_of(), x, y)
        } else {
            self.inner().admits_checks(field, mino, x, y, valid_height)
        }
    }

    /// For the last pieces, whether the piece can be brought to the placement, or to one
    /// covering the same cells, by moves and rotations; before them, the answer of the other
    /// search.
    open spec fn spec_cover(
        &self,
        field: &F,
        mino: &Mino,
        x: int,
        y: int,
        valid_height: int,
        remaining_depth: int,
    ) -> bool {
        if remaining_depth <= self.depth() {
            exists|a: MinimalAction| #[trigger] congruent_or_same(mino.piece_of(), mino.rotate_of(), x as u8, y as u8, a)
                && locked_reachable(
                field,
                self.locked().rotation(),
                mino.piece_of(),
                valid_height,
                self.locked().with_180(),
                (a.rotate, a.x as int, a.y as int),
            )
        } else {
            self.inner().spec_checks(field, mino, x, y, valid_height)
        }
    }

    fn checks(
        &mut self,
        field: &F,
        mino: &Mino,
        x: u8,
        y: u8,
        valid_height: u8,
        remaining_depth: u8,
    ) -> (r: bool) {
        if remaining_depth <= self.allow_depth {
            self.locked_reachable.checks(field, mino, x, y, valid_height)
        } else {
            self.reachable.checks(field, mino, x, y, valid_height)
        }
    }
}

} // verus!
