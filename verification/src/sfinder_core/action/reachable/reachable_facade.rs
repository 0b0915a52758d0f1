use vstd::prelude::*;
use super::reachable::{ILockedReachable, Reachable};
use super::locked_180_reachable::Locked180Reachable;
use super::locked_reachable::{LockedReachable, congruent_or_same};
use crate::common::datastore::action::minimal_action::MinimalAction;
use crate::sfinder_core::action::common::in_walls;
use crate::sfinder_core::action::locked_moves::{locked_reachable, search_admits};
use crate::sfinder_core::field::field::{Field, FieldBoards};
use crate::sfinder_core::mino::mino::Mino;
use crate::sfinder_core::mino::mino_factory::MinoFactory;
use crate::sfinder_core::mino::mino_shifter::{IMinoShifter, MinoShifter, congruents_fit};
use crate::sfinder_core::srs::mino_rotation::MinoRotation;

verus! {

/// A locked search, with or without half-turn rotations.
pub enum LockedReachables<'a, R: MinoRotation> {
    Quarter(LockedReachable<'a, R>),
    WithHalf(Locked180Reachable<'a, R>),
}

impl<'a, R: MinoRotation> LockedReachables<'a, R> {
    pub open spec fn wf(&self) -> bool {
        match self {
            LockedReachables::Quarter(s) => s.wf(),
            LockedReachables::WithHalf(s) => s.wf(),
        }
    }

    /// Whether the search rotates by half turns too.
    pub open spec fn with_180(&self) -> bool {
        self is WithHalf
    }

    /// The rotation system of the search.
    pub open spec fn rotation(&self) -> &'a R {
        match self {
            LockedReachables::Quarter(s) => s.rotation(),
            LockedReachables::WithHalf(s) => s.rotation(),
        }
    }

    /// Number of rows the search can cover.
    pub open spec fn max_y(&self) -> int {
        match self {
            LockedReachables::Quarter(s) => s.max_y(),
            LockedReachables::WithHalf(s) => s.max_y(),
        }
    }

    /// Whether the piece of `mino` can be brought to `(x, y)` in the orientation of `mino`, or
    /// to a placement congruent with it, searching below row `valid_height`.
    pub fn checks<F: Field>(&mut self, field: &F, mino: &Mino, x: u8, y: u8, valid_height: u8) -> (r: bool)
        requires
            old(self).wf(),
            search_admits(field, old(self).rotation(), old(self).with_180(), valid_height as int, old(self).max_y()),
            in_walls(mino.piece_of(), mino.rotate_of(), x as int, y as int),
            congruents_fit(mino.piece_of(), mino.rotate_of(), x, y),
            y < 26 || field.boards().len() != 4,
            field.can_put_spec(mino.piece_of(), mino.rotate_of(), x as int, y as int),
        ensures
            final(self).wf(),
            final(self).rotation() == old(self).rotation(),
            final(self).with_180() == old(self).with_180(),
            final(self).max_y() == old(self).max_y(),
            r == exists|a: MinimalAction| #[trigger] congruent_or_same(mino.piece_of(), mino.rotate_of(), x, y, a)
                && locked_reachable(
                field,
                old(self).rotation(),
                mino.piece_of(),
                valid_height as int,
                old(self).with_180(),
                (a.rotate, a.x as int, a.y as int),
            ),
    {
        match self {
            LockedReachables::Quarter(s) => s.checks(field, mino, x, y, valid_height),
            LockedReachables::WithHalf(s) => s.checks(field, mino, x, y, valid_height),
        }
    }

    /// Whether the piece of `mino` can be brought to `(x, y)` in the orientation of `mino`,
    /// searching below row `valid_height`.
    pub fn check<F: Field>(&mut self, field: &F, mino: &Mino, x: u8, y: u8, valid_height: u8) -> (r: bool)
        requires
            old(self).wf(),
            search_admits(field, old(self).rotation(), old(self).with_180(), valid_height as int, old(self).max_y()),
            x < 10,
        ensures
            final(self).wf(),
            final(self).rotation() == old(self).rotation(),
            final(self).with_180() == old(self).with_180(),
            final(self).max_y() == old(self).max_y(),
            r == locked_reachable(
                field,
                old(self).rotation(),
                mino.piece_of(),
                valid_height as int,
                old(self).with_180(),
                (mino.rotate_of(), x as int, y as int),
            ),
    {
        match self {
            LockedReachables::Quarter(s) => s.check(field, mino, x, y, valid_height),
            LockedReachables::WithHalf(s) => s.check(field, mino, x, y, valid_height),
        }
    }
}

impl<'a, F: Field, R: MinoRotation> Reachable<F> for LockedReachables<'a, R> {
    open spec fn reachable_wf(&self) -> bool {
        self.wf()
    }

    open spec fn admits_checks(&self, field: &F, mino: &Mino, x: int, y: int, valid_height: int) -> bool {
        &&& search_admits(field, self.rotation(), self.with_180(), valid_height, self.max_y())
        &&& in_walls(mino.piece_of(), mino.rotate_of(), x, y)
        &&& congruents_fit(mino.piece_of(), mino.rotate_of(), x as u8, y as u8)
        &&& y < 26 || field.boards().len() != 4
        &&& field.can_put_spec(mino.piece_of(), mino.rotate_of(), x, y)
    }

    open spec fn admits_check(&self, field: &F, mino: &Mino, x: int, y: int, valid_height: int) -> bool {
        &&& search_admits(field, self.rotation(), self.with_180(), valid_height, self.max_y())
        &&& x < 10
    }

    open spec fn spec_checks(&self, field: &F, mino: &Mino, x: int, y: int, valid_height: int) -> bool {
        exists|a: MinimalAction| #[trigger] congruent_or_same(mino.piece_of(), mino.rotate_of(), x as u8, y as u8, a)
            && locked_reachable(
            field,
            self.rotation(),
            mino.piece_of(),
            valid_height,
            self.with_180(),
            (a.rotate, a.x as int, a.y as int),
        )
    }

    open spec fn spec_check(&self, field: &F, mino: &Mino, x: int, y: int, valid_height: int) -> bool {
        locked_reachable(field, self.rotation(), mino.piece_of(), valid_height, self.with_180(), (mino.rotate_of(), x, y))
    }

    fn checks(&mut self, field: &F, mino: &Mino, x: u8, y: u8, valid_height: u8) -> (r: bool) {
        LockedReachables::checks(self, field, mino, x, y, valid_height)
    }

    fn check(&mut self, field: &F, mino: &Mino, x: u8, y: u8, valid_height: u8) -> (r: bool) {
        LockedReachables::check(self, field, mino, x, y, valid_height)
    }
}

impl<'a, F: Field, R: MinoRotation> ILockedReachable<F> for LockedReachables<'a, R> {
}

/// A locked search with quarter-turn rotations.
pub fn create_90_locked<'a, R: MinoRotation>(
    mino_factory: &'a MinoFactory,
    mino_shifter: &'a MinoShifter,
    mino_rotation: &'a R,
    max_y: u8,
) -> (r: LockedReachables<'a, R>)
    requires
        mino_shifter.shifter_wf(),
    ensures
        r.wf(),
        !r.with_180(),
        r.rotation() == mino_rotation,
        r.max_y() == max_y,
{
    create_locked(mino_factory, mino_shifter, mino_rotation, max_y, false)
}

/// A locked search with quarter-turn and half-turn rotations.
pub fn create_180_locked<'a, R: MinoRotation>(
    mino_factory: &'a MinoFactory,
    mino_shifter: &'a MinoShifter,
    mino_rotation: &'a R,
    max_y: u8,
) -> (r: LockedReachables<'a, R>)
    requires
        mino_shifter.shifter_wf(),
        mino_rotation.spec_supports_180(),
    ensures
        r.wf(),
        r.with_180(),
        r.rotation() == mino_rotation,
        r.max_y() == max_y,
{
    create_locked(mino_factory, mino_shifter, mino_rotation, max_y, true)
}

/// A locked search, with half-turn rotations where `use_180_rotation` asks for them.
pub fn create_locked<'a, R: MinoRotation>(
    mino_factory: &'a MinoFactory,
    mino_shifter: &'a MinoShifter,
    mino_rotation: &'a R,
    max_y: u8,
    use_180_rotation: bool,
) -> (r: LockedReachables<'a, R>)
    requires
        mino_shifter.shifter_wf(),
        use_180_rotation ==> mino_rotation.spec_supports_180(),
    ensures
        r.wf(),
        r.with_180() == use_180_rotation,
        r.rotation() == mino_rotation,
        r.max_y() == max_y,
{
    if use_180_rotation {
        LockedReachables::WithHalf(Locked180Reachable::new(mino_factory, mino_shifter, mino_rotation, max_y))
    } else {
        LockedReachables::Quarter(LockedReachable::new(mino_factory, mino_shifter, mino_rotation, max_y))
    }
}

} // verus!
