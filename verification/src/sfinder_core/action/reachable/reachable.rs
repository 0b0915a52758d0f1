//! Searches that decide whether a piece can be brought to a placement.
use vstd::prelude::*;
use crate::sfinder_core::field::field::Field;
use crate::sfinder_core::mino::mino::Mino;

verus! {

/// A search that decides whether the piece of a shape can be brought to a placement.
pub trait Reachable<F: Field>: Sized {
    /// The search is ready to be asked.
    spec fn reachable_wf(&self) -> bool;

    /// What `checks` needs of its inputs.
    spec fn admits_checks(&self, field: &F, mino: &Mino, x: int, y: int, valid_height: int) -> bool;

    /// What `check` needs of its inputs.
    spec fn admits_check(&self, field: &F, mino: &Mino, x: int, y: int, valid_height: int) -> bool;

    /// The answer of `checks`.
    spec fn spec_checks(&self, field: &F, mino: &Mino, x: int, y: int, valid_height: int) -> bool;

    /// The answer of `check`.
    spec fn spec_check(&self, field: &F, mino: &Mino, x: int, y: int, valid_height: int) -> bool;

    /// Whether the piece of `mino` can be brought to `(x, y)` in the orientation of `mino`, or to
    /// a placement covering the same cells, searching below row `valid_height`.
    fn checks(&mut self, field: &F, mino: &Mino, x: u8, y: u8, valid_height: u8) -> (r: bool)
        requires
            old(self).reachable_wf(),
            old(self).admits_checks(field, mino, x as int, y as int, valid_height as int),
        ensures
            final(self).reachable_wf(),
            r == old(self).spec_checks(field, mino, x as int, y as int, valid_height as int),
    ;

    /// Whether the piece of `mino` can be brought to `(x, y)` in the orientation of `mino`,
    /// searching below row `valid_height`.
    fn check(&mut self, field: &F, mino: &Mino, x: u8, y: u8, valid_height: u8) -> (r: bool)
        requires
            old(self).reachable_wf(),
            old(self).admits_check(field, mino, x as int, y as int, valid_height as int),
        ensures
            final(self).reachable_wf(),
            r == old(self).spec_check(field, mino, x as int, y as int, valid_height as int),
    ;
}

/// A search with moves and rotations.
pub trait ILockedReachable<F: Field>: Reachable<F> {
}

/// A search that may depend on how many pieces are left to place.
pub trait ReachableForCover<F: Field>: Sized {
    spec fn cover_wf(&self) -> bool;

    /// What `checks` needs of its inputs.
    spec fn admits_cover(
        &self,
        field: &F,
        mino: &Mino,
        x: int,
        y: int,
        valid_height: int,
        remaining_depth: int,
    ) -> bool;

    /// The answer of `checks`.
    spec fn spec_cover(
        &self,
        field: &F,
        mino: &Mino,
        x: int,
        y: int,
        valid_height: int,
        remaining_depth: int,
    ) -> bool;

    /// Whether the piece of `mino` can be brought to `(x, y)` with `remaining_depth` pieces left to
    /// place, searching below row `valid_height`.
    fn checks(
        &mut self,
        field: &F,
        mino: &Mino,
        x: u8,
        y: u8,
        valid_height: u8,
        remaining_depth: u8,
    ) -> (r: bool)
        requires
            old(self).cover_wf(),
            old(self).admits_cover(field, mino, x as int, y as int, valid_height as int, remaining_depth as int),
        ensures
            final(self).cover_wf(),
            r == old(self).spec_cover(field, mino, x as int, y as int, valid_height as int, remaining_depth as int),
    ;
}

} // verus!
