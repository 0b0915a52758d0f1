//! A search that takes every placement whose top stays below the valid height as reachable.
use vstd::prelude::*;
use super::reachable::Reachable;
use crate::sfinder_core::field::field::Field;
use crate::sfinder_core::mino::mino::{Mino, mino_max_y};
use crate::sfinder_core::mino::mino_transform::signed_byte;

verus! {

/// Takes a piece as reachable wherever its top stays below the valid height.
pub struct HarddropReachable {}

impl HarddropReachable {
    pub fn new() -> (r: Self) {
        HarddropReachable {  }
    }
}

impl<F: Field> Reachable<F> for HarddropReachable {
    open spec fn reachable_wf(&self) -> bool {
        true
    }

    open spec fn admits_checks(&self, field: &F, mino: &Mino, x: int, y: int, valid_height: int) -> bool {
        Reachable::<F>::admits_check(self, field, mino, x, y, valid_height)
    }

    open spec fn admits_check(&self, field: &F, mino: &Mino, x: int, y: int, valid_height: int) -> bool {
        signed_byte(y as u8) + mino_max_y(mino.piece_of(), mino.rotate_of()) <= 127
    }

    open spec fn spec_checks(&self, field: &F, mino: &Mino, x: int, y: int, valid_height: int) -> bool {
        Reachable::<F>::spec_check(self, field, mino, x, y, valid_height)
    }

    /// Whether the top of `mino` at row `y` stays below row `valid_height` (both rows read as
    /// signed bytes).
    open spec fn spec_check(&self, field: &F, mino: &Mino, x: int, y: int, valid_height: int) -> bool {
        signed_byte(y as u8) + mino_max_y(mino.piece_of(), mino.rotate_of()) < signed_byte(valid_height as u8)
    }

    fn checks(&mut self, field: &F, mino: &Mino, x: u8, y: u8, valid_height: u8) -> (r: bool) {
        Reachable::<F>::check(self, field, mino, x, y, valid_height)
    }

    fn check(&mut self, field: &F, mino: &Mino, x: u8, y: u8, valid_height: u8) -> (r: bool) {
        proof {
            Mino::lemma_cells_in_bounds(mino.piece_of(), mino.rotate_of());
        }
        (to_signed(y) as i16 + mino.get_max_y() as i16) < to_signed(valid_height) as i16
    }
}

fn to_signed(x: u8) -> (r: i8)
    ensures
        r == signed_byte(x),
{
    if x < 128 {
        x as i8
    } else {
        (x - 128) as i8 - 127 - 1
    }
}

} // verus!
