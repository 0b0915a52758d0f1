use vstd::prelude::*;
use super::piece::Piece;
use crate::common::datastore::action::minimal_action::MinimalAction;
use crate::sfinder_core::srs::rotate::Rotate;

verus! {

/// A shifter that takes every placement as canonical.
pub struct PassedMinoShifter {}

impl PassedMinoShifter {
    pub fn new() -> (r: Self) {
        PassedMinoShifter {  }
    }

    /// Every orientation is its own canonical orientation.
    pub fn create_canonical_rotate(&self, _piece: Piece, rotate: Rotate) -> (r: Rotate)
        ensures
            r == rotate,
    {
        rotate
    }

    /// Every placement is its own canonical placement.
    pub fn create_canonical_action(&self, _piece: Piece, rotate: Rotate, x: u8, y: u8) -> (r: MinimalAction)
        ensures
            r == (MinimalAction { x, y, rotate }),
    {
        MinimalAction::new(x, y, rotate)
    }

    /// The given placement alone.
    pub fn congruent_actions(&self, _piece: Piece, rotate: Rotate, x: u8, y: u8) -> (r: Vec<MinimalAction>)
        ensures
            r@ == seq![MinimalAction { x, y, rotate }],
    {
        vec![MinimalAction::new(x, y, rotate)]
    }

    /// All four orientations, in quarter-turn order.
    pub fn get_unique_rotates(&self, _piece: Piece) -> (r: Vec<Rotate>)
        ensures
            r@ == seq![Rotate::Spawn, Rotate::Right, Rotate::Reverse, Rotate::Left],
    {
        Rotate::value_list()
    }
}

} // verus!
