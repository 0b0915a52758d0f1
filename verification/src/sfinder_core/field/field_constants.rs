//! Constants that are commonly used when performing operations related to a field.

use vstd::prelude::*;

verus! {

/// Number of 60-bit boards (6 rows of 10 cells each) a field is made of.
#[derive(PartialEq, Eq, PartialOrd, Ord, Debug, Clone, Copy, Structural)]
pub enum BoardCount {
    Small,
    Middle,
    Large,
}

impl BoardCount {
    /// The number of boards this count stands for.
    pub open spec fn spec_len(self) -> nat {
        match self {
            BoardCount::Small => 1,
            BoardCount::Middle => 2,
            BoardCount::Large => 4,
        }
    }

    /// The number of boards this count stands for (1, 2 or 4).
    pub fn len(self) -> (r: u8)
        ensures
            r == self.spec_len(),
    {
        match self {
            BoardCount::Small => 1,
            BoardCount::Middle => 2,
            BoardCount::Large => 4,
        }
    }

    /// Whether `self` stands for strictly fewer boards than `other`.
    pub fn is_smaller_than(self, other: BoardCount) -> (r: bool)
        ensures
            r == (self.spec_len() < other.spec_len()),
    {
        self.len() < other.len()
    }
}

pub const FIELD_WIDTH: u8 = 10;

pub const BOARD_HEIGHT: u8 = 6;

/// The 60 low bits of a board, which hold its 6 rows of 10 cells.
pub const VALID_BOARD_RANGE: u64 = 0x0fff_ffff_ffff_ffffu64;

} // verus!
