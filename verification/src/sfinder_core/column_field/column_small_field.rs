use vstd::prelude::*;
use super::column_field::{ColumnBoards, ColumnField, column_bit};
use crate::sfinder_core::field::bit_operators::{count_ones, popcount};

verus! {

/// A field of columns held in one board. Its height is not stored: each call that reads or
/// writes a cell takes it.
#[derive(Debug, Clone, Copy, PartialEq, Eq, Structural, PartialOrd, Ord, Hash)]
pub struct ColumnSmallField(pub u64);

impl ColumnSmallField {
    pub fn new() -> (r: Self)
        ensures
            r.0 == 0,
    {
        ColumnSmallField(0)
    }

    /// A number that summarizes the board: the board with its high half folded onto its low
    /// half.
    pub fn hash_code(&self) -> (r: u64)
        ensures
            r == self.0 ^ (self.0 >> 32u64),
    {
        self.0 ^ (self.0 >> 32)
    }
}

impl From<u64> for ColumnSmallField {
    fn from(board: u64) -> (r: Self) {
        ColumnSmallField(board)
    }
}

impl vstd::std_specs::convert::FromSpecImpl<u64> for ColumnSmallField {
    open spec fn obeys_from_spec() -> bool {
        true
    }

    open spec fn from_spec(board: u64) -> Self {
        ColumnSmallField(board)
    }
}

/// The bit of cell `(x, y)` of a field of height `height`, the shift taken modulo 64.
fn get_y_mask(x: u8, y: u8, height: u8) -> (r: u64)
    requires
        y + height * x < 256,
    ensures
        r == column_bit(x as int, y as int, height as int),
{
    let n: u8 = y + height * x;
    1u64 << (n % 64)
}

impl ColumnBoards for ColumnSmallField {
    open spec fn board(&self) -> u64 {
        self.0
    }

    fn get_board(&self, index: u8) -> (r: u64) {
        if index == 0 {
            self.0
        } else {
            0
        }
    }
}

impl ColumnField for ColumnSmallField {

    fn set_block(&mut self, x: u8, y: u8, height: u8) {
        self.0 = self.0 | get_y_mask(x, y, height);
    }

    fn remove_block(&mut self, x: u8, y: u8, height: u8) {
        self.0 = self.0 & !get_y_mask(x, y, height);
    }

    fn is_empty(&self, x: u8, y: u8, height: u8) -> (r: bool) {
        self.0 & get_y_mask(x, y, height) == 0
    }

    fn get_board_count(&self) -> (r: u8) {
        1
    }

    fn get_num_of_all_blocks(&self) -> (r: u32) {
        count_ones(self.0)
    }

    fn merge<C: ColumnBoards>(&mut self, other: &C) {
        self.0 = self.0 | other.get_board(0);
    }

    fn reduce<C: ColumnBoards>(&mut self, other: &C) {
        self.0 = self.0 & !other.get_board(0);
    }

    fn can_merge<C: ColumnBoards>(&self, other: &C) -> (r: bool) {
        self.0 & other.get_board(0) == 0
    }

    fn prune(&self) -> (r: Self) {
        ColumnSmallField(self.0)
    }
}

} // verus!
