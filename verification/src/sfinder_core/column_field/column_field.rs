//! Fields of a few columns, each column a run of bits of one board: cell `(x, y)` of a field
//! of height `height` is bit `y + height * x`, counted modulo 64.
use vstd::prelude::*;
use crate::sfinder_core::field::bit_operators::popcount;

verus! {

/// The bit of cell `(x, y)` of a column field of height `height`.
pub open spec fn column_bit(x: int, y: int, height: int) -> u64 {
    1u64 << ((y + height * x) % 64) as u64
}

/// Access to the board of a field of columns.
pub trait ColumnBoards: Sized {
    /// The board of the field.
    spec fn board(&self) -> u64;

    /// Board `index` (0 is the lowest); zero past the last board.
    fn get_board(&self, index: u8) -> (r: u64)
        ensures
            r == if index == 0 {
                self.board()
            } else {
                0
            },
    ;
}

/// A field of columns.
pub trait ColumnField: ColumnBoards {

    /// Puts a block on cell `(x, y)`.
    fn set_block(&mut self, x: u8, y: u8, height: u8)
        requires
            y + height * x < 256,
        ensures
            final(self).board() == old(self).board() | column_bit(x as int, y as int, height as int),
    ;

    /// Removes the block of cell `(x, y)`.
    fn remove_block(&mut self, x: u8, y: u8, height: u8)
        requires
            y + height * x < 256,
        ensures
            final(self).board() == old(self).board() & !column_bit(x as int, y as int, height as int),
    ;

    /// Whether cell `(x, y)` is empty.
    fn is_empty(&self, x: u8, y: u8, height: u8) -> (r: bool)
        requires
            y + height * x < 256,
        ensures
            r == (self.board() & column_bit(x as int, y as int, height as int) == 0),
    ;

    /// Whether cell `(x, y)` is empty.
    fn is_empty_block(&self, x: u8, y: u8, height: u8) -> (r: bool)
        requires
            y + height * x < 256,
        ensures
            r == (self.board() & column_bit(x as int, y as int, height as int) == 0),
    {
        self.is_empty(x, y, height)
    }

    /// Number of boards of the field.
    fn get_board_count(&self) -> (r: u8)
        ensures
            r == 1,
    ;

    /// Number of blocks of the field.
    fn get_num_of_all_blocks(&self) -> (r: u32)
        ensures
            r == popcount(self.board()),
    ;

    /// Adds the blocks of `other`.
    fn merge<C: ColumnBoards>(&mut self, other: &C)
        ensures
            final(self).board() == old(self).board() | other.board(),
    ;

    /// Removes the blocks of `other`.
    fn reduce<C: ColumnBoards>(&mut self, other: &C)
        ensures
            final(self).board() == old(self).board() & !other.board(),
    ;

    /// Whether no block of `other` overlaps a block of this field.
    fn can_merge<C: ColumnBoards>(&self, other: &C) -> (r: bool)
        ensures
            r == (self.board() & other.board() == 0),
    ;

    /// A copy of the field.
    fn prune(&self) -> (r: Self)
        ensures
            r.board() == self.board(),
    ;
}

} // verus!
