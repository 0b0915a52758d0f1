use vstd::prelude::*;
use super::bits::{
    bit, below, lemma_bit_ops, lemma_bit_not, lemma_bit_shl, lemma_bit_shr, lemma_bit_fixed,
    lemma_test_bit, lemma_shift_zero, lemma_zero_bits,
};
use super::bit_operators::{
    self, cell, count_ones, popcount, board_column_count, lemma_column_popcount, lemma_row_popcount,
    lemma_popcount_zero,
};
use super::board_rows::{lemma_board_down, lemma_board_join, lemma_valid_rows, lemma_board_shift_pair_masked};
use super::field::{
    board_clear, lemma_board_remove_cell, lemma_board_window, lemma_shape_clear_boards,
    lemma_board_put_cell, lemma_covers_rows,
    Field, FieldBoards, FieldHelper, board_at, block_at, field_row, no_overflow, key_flagged,
    kept_below, total_popcount, union_boards, lowest_used_board, highest_used_board, column_count,
    valid_mask, row_full, full_kept_below, kept_below_complement, fill_value, stacked_row,
    lemma_kept_below_split, lemma_key_flag_position, lemma_kept_below_mask, lemma_filled_key_kept,
};
use super::field_constants::{BoardCount, BOARD_HEIGHT, FIELD_WIDTH, VALID_BOARD_RANGE};
use super::key_operators::{self, is_key_bit, key_row, row_filled, row_used};
use super::long_board_map::{
    self, row_of, flagged, kept_before, is_board_key, lemma_kept_before_bounds,
    lemma_kept_before_mono, lemma_board_key_popcount, lemma_rows_below, lemma_row_ops,
};
use super::small_field::{lemma_row_full_used, lemma_slide_left_bits, lemma_slide_right_bits, lemma_row_nonzero};
use crate::sfinder_core::mino::mino::{Mino, covers, mask_at, mino_min_y, mino_max_y};
use crate::sfinder_core::mino::piece::Piece;
use crate::sfinder_core::srs::rotate::Rotate;

verus! {

const FIELD_ROW_BORDER_Y: u8 = 6;

/// Height of a field of two boards.
pub const MAX_FIELD_HEIGHT: u8 = 12;

/// The board holding a row, with the row's offset in that board.
enum Position {
    Low(u8),
    High(u8),
}

/// A field of 12 rows held in two boards.
#[derive(Clone, Copy, Debug, PartialEq, Eq, Structural)]
pub struct MiddleField(u64, u64);

/// Row `y` of a two-board field, read from its board.
pub proof fn lemma_middle_rows(b0: u64, b1: u64, y: int)
    requires
        0 <= y < 12,
    ensures
        field_row(seq![b0, b1], y) == if y < 6 { row_of(b0, y) } else { row_of(b1, y - 6) },
{
}

impl MiddleField {
    /// The empty field.
    /// Every field of this kind holds two boards.
    pub proof fn lemma_boards_len(&self)
        ensures
            self.boards().len() == 2,
    {
    }

    pub closed spec fn empty() -> Self {
        MiddleField(0, 0)
    }

    pub fn new() -> (r: Self)
        ensures
            r == Self::empty(),
            r.boards() == seq![0u64, 0u64],
    {
        MiddleField(0, 0)
    }

    /// Builds a field from its lower and upper boards.
    pub fn from_parts(low: u64, high: u64) -> (r: Self)
        ensures
            r.boards() == seq![low, high],
    {
        MiddleField(low, high)
    }

    pub fn get_x_board_low(&self) -> (r: u64)
        ensures
            r == self.boards()[0],
    {
        self.0
    }

    pub fn get_x_board_high(&self) -> (r: u64)
        ensures
            r == self.boards()[1],
    {
        self.1
    }

    fn select(y: u8) -> (r: Position)
        ensures
            y < 6 ==> r == Position::Low(y),
            y >= 6 ==> r == Position::High((y - 6) as u8),
    {
        if y >= FIELD_ROW_BORDER_Y {
            Position::High(y - FIELD_ROW_BORDER_Y)
        } else {
            Position::Low(y)
        }
    }

    /// Joins the single-board keys of the two boards into a field-wide key.
    fn combine_keys(low: u64, high: u64) -> (r: u64)
        requires
            is_board_key(low),
            is_board_key(high),
        ensures
            forall|i: int| 0 <= i < 64 ==> #[trigger] bit(r, i) == (bit(low, i) || (i >= 1 && bit(high, i - 1))),
            forall|q: int| 0 <= q < 6 ==> #[trigger] bit(r, 10 * q) == flagged(low, q),
            forall|q: int| 0 <= q < 6 ==> #[trigger] bit(r, 10 * q + 1) == flagged(high, q),
            popcount(r) == popcount(low) + popcount(high),
    {
        let r = low | high << 1u64;
        proof {
            assert forall|i: int| 0 <= i < 64 implies #[trigger] bit(r, i) == (bit(low, i) || (i >= 1 && bit(high, i - 1))) by {
                lemma_bit_ops(low, high << 1u64, i);
                lemma_bit_shl(high, 1, i);
            }
            assert forall|i: int| 0 <= i < 64 implies !(#[trigger] bit(low, i) && bit(high << 1u64, i)) by {
                lemma_bit_shl(high, 1, i);
            }
            bit_operators::lemma_count_bits_or(low, high << 1u64, 64);
            bit_operators::lemma_popcount_shl(high, 1);
        }
        r
    }

    /// Removes the rows flagged by the key of each board; the rows left move down, across the
    /// border of the boards, and empty rows come in at the top.
    fn delete_row(&mut self, delete_key_low: u64, delete_key_high: u64)
        requires
            is_board_key(delete_key_low),
            is_board_key(delete_key_high),
        ensures
            no_overflow(final(self).boards()),
            forall|p: int| 0 <= p < 6 && !flagged(delete_key_low, p) ==> #[trigger] field_row(final(self).boards(),
                kept_before(delete_key_low, p)) == row_of(old(self).0, p),
            forall|p: int| 0 <= p < 6 && !flagged(delete_key_high, p) ==> #[trigger] field_row(final(self).boards(),
                kept_before(delete_key_low, 6) + kept_before(delete_key_high, p)) == row_of(old(self).1, p),
            forall|y: int| kept_before(delete_key_low, 6) + kept_before(delete_key_high, 6) <= y < 12
                ==> #[trigger] field_row(final(self).boards(), y) == 0,
    {
        let new_x_board_low = long_board_map::delete_row(self.0, delete_key_low);
        let new_x_board_high = long_board_map::delete_row(self.1, delete_key_high);
        proof {
            lemma_board_key_popcount(delete_key_low);
            lemma_board_key_popcount(delete_key_high);
        }
        let delete_row_low = count_ones(delete_key_low) as u8;
        let ghost k0 = kept_before(delete_key_low, 6);
        let ghost k1 = kept_before(delete_key_high, 6);
        proof {
            lemma_rows_below(new_x_board_low, k0);
            lemma_board_join(new_x_board_low, new_x_board_high, k0);
            lemma_board_down(new_x_board_high, delete_row_low as int);
        }
        self.0 = (new_x_board_low | bit_operators::board_shl(new_x_board_high, BOARD_HEIGHT - delete_row_low))
            & VALID_BOARD_RANGE;
        self.1 = bit_operators::board_shr(new_x_board_high, delete_row_low);
        proof {
            assert forall|t: int| 0 <= t < 12 implies #[trigger] field_row(self.boards(), t) == if t < k0 {
                row_of(new_x_board_low, t)
            } else if t - k0 < 6 {
                row_of(new_x_board_high, t - k0)
            } else {
                0u64
            } by {
                lemma_middle_rows(self.0, self.1, t);
            }
            assert forall|p: int| 0 <= p < 6 && !flagged(delete_key_low, p) implies #[trigger] field_row(self.boards(),
                kept_before(delete_key_low, p)) == row_of(old(self).0, p) by {
                lemma_kept_before_mono(delete_key_low, p, 6);
                lemma_kept_before_bounds(delete_key_low, p);
            }
            assert forall|p: int| 0 <= p < 6 && !flagged(delete_key_high, p) implies #[trigger] field_row(self.boards(),
                k0 + kept_before(delete_key_high, p)) == row_of(old(self).1, p) by {
                lemma_kept_before_mono(delete_key_high, p, 6);
                lemma_kept_before_bounds(delete_key_high, p);
            }
            assert forall|y: int| k0 + k1 <= y < 12 implies #[trigger] field_row(self.boards(), y) == 0 by {}
            assert forall|k: int| 0 <= k < self.boards().len() implies below(#[trigger] self.boards()[k], 60) by {}
        }
    }

    fn fill_all(&mut self)
        ensures
            forall|y: int| 0 <= y < 12 ==> #[trigger] field_row(final(self).boards(), y) == 0x3ffu64,
            no_overflow(final(self).boards()),
    {
        self.0 = VALID_BOARD_RANGE;
        self.1 = VALID_BOARD_RANGE;
        proof {
            assert forall|y: int| 0 <= y < 12 implies #[trigger] field_row(self.boards(), y) == 0x3ffu64 by {
                lemma_row_ops(VALID_BOARD_RANGE, VALID_BOARD_RANGE, y % 6);
            }
            assert forall|i: int| 60 <= i < 64 implies !#[trigger] bit(VALID_BOARD_RANGE, i) by {
                lemma_bit_fixed(i);
            }
        }
    }

    /// Inserts a row (filled if `filled`) at each row flagged by `delete_key`; the other rows
    /// move up past the inserted rows, across the border of the boards.
    fn insert_row_with_key(&mut self, delete_key: u64, filled: bool)
        ensures
            no_overflow(final(self).boards()),
            forall|y: int| 0 <= y < 12 ==> #[trigger] field_row(final(self).boards(), y) == if key_flagged(delete_key, y) {
                fill_value(filled)
            } else {
                field_row(old(self).boards(), kept_below(delete_key, y))
            },
    {
        let delete_key_low = Self::extract_delete_key(delete_key, 0);
        let delete_key_high = Self::extract_delete_key(delete_key, 1);
        proof {
            lemma_board_key_popcount(delete_key_low);
        }
        let delete_row_low = count_ones(delete_key_low) as u8;
        let new_low = Self::create_bottom_board(self.0, delete_row_low, delete_key_low, filled);
        let new_high = Self::create_upper_board(self.0, self.1, delete_row_low, delete_key_high, filled);
        let ghost old_boards = self.boards();
        let ghost k0 = kept_before(delete_key_low, 6);
        proof {
            lemma_valid_rows(new_high);
            assert forall|q: int| 0 <= q < 6 implies #[trigger] flagged(delete_key_low, q) == key_flagged(delete_key, 6 * 0 + q) by {
                lemma_key_flag_position(delete_key, 0, q);
            }
            assert forall|q: int| 0 <= q < 6 implies #[trigger] flagged(delete_key_high, q) == key_flagged(delete_key, 6 * 1 + q) by {
                lemma_key_flag_position(delete_key, 1, q);
            }
            lemma_kept_below_split(delete_key, delete_key_low, 0, 6);
        }
        self.0 = new_low;
        self.1 = new_high & VALID_BOARD_RANGE;
        proof {
            assert forall|y: int| 0 <= y < 12 implies #[trigger] field_row(self.boards(), y) == if key_flagged(delete_key, y) {
                fill_value(filled)
            } else {
                field_row(old_boards, kept_below(delete_key, y))
            } by {
                lemma_middle_rows(self.0, self.1, y);
                if y < 6 {
                    lemma_kept_below_split(delete_key, delete_key_low, 0, y);
                    lemma_kept_before_mono(delete_key_low, y, 6);
                    lemma_kept_before_bounds(delete_key_low, y);
                } else {
                    lemma_kept_below_split(delete_key, delete_key_high, 1, y - 6);
                    lemma_kept_before_bounds(delete_key_high, y - 6);
                }
            }
            assert forall|k: int| 0 <= k < self.boards().len() implies below(#[trigger] self.boards()[k], 60) by {}
        }
    }
}

impl FieldHelper for MiddleField {
}

impl FieldBoards for MiddleField {
    closed spec fn boards(&self) -> Seq<u64> {
        seq![self.0, self.1]
    }

    proof fn lemma_board_count(&self) {
    }

    fn get_board(&self, index: u8) -> (r: u64) {
        if index == 0 {
            self.0
        } else if index == 1 {
            self.1
        } else {
            0
        }
    }

    fn get_board_count(&self) -> (r: BoardCount) {
        BoardCount::Middle
    }

    fn get_max_field_height(&self) -> (r: u8) {
        MAX_FIELD_HEIGHT
    }
}

impl Field for MiddleField {
    open spec fn empty_field() -> Self {
        Self::empty()
    }

    open spec fn can_put_spec(&self, p: Piece, r: Rotate, x: int, y: int) -> bool {
        y >= 14 || ((y + mino_min_y(p, r) >= 6 || self.boards()[0] & mask_at(p, r, x, y) == 0)
            && (y + mino_max_y(p, r) < 6 || self.boards()[1] & mask_at(p, r, x, y - 6) == 0))
    }

    open spec fn put_spec(&self, p: Piece, r: Rotate, x: int, y: int) -> Seq<u64> {
        seq![
            if y + mino_min_y(p, r) < 6 { self.boards()[0] | mask_at(p, r, x, y) } else { self.boards()[0] },
            if y + mino_max_y(p, r) >= 6 { self.boards()[1] | mask_at(p, r, x, y - 6) } else { self.boards()[1] },
        ]
    }

    open spec fn remove_spec(&self, p: Piece, r: Rotate, x: int, y: int) -> Seq<u64> {
        seq![
            if y + mino_min_y(p, r) < 6 { self.boards()[0] & !mask_at(p, r, x, y) } else { self.boards()[0] },
            if y + mino_max_y(p, r) >= 6 { self.boards()[1] & !mask_at(p, r, x, y - 6) } else { self.boards()[1] },
        ]
    }

    proof fn lemma_put_cells(&self, p: Piece, r: Rotate, x: int, y: int, cx: int, cy: int) {
        Mino::lemma_cells_in_bounds(p, r);
        lemma_covers_rows(p, r, x, y, cx, cy);
        let ps = self.put_spec(p, r, x, y);
        if 0 <= cx < 10 && 0 <= cy < 6 {
            if y + mino_min_y(p, r) < 6 {
                lemma_board_put_cell(self.0, p, r, x, y, cx, cy);
            }
        } else if 0 <= cx < 10 && 6 <= cy < 12 {
            assert(cy / 6 == 1 && cy % 6 == cy - 6);
            if y + mino_max_y(p, r) >= 6 {
                lemma_board_put_cell(self.1, p, r, x, y - 6, cx, cy - 6);
            }
        }
    }

    proof fn lemma_remove_cells(&self, p: Piece, r: Rotate, x: int, y: int, cx: int, cy: int) {
        Mino::lemma_cells_in_bounds(p, r);
        lemma_covers_rows(p, r, x, y, cx, cy);
        let ps = self.remove_spec(p, r, x, y);
        if 0 <= cx < 10 && 0 <= cy < 6 {
            if y + mino_min_y(p, r) < 6 {
                lemma_board_remove_cell(self.0, p, r, x, y, cx, cy);
            }
        } else if 0 <= cx < 10 && 6 <= cy < 12 {
            assert(cy / 6 == 1 && cy % 6 == cy - 6);
            if y + mino_max_y(p, r) >= 6 {
                lemma_board_remove_cell(self.1, p, r, x, y - 6, cx, cy - 6);
            }
        }
    }

    proof fn lemma_can_put_cells(&self, p: Piece, r: Rotate, x: int, y: int) {
        Mino::lemma_cells_in_bounds(p, r);
        let bs = self.boards();
        lemma_shape_clear_boards(bs, p, r, x, y);
        if y < 14 && y + mino_min_y(p, r) < 6 {
            lemma_board_window(bs, 0, p, r, x, y);
        } else {
            assert forall|cx: int, cy: int| 0 <= cy < 6 && #[trigger] covers(p, r, x, y, cx, cy) implies !block_at(bs, cx, cy) by {
                lemma_covers_rows(p, r, x, y, cx, cy);
            }
            assert(board_clear(bs, 0, p, r, x, y));
        }
        if y < 14 && y + mino_max_y(p, r) >= 6 {
            lemma_board_window(bs, 1, p, r, x, y);
        } else {
            assert forall|cx: int, cy: int| 6 <= cy < 12 && #[trigger] covers(p, r, x, y, cx, cy) implies !block_at(bs, cx, cy) by {
                lemma_covers_rows(p, r, x, y, cx, cy);
            }
            assert(board_clear(bs, 1, p, r, x, y));
        }
    }

    fn new() -> (r: Self) {
        MiddleField(0, 0)
    }

    fn set_block(&mut self, x: u8, y: u8) {
        match Self::select(y) {
            Position::Low(y_off) => self.0 = self.0 | bit_operators::get_x_mask(x, y_off),
            Position::High(y_off) => self.1 = self.1 | bit_operators::get_x_mask(x, y_off),
        }
        assert(self.boards() =~= old(self).boards().update(
            y as int / 6,
            old(self).boards()[y as int / 6] | (1u64 << (x + 10 * (y as int % 6)) as u64),
        ));
    }

    fn remove_block(&mut self, x: u8, y: u8) {
        match Self::select(y) {
            Position::Low(y_off) => self.0 = self.0 & !bit_operators::get_x_mask(x, y_off),
            Position::High(y_off) => self.1 = self.1 & !bit_operators::get_x_mask(x, y_off),
        }
        assert(self.boards() =~= old(self).boards().update(
            y as int / 6,
            old(self).boards()[y as int / 6] & !(1u64 << (x + 10 * (y as int % 6)) as u64),
        ));
    }

    fn clear_all(&mut self) {
        self.0 = 0;
        self.1 = 0;
    }

    fn put(&mut self, mino: &Mino, x: u8, y: u8) {
        proof {
            Mino::lemma_cells_in_bounds(mino.piece_of(), mino.rotate_of());
        }
        if (y as i8) + mino.get_min_y() < FIELD_ROW_BORDER_Y as i8 {
            self.0 = self.0 | mino.get_mask(x, y as i8);
        }
        if (y as i8) + mino.get_max_y() >= FIELD_ROW_BORDER_Y as i8 {
            self.1 = self.1 | mino.get_mask(x, y as i8 - FIELD_ROW_BORDER_Y as i8);
        }
        assert(self.boards() =~= old(self).put_spec(mino.piece_of(), mino.rotate_of(), x as int, y as int));
    }

    fn can_put(&self, mino: &Mino, x: u8, y: u8) -> (r: bool) {
        proof {
            Mino::lemma_cells_in_bounds(mino.piece_of(), mino.rotate_of());
        }
        if y >= MAX_FIELD_HEIGHT + 2 {
            true
        } else if (y as i8) + mino.get_max_y() < FIELD_ROW_BORDER_Y as i8 {
            self.0 & mino.get_mask(x, y as i8) == 0
        } else if (y as i8) + mino.get_min_y() >= FIELD_ROW_BORDER_Y as i8 {
            self.1 & mino.get_mask(x, y as i8 - FIELD_ROW_BORDER_Y as i8) == 0
        } else {
            self.0 & mino.get_mask(x, y as i8) == 0 && self.1 & mino.get_mask(x, y as i8 - FIELD_ROW_BORDER_Y as i8) == 0
        }
    }

    fn remove(&mut self, mino: &Mino, x: u8, y: u8) {
        proof {
            Mino::lemma_cells_in_bounds(mino.piece_of(), mino.rotate_of());
        }
        if (y as i8) + mino.get_min_y() < FIELD_ROW_BORDER_Y as i8 {
            self.0 = self.0 & !mino.get_mask(x, y as i8);
        }
        if (y as i8) + mino.get_max_y() >= FIELD_ROW_BORDER_Y as i8 {
            self.1 = self.1 & !mino.get_mask(x, y as i8 - FIELD_ROW_BORDER_Y as i8);
        }
        assert(self.boards() =~= old(self).remove_spec(mino.piece_of(), mino.rotate_of(), x as int, y as int));
    }

    fn is_empty_block(&self, x: u8, y: u8) -> (r: bool) {
        match Self::select(y) {
            Position::Low(y_off) => {
                proof {
                    lemma_test_bit(self.0, (x + 10 * y_off) as u64);
                }
                self.0 & bit_operators::get_x_mask(x, y_off) == 0
            },
            Position::High(y_off) => {
                proof {
                    lemma_test_bit(self.1, (x + 10 * y_off) as u64);
                }
                self.1 & bit_operators::get_x_mask(x, y_off) == 0
            },
        }
    }

    fn exists_above_row(&self, y: u8) -> (r: bool) {
        if y >= MAX_FIELD_HEIGHT {
            return false;
        }
        match Self::select(y) {
            Position::Low(y_off) => {
                let r = self.1 != 0 || self.0 & Self::get_valid_mask(y_off) != 0;
                proof {
                    if self.1 != 0 {
                        assert(self.boards()[1] != 0);
                    }
                }
                r
            },
            Position::High(y_off) => self.1 & Self::get_valid_mask(y_off) != 0,
        }
    }

    fn is_empty(&self) -> (r: bool) {
        assert(self.boards()[0] == self.0 && self.boards()[1] == self.1);
        self.0 == 0 && self.1 == 0
    }

    fn is_filled_in_column(&self, x: u8, max_y: u8) -> (r: bool) {
        if max_y == 0 {
            return true;
        }
        if max_y <= FIELD_ROW_BORDER_Y {
            let m = bit_operators::get_column_mask(max_y, x);
            proof {
                lemma_column_filled(self.0, m, x as int, max_y as int);
                assert forall|y: int| 0 <= y < max_y implies #[trigger] block_at(self.boards(), x as int, y) == cell(self.0, x as int, y) by {}
                lemma_forall_column(self.boards(), self.0, x as int, max_y as int, 0);
            }
            !self.0 & m == 0
        } else {
            let m_low = bit_operators::get_column_mask(BOARD_HEIGHT, x);
            let m_high = bit_operators::get_column_mask(max_y - FIELD_ROW_BORDER_Y, x);
            proof {
                lemma_column_filled(self.0, m_low, x as int, 6);
                lemma_column_filled(self.1, m_high, x as int, max_y - 6);
                lemma_forall_column(self.boards(), self.0, x as int, 6, 0);
                lemma_forall_column(self.boards(), self.1, x as int, max_y - 6, 6);
                assert((forall|y: int| 0 <= y < max_y ==> #[trigger] block_at(self.boards(), x as int, y))
                    == ((forall|y: int| 0 <= y < 6 ==> #[trigger] block_at(self.boards(), x as int, y))
                    && (forall|y: int| 6 <= y < max_y ==> #[trigger] block_at(self.boards(), x as int, y))));
            }
            !self.0 & m_low == 0 && !self.1 & m_high == 0
        }
    }

    fn is_wall_between_left(&self, x: u8, max_y: u8) -> (r: bool) {
        if max_y == 0 {
            return true;
        }
        if max_y <= FIELD_ROW_BORDER_Y {
            let r = bit_operators::is_wall_between_left(x, max_y, self.0);
            proof {
                lemma_forall_wall(self.boards(), self.0, x as int, max_y as int, 0);
            }
            r
        } else {
            let r_low = bit_operators::is_wall_between_left(x, BOARD_HEIGHT, self.0);
            let r_high = bit_operators::is_wall_between_left(x, max_y - FIELD_ROW_BORDER_Y, self.1);
            proof {
                lemma_forall_wall(self.boards(), self.0, x as int, 6, 0);
                lemma_forall_wall(self.boards(), self.1, x as int, max_y - 6, 6);
                assert((forall|y: int| 0 <= y < max_y ==> (#[trigger] block_at(self.boards(), x - 1, y) || block_at(self.boards(), x as int, y)))
                    == ((forall|y: int| 0 <= y < 6 ==> (#[trigger] block_at(self.boards(), x - 1, y) || block_at(self.boards(), x as int, y)))
                    && (forall|y: int| 6 <= y < max_y ==> (#[trigger] block_at(self.boards(), x - 1, y) || block_at(self.boards(), x as int, y)))));
            }
            r_low && r_high
        }
    }

    fn get_block_count_in_column(&self, x: u8, max_y: u8) -> (r: u32) {
        if max_y <= FIELD_ROW_BORDER_Y {
            let m = bit_operators::get_column_mask(max_y, x);
            let w = self.0 & m;
            proof {
                assert forall|i: int| 0 <= i < 64 implies #[trigger] bit(w, i) == (i < 10 * max_y && i % 10 == x && bit(self.0, i)) by {
                    lemma_bit_ops(self.0, m, i);
                }
                lemma_column_popcount(self.0, w, x as int, max_y as int);
                lemma_column_count_middle(self.0, self.1, x as int, max_y as int);
            }
            count_ones(w)
        } else {
            let m_low = bit_operators::get_column_mask(BOARD_HEIGHT, x);
            let m_high = bit_operators::get_column_mask(max_y - FIELD_ROW_BORDER_Y, x);
            let w_low = self.0 & m_low;
            let w_high = self.1 & m_high;
            proof {
                assert forall|i: int| 0 <= i < 64 implies #[trigger] bit(w_low, i) == (i < 10 * 6 && i % 10 == x && bit(self.0, i)) by {
                    lemma_bit_ops(self.0, m_low, i);
                }
                assert forall|i: int| 0 <= i < 64 implies #[trigger] bit(w_high, i) == (i < 10 * (max_y - 6) && i % 10 == x && bit(self.1, i)) by {
                    lemma_bit_ops(self.1, m_high, i);
                }
                lemma_column_popcount(self.0, w_low, x as int, 6);
                lemma_column_popcount(self.1, w_high, x as int, max_y - 6);
                lemma_column_count_middle(self.0, self.1, x as int, max_y as int);
            }
            count_ones(w_low) + count_ones(w_high)
        }
    }

    fn get_block_count_in_row(&self, y: u8) -> (r: u32) {
        let w = match Self::select(y) {
            Position::Low(y_off) => {
                let m = bit_operators::get_row_mask(y_off);
                proof {
                    assert forall|i: int| 0 <= i < 64 implies #[trigger] bit(self.0 & m, i) == (10 * y_off <= i < 10 * y_off + 10
                        && bit(self.0, i - 10 * y_off + 10 * y_off)) by {
                        lemma_bit_ops(self.0, m, i);
                    }
                    lemma_row_popcount(self.0, self.0 & m, y_off as int, 10 * y_off as int);
                }
                self.0 & m
            },
            Position::High(y_off) => {
                let m = bit_operators::get_row_mask(y_off);
                proof {
                    assert forall|i: int| 0 <= i < 64 implies #[trigger] bit(self.1 & m, i) == (10 * y_off <= i < 10 * y_off + 10
                        && bit(self.1, i - 10 * y_off + 10 * y_off)) by {
                        lemma_bit_ops(self.1, m, i);
                    }
                    lemma_row_popcount(self.1, self.1 & m, y_off as int, 10 * y_off as int);
                }
                self.1 & m
            },
        };
        count_ones(w)
    }

    fn exists_block_in_row(&self, y: u8) -> (r: bool) {
        let w = match Self::select(y) {
            Position::Low(y_off) => {
                let m = bit_operators::get_row_mask(y_off);
                proof {
                    lemma_row_nonzero(self.0, m, y_off as int);
                }
                self.0 & m
            },
            Position::High(y_off) => {
                let m = bit_operators::get_row_mask(y_off);
                proof {
                    lemma_row_nonzero(self.1, m, y_off as int);
                }
                self.1 & m
            },
        };
        w != 0
    }

    fn get_num_of_all_blocks(&self) -> (r: u32) {
        proof {
            lemma_middle_aggregates(self.0, self.1);
        }
        count_ones(self.0) + count_ones(self.1)
    }

    fn clear_filled_rows_return_key(&mut self) -> (r: u64) {
        let delete_key_low = key_operators::get_delete_key(self.0);
        let delete_key_high = key_operators::get_delete_key(self.1);
        let ghost old_boards = self.boards();
        self.delete_row(delete_key_low, delete_key_high);
        let r = Self::combine_keys(delete_key_low, delete_key_high);
        proof {
            lemma_full_key_middle(old_boards, delete_key_low, delete_key_high, r);
            lemma_delete_key_middle(old_boards, self.boards(), delete_key_low, delete_key_high, r);
            lemma_board_key_popcount(delete_key_low);
            lemma_board_key_popcount(delete_key_high);
            lemma_filled_key_kept(old_boards, r, 12);
            lemma_kept_below_split(r, delete_key_low, 0, 6);
            lemma_kept_below_split(r, delete_key_high, 1, 6);
            assert(kept_below(r, 0) == 0);
        }
        r
    }

    fn get_filled_rows_key(&self) -> (r: u64) {
        let low = key_operators::get_delete_key(self.0);
        let high = key_operators::get_delete_key(self.1);
        let r = Self::combine_keys(low, high);
        proof {
            lemma_full_key_middle(self.boards(), low, high, r);
        }
        r
    }

    fn get_using_key(&self) -> (r: u64) {
        let low = key_operators::get_using_key(self.0);
        let high = key_operators::get_using_key(self.1);
        proof {
            assert forall|i: int| 0 <= i < 64 && #[trigger] bit(low, i) implies i < 60 && i % 10 == 0 by {}
            assert forall|i: int| 0 <= i < 64 && #[trigger] bit(high, i) implies i < 60 && i % 10 == 0 by {}
        }
        let r = Self::combine_keys(low, high);
        proof {
            assert forall|i: int| 0 <= i < 64 implies #[trigger] bit(r, i) == (is_key_bit(i) && key_row(i) < 6 * self.boards().len()
                && field_row(self.boards(), key_row(i)) != 0) by {
                if i < 60 && i % 10 == 0 {
                    lemma_row_full_used(self.0, i / 10);
                }
                if i < 61 && i % 10 == 1 {
                    lemma_row_full_used(self.1, (i - 1) / 10);
                    assert(bit(high, i - 1) == row_used(self.1, (i - 1) / 10));
                }
                if is_key_bit(i) && key_row(i) < 12 {
                    lemma_middle_rows(self.0, self.1, key_row(i));
                }
            }
        }
        r
    }

    fn insert_filled_row_with_key(&mut self, delete_key: u64) {
        self.insert_row_with_key(delete_key, true);
    }

    fn insert_blank_row_with_key(&mut self, delete_key: u64) {
        self.insert_row_with_key(delete_key, false);
    }

    fn delete_rows_with_key(&mut self, delete_key: u64) {
        let low = Self::extract_delete_key(delete_key, 0);
        let high = Self::extract_delete_key(delete_key, 1);
        let ghost old_boards = self.boards();
        self.delete_row(low, high);
        proof {
            lemma_delete_key_middle_extracted(old_boards, self.boards(), low, high, delete_key);
        }
    }

    fn fill_row(&mut self, y: u8) {
        match Self::select(y) {
            Position::Low(y_off) => self.0 = self.0 | bit_operators::get_row_mask(y_off),
            Position::High(y_off) => self.1 = self.1 | bit_operators::get_row_mask(y_off),
        }
        assert(self.boards() =~= old(self).boards().update(
            y as int / 6,
            old(self).boards()[y as int / 6] | (0x3ffu64 << (10 * (y as int % 6)) as u64),
        ));
    }

    fn prune(&self, max_height: u8) -> (r: super::any_field::AnyField) {
        if max_height <= FIELD_ROW_BORDER_Y {
            let r = super::any_field::AnyField::Small(super::small_field::SmallField::from_board(self.0));
            assert(r.boards() =~= self.boards().take(1));
            r
        } else {
            assert(self.boards().take(2) =~= self.boards());
            super::any_field::AnyField::Middle(*self)
        }
    }

    fn merge<F: FieldBoards>(&mut self, other: &F) {
        proof {
            other.lemma_board_count();
            lemma_shift_zero(self.1);
        }
        self.0 = self.0 | other.get_board(0);
        if BoardCount::Small.is_smaller_than(other.get_board_count()) {
            self.1 = self.1 | other.get_board(1);
        }
    }

    fn can_merge<F: FieldBoards>(&self, other: &F) -> (r: bool) {
        proof {
            other.lemma_board_count();
        }
        let r = self.0 & other.get_board(0) == 0 && match other.get_board_count() {
            BoardCount::Small => true,
            BoardCount::Middle => self.1 & other.get_board(1) == 0,
            BoardCount::Large => false,
        };
        proof {
            lemma_shift_zero(self.1);
            let ob = other.boards();
            if r {
                assert forall|k: int| 0 <= k < self.boards().len() implies #[trigger] (self.boards()[k] & board_at(ob, k)) == 0 by {}
            } else if self.0 & board_at(ob, 0) != 0 {
                assert(!((self.boards()[0] & board_at(ob, 0)) == 0));
            } else {
                assert(!((self.boards()[1] & board_at(ob, 1)) == 0));
            }
        }
        r
    }

    fn reduce<F: FieldBoards>(&mut self, other: &F) {
        proof {
            other.lemma_board_count();
            lemma_shift_zero(self.1);
        }
        self.0 = self.0 & !other.get_board(0);
        if BoardCount::Small.is_smaller_than(other.get_board_count()) {
            self.1 = self.1 & !other.get_board(1);
        }
    }

    fn get_upper_y_with_4_blocks(&self) -> (r: u8) {
        proof {
            lemma_middle_aggregates(self.0, self.1);
            lemma_popcount_zero();
        }
        match bit_operators::try_get_highest_y(self.1) {
            Some(min_y) => {
                proof {
                    bit_operators::lemma_lowest_highest(self.1);
                }
                min_y + FIELD_ROW_BORDER_Y
            },
            None => bit_operators::get_highest_y(self.0),
        }
    }

    fn get_min_x(&self) -> (r: Option<u8>) {
        proof {
            lemma_middle_aggregates(self.0, self.1);
        }
        bit_operators::try_get_lowest_x(self.0 | self.1)
    }

    fn get_min_y(&self) -> (r: Option<u8>) {
        proof {
            lemma_middle_aggregates(self.0, self.1);
        }
        match bit_operators::try_get_lowest_y(self.0) {
            Some(min_y) => Some(min_y),
            None => match bit_operators::try_get_lowest_y(self.1) {
                Some(min_y) => {
                    proof {
                        bit_operators::lemma_lowest_highest(self.1);
                    }
                    Some(min_y + FIELD_ROW_BORDER_Y)
                },
                None => None,
            },
        }
    }

    fn slide_left(&mut self, slide: u8) {
        let mask = bit_operators::get_column_mask_right_of_row(slide);
        let old0 = self.0;
        let old1 = self.1;
        self.0 = (self.0 & mask) >> (slide as u64);
        self.1 = (self.1 & mask) >> (slide as u64);
        proof {
            lemma_slide_left_bits(old0, mask, slide as int);
            lemma_slide_left_bits(old1, mask, slide as int);
        }
    }

    fn slide_right(&mut self, slide: u8) {
        let mask = bit_operators::get_column_mask_left_of_row(FIELD_WIDTH - slide);
        let old0 = self.0;
        let old1 = self.1;
        self.0 = (self.0 & mask) << (slide as u64);
        self.1 = (self.1 & mask) << (slide as u64);
        proof {
            lemma_slide_right_bits(old0, mask, slide as int);
            lemma_slide_right_bits(old1, mask, slide as int);
        }
    }

    fn slide_down_one(&mut self) {
        let old0 = self.0;
        let old1 = self.1;
        self.0 = (bit_operators::board_shr(self.0, 1) | bit_operators::board_shl(self.1, BOARD_HEIGHT - 1)) & VALID_BOARD_RANGE;
        self.1 = bit_operators::board_shr(self.1, 1);
        proof {
            if no_overflow(old(self).boards()) {
                assert(below(old(self).boards()[0], 60) && below(old(self).boards()[1], 60));
                lemma_board_shift_pair_masked(old0, old1, 1);
                lemma_board_down(old1, 1);
                assert forall|y: int| 0 <= y < 12 implies #[trigger] field_row(self.boards(), y) == if y + 1 < 12 {
                    field_row(old(self).boards(), y + 1)
                } else {
                    0u64
                } by {
                    lemma_middle_rows(self.0, self.1, y);
                    if y + 1 < 12 {
                        lemma_middle_rows(old0, old1, y + 1);
                    }
                }
                assert forall|k: int| 0 <= k < self.boards().len() implies below(#[trigger] self.boards()[k], 60) by {}
            }
        }
    }

    fn slide_down(&mut self, slide: u8) {
        let ghost old_boards = self.boards();
        if slide <= FIELD_ROW_BORDER_Y {
            let key = key_operators::get_mask_for_key_below_y(slide);
            proof {
                lemma_mask_board_key(key, slide as int, 0);
                lemma_no_flags(0);
            }
            self.delete_row(key, 0);
            proof {
                assert forall|y: int| 0 <= y < 12 implies #[trigger] field_row(self.boards(), y) == if y + slide < 12 {
                    field_row(old_boards, y + slide)
                } else {
                    0u64
                } by {
                    if y + slide < 6 {
                        assert(field_row(self.boards(), kept_before(key, y + slide)) == row_of(old_boards[0], y + slide));
                    } else if y + slide < 12 {
                        assert(field_row(self.boards(), kept_before(key, 6) + kept_before(0, y + slide - 6)) == row_of(old_boards[1], y + slide - 6));
                    }
                }
            }
        } else if slide <= MAX_FIELD_HEIGHT {
            let key_low = bit_operators::get_column_one_row_below_y(BOARD_HEIGHT);
            let key_high = key_operators::get_mask_for_key_below_y(slide - FIELD_ROW_BORDER_Y);
            proof {
                lemma_mask_board_key(key_high, slide - 6, 0);
                lemma_mask_board_key(key_low, 6, 0);
            }
            self.delete_row(key_low, key_high);
            proof {
                assert forall|y: int| 0 <= y < 12 implies #[trigger] field_row(self.boards(), y) == if y + slide < 12 {
                    field_row(old_boards, y + slide)
                } else {
                    0u64
                } by {
                    if y + slide < 12 {
                        assert(field_row(self.boards(), kept_before(key_low, 6) + kept_before(key_high, y + slide - 6)) == row_of(old_boards[1], y + slide - 6));
                    }
                }
            }
        } else {
            self.clear_all();
            proof {
                assert forall|y: int| 0 <= y < 12 implies #[trigger] field_row(self.boards(), y) == 0 by {
                    lemma_row_ops(0, 0, y % 6);
                }
                assert forall|k: int| 0 <= k < self.boards().len() implies below(#[trigger] self.boards()[k], 60) by {
                    assert forall|i: int| 60 <= i < 64 implies !#[trigger] bit(0u64, i) by {
                        lemma_bit_fixed(i);
                    }
                }
            }
        }
    }

    fn slide_up_with_empty_row(&mut self, slide: u8) {
        if slide >= MAX_FIELD_HEIGHT {
            self.clear_all();
            proof {
                assert forall|y: int| 0 <= y < 12 implies #[trigger] field_row(self.boards(), y) == 0 by {
                    lemma_row_ops(0, 0, y % 6);
                }
            }
        } else {
            let key = key_operators::get_mask_for_key_below_y(slide);
            self.insert_blank_row_with_key(key);
            proof {
                assert forall|y: int| 0 <= y < 12 implies #[trigger] field_row(self.boards(), y) == if y < slide {
                    0u64
                } else {
                    field_row(old(self).boards(), y - slide)
                } by {
                    lemma_kept_below_mask(key, slide as int, y);
                }
            }
        }
    }

    fn slide_up_with_filled_row(&mut self, slide: u8) {
        if slide >= MAX_FIELD_HEIGHT {
            self.fill_all();
        } else {
            let key = key_operators::get_mask_for_key_below_y(slide);
            self.insert_filled_row_with_key(key);
            proof {
                assert forall|y: int| 0 <= y < 12 implies #[trigger] field_row(self.boards(), y) == if y < slide {
                    0x3ffu64
                } else {
                    field_row(old(self).boards(), y - slide)
                } by {
                    lemma_kept_below_mask(key, slide as int, y);
                }
            }
        }
    }

    fn contains<F: FieldBoards>(&self, child: &F) -> (r: bool) {
        proof {
            child.lemma_board_count();
        }
        let count = child.get_board_count();
        let r = match count {
            BoardCount::Small => {
                let child_board_low = child.get_board(0);
                self.0 & child_board_low == child_board_low
            },
            BoardCount::Middle => {
                let child_board_low = child.get_board(0);
                let child_board_high = child.get_board(1);
                self.0 & child_board_low == child_board_low && self.1 & child_board_high == child_board_high
            },
            BoardCount::Large => {
                let child_board_low = child.get_board(0);
                let child_board_high = child.get_board(1);
                self.0 & child_board_low == child_board_low && self.1 & child_board_high == child_board_high
                    && child.get_board(2) == 0 && child.get_board(3) == 0
            },
        };
        proof {
            let cb = child.boards();
            if r {
                assert forall|k: int| 0 <= k < cb.len() implies if k < self.boards().len() {
                    #[trigger] (self.boards()[k] & cb[k]) == cb[k]
                } else {
                    cb[k] == 0
                } by {
                    assert(cb[k] == board_at(cb, k));
                }
            } else {
                let k: int = if self.0 & cb[0] != cb[0] {
                    0
                } else if self.1 & cb[1] != cb[1] {
                    1
                } else if cb[2] != 0 {
                    2
                } else {
                    3
                };
                let t = self.boards()[k] & cb[k];
            }
        }
        r
    }

    fn invert(&mut self) {
        self.0 = !self.0 & VALID_BOARD_RANGE;
        self.1 = !self.1 & VALID_BOARD_RANGE;
    }

    fn mirror(&mut self) {
        self.0 = key_operators::mirror(self.0);
        self.1 = key_operators::mirror(self.1);
    }

    fn mask<F: FieldBoards>(&mut self, mask_field: &F) {
        self.0 = self.0 & mask_field.get_board(0);
        self.1 = self.1 & mask_field.get_board(1);
    }
}

/// Whether no cell of a column mask is empty.
pub proof fn lemma_column_filled(b: u64, m: u64, x: int, n: int)
    requires
        0 <= x < 10,
        0 <= n <= 6,
        forall|i: int| 0 <= i < 64 ==> #[trigger] bit(m, i) == (i < 10 * n && i % 10 == x),
    ensures
        ((!b & m) == 0) == (forall|y: int| 0 <= y < n ==> #[trigger] cell(b, x, y)),
{
    lemma_zero_bits(!b & m);
    assert forall|i: int| 0 <= i < 64 implies #[trigger] bit(!b & m, i) == (i < 10 * n && i % 10 == x && !bit(b, i)) by {
        lemma_bit_ops(!b, m, i);
        lemma_bit_not(b, i);
    }
    if forall|y: int| 0 <= y < n ==> #[trigger] cell(b, x, y) {
        assert forall|i: int| 0 <= i < 64 implies !#[trigger] bit(!b & m, i) by {
            if i < 10 * n && i % 10 == x {
                assert(cell(b, x, i / 10));
            }
        }
    }
    if (!b & m) == 0 {
        assert forall|y: int| 0 <= y < n implies #[trigger] cell(b, x, y) by {
            assert(!bit(!b & m, x + 10 * y));
        }
    }
}

/// The cells of column `x` in the field rows `base..base + n` are the cells of one board.
pub proof fn lemma_forall_column(bs: Seq<u64>, b: u64, x: int, n: int, base: int)
    requires
        0 <= x < 10,
        0 <= n <= 6,
        base == 0 || base == 6 || base == 12 || base == 18,
        base / 6 < bs.len(),
        b == bs[base / 6],
    ensures
        (forall|y: int| base <= y < base + n ==> #[trigger] block_at(bs, x, y))
            == (forall|y: int| 0 <= y < n ==> #[trigger] cell(b, x, y)),
{
    if forall|y: int| 0 <= y < n ==> #[trigger] cell(b, x, y) {
        assert forall|y: int| base <= y < base + n implies #[trigger] block_at(bs, x, y) by {
            assert(cell(b, x, y - base));
        }
    }
    if forall|y: int| base <= y < base + n ==> #[trigger] block_at(bs, x, y) {
        assert forall|y: int| 0 <= y < n implies #[trigger] cell(b, x, y) by {
            assert(block_at(bs, x, y + base));
        }
    }
}

/// The wall condition of the field rows `base..base + n` is that of one board.
pub proof fn lemma_forall_wall(bs: Seq<u64>, b: u64, x: int, n: int, base: int)
    requires
        1 <= x < 10,
        0 <= n <= 6,
        base == 0 || base == 6 || base == 12 || base == 18,
        base / 6 < bs.len(),
        b == bs[base / 6],
    ensures
        (forall|y: int| base <= y < base + n ==> (#[trigger] block_at(bs, x - 1, y) || block_at(bs, x, y)))
            == (forall|y: int| 0 <= y < n ==> (#[trigger] cell(b, x - 1, y) || cell(b, x, y))),
{
    if forall|y: int| 0 <= y < n ==> (#[trigger] cell(b, x - 1, y) || cell(b, x, y)) {
        assert forall|y: int| base <= y < base + n implies (#[trigger] block_at(bs, x - 1, y) || block_at(bs, x, y)) by {
            assert(cell(b, x - 1, y - base) || cell(b, x, y - base));
        }
    }
    if forall|y: int| base <= y < base + n ==> (#[trigger] block_at(bs, x - 1, y) || block_at(bs, x, y)) {
        assert forall|y: int| 0 <= y < n implies (#[trigger] cell(b, x - 1, y) || cell(b, x, y)) by {
            assert(block_at(bs, x - 1, y + base) || block_at(bs, x, y + base));
        }
    }
}

/// The column count of a two-board field adds the counts of its boards.
proof fn lemma_column_count_middle(b0: u64, b1: u64, x: int, n: int)
    requires
        0 <= x < 10,
        0 <= n <= 12,
    ensures
        column_count(seq![b0, b1], x, n) == if n <= 6 {
            board_column_count(b0, x, n)
        } else {
            board_column_count(b0, x, 6) + board_column_count(b1, x, n - 6)
        },
    decreases n,
{
    if n > 0 {
        lemma_column_count_middle(b0, b1, x, n - 1);
    }
}

/// A key flagging the low rows of a field, taken as the key of its lowest board.
pub proof fn lemma_mask_board_key(key: u64, n: int, j: int)
    requires
        0 <= n <= 6,
        j == 0,
        forall|i: int| 0 <= i < 64 ==> #[trigger] bit(key, i) == (is_key_bit(i) && key_row(i) < n)
            || forall|i: int| 0 <= i < 64 ==> #[trigger] bit(key, i) == (i < 10 * n && i % 10 == 0),
    ensures
        is_board_key(key),
        forall|q: int| 0 <= q < 6 ==> #[trigger] flagged(key, q) == (q < n),
        kept_before(key, 6) == 6 - n,
        forall|q: int| n <= q <= 6 ==> #[trigger] kept_before(key, q) == q - n,
{
    assert forall|i: int| 0 <= i < 64 && #[trigger] bit(key, i) implies i < 60 && i % 10 == 0 by {}
    assert forall|q: int| 0 <= q < 6 implies #[trigger] flagged(key, q) == (q < n) by {
        assert(bit(key, 10 * q) == (q < n));
    }
    lemma_kept_before_low_mask(key, n, 6);
    assert forall|q: int| n <= q <= 6 implies #[trigger] kept_before(key, q) == q - n by {
        lemma_kept_before_low_mask(key, n, q);
    }
}

proof fn lemma_kept_before_low_mask(key: u64, n: int, q: int)
    requires
        0 <= n <= 6,
        0 <= q <= 6,
        forall|p: int| 0 <= p < 6 ==> #[trigger] flagged(key, p) == (p < n),
    ensures
        kept_before(key, q) == if q < n { 0 } else { q - n },
    decreases q,
{
    if q > 0 {
        lemma_kept_before_low_mask(key, n, q - 1);
        assert(flagged(key, q - 1) == (q - 1 < n));
    }
}

/// The empty key flags no row.
pub proof fn lemma_no_flags(key: u64)
    requires
        key == 0,
    ensures
        is_board_key(key),
        forall|q: int| 0 <= q <= 6 ==> #[trigger] kept_before(key, q) == q,
        forall|q: int| 0 <= q < 6 ==> !#[trigger] flagged(key, q),
{
    assert forall|i: int| 0 <= i < 64 implies !#[trigger] bit(key, i) by {
        lemma_bit_fixed(i);
    }
    assert forall|q: int| 0 <= q < 6 implies !#[trigger] flagged(key, q) by {}
    assert forall|q: int| 0 <= q <= 6 implies #[trigger] kept_before(key, q) == q by {
        lemma_kept_before_low_mask(key, 0, q);
    }
}

/// The combined key of the filled rows of both boards flags exactly the filled rows.
proof fn lemma_full_key_middle(bs: Seq<u64>, low: u64, high: u64, r: u64)
    requires
        bs.len() == 2,
        forall|i: int| 0 <= i < 64 ==> #[trigger] bit(low, i) == (i < 60 && i % 10 == 0 && row_filled(bs[0], i / 10)),
        forall|i: int| 0 <= i < 64 ==> #[trigger] bit(high, i) == (i < 60 && i % 10 == 0 && row_filled(bs[1], i / 10)),
        forall|i: int| 0 <= i < 64 ==> #[trigger] bit(r, i) == (bit(low, i) || (i >= 1 && bit(high, i - 1))),
    ensures
        is_board_key(low),
        is_board_key(high),
        forall|i: int| 0 <= i < 64 ==> #[trigger] bit(r, i) == (is_key_bit(i) && key_row(i) < 6 * bs.len()
            && row_full(bs, key_row(i))),
{
    assert forall|i: int| 0 <= i < 64 && #[trigger] bit(low, i) implies i < 60 && i % 10 == 0 by {}
    assert forall|i: int| 0 <= i < 64 && #[trigger] bit(high, i) implies i < 60 && i % 10 == 0 by {}
    assert forall|i: int| 0 <= i < 64 implies #[trigger] bit(r, i) == (is_key_bit(i) && key_row(i) < 6 * bs.len()
        && row_full(bs, key_row(i))) by {
        if i < 60 && i % 10 == 0 {
            lemma_row_full_used(bs[0], i / 10);
        }
        if i >= 1 && i < 61 && i % 10 == 1 {
            lemma_row_full_used(bs[1], (i - 1) / 10);
            assert(bit(high, i - 1) == row_filled(bs[1], (i - 1) / 10));
        }
        if i >= 1 {
            assert(bit(high, i - 1) ==> (i - 1) % 10 == 0);
        }
        if is_key_bit(i) && key_row(i) < 12 {
            lemma_middle_rows(bs[0], bs[1], key_row(i));
        }
    }
}

/// The rows left by deleting with the two board keys, stated over the combined key.
proof fn lemma_delete_key_middle(old_bs: Seq<u64>, bs: Seq<u64>, low: u64, high: u64, r: u64)
    requires
        old_bs.len() == 2,
        bs.len() == 2,
        is_board_key(low),
        is_board_key(high),
        forall|q: int| 0 <= q < 6 ==> #[trigger] bit(r, 10 * q) == flagged(low, q),
        forall|q: int| 0 <= q < 6 ==> #[trigger] bit(r, 10 * q + 1) == flagged(high, q),
        forall|p: int| 0 <= p < 6 && !flagged(low, p) ==> #[trigger] field_row(bs, kept_before(low, p)) == row_of(old_bs[0], p),
        forall|p: int| 0 <= p < 6 && !flagged(high, p) ==> #[trigger] field_row(bs, kept_before(low, 6) + kept_before(high, p))
            == row_of(old_bs[1], p),
        forall|y: int| kept_before(low, 6) + kept_before(high, 6) <= y < 12 ==> #[trigger] field_row(bs, y) == 0,
    ensures
        forall|y: int| 0 <= y < 12 && !key_flagged(r, y) ==> #[trigger] field_row(bs, kept_below(r, y)) == field_row(old_bs, y),
        forall|y: int| kept_below(r, 12) <= y < 12 ==> #[trigger] field_row(bs, y) == 0,
        forall|q: int| 0 <= q < 6 ==> #[trigger] flagged(low, q) == key_flagged(r, 6 * 0 + q),
        forall|q: int| 0 <= q < 6 ==> #[trigger] flagged(high, q) == key_flagged(r, 6 * 1 + q),
{
    assert forall|q: int| 0 <= q < 6 implies #[trigger] flagged(low, q) == key_flagged(r, 6 * 0 + q) by {
        lemma_key_flag_position(r, 0, q);
    }
    assert forall|q: int| 0 <= q < 6 implies #[trigger] flagged(high, q) == key_flagged(r, 6 * 1 + q) by {
        lemma_key_flag_position(r, 1, q);
    }
    lemma_kept_below_split(r, low, 0, 6);
    lemma_kept_below_split(r, high, 1, 6);
    assert forall|y: int| 0 <= y < 12 && !key_flagged(r, y) implies #[trigger] field_row(bs, kept_below(r, y)) == field_row(old_bs, y) by {
        lemma_middle_rows(old_bs[0], old_bs[1], y);
        if y < 6 {
            lemma_kept_below_split(r, low, 0, y);
            assert(!flagged(low, y));
        } else {
            lemma_kept_below_split(r, high, 1, y - 6);
            assert(!flagged(high, y - 6));
        }
    }
}

/// The rows left by deleting with the two board keys taken out of a field-wide key.
proof fn lemma_delete_key_middle_extracted(old_bs: Seq<u64>, bs: Seq<u64>, low: u64, high: u64, key: u64)
    requires
        old_bs.len() == 2,
        bs.len() == 2,
        is_board_key(low),
        is_board_key(high),
        forall|q: int| 0 <= q < 6 ==> #[trigger] flagged(low, q) == bit(key, 10 * q + 0),
        forall|q: int| 0 <= q < 6 ==> #[trigger] flagged(high, q) == bit(key, 10 * q + 1),
        forall|p: int| 0 <= p < 6 && !flagged(low, p) ==> #[trigger] field_row(bs, kept_before(low, p)) == row_of(old_bs[0], p),
        forall|p: int| 0 <= p < 6 && !flagged(high, p) ==> #[trigger] field_row(bs, kept_before(low, 6) + kept_before(high, p))
            == row_of(old_bs[1], p),
        forall|y: int| kept_before(low, 6) + kept_before(high, 6) <= y < 12 ==> #[trigger] field_row(bs, y) == 0,
    ensures
        forall|y: int| 0 <= y < 12 && !key_flagged(key, y) ==> #[trigger] field_row(bs, kept_below(key, y)) == field_row(old_bs, y),
        forall|y: int| kept_below(key, 12) <= y < 12 ==> #[trigger] field_row(bs, y) == 0,
{
    assert forall|q: int| 0 <= q < 6 implies #[trigger] bit(key, 10 * q) == flagged(low, q) by {
        assert(bit(key, 10 * q + 0) == flagged(low, q));
    }
    lemma_delete_key_middle(old_bs, bs, low, high, key);
}

/// The field-wide totals of a two-board field, from its boards.
proof fn lemma_middle_aggregates(b0: u64, b1: u64)
    ensures
        total_popcount(seq![b0, b1]) == popcount(b0) + popcount(b1),
        union_boards(seq![b0, b1]) == b0 | b1,
        lowest_used_board(seq![b0, b1]) == if b0 != 0 { 0int } else if b1 != 0 { 1int } else { 2int },
        highest_used_board(seq![b0, b1]) == if b1 != 0 { 1int } else if b0 != 0 { 0int } else { -1int },
{
    let bs = seq![b0, b1];
    assert(bs.drop_last() =~= seq![b0]);
    assert(seq![b0].drop_last() =~= Seq::<u64>::empty());
    assert(bs.drop_first() =~= seq![b1]);
    assert(seq![b1].drop_first() =~= Seq::<u64>::empty());
    assert(total_popcount(Seq::<u64>::empty()) == 0);
    assert(total_popcount(seq![b0]) == popcount(b0));
    assert(union_boards(Seq::<u64>::empty()) == 0);
    assert(union_boards(seq![b0]) == 0 | b0);
    lemma_shift_zero(b0);
    assert(lowest_used_board(Seq::<u64>::empty()) == 0);
    assert(lowest_used_board(seq![b1]) == if b1 != 0 { 0int } else { 1int });
    assert(highest_used_board(Seq::<u64>::empty()) == -1);
    assert(highest_used_board(seq![b0]) == if b0 != 0 { 0int } else { -1int });
}

} // verus!
