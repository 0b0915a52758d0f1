use vstd::prelude::*;
use super::bits::{
    bit, below, lemma_bit_ops, lemma_bit_not, lemma_bit_shl, lemma_bit_fixed, lemma_test_bit,
    lemma_shift_zero, lemma_zero_bits, lemma_all_ones,
};
use super::bit_operators::{
    self, cell, count_ones, popcount, board_column_count, lemma_column_popcount, lemma_row_popcount,
    lemma_popcount_zero,
};
use super::board_rows::{
    lemma_board_down, lemma_board_join, lemma_valid_rows, lemma_board_shift_pair,
};
use super::field::{
    board_clear, lemma_board_remove_cell, lemma_board_window, lemma_shape_clear_boards,
    lemma_board_put_cell, lemma_covers_rows,
    Field, FieldBoards, FieldHelper, board_at, block_at, field_row, no_overflow, key_flagged,
    kept_below, total_popcount, union_boards, lowest_used_board, highest_used_board, column_count,
    valid_mask, row_full, fill_value, stacked_row, lemma_kept_below_split,
    lemma_key_flag_position, lemma_kept_below_mask, lemma_filled_key_kept,
};
use super::field_constants::{BoardCount, BOARD_HEIGHT, FIELD_WIDTH, VALID_BOARD_RANGE};
use super::key_operators::{self, is_key_bit, key_row, row_filled, row_used};
use super::long_board_map::{
    self, row_of, flagged, kept_before, is_board_key, lemma_kept_before_bounds,
    lemma_kept_before_mono, lemma_board_key_popcount, lemma_rows_below, lemma_row_ops,
};
use super::small_field::{lemma_row_full_used, lemma_slide_left_bits, lemma_slide_right_bits, lemma_row_nonzero};
use super::middle_field::{lemma_forall_column, lemma_forall_wall, lemma_mask_board_key, lemma_no_flags};
use crate::sfinder_core::mino::mino::{Mino, covers, mask_at, mino_min_y, mino_max_y};
use crate::sfinder_core::mino::piece::Piece;
use crate::sfinder_core::srs::rotate::Rotate;

verus! {

const FIELD_ROW_MID_LOW_BORDER_Y: u8 = 6;

const FIELD_ROW_MID_HIGH_BORDER_Y: u8 = 12;

const FIELD_ROW_HIGH_BORDER_Y: u8 = 18;

/// Height of a field of four boards.
pub const MAX_FIELD_HEIGHT: u8 = 24;

/// The board holding a row, with the row's offset in that board (the top board takes every
/// row from 18 up).
enum Position {
    Low(u8),
    MidLow(u8),
    MidHigh(u8),
    High(u8),
}

/// A field of 24 rows held in four boards.
#[derive(Clone, Copy, Debug, PartialEq, Eq, Structural)]
pub struct LargeField(u64, u64, u64, u64);

/// Row `y` of a four-board field, read from its board.
pub proof fn lemma_large_rows(bs: Seq<u64>, y: int)
    requires
        bs.len() == 4,
        0 <= y < 24,
    ensures
        field_row(bs, y) == if y < 6 {
            row_of(bs[0], y)
        } else if y < 12 {
            row_of(bs[1], y - 6)
        } else if y < 18 {
            row_of(bs[2], y - 12)
        } else {
            row_of(bs[3], y - 18)
        },
{
}

/// Two boards read as 12 rows: the rows of `lo` below row `n`, then the rows of `hi`, then
/// empty rows.
pub open spec fn joined_row(lo: u64, hi: u64, n: int, t: int) -> u64 {
    if t < n {
        row_of(lo, t)
    } else if t - n < 6 {
        row_of(hi, t - n)
    } else {
        0u64
    }
}

/// The two boards holding 12 joined rows.
pub open spec fn pair_row(a: u64, b: u64, t: int) -> u64 {
    if t < 6 {
        row_of(a, t)
    } else if t < 12 {
        row_of(b, t - 6)
    } else {
        0u64
    }
}

/// Joining the kept rows of two deleted boards: the lower board keeps its rows below `n` and
/// takes the first rows of the upper board; the upper board keeps the rest.
proof fn lemma_join_pair(lo: u64, hi: u64, n: int)
    requires
        0 <= n <= 6,
        below(lo, 60),
        below(hi, 60),
        forall|q: int| n <= q < 6 ==> #[trigger] row_of(lo, q) == 0,
    ensures
        below((lo | (hi << (10 * n) as u64)) & 0x0fff_ffff_ffff_ffffu64, 60),
        below(hi >> (10 * (6 - n)) as u64, 60),
        forall|t: int| 0 <= t < 12 ==> #[trigger] pair_row((lo | (hi << (10 * n) as u64)) & 0x0fff_ffff_ffff_ffffu64,
            hi >> (10 * (6 - n)) as u64, t) == joined_row(lo, hi, n, t),
{
    lemma_rows_below(lo, n);
    lemma_board_join(lo, hi, n);
    lemma_board_down(hi, 6 - n);
}

impl LargeField {
    /// The empty field.
    /// Every field of this kind holds four boards.
    pub proof fn lemma_boards_len(&self)
        ensures
            self.boards().len() == 4,
    {
    }

    pub closed spec fn empty() -> Self {
        LargeField(0, 0, 0, 0)
    }

    pub fn new() -> (r: Self)
        ensures
            r == Self::empty(),
            r.boards() == seq![0u64, 0u64, 0u64, 0u64],
    {
        LargeField(0, 0, 0, 0)
    }

    /// Builds a field from its four boards, lowest first.
    pub fn from_parts(low: u64, mid_low: u64, mid_high: u64, high: u64) -> (r: Self)
        ensures
            r.boards() == seq![low, mid_low, mid_high, high],
    {
        LargeField(low, mid_low, mid_high, high)
    }

    pub fn get_x_board_low(&self) -> (r: u64)
        ensures
            r == self.boards()[0],
    {
        self.0
    }

    pub fn get_x_board_mid_low(&self) -> (r: u64)
        ensures
            r == self.boards()[1],
    {
        self.1
    }

    pub fn get_x_board_mid_high(&self) -> (r: u64)
        ensures
            r == self.boards()[2],
    {
        self.2
    }

    pub fn get_x_board_high(&self) -> (r: u64)
        ensures
            r == self.boards()[3],
    {
        self.3
    }

    fn select(y: u8) -> (r: Position)
        ensures
            y < 6 ==> r == Position::Low(y),
            6 <= y < 12 ==> r == Position::MidLow((y - 6) as u8),
            12 <= y < 18 ==> r == Position::MidHigh((y - 12) as u8),
            18 <= y ==> r == Position::High((y - 18) as u8),
    {
        if y >= FIELD_ROW_HIGH_BORDER_Y {
            Position::High(y - FIELD_ROW_HIGH_BORDER_Y)
        } else if y >= FIELD_ROW_MID_HIGH_BORDER_Y {
            Position::MidHigh(y - FIELD_ROW_MID_HIGH_BORDER_Y)
        } else if y >= FIELD_ROW_MID_LOW_BORDER_Y {
            Position::MidLow(y - FIELD_ROW_MID_LOW_BORDER_Y)
        } else {
            Position::Low(y)
        }
    }

    /// Joins the single-board keys of the four boards into a field-wide key.
    fn combine_keys(low: u64, mid_low: u64, mid_high: u64, high: u64) -> (r: u64)
        requires
            is_board_key(low),
            is_board_key(mid_low),
            is_board_key(mid_high),
            is_board_key(high),
        ensures
            forall|i: int| 0 <= i < 64 ==> #[trigger] bit(r, i) == (bit(low, i) || (i >= 1 && bit(mid_low, i - 1))
                || (i >= 2 && bit(mid_high, i - 2)) || (i >= 3 && bit(high, i - 3))),
            forall|q: int| 0 <= q < 6 ==> #[trigger] bit(r, 10 * q) == flagged(low, q),
            forall|q: int| 0 <= q < 6 ==> #[trigger] bit(r, 10 * q + 1) == flagged(mid_low, q),
            forall|q: int| 0 <= q < 6 ==> #[trigger] bit(r, 10 * q + 2) == flagged(mid_high, q),
            forall|q: int| 0 <= q < 6 ==> #[trigger] bit(r, 10 * q + 3) == flagged(high, q),
            popcount(r) == popcount(low) + popcount(mid_low) + popcount(mid_high) + popcount(high),
    {
        let a = mid_low << 1u64;
        let b = mid_high << 2u64;
        let c = high << 3u64;
        let ab = low | a;
        let abc = ab | b;
        let r = abc | c;
        proof {
            assert forall|i: int| 0 <= i < 64 implies #[trigger] bit(r, i) == (bit(low, i) || (i >= 1 && bit(mid_low, i - 1))
                || (i >= 2 && bit(mid_high, i - 2)) || (i >= 3 && bit(high, i - 3))) by {
                lemma_bit_ops(abc, c, i);
                lemma_bit_ops(ab, b, i);
                lemma_bit_ops(low, a, i);
                lemma_bit_shl(mid_low, 1, i);
                lemma_bit_shl(mid_high, 2, i);
                lemma_bit_shl(high, 3, i);
            }
            assert forall|i: int| 0 <= i < 64 implies #[trigger] bit(ab, i) == (bit(low, i) || (i >= 1 && bit(mid_low, i - 1))) by {
                lemma_bit_ops(low, a, i);
                lemma_bit_shl(mid_low, 1, i);
            }
            assert forall|i: int| 0 <= i < 64 implies #[trigger] bit(abc, i) == (bit(ab, i) || (i >= 2 && bit(mid_high, i - 2))) by {
                lemma_bit_ops(ab, b, i);
                lemma_bit_shl(mid_high, 2, i);
            }
            assert forall|i: int| 0 <= i < 64 implies !(#[trigger] bit(low, i) && bit(a, i)) by {
                lemma_bit_shl(mid_low, 1, i);
            }
            assert forall|i: int| 0 <= i < 64 implies !(#[trigger] bit(ab, i) && bit(b, i)) by {
                lemma_bit_shl(mid_high, 2, i);
            }
            assert forall|i: int| 0 <= i < 64 implies !(#[trigger] bit(abc, i) && bit(c, i)) by {
                lemma_bit_shl(high, 3, i);
            }
            bit_operators::lemma_count_bits_or(low, a, 64);
            bit_operators::lemma_count_bits_or(ab, b, 64);
            bit_operators::lemma_count_bits_or(abc, c, 64);
            bit_operators::lemma_popcount_shl(mid_low, 1);
            bit_operators::lemma_popcount_shl(mid_high, 2);
            bit_operators::lemma_popcount_shl(high, 3);
        }
        r
    }

    /// Removes the rows flagged by the key of each board; the rows left move down, across the
    /// borders of the boards, and empty rows come in at the top.
    #[verifier::rlimit(40)]
    fn delete_row(&mut self, key_low: u64, key_mid_low: u64, key_mid_high: u64, key_high: u64)
        requires
            is_board_key(key_low),
            is_board_key(key_mid_low),
            is_board_key(key_mid_high),
            is_board_key(key_high),
        ensures
            no_overflow(final(self).boards()),
            forall|p: int| 0 <= p < 6 && !flagged(key_low, p) ==> #[trigger] field_row(final(self).boards(),
                kept_before(key_low, p)) == row_of(old(self).0, p),
            forall|p: int| 0 <= p < 6 && !flagged(key_mid_low, p) ==> #[trigger] field_row(final(self).boards(),
                kept_before(key_low, 6) + kept_before(key_mid_low, p)) == row_of(old(self).1, p),
            forall|p: int| 0 <= p < 6 && !flagged(key_mid_high, p) ==> #[trigger] field_row(final(self).boards(),
                kept_before(key_low, 6) + kept_before(key_mid_low, 6) + kept_before(key_mid_high, p)) == row_of(old(self).2, p),
            forall|p: int| 0 <= p < 6 && !flagged(key_high, p) ==> #[trigger] field_row(final(self).boards(),
                kept_before(key_low, 6) + kept_before(key_mid_low, 6) + kept_before(key_mid_high, 6) + kept_before(key_high, p))
                == row_of(old(self).3, p),
            forall|y: int| kept_before(key_low, 6) + kept_before(key_mid_low, 6) + kept_before(key_mid_high, 6)
                + kept_before(key_high, 6) <= y < 24 ==> #[trigger] field_row(final(self).boards(), y) == 0,
    {
        let new0 = long_board_map::delete_row(self.0, key_low);
        let new1 = long_board_map::delete_row(self.1, key_mid_low);
        let new2 = long_board_map::delete_row(self.2, key_mid_high);
        let new3 = long_board_map::delete_row(self.3, key_high);
        proof {
            lemma_board_key_popcount(key_low);
            lemma_board_key_popcount(key_mid_low);
            lemma_board_key_popcount(key_mid_high);
        }
        let delete_row0 = count_ones(key_low) as u8;
        let delete_row1 = count_ones(key_mid_low) as u8;
        let delete_row2 = count_ones(key_mid_high) as u8;
        let ghost k0 = kept_before(key_low, 6);
        let ghost k1 = kept_before(key_mid_low, 6);
        let ghost k2 = kept_before(key_mid_high, 6);
        proof {
            lemma_join_pair(new0, new1, k0);
            lemma_join_pair(new2, new3, k2);
        }
        let board0 = (new0 | bit_operators::board_shl(new1, BOARD_HEIGHT - delete_row0)) & VALID_BOARD_RANGE;
        let board1 = bit_operators::board_shr(new1, delete_row0);
        let board2 = (new2 | bit_operators::board_shl(new3, BOARD_HEIGHT - delete_row2)) & VALID_BOARD_RANGE;
        let board3 = bit_operators::board_shr(new3, delete_row2);
        let delete_row_bottom = delete_row0 + delete_row1;
        let ghost n = k0 + k1;
        proof {
            assert forall|t: int| 0 <= t < 12 implies #[trigger] pair_row(board0, board1, t) == joined_row(new0, new1, k0, t) by {}
            assert forall|t: int| 0 <= t < 12 implies #[trigger] pair_row(board2, board3, t) == joined_row(new2, new3, k2, t) by {}
            lemma_kept_before_bounds(key_mid_low, 6);
            assert forall|t: int| n <= t < 12 implies #[trigger] pair_row(board0, board1, t) == 0 by {
                assert(joined_row(new0, new1, k0, t) == 0);
            }
        }
        if delete_row_bottom >= BOARD_HEIGHT {
            let slide = delete_row_bottom - BOARD_HEIGHT;
            proof {
                assert forall|q: int| n <= q < 6 implies #[trigger] row_of(board0, q) == 0 by {
                    assert(pair_row(board0, board1, q) == 0);
                }
                lemma_rows_below(board0, n);
                lemma_board_join(board0, board2, n);
                lemma_board_shift_pair(board2, board3, slide as int);
                lemma_board_down(board3, slide as int);
                lemma_shift_zero(0);
            }
            self.0 = (board0 | bit_operators::board_shl(board2, BOARD_HEIGHT - slide)) & VALID_BOARD_RANGE;
            self.1 = bit_operators::board_shr(board2, slide) | bit_operators::board_shl(board3, BOARD_HEIGHT - slide)
                & VALID_BOARD_RANGE;
            self.2 = bit_operators::board_shr(board3, slide);
            self.3 = 0;
            proof {
                assert forall|t: int| 0 <= t < 24 implies #[trigger] field_row(self.boards(), t) == if t < n {
                    pair_row(board0, board1, t)
                } else {
                    pair_row(board2, board3, t - n)
                } by {
                    lemma_large_rows(self.boards(), t);
                    lemma_row_ops(0, 0, t % 6);
                }
                assert forall|i: int| 60 <= i < 64 implies !#[trigger] bit(0u64, i) by {
                    lemma_bit_fixed(i);
                }
            }
        } else {
            let d = delete_row_bottom;
            proof {
                assert forall|q: int| n - 6 <= q < 6 implies #[trigger] row_of(board1, q) == 0 by {
                    assert(pair_row(board0, board1, q + 6) == 0);
                }
                lemma_rows_below(board1, n - 6);
                lemma_board_join(board1, board2, n - 6);
                lemma_board_shift_pair(board2, board3, d as int);
                lemma_board_down(board3, d as int);
            }
            self.0 = board0;
            self.1 = (board1 | bit_operators::board_shl(board2, BOARD_HEIGHT - d)) & VALID_BOARD_RANGE;
            self.2 = bit_operators::board_shr(board2, d) | bit_operators::board_shl(board3, BOARD_HEIGHT - d)
                & VALID_BOARD_RANGE;
            self.3 = bit_operators::board_shr(board3, d);
            proof {
                assert forall|t: int| 0 <= t < 24 implies #[trigger] field_row(self.boards(), t) == if t < n {
                    pair_row(board0, board1, t)
                } else {
                    pair_row(board2, board3, t - n)
                } by {
                    lemma_large_rows(self.boards(), t);
                }
            }
        }
        proof {
            assert forall|k: int| 0 <= k < self.boards().len() implies below(#[trigger] self.boards()[k], 60) by {}
            let ghost k3 = kept_before(key_high, 6);
            let ghost ob = old(self);
            lemma_kept_before_bounds(key_high, 6);
            assert forall|p: int| 0 <= p < 6 && !flagged(key_low, p) implies #[trigger] field_row(self.boards(),
                kept_before(key_low, p)) == row_of(ob.0, p) by {
                lemma_kept_before_mono(key_low, p, 6);
                lemma_kept_before_bounds(key_low, p);
            }
            assert forall|p: int| 0 <= p < 6 && !flagged(key_mid_low, p) implies #[trigger] field_row(self.boards(),
                k0 + kept_before(key_mid_low, p)) == row_of(ob.1, p) by {
                lemma_kept_before_mono(key_mid_low, p, 6);
                lemma_kept_before_bounds(key_mid_low, p);
            }
            assert forall|p: int| 0 <= p < 6 && !flagged(key_mid_high, p) implies #[trigger] field_row(self.boards(),
                k0 + k1 + kept_before(key_mid_high, p)) == row_of(ob.2, p) by {
                lemma_kept_before_mono(key_mid_high, p, 6);
                lemma_kept_before_bounds(key_mid_high, p);
                assert(pair_row(board2, board3, kept_before(key_mid_high, p)) == joined_row(new2, new3, k2, kept_before(key_mid_high, p)));
            }
            assert forall|p: int| 0 <= p < 6 && !flagged(key_high, p) implies #[trigger] field_row(self.boards(),
                k0 + k1 + k2 + kept_before(key_high, p)) == row_of(ob.3, p) by {
                lemma_kept_before_mono(key_high, p, 6);
                lemma_kept_before_bounds(key_high, p);
                assert(pair_row(board2, board3, k2 + kept_before(key_high, p)) == joined_row(new2, new3, k2, k2 + kept_before(key_high, p)));
            }
            assert forall|y: int| k0 + k1 + k2 + k3 <= y < 24 implies #[trigger] field_row(self.boards(), y) == 0 by {
                if y - n < 12 {
                    assert(pair_row(board2, board3, y - n) == joined_row(new2, new3, k2, y - n));
                }
            }
        }
    }

    /// Inserts a row (filled if `filled`) at each row flagged by `delete_key`; the other rows
    /// move up past the inserted rows, across the borders of the boards.
    #[verifier::rlimit(40)]
    fn insert_row_with_key(&mut self, delete_key: u64, filled: bool)
        ensures
            no_overflow(final(self).boards()),
            forall|y: int| 0 <= y < 24 ==> #[trigger] field_row(final(self).boards(), y) == if key_flagged(delete_key, y) {
                fill_value(filled)
            } else {
                field_row(old(self).boards(), kept_below(delete_key, y))
            },
    {
        let key0 = Self::extract_delete_key(delete_key, 0);
        let key1 = Self::extract_delete_key(delete_key, 1);
        let key2 = Self::extract_delete_key(delete_key, 2);
        let key3 = Self::extract_delete_key(delete_key, 3);
        proof {
            lemma_board_key_popcount(key0);
            lemma_board_key_popcount(key1);
            lemma_board_key_popcount(key2);
        }
        let delete_rows0 = count_ones(key0) as u8;
        let delete_rows1 = delete_rows0 + count_ones(key1) as u8;
        let delete_rows2 = delete_rows1 + count_ones(key2) as u8;
        let (mid_high, high) = if delete_rows2 >= FIELD_ROW_MID_HIGH_BORDER_Y {
            ((self.0, self.1, BOARD_HEIGHT), (self.0, self.1, FIELD_ROW_MID_HIGH_BORDER_Y))
        } else if delete_rows2 >= BOARD_HEIGHT && delete_rows1 >= BOARD_HEIGHT {
            ((self.0, self.1, BOARD_HEIGHT), (self.1, self.2, BOARD_HEIGHT))
        } else if delete_rows2 >= BOARD_HEIGHT {
            ((self.1, self.2, 0u8), (self.1, self.2, BOARD_HEIGHT))
        } else {
            ((self.1, self.2, 0u8), (self.2, self.3, 0u8))
        };
        let new0 = Self::create_bottom_board(self.0, delete_rows0, key0, filled);
        let new1 = Self::create_upper_board(self.0, self.1, delete_rows0, key1, filled);
        let new2 = Self::create_upper_board(mid_high.0, mid_high.1, delete_rows1 - mid_high.2, key2, filled);
        let new3 = Self::create_upper_board(high.0, high.1, delete_rows2 - high.2, key3, filled);
        let ghost old_boards = self.boards();
        proof {
            lemma_valid_rows(new1);
            lemma_valid_rows(new2);
            lemma_valid_rows(new3);
            assert forall|q: int| 0 <= q < 6 implies #[trigger] flagged(key0, q) == key_flagged(delete_key, 6 * 0 + q) by {
                lemma_key_flag_position(delete_key, 0, q);
            }
            assert forall|q: int| 0 <= q < 6 implies #[trigger] flagged(key1, q) == key_flagged(delete_key, 6 * 1 + q) by {
                lemma_key_flag_position(delete_key, 1, q);
            }
            assert forall|q: int| 0 <= q < 6 implies #[trigger] flagged(key2, q) == key_flagged(delete_key, 6 * 2 + q) by {
                lemma_key_flag_position(delete_key, 2, q);
            }
            assert forall|q: int| 0 <= q < 6 implies #[trigger] flagged(key3, q) == key_flagged(delete_key, 6 * 3 + q) by {
                lemma_key_flag_position(delete_key, 3, q);
            }
            lemma_kept_below_split(delete_key, key0, 0, 6);
            lemma_kept_below_split(delete_key, key1, 1, 6);
            lemma_kept_below_split(delete_key, key2, 2, 6);
            assert(kept_below(delete_key, 0) == 0);
            // the pair of boards each upper board is built from, seen as field rows
            assert forall|p: int| 0 <= p < 6 implies #[trigger] stacked_row(self.0, self.1, delete_rows0 as int, p)
                == field_row(old_boards, 6 - delete_rows0 + p) by {
                lemma_large_rows(old_boards, 6 - delete_rows0 + p);
            }
            assert forall|p: int| 0 <= p < 6 implies #[trigger] stacked_row(mid_high.0, mid_high.1, (delete_rows1 - mid_high.2) as int, p)
                == field_row(old_boards, 12 - delete_rows1 + p) by {
                lemma_large_rows(old_boards, 12 - delete_rows1 + p);
            }
            assert forall|p: int| 0 <= p < 6 implies #[trigger] stacked_row(high.0, high.1, (delete_rows2 - high.2) as int, p)
                == field_row(old_boards, 18 - delete_rows2 + p) by {
                lemma_large_rows(old_boards, 18 - delete_rows2 + p);
            }
        }
        self.0 = new0;
        self.1 = new1 & VALID_BOARD_RANGE;
        self.2 = new2 & VALID_BOARD_RANGE;
        self.3 = new3 & VALID_BOARD_RANGE;
        proof {
            assert forall|y: int| 0 <= y < 24 implies #[trigger] field_row(self.boards(), y) == if key_flagged(delete_key, y) {
                fill_value(filled)
            } else {
                field_row(old_boards, kept_below(delete_key, y))
            } by {
                lemma_large_rows(self.boards(), y);
                if y < 6 {
                    lemma_kept_below_split(delete_key, key0, 0, y);
                    lemma_kept_before_mono(key0, y, 6);
                    lemma_kept_before_bounds(key0, y);
                    lemma_large_rows(old_boards, kept_before(key0, y));
                } else if y < 12 {
                    lemma_kept_below_split(delete_key, key1, 1, y - 6);
                    lemma_kept_before_bounds(key1, y - 6);
                } else if y < 18 {
                    lemma_kept_below_split(delete_key, key2, 2, y - 12);
                    lemma_kept_before_bounds(key2, y - 12);
                } else {
                    lemma_kept_below_split(delete_key, key3, 3, y - 18);
                    lemma_kept_before_bounds(key3, y - 18);
                }
            }
            assert forall|k: int| 0 <= k < self.boards().len() implies below(#[trigger] self.boards()[k], 60) by {}
        }
    }

    fn fill_all(&mut self)
        ensures
            forall|y: int| 0 <= y < 24 ==> #[trigger] field_row(final(self).boards(), y) == 0x3ffu64,
            no_overflow(final(self).boards()),
    {
        self.0 = VALID_BOARD_RANGE;
        self.1 = VALID_BOARD_RANGE;
        self.2 = VALID_BOARD_RANGE;
        self.3 = VALID_BOARD_RANGE;
        proof {
            assert forall|y: int| 0 <= y < 24 implies #[trigger] field_row(self.boards(), y) == 0x3ffu64 by {
                lemma_row_ops(VALID_BOARD_RANGE, VALID_BOARD_RANGE, y % 6);
            }
            assert forall|i: int| 60 <= i < 64 implies !#[trigger] bit(VALID_BOARD_RANGE, i) by {
                lemma_bit_fixed(i);
            }
        }
    }
}

impl FieldHelper for LargeField {
}

impl FieldBoards for LargeField {
    closed spec fn boards(&self) -> Seq<u64> {
        seq![self.0, self.1, self.2, self.3]
    }

    proof fn lemma_board_count(&self) {
    }

    fn get_board(&self, index: u8) -> (r: u64) {
        if index == 0 {
            self.0
        } else if index == 1 {
            self.1
        } else if index == 2 {
            self.2
        } else if index == 3 {
            self.3
        } else {
            0
        }
    }

    fn get_board_count(&self) -> (r: BoardCount) {
        BoardCount::Large
    }

    fn get_max_field_height(&self) -> (r: u8) {
        MAX_FIELD_HEIGHT
    }
}

/// Board of a four-board field holding row `y` (the top board takes every row from 18 up).
pub open spec fn large_index(y: int) -> int {
    if y >= 18 {
        3
    } else if y >= 12 {
        2
    } else if y >= 6 {
        1
    } else {
        0
    }
}

/// The part of the shape of `p` in orientation `r`, centered on row `y`, that board `k` of a
/// four-board field receives, if any.
pub open spec fn large_mask(k: int, y: int, p: Piece, r: Rotate, x: int) -> Option<u64> {
    let j = large_index(y);
    let o = y - 6 * j;
    if k == j {
        Some(mask_at(p, r, x, o))
    } else if k == j - 1 && o + mino_min_y(p, r) < 0 {
        Some(mask_at(p, r, x, o + 6))
    } else if k == j + 1 && o + mino_max_y(p, r) >= 6 {
        Some(mask_at(p, r, x, o - 6))
    } else {
        None
    }
}

impl Field for LargeField {
    open spec fn empty_field() -> Self {
        Self::empty()
    }

    open spec fn can_put_spec(&self, p: Piece, r: Rotate, x: int, y: int) -> bool {
        forall|k: int| 0 <= k < 4 ==> match #[trigger] large_mask(k, y, p, r, x) {
            Some(m) => self.boards()[k] & m == 0,
            None => true,
        }
    }

    open spec fn put_spec(&self, p: Piece, r: Rotate, x: int, y: int) -> Seq<u64> {
        Seq::new(4, |k: int| match large_mask(k, y, p, r, x) {
            Some(m) => self.boards()[k] | m,
            None => self.boards()[k],
        })
    }

    open spec fn remove_spec(&self, p: Piece, r: Rotate, x: int, y: int) -> Seq<u64> {
        Seq::new(4, |k: int| match large_mask(k, y, p, r, x) {
            Some(m) => self.boards()[k] & !m,
            None => self.boards()[k],
        })
    }

    proof fn lemma_put_cells(&self, p: Piece, r: Rotate, x: int, y: int, cx: int, cy: int) {
        Mino::lemma_cells_in_bounds(p, r);
        lemma_covers_rows(p, r, x, y, cx, cy);
        let ps = self.put_spec(p, r, x, y);
        assert(ps.len() == 4);
        if 0 <= cx < 10 && 0 <= cy < 24 {
            let k = cy / 6;
            let q = cy % 6;
            let j = large_index(y);
            let o = y - 6 * j;
            assert(cy == 6 * k + q);
            if k == j {
                lemma_board_put_cell(self.boards()[k], p, r, x, o, cx, q);
                lemma_covers_moved(p, r, x, y, cx, cy, k);
            } else if k == j - 1 && o + mino_min_y(p, r) < 0 {
                lemma_board_put_cell(self.boards()[k], p, r, x, o + 6, cx, q);
                lemma_covers_moved(p, r, x, y, cx, cy, k);
            } else if k == j + 1 && o + mino_max_y(p, r) >= 6 {
                lemma_board_put_cell(self.boards()[k], p, r, x, o - 6, cx, q);
                lemma_covers_moved(p, r, x, y, cx, cy, k);
            } else {
                assert(large_mask(k, y, p, r, x) is None);
                assert(ps[k] == self.boards()[k]);
            }
        }
    }

    proof fn lemma_remove_cells(&self, p: Piece, r: Rotate, x: int, y: int, cx: int, cy: int) {
        Mino::lemma_cells_in_bounds(p, r);
        lemma_covers_rows(p, r, x, y, cx, cy);
        let ps = self.remove_spec(p, r, x, y);
        assert(ps.len() == 4);
        if 0 <= cx < 10 && 0 <= cy < 24 {
            let k = cy / 6;
            let q = cy % 6;
            let j = large_index(y);
            let o = y - 6 * j;
            assert(cy == 6 * k + q);
            if k == j {
                lemma_board_remove_cell(self.boards()[k], p, r, x, o, cx, q);
                lemma_covers_moved(p, r, x, y, cx, cy, k);
            } else if k == j - 1 && o + mino_min_y(p, r) < 0 {
                lemma_board_remove_cell(self.boards()[k], p, r, x, o + 6, cx, q);
                lemma_covers_moved(p, r, x, y, cx, cy, k);
            } else if k == j + 1 && o + mino_max_y(p, r) >= 6 {
                lemma_board_remove_cell(self.boards()[k], p, r, x, o - 6, cx, q);
                lemma_covers_moved(p, r, x, y, cx, cy, k);
            } else {
                assert(large_mask(k, y, p, r, x) is None);
                assert(ps[k] == self.boards()[k]);
                assert(!covers(p, r, x, y, cx, cy));
            }
        }
    }

    proof fn lemma_can_put_cells(&self, p: Piece, r: Rotate, x: int, y: int) {
        Mino::lemma_cells_in_bounds(p, r);
        let bs = self.boards();
        lemma_shape_clear_boards(bs, p, r, x, y);
        assert forall|k: int| 0 <= k < 4 implies (match #[trigger] large_mask(k, y, p, r, x) {
            Some(m) => bs[k] & m == 0,
            None => true,
        }) == board_clear(bs, k, p, r, x, y) by {
            let j = large_index(y);
            let o = y - 6 * j;
            if large_mask(k, y, p, r, x) is Some {
                assert(large_mask(k, y, p, r, x) == Some(mask_at(p, r, x, y - 6 * k)));
                lemma_board_window(bs, k, p, r, x, y);
            } else {
                assert forall|cx: int, cy: int| 6 * k <= cy < 6 * k + 6 && #[trigger] covers(p, r, x, y, cx, cy) implies !block_at(
                    bs,
                    cx,
                    cy,
                ) by {
                    lemma_covers_rows(p, r, x, y, cx, cy);
                }
            }
        }
        if self.can_put_spec(p, r, x, y) {
            assert forall|k: int| 0 <= k < bs.len() implies #[trigger] board_clear(bs, k, p, r, x, y) by {
                assert(match large_mask(k, y, p, r, x) {
                    Some(m) => bs[k] & m == 0,
                    None => true,
                });
            }
        }
        if forall|k: int| 0 <= k < bs.len() ==> #[trigger] board_clear(bs, k, p, r, x, y) {
            assert forall|k: int| 0 <= k < 4 implies match #[trigger] large_mask(k, y, p, r, x) {
                Some(m) => bs[k] & m == 0,
                None => true,
            } by {
                assert(board_clear(bs, k, p, r, x, y));
            }
        }
    }

    fn new() -> (r: Self) {
        LargeField(0, 0, 0, 0)
    }

    fn set_block(&mut self, x: u8, y: u8) {
        match Self::select(y) {
            Position::Low(y_off) => self.0 = self.0 | bit_operators::get_x_mask(x, y_off),
            Position::MidLow(y_off) => self.1 = self.1 | bit_operators::get_x_mask(x, y_off),
            Position::MidHigh(y_off) => self.2 = self.2 | bit_operators::get_x_mask(x, y_off),
            Position::High(y_off) => self.3 = self.3 | bit_operators::get_x_mask(x, y_off),
        }
        assert(self.boards() =~= old(self).boards().update(
            y as int / 6,
            old(self).boards()[y as int / 6] | (1u64 << (x + 10 * (y as int % 6)) as u64),
        ));
    }

    fn remove_block(&mut self, x: u8, y: u8) {
        match Self::select(y) {
            Position::Low(y_off) => self.0 = self.0 & !bit_operators::get_x_mask(x, y_off),
            Position::MidLow(y_off) => self.1 = self.1 & !bit_operators::get_x_mask(x, y_off),
            Position::MidHigh(y_off) => self.2 = self.2 & !bit_operators::get_x_mask(x, y_off),
            Position::High(y_off) => self.3 = self.3 & !bit_operators::get_x_mask(x, y_off),
        }
        assert(self.boards() =~= old(self).boards().update(
            y as int / 6,
            old(self).boards()[y as int / 6] & !(1u64 << (x + 10 * (y as int % 6)) as u64),
        ));
    }

    fn clear_all(&mut self) {
        self.0 = 0;
        self.1 = 0;
        self.2 = 0;
        self.3 = 0;
    }

    fn put(&mut self, mino: &Mino, x: u8, y: u8) {
        proof {
            Mino::lemma_cells_in_bounds(mino.piece_of(), mino.rotate_of());
        }
        match Self::select(y) {
            Position::Low(y_off) => {
                self.0 = self.0 | mino.get_mask(x, y_off as i8);
                if (y_off as i8) + mino.get_max_y() >= BOARD_HEIGHT as i8 {
                    self.1 = self.1 | mino.get_mask(x, y_off as i8 - BOARD_HEIGHT as i8);
                }
            },
            Position::MidLow(y_off) => {
                if (y_off as i8) + mino.get_min_y() < 0 {
                    self.0 = self.0 | mino.get_mask(x, y_off as i8 + BOARD_HEIGHT as i8);
                }
                self.1 = self.1 | mino.get_mask(x, y_off as i8);
                if (y_off as i8) + mino.get_max_y() >= BOARD_HEIGHT as i8 {
                    self.2 = self.2 | mino.get_mask(x, y_off as i8 - BOARD_HEIGHT as i8);
                }
            },
            Position::MidHigh(y_off) => {
                if (y_off as i8) + mino.get_min_y() < 0 {
                    self.1 = self.1 | mino.get_mask(x, y_off as i8 + BOARD_HEIGHT as i8);
                }
                self.2 = self.2 | mino.get_mask(x, y_off as i8);
                if (y_off as i8) + mino.get_max_y() >= BOARD_HEIGHT as i8 {
                    self.3 = self.3 | mino.get_mask(x, y_off as i8 - BOARD_HEIGHT as i8);
                }
            },
            Position::High(y_off) => {
                if (y_off as i8) + mino.get_min_y() < 0 {
                    self.2 = self.2 | mino.get_mask(x, y_off as i8 + BOARD_HEIGHT as i8);
                }
                self.3 = self.3 | mino.get_mask(x, y_off as i8);
            },
        }
        assert(self.boards() =~= old(self).put_spec(mino.piece_of(), mino.rotate_of(), x as int, y as int));
    }

    fn can_put(&self, mino: &Mino, x: u8, y: u8) -> (r: bool) {
        proof {
            Mino::lemma_cells_in_bounds(mino.piece_of(), mino.rotate_of());
        }
        let ghost p = mino.piece_of();
        let ghost rot = mino.rotate_of();
        let r = match Self::select(y) {
            Position::Low(y_off) => {
                self.0 & mino.get_mask(x, y_off as i8) == 0 && if (y_off as i8) + mino.get_max_y() >= BOARD_HEIGHT as i8 {
                    self.1 & mino.get_mask(x, y_off as i8 - BOARD_HEIGHT as i8) == 0
                } else {
                    true
                }
            },
            Position::MidLow(y_off) => {
                self.1 & mino.get_mask(x, y_off as i8) == 0 && if (y_off as i8) + mino.get_min_y() < 0 {
                    self.0 & mino.get_mask(x, y_off as i8 + BOARD_HEIGHT as i8) == 0
                } else if (y_off as i8) + mino.get_max_y() >= BOARD_HEIGHT as i8 {
                    self.2 & mino.get_mask(x, y_off as i8 - BOARD_HEIGHT as i8) == 0
                } else {
                    true
                }
            },
            Position::MidHigh(y_off) => {
                self.2 & mino.get_mask(x, y_off as i8) == 0 && if (y_off as i8) + mino.get_min_y() < 0 {
                    self.1 & mino.get_mask(x, y_off as i8 + BOARD_HEIGHT as i8) == 0
                } else if (y_off as i8) + mino.get_max_y() >= BOARD_HEIGHT as i8 {
                    self.3 & mino.get_mask(x, y_off as i8 - BOARD_HEIGHT as i8) == 0
                } else {
                    true
                }
            },
            Position::High(y_off) => {
                self.3 & mino.get_mask(x, y_off as i8) == 0 && if (y_off as i8) + mino.get_min_y() < 0 {
                    self.2 & mino.get_mask(x, y_off as i8 + BOARD_HEIGHT as i8) == 0
                } else {
                    true
                }
            },
        };
        proof {
            let bs = self.boards();
            let j = large_index(y as int);
            if r {
                assert forall|k: int| 0 <= k < 4 implies match #[trigger] large_mask(k, y as int, p, rot, x as int) {
                    Some(m) => bs[k] & m == 0,
                    None => true,
                } by {}
            } else {
                if (bs[j] & mask_at(p, rot, x as int, y - 6 * j)) != 0 {
                    assert(large_mask(j, y as int, p, rot, x as int) == Some(mask_at(p, rot, x as int, y - 6 * j)));
                } else if j > 0 && y - 6 * j + mino_min_y(p, rot) < 0 {
                    assert(large_mask(j - 1, y as int, p, rot, x as int) == Some(mask_at(p, rot, x as int, y - 6 * j + 6)));
                } else {
                    assert(large_mask(j + 1, y as int, p, rot, x as int) == Some(mask_at(p, rot, x as int, y - 6 * j - 6)));
                }
            }
        }
        r
    }

    fn remove(&mut self, mino: &Mino, x: u8, y: u8) {
        proof {
            Mino::lemma_cells_in_bounds(mino.piece_of(), mino.rotate_of());
        }
        match Self::select(y) {
            Position::Low(y_off) => {
                self.0 = self.0 & !mino.get_mask(x, y_off as i8);
                if (y_off as i8) + mino.get_max_y() >= BOARD_HEIGHT as i8 {
                    self.1 = self.1 & !mino.get_mask(x, y_off as i8 - BOARD_HEIGHT as i8);
                }
            },
            Position::MidLow(y_off) => {
                if (y_off as i8) + mino.get_min_y() < 0 {
                    self.0 = self.0 & !mino.get_mask(x, y_off as i8 + BOARD_HEIGHT as i8);
                }
                self.1 = self.1 & !mino.get_mask(x, y_off as i8);
                if (y_off as i8) + mino.get_max_y() >= BOARD_HEIGHT as i8 {
                    self.2 = self.2 & !mino.get_mask(x, y_off as i8 - BOARD_HEIGHT as i8);
                }
            },
            Position::MidHigh(y_off) => {
                if (y_off as i8) + mino.get_min_y() < 0 {
                    self.1 = self.1 & !mino.get_mask(x, y_off as i8 + BOARD_HEIGHT as i8);
                }
                self.2 = self.2 & !mino.get_mask(x, y_off as i8);
                if (y_off as i8) + mino.get_max_y() >= BOARD_HEIGHT as i8 {
                    self.3 = self.3 & !mino.get_mask(x, y_off as i8 - BOARD_HEIGHT as i8);
                }
            },
            Position::High(y_off) => {
                if (y_off as i8) + mino.get_min_y() < 0 {
                    self.2 = self.2 & !mino.get_mask(x, y_off as i8 + BOARD_HEIGHT as i8);
                }
                self.3 = self.3 & !mino.get_mask(x, y_off as i8);
            },
        }
        assert(self.boards() =~= old(self).remove_spec(mino.piece_of(), mino.rotate_of(), x as int, y as int));
    }

    fn is_empty_block(&self, x: u8, y: u8) -> (r: bool) {
        let (board, y_off) = match Self::select(y) {
            Position::Low(y_off) => (self.0, y_off),
            Position::MidLow(y_off) => (self.1, y_off),
            Position::MidHigh(y_off) => (self.2, y_off),
            Position::High(y_off) => (self.3, y_off),
        };
        proof {
            lemma_test_bit(board, (x + 10 * y_off) as u64);
        }
        board & bit_operators::get_x_mask(x, y_off) == 0
    }

    fn exists_above_row(&self, y: u8) -> (r: bool) {
        if y >= MAX_FIELD_HEIGHT {
            return false;
        }
        let r = match Self::select(y) {
            Position::Low(y_off) => self.1 != 0 || self.2 != 0 || self.3 != 0 || self.0 & Self::get_valid_mask(y_off) != 0,
            Position::MidLow(y_off) => self.2 != 0 || self.3 != 0 || self.1 & Self::get_valid_mask(y_off) != 0,
            Position::MidHigh(y_off) => self.3 != 0 || self.2 & Self::get_valid_mask(y_off) != 0,
            Position::High(y_off) => self.3 & Self::get_valid_mask(y_off) != 0,
        };
        proof {
            let bs = self.boards();
            if self.1 != 0 {
                assert(bs[1] != 0);
            }
            if self.2 != 0 {
                assert(bs[2] != 0);
            }
            if self.3 != 0 {
                assert(bs[3] != 0);
            }
        }
        r
    }

    fn is_empty(&self) -> (r: bool) {
        let ghost bs = self.boards();
        assert(bs[0] == self.0 && bs[1] == self.1 && bs[2] == self.2 && bs[3] == self.3);
        self.0 == 0 && self.1 == 0 && self.2 == 0 && self.3 == 0
    }

    fn is_filled_in_column(&self, x: u8, max_y: u8) -> (r: bool) {
        if max_y == 0 {
            return true;
        }
        let full = bit_operators::get_column_mask(BOARD_HEIGHT, x);
        let ghost bs = self.boards();
        proof {
            lemma_large_column_full(bs, x as int, max_y as int);
            lemma_column_filled_or(self.0, full, x as int, 6);
        }
        match Self::select(max_y) {
            Position::Low(y_off) => {
                let m = bit_operators::get_column_mask(y_off, x);
                proof {
                    lemma_column_filled_or(self.0, m, x as int, y_off as int);
                }
                self.0 | !m == !0u64
            },
            Position::MidLow(y_off) => {
                let m = bit_operators::get_column_mask(y_off, x);
                proof {
                    lemma_column_filled_or(self.1, m, x as int, y_off as int);
                }
                self.0 | !full == !0u64 && self.1 | !m == !0u64
            },
            Position::MidHigh(y_off) => {
                let m = bit_operators::get_column_mask(y_off, x);
                proof {
                    lemma_column_filled_or(self.0 & self.1, full, x as int, 6);
                    lemma_column_full_and(self.0, self.1, x as int);
                    lemma_column_filled_or(self.2, m, x as int, y_off as int);
                }
                (self.0 & self.1) | !full == !0u64 && self.2 | !m == !0u64
            },
            Position::High(y_off) => {
                let m = bit_operators::get_column_mask(y_off, x);
                proof {
                    lemma_column_filled_or(self.0 & self.1 & self.2, full, x as int, 6);
                    lemma_column_full_and(self.0, self.1, x as int);
                    lemma_column_full_and(self.0 & self.1, self.2, x as int);
                    lemma_column_filled_or(self.3, m, x as int, y_off as int);
                }
                (self.0 & self.1 & self.2) | !full == !0u64 && self.3 | !m == !0u64
            },
        }
    }

    fn is_wall_between_left(&self, x: u8, max_y: u8) -> (r: bool) {
        if max_y == 0 {
            return true;
        }
        proof {
            lemma_large_wall_full(self.boards(), x as int, max_y as int);
        }
        match Self::select(max_y) {
            Position::Low(y_off) => bit_operators::is_wall_between_left(x, y_off, self.0),
            Position::MidLow(y_off) => bit_operators::is_wall_between_left(x, BOARD_HEIGHT, self.0)
                && bit_operators::is_wall_between_left(x, y_off, self.1),
            Position::MidHigh(y_off) => bit_operators::is_wall_between_left(x, BOARD_HEIGHT, self.0)
                && bit_operators::is_wall_between_left(x, BOARD_HEIGHT, self.1) && bit_operators::is_wall_between_left(
                x,
                y_off,
                self.2,
            ),
            Position::High(y_off) => bit_operators::is_wall_between_left(x, BOARD_HEIGHT, self.0)
                && bit_operators::is_wall_between_left(x, BOARD_HEIGHT, self.1) && bit_operators::is_wall_between_left(
                x,
                BOARD_HEIGHT,
                self.2,
            ) && bit_operators::is_wall_between_left(x, y_off, self.3),
        }
    }

    fn get_block_count_in_column(&self, x: u8, max_y: u8) -> (r: u32) {
        proof {
            lemma_column_count_large(self.boards(), x as int, max_y as int);
        }
        match Self::select(max_y) {
            Position::Low(y_off) => column_bits(self.0, x, y_off),
            Position::MidLow(y_off) => column_bits(self.0, x, BOARD_HEIGHT) + column_bits(self.1, x, y_off),
            Position::MidHigh(y_off) => column_bits(self.0, x, BOARD_HEIGHT) + column_bits(self.1, x, BOARD_HEIGHT)
                + column_bits(self.2, x, y_off),
            Position::High(y_off) => column_bits(self.0, x, BOARD_HEIGHT) + column_bits(self.1, x, BOARD_HEIGHT)
                + column_bits(self.2, x, BOARD_HEIGHT) + column_bits(self.3, x, y_off),
        }
    }

    fn get_block_count_in_row(&self, y: u8) -> (r: u32) {
        let (board, y_off) = match Self::select(y) {
            Position::Low(y_off) => (self.0, y_off),
            Position::MidLow(y_off) => (self.1, y_off),
            Position::MidHigh(y_off) => (self.2, y_off),
            Position::High(y_off) => (self.3, y_off),
        };
        let m = bit_operators::get_row_mask(y_off);
        proof {
            assert forall|i: int| 0 <= i < 64 implies #[trigger] bit(board & m, i) == (10 * y_off <= i < 10 * y_off + 10
                && bit(board, i - 10 * y_off + 10 * y_off)) by {
                lemma_bit_ops(board, m, i);
            }
            lemma_row_popcount(board, board & m, y_off as int, 10 * y_off as int);
        }
        count_ones(board & m)
    }

    fn exists_block_in_row(&self, y: u8) -> (r: bool) {
        let (board, y_off) = match Self::select(y) {
            Position::Low(y_off) => (self.0, y_off),
            Position::MidLow(y_off) => (self.1, y_off),
            Position::MidHigh(y_off) => (self.2, y_off),
            Position::High(y_off) => (self.3, y_off),
        };
        let m = bit_operators::get_row_mask(y_off);
        proof {
            lemma_row_nonzero(board, m, y_off as int);
        }
        board & m != 0
    }

    fn get_num_of_all_blocks(&self) -> (r: u32) {
        proof {
            lemma_large_aggregates(self.boards());
        }
        count_ones(self.0) + count_ones(self.1) + count_ones(self.2) + count_ones(self.3)
    }

    fn clear_filled_rows_return_key(&mut self) -> (r: u64) {
        let key0 = key_operators::get_delete_key(self.0);
        let key1 = key_operators::get_delete_key(self.1);
        let key2 = key_operators::get_delete_key(self.2);
        let key3 = key_operators::get_delete_key(self.3);
        let ghost old_boards = self.boards();
        proof {
            lemma_filled_board_key(old_boards[0], key0);
            lemma_filled_board_key(old_boards[1], key1);
            lemma_filled_board_key(old_boards[2], key2);
            lemma_filled_board_key(old_boards[3], key3);
        }
        self.delete_row(key0, key1, key2, key3);
        let r = Self::combine_keys(key0, key1, key2, key3);
        proof {
            lemma_full_key_large(old_boards, key0, key1, key2, key3, r);
            lemma_delete_key_large(old_boards, self.boards(), key0, key1, key2, key3, r);
            lemma_board_key_popcount(key0);
            lemma_board_key_popcount(key1);
            lemma_board_key_popcount(key2);
            lemma_board_key_popcount(key3);
            lemma_filled_key_kept(old_boards, r, 24);
        }
        r
    }

    fn get_filled_rows_key(&self) -> (r: u64) {
        let key0 = key_operators::get_delete_key(self.0);
        let key1 = key_operators::get_delete_key(self.1);
        let key2 = key_operators::get_delete_key(self.2);
        let key3 = key_operators::get_delete_key(self.3);
        proof {
            lemma_filled_board_key(self.0, key0);
            lemma_filled_board_key(self.1, key1);
            lemma_filled_board_key(self.2, key2);
            lemma_filled_board_key(self.3, key3);
        }
        let r = Self::combine_keys(key0, key1, key2, key3);
        proof {
            lemma_full_key_large(self.boards(), key0, key1, key2, key3, r);
        }
        r
    }

    fn get_using_key(&self) -> (r: u64) {
        let key0 = key_operators::get_using_key(self.0);
        let key1 = key_operators::get_using_key(self.1);
        let key2 = key_operators::get_using_key(self.2);
        let key3 = key_operators::get_using_key(self.3);
        proof {
            assert forall|i: int| 0 <= i < 64 && #[trigger] bit(key0, i) implies i < 60 && i % 10 == 0 by {}
            assert forall|i: int| 0 <= i < 64 && #[trigger] bit(key1, i) implies i < 60 && i % 10 == 0 by {}
            assert forall|i: int| 0 <= i < 64 && #[trigger] bit(key2, i) implies i < 60 && i % 10 == 0 by {}
            assert forall|i: int| 0 <= i < 64 && #[trigger] bit(key3, i) implies i < 60 && i % 10 == 0 by {}
        }
        let r = Self::combine_keys(key0, key1, key2, key3);
        proof {
            let bs = self.boards();
            assert forall|i: int| 0 <= i < 64 implies #[trigger] bit(r, i) == (is_key_bit(i) && key_row(i) < 6 * bs.len()
                && field_row(bs, key_row(i)) != 0) by {
                let c = i % 10;
                let q = i / 10;
                if i < 60 && c < 4 {
                    lemma_row_full_used(bs[c], q);
                    lemma_large_rows(bs, key_row(i));
                    assert(key_row(i) == 6 * c + q);
                    assert(i - c == 10 * q);
                }
                if i >= 1 {
                    assert(bit(key1, i - 1) ==> (i - 1) % 10 == 0);
                }
                if i >= 2 {
                    assert(bit(key2, i - 2) ==> (i - 2) % 10 == 0);
                }
                if i >= 3 {
                    assert(bit(key3, i - 3) ==> (i - 3) % 10 == 0);
                }
            }
        }
        r
    }

    fn insert_filled_row_with_key(&mut self, delete_key: u64) {
        self.insert_row_with_key(delete_key, true);
    }

    fn insert_blank_row_with_key(&mut self, delete_key: u64) {
        self.insert_row_with_key(delete_key, false);
    }

    fn delete_rows_with_key(&mut self, delete_key: u64) {
        let key0 = Self::extract_delete_key(delete_key, 0);
        let key1 = Self::extract_delete_key(delete_key, 1);
        let key2 = Self::extract_delete_key(delete_key, 2);
        let key3 = Self::extract_delete_key(delete_key, 3);
        let ghost old_boards = self.boards();
        self.delete_row(key0, key1, key2, key3);
        proof {
            assert forall|q: int| 0 <= q < 6 implies #[trigger] bit(delete_key, 10 * q) == flagged(key0, q) by {
                assert(bit(delete_key, 10 * q + 0) == flagged(key0, q));
            }
            lemma_delete_key_large(old_boards, self.boards(), key0, key1, key2, key3, delete_key);
        }
    }

    fn fill_row(&mut self, y: u8) {
        match Self::select(y) {
            Position::Low(y_off) => self.0 = self.0 | bit_operators::get_row_mask(y_off),
            Position::MidLow(y_off) => self.1 = self.1 | bit_operators::get_row_mask(y_off),
            Position::MidHigh(y_off) => self.2 = self.2 | bit_operators::get_row_mask(y_off),
            Position::High(y_off) => self.3 = self.3 | bit_operators::get_row_mask(y_off),
        }
        assert(self.boards() =~= old(self).boards().update(
            y as int / 6,
            old(self).boards()[y as int / 6] | (0x3ffu64 << (10 * (y as int % 6)) as u64),
        ));
    }

    fn prune(&self, max_height: u8) -> (r: super::any_field::AnyField) {
        if max_height <= BOARD_HEIGHT {
            let r = super::any_field::AnyField::Small(super::small_field::SmallField::from_board(self.0));
            assert(r.boards() =~= self.boards().take(1));
            r
        } else if max_height <= FIELD_ROW_MID_HIGH_BORDER_Y {
            let r = super::any_field::AnyField::Middle(super::middle_field::MiddleField::from_parts(self.0, self.1));
            assert(r.boards() =~= self.boards().take(2));
            r
        } else {
            assert(self.boards().take(4) =~= self.boards());
            super::any_field::AnyField::Large(*self)
        }
    }

    fn merge<F: FieldBoards>(&mut self, other: &F) {
        proof {
            other.lemma_board_count();
            lemma_shift_zero(self.1);
            lemma_shift_zero(self.2);
            lemma_shift_zero(self.3);
        }
        match other.get_board_count() {
            BoardCount::Small => self.0 = self.0 | other.get_board(0),
            BoardCount::Middle => {
                self.0 = self.0 | other.get_board(0);
                self.1 = self.1 | other.get_board(1);
            },
            BoardCount::Large => {
                self.0 = self.0 | other.get_board(0);
                self.1 = self.1 | other.get_board(1);
                self.2 = self.2 | other.get_board(2);
                self.3 = self.3 | other.get_board(3);
            },
        }
    }

    fn can_merge<F: FieldBoards>(&self, other: &F) -> (r: bool) {
        proof {
            other.lemma_board_count();
            lemma_shift_zero(self.1);
            lemma_shift_zero(self.2);
            lemma_shift_zero(self.3);
        }
        let r = match other.get_board_count() {
            BoardCount::Small => self.0 & other.get_board(0) == 0,
            BoardCount::Middle => self.0 & other.get_board(0) == 0 && self.1 & other.get_board(1) == 0,
            BoardCount::Large => self.0 & other.get_board(0) == 0 && self.1 & other.get_board(1) == 0 && self.2
                & other.get_board(2) == 0 && self.3 & other.get_board(3) == 0,
        };
        proof {
            let ob = other.boards();
            let bs = self.boards();
            if r {
                assert forall|k: int| 0 <= k < bs.len() implies #[trigger] (bs[k] & board_at(ob, k)) == 0 by {}
            } else {
                let k: int = if self.0 & board_at(ob, 0) != 0 {
                    0
                } else if self.1 & board_at(ob, 1) != 0 {
                    1
                } else if self.2 & board_at(ob, 2) != 0 {
                    2
                } else {
                    3
                };
                assert(!((bs[k] & board_at(ob, k)) == 0));
            }
        }
        r
    }

    fn reduce<F: FieldBoards>(&mut self, other: &F) {
        proof {
            other.lemma_board_count();
            lemma_shift_zero(self.1);
            lemma_shift_zero(self.2);
            lemma_shift_zero(self.3);
        }
        match other.get_board_count() {
            BoardCount::Small => self.0 = self.0 & !other.get_board(0),
            BoardCount::Middle => {
                self.0 = self.0 & !other.get_board(0);
                self.1 = self.1 & !other.get_board(1);
            },
            BoardCount::Large => {
                self.0 = self.0 & !other.get_board(0);
                self.1 = self.1 & !other.get_board(1);
                self.2 = self.2 & !other.get_board(2);
                self.3 = self.3 & !other.get_board(3);
            },
        }
    }

    fn get_upper_y_with_4_blocks(&self) -> (r: u8) {
        proof {
            lemma_large_aggregates(self.boards());
            lemma_popcount_zero();
            if self.1 != 0 {
                bit_operators::lemma_lowest_highest(self.1);
            }
            if self.2 != 0 {
                bit_operators::lemma_lowest_highest(self.2);
            }
            if self.3 != 0 {
                bit_operators::lemma_lowest_highest(self.3);
            }
        }
        match bit_operators::try_get_highest_y(self.3) {
            Some(min_y) => min_y + FIELD_ROW_HIGH_BORDER_Y,
            None => match bit_operators::try_get_highest_y(self.2) {
                Some(min_y) => min_y + FIELD_ROW_MID_HIGH_BORDER_Y,
                None => match bit_operators::try_get_highest_y(self.1) {
                    Some(min_y) => min_y + FIELD_ROW_MID_LOW_BORDER_Y,
                    None => bit_operators::get_highest_y(self.0),
                },
            },
        }
    }

    fn get_min_x(&self) -> (r: Option<u8>) {
        proof {
            lemma_large_aggregates(self.boards());
        }
        bit_operators::try_get_lowest_x(self.0 | self.1 | self.2 | self.3)
    }

    fn get_min_y(&self) -> (r: Option<u8>) {
        proof {
            lemma_large_aggregates(self.boards());
            if self.1 != 0 {
                bit_operators::lemma_lowest_highest(self.1);
            }
            if self.2 != 0 {
                bit_operators::lemma_lowest_highest(self.2);
            }
            if self.3 != 0 {
                bit_operators::lemma_lowest_highest(self.3);
            }
        }
        match bit_operators::try_get_lowest_y(self.0) {
            Some(min_y) => Some(min_y),
            None => match bit_operators::try_get_lowest_y(self.1) {
                Some(min_y) => Some(min_y + FIELD_ROW_MID_LOW_BORDER_Y),
                None => match bit_operators::try_get_lowest_y(self.2) {
                    Some(min_y) => Some(min_y + FIELD_ROW_MID_HIGH_BORDER_Y),
                    None => match bit_operators::try_get_lowest_y(self.3) {
                        Some(min_y) => Some(min_y + FIELD_ROW_HIGH_BORDER_Y),
                        None => None,
                    },
                },
            },
        }
    }

    fn slide_left(&mut self, slide: u8) {
        let mask = bit_operators::get_column_mask_right_of_row(slide);
        let ghost ob = self.boards();
        self.0 = (self.0 & mask) >> (slide as u64);
        self.1 = (self.1 & mask) >> (slide as u64);
        self.2 = (self.2 & mask) >> (slide as u64);
        self.3 = (self.3 & mask) >> (slide as u64);
        proof {
            lemma_slide_left_bits(ob[0], mask, slide as int);
            lemma_slide_left_bits(ob[1], mask, slide as int);
            lemma_slide_left_bits(ob[2], mask, slide as int);
            lemma_slide_left_bits(ob[3], mask, slide as int);
        }
    }

    fn slide_right(&mut self, slide: u8) {
        let mask = bit_operators::get_column_mask_left_of_row(FIELD_WIDTH - slide);
        let ghost ob = self.boards();
        self.0 = (self.0 & mask) << (slide as u64);
        self.1 = (self.1 & mask) << (slide as u64);
        self.2 = (self.2 & mask) << (slide as u64);
        self.3 = (self.3 & mask) << (slide as u64);
        proof {
            lemma_slide_right_bits(ob[0], mask, slide as int);
            lemma_slide_right_bits(ob[1], mask, slide as int);
            lemma_slide_right_bits(ob[2], mask, slide as int);
            lemma_slide_right_bits(ob[3], mask, slide as int);
        }
    }

    fn slide_down_one(&mut self) {
        let ghost ob = self.boards();
        self.0 = (bit_operators::board_shr(self.0, 1) | bit_operators::board_shl(self.1, BOARD_HEIGHT - 1)) & VALID_BOARD_RANGE;
        self.1 = (bit_operators::board_shr(self.1, 1) | bit_operators::board_shl(self.2, BOARD_HEIGHT - 1)) & VALID_BOARD_RANGE;
        self.2 = (bit_operators::board_shr(self.2, 1) | bit_operators::board_shl(self.3, BOARD_HEIGHT - 1)) & VALID_BOARD_RANGE;
        self.3 = self.3 >> (FIELD_WIDTH as u64);
        proof {
            if no_overflow(ob) {
                assert(below(ob[0], 60) && below(ob[1], 60) && below(ob[2], 60) && below(ob[3], 60));
                super::board_rows::lemma_board_shift_pair_masked(ob[0], ob[1], 1);
                super::board_rows::lemma_board_shift_pair_masked(ob[1], ob[2], 1);
                super::board_rows::lemma_board_shift_pair_masked(ob[2], ob[3], 1);
                lemma_board_down(ob[3], 1);
                assert forall|y: int| 0 <= y < 24 implies #[trigger] field_row(self.boards(), y) == if y + 1 < 24 {
                    field_row(ob, y + 1)
                } else {
                    0u64
                } by {
                    lemma_large_rows(self.boards(), y);
                    if y + 1 < 24 {
                        lemma_large_rows(ob, y + 1);
                    }
                }
                assert forall|k: int| 0 <= k < self.boards().len() implies below(#[trigger] self.boards()[k], 60) by {}
            }
        }
    }

    fn slide_down(&mut self, slide: u8) {
        let ghost ob = self.boards();
        if slide <= MAX_FIELD_HEIGHT {
            let (key0, key1, key2, key3) = if slide <= FIELD_ROW_MID_LOW_BORDER_Y {
                (key_operators::get_mask_for_key_below_y(slide), 0u64, 0u64, 0u64)
            } else if slide <= FIELD_ROW_MID_HIGH_BORDER_Y {
                (key_operators::get_mask_for_key_below_y(BOARD_HEIGHT), key_operators::get_mask_for_key_below_y(
                    slide - FIELD_ROW_MID_LOW_BORDER_Y,
                ), 0u64, 0u64)
            } else if slide <= FIELD_ROW_HIGH_BORDER_Y {
                (key_operators::get_mask_for_key_below_y(BOARD_HEIGHT), key_operators::get_mask_for_key_below_y(
                    BOARD_HEIGHT,
                ), key_operators::get_mask_for_key_below_y(slide - FIELD_ROW_MID_HIGH_BORDER_Y), 0u64)
            } else {
                (key_operators::get_mask_for_key_below_y(BOARD_HEIGHT), key_operators::get_mask_for_key_below_y(
                    BOARD_HEIGHT,
                ), key_operators::get_mask_for_key_below_y(BOARD_HEIGHT), key_operators::get_mask_for_key_below_y(
                    slide - FIELD_ROW_HIGH_BORDER_Y,
                ))
            };
            proof {
                lemma_slide_keys(key0, key1, key2, key3, slide as int);
            }
            self.delete_row(key0, key1, key2, key3);
            proof {
                assert forall|y: int| 0 <= y < 24 implies #[trigger] field_row(self.boards(), y) == if y + slide < 24 {
                    field_row(ob, y + slide)
                } else {
                    0u64
                } by {
                    let t = y + slide;
                    if t < 24 {
                        lemma_large_rows(ob, t);
                        if t < 6 {
                            assert(field_row(self.boards(), kept_before(key0, t)) == row_of(ob[0], t));
                        } else if t < 12 {
                            assert(field_row(self.boards(), kept_before(key0, 6) + kept_before(key1, t - 6)) == row_of(ob[1], t - 6));
                        } else if t < 18 {
                            assert(field_row(self.boards(), kept_before(key0, 6) + kept_before(key1, 6) + kept_before(key2, t - 12))
                                == row_of(ob[2], t - 12));
                        } else {
                            assert(field_row(self.boards(), kept_before(key0, 6) + kept_before(key1, 6) + kept_before(key2, 6)
                                + kept_before(key3, t - 18)) == row_of(ob[3], t - 18));
                        }
                    }
                }
            }
        } else {
            self.clear_all();
            proof {
                assert forall|y: int| 0 <= y < 24 implies #[trigger] field_row(self.boards(), y) == 0 by {
                    lemma_row_ops(0, 0, y % 6);
                }
                assert forall|k: int| 0 <= k < self.boards().len() implies below(#[trigger] self.boards()[k], 60) by {
                    assert forall|i: int| 60 <= i < 64 implies !#[trigger] bit(0u64, i) by {
                        lemma_bit_fixed(i);
                    }
                }
            }
        }
    }

    fn slide_up_with_empty_row(&mut self, slide: u8) {
        if slide < MAX_FIELD_HEIGHT {
            let key = key_operators::get_mask_for_key_below_y(slide);
            self.insert_blank_row_with_key(key);
            proof {
                assert forall|y: int| 0 <= y < 24 implies #[trigger] field_row(self.boards(), y) == if y < slide {
                    0u64
                } else {
                    field_row(old(self).boards(), y - slide)
                } by {
                    lemma_kept_below_mask(key, slide as int, y);
                }
            }
        } else {
            self.clear_all();
            proof {
                assert forall|y: int| 0 <= y < 24 implies #[trigger] field_row(self.boards(), y) == 0 by {
                    lemma_row_ops(0, 0, y % 6);
                }
            }
        }
    }

    fn slide_up_with_filled_row(&mut self, slide: u8) {
        if slide < MAX_FIELD_HEIGHT {
            let key = key_operators::get_mask_for_key_below_y(slide);
            self.insert_filled_row_with_key(key);
            proof {
                assert forall|y: int| 0 <= y < 24 implies #[trigger] field_row(self.boards(), y) == if y < slide {
                    0x3ffu64
                } else {
                    field_row(old(self).boards(), y - slide)
                } by {
                    lemma_kept_below_mask(key, slide as int, y);
                }
            }
        } else {
            self.fill_all();
        }
    }

    fn contains<F: FieldBoards>(&self, child: &F) -> (r: bool) {
        proof {
            child.lemma_board_count();
        }
        let count = child.get_board_count();
        let r = match count {
            BoardCount::Small => {
                let child_board_low = child.get_board(0);
                self.0 & child_board_low == child_board_low
            },
            BoardCount::Middle => {
                let child_board_low = child.get_board(0);
                let child_board_mid_low = child.get_board(1);
                self.0 & child_board_low == child_board_low && self.1 & child_board_mid_low == child_board_mid_low
            },
            BoardCount::Large => {
                let child_board_low = child.get_board(0);
                let child_board_mid_low = child.get_board(1);
                let child_board_mid_high = child.get_board(2);
                let child_board_high = child.get_board(3);
                self.0 & child_board_low == child_board_low && self.1 & child_board_mid_low == child_board_mid_low
                    && self.2 & child_board_mid_high == child_board_mid_high && self.3 & child_board_high == child_board_high
            },
        };
        proof {
            let cb = child.boards();
            let bs = self.boards();
            if r {
                assert forall|k: int| 0 <= k < cb.len() implies if k < bs.len() {
                    #[trigger] (bs[k] & cb[k]) == cb[k]
                } else {
                    cb[k] == 0
                } by {
                    assert(cb[k] == board_at(cb, k));
                }
            } else {
                let k: int = if self.0 & cb[0] != cb[0] {
                    0
                } else if self.1 & cb[1] != cb[1] {
                    1
                } else if self.2 & cb[2] != cb[2] {
                    2
                } else {
                    3
                };
                let t = bs[k] & cb[k];
            }
        }
        r
    }

    fn invert(&mut self) {
        self.0 = !self.0 & VALID_BOARD_RANGE;
        self.1 = !self.1 & VALID_BOARD_RANGE;
        self.2 = !self.2 & VALID_BOARD_RANGE;
        self.3 = !self.3 & VALID_BOARD_RANGE;
    }

    fn mirror(&mut self) {
        self.0 = key_operators::mirror(self.0);
        self.1 = key_operators::mirror(self.1);
        self.2 = key_operators::mirror(self.2);
        self.3 = key_operators::mirror(self.3);
    }

    fn mask<F: FieldBoards>(&mut self, mask_field: &F) {
        self.0 = self.0 & mask_field.get_board(0);
        self.1 = self.1 & mask_field.get_board(1);
        self.2 = self.2 & mask_field.get_board(2);
        self.3 = self.3 & mask_field.get_board(3);
    }
}

/// Number of blocks of column `x` in the rows below `max_y` of a board.
fn column_bits(board: u64, x: u8, max_y: u8) -> (r: u32)
    requires
        x < 10,
        max_y <= 6,
    ensures
        r == board_column_count(board, x as int, max_y as int),
        r <= 64,
{
    let m = bit_operators::get_column_mask(max_y, x);
    let w = board & m;
    proof {
        assert forall|i: int| 0 <= i < 64 implies #[trigger] bit(w, i) == (i < 10 * max_y && i % 10 == x && bit(board, i)) by {
            lemma_bit_ops(board, m, i);
        }
        lemma_column_popcount(board, w, x as int, max_y as int);
    }
    count_ones(w)
}

/// Whether a board holds every cell of a column mask, tested as a union with the mask's
/// complement.
pub proof fn lemma_column_filled_or(b: u64, m: u64, x: int, n: int)
    requires
        0 <= x < 10,
        0 <= n <= 6,
        forall|i: int| 0 <= i < 64 ==> #[trigger] bit(m, i) == (i < 10 * n && i % 10 == x),
    ensures
        ((b | !m) == !0u64) == (forall|y: int| 0 <= y < n ==> #[trigger] cell(b, x, y)),
{
    let v = b | !m;
    lemma_all_ones(v);
    lemma_shift_zero(0);
    assert forall|i: int| 0 <= i < 64 implies #[trigger] bit(v, i) == (bit(b, i) || !(i < 10 * n && i % 10 == x)) by {
        lemma_bit_ops(b, !m, i);
        lemma_bit_not(m, i);
    }
    if forall|i: int| 0 <= i < 64 ==> #[trigger] bit(v, i) {
        assert forall|y: int| 0 <= y < n implies #[trigger] cell(b, x, y) by {
            assert(bit(v, x + 10 * y));
        }
    }
    if forall|y: int| 0 <= y < n ==> #[trigger] cell(b, x, y) {
        assert forall|i: int| 0 <= i < 64 implies #[trigger] bit(v, i) by {
            if i < 10 * n && i % 10 == x {
                assert(cell(b, x, i / 10));
            }
        }
    }
}

/// A column of an intersection of boards is filled iff it is in both boards.
proof fn lemma_column_full_and(a: u64, b: u64, x: int)
    requires
        0 <= x < 10,
    ensures
        column_full(a & b, x, 6) == (column_full(a, x, 6) && column_full(b, x, 6)),
{
    assert forall|y: int| 0 <= y < 6 implies #[trigger] cell(a & b, x, y) == (cell(a, x, y) && cell(b, x, y)) by {
        lemma_bit_ops(a, b, x + 10 * y);
    }
    if column_full(a & b, x, 6) {
        assert forall|y: int| 0 <= y < 6 implies #[trigger] cell(a, x, y) by {
            assert(cell(a & b, x, y));
        }
        assert forall|y: int| 0 <= y < 6 implies #[trigger] cell(b, x, y) by {
            assert(cell(a & b, x, y));
        }
    }
    if column_full(a, x, 6) && column_full(b, x, 6) {
        assert forall|y: int| 0 <= y < 6 implies #[trigger] cell(a & b, x, y) by {
            assert(cell(a, x, y) && cell(b, x, y));
        }
    }
}

/// Column `x` of a board holds a block in each row below `n`.
pub open spec fn column_full(b: u64, x: int, n: int) -> bool {
    forall|y: int| 0 <= y < n ==> #[trigger] cell(b, x, y)
}

/// No row below `n` of a board has both cells `x - 1` and `x` empty.
pub open spec fn wall_full(b: u64, x: int, n: int) -> bool {
    forall|y: int| 0 <= y < n ==> (#[trigger] cell(b, x - 1, y) || cell(b, x, y))
}

/// The rows of a four-board field below `max_y` taken on each board.
pub open spec fn large_part(max_y: int, j: int) -> int {
    if max_y - 6 * j < 0 {
        0
    } else if max_y - 6 * j > 6 {
        6
    } else {
        max_y - 6 * j
    }
}

/// A filled column of a four-board field is filled on each board.
proof fn lemma_large_column_full(bs: Seq<u64>, x: int, max_y: int)
    requires
        bs.len() == 4,
        0 <= x < 10,
        0 < max_y <= 24,
    ensures
        (forall|y: int| 0 <= y < max_y ==> #[trigger] block_at(bs, x, y)) == (column_full(bs[0], x, large_part(max_y, 0))
            && column_full(bs[1], x, large_part(max_y, 1)) && column_full(bs[2], x, large_part(max_y, 2))
            && column_full(bs[3], x, large_part(max_y, 3))),
{
    lemma_forall_column(bs, bs[0], x, large_part(max_y, 0), 0);
    lemma_forall_column(bs, bs[1], x, large_part(max_y, 1), 6);
    lemma_forall_column(bs, bs[2], x, large_part(max_y, 2), 12);
    lemma_forall_column(bs, bs[3], x, large_part(max_y, 3), 18);
    if forall|y: int| 0 <= y < max_y ==> #[trigger] block_at(bs, x, y) {
    } else {
        let y = choose|y: int| 0 <= y < max_y && !#[trigger] block_at(bs, x, y);
        if y < 6 {
            assert(!(forall|t: int| 0 <= t < 0 + large_part(max_y, 0) ==> #[trigger] block_at(bs, x, t)));
        } else if y < 12 {
            assert(!(forall|t: int| 6 <= t < 6 + large_part(max_y, 1) ==> #[trigger] block_at(bs, x, t)));
        } else if y < 18 {
            assert(!(forall|t: int| 12 <= t < 12 + large_part(max_y, 2) ==> #[trigger] block_at(bs, x, t)));
        } else {
            assert(!(forall|t: int| 18 <= t < 18 + large_part(max_y, 3) ==> #[trigger] block_at(bs, x, t)));
        }
    }
}

/// The wall condition of a four-board field holds on each board.
proof fn lemma_large_wall_full(bs: Seq<u64>, x: int, max_y: int)
    requires
        bs.len() == 4,
        1 <= x < 10,
        0 < max_y <= 24,
    ensures
        (forall|y: int| 0 <= y < max_y ==> (#[trigger] block_at(bs, x - 1, y) || block_at(bs, x, y))) == (wall_full(
            bs[0],
            x,
            large_part(max_y, 0),
        ) && wall_full(bs[1], x, large_part(max_y, 1)) && wall_full(bs[2], x, large_part(max_y, 2)) && wall_full(
            bs[3],
            x,
            large_part(max_y, 3),
        )),
{
    lemma_forall_wall(bs, bs[0], x, large_part(max_y, 0), 0);
    lemma_forall_wall(bs, bs[1], x, large_part(max_y, 1), 6);
    lemma_forall_wall(bs, bs[2], x, large_part(max_y, 2), 12);
    lemma_forall_wall(bs, bs[3], x, large_part(max_y, 3), 18);
    if forall|y: int| 0 <= y < max_y ==> (#[trigger] block_at(bs, x - 1, y) || block_at(bs, x, y)) {
    } else {
        let y = choose|y: int| 0 <= y < max_y && !(#[trigger] block_at(bs, x - 1, y) || block_at(bs, x, y));
        if y < 6 {
            assert(!(forall|t: int| 0 <= t < 0 + large_part(max_y, 0) ==> (#[trigger] block_at(bs, x - 1, t) || block_at(bs, x, t))));
        } else if y < 12 {
            assert(!(forall|t: int| 6 <= t < 6 + large_part(max_y, 1) ==> (#[trigger] block_at(bs, x - 1, t) || block_at(bs, x, t))));
        } else if y < 18 {
            assert(!(forall|t: int| 12 <= t < 12 + large_part(max_y, 2) ==> (#[trigger] block_at(bs, x - 1, t) || block_at(bs, x, t))));
        } else {
            assert(!(forall|t: int| 18 <= t < 18 + large_part(max_y, 3) ==> (#[trigger] block_at(bs, x - 1, t) || block_at(bs, x, t))));
        }
    }
}

/// The column count of a four-board field adds the counts of its boards.
proof fn lemma_column_count_large(bs: Seq<u64>, x: int, n: int)
    requires
        bs.len() == 4,
        0 <= x < 10,
        0 <= n <= 24,
    ensures
        column_count(bs, x, n) == board_column_count(bs[0], x, if n < 6 { n } else { 6 }) + board_column_count(
            bs[1],
            x,
            if n < 6 { 0 } else if n < 12 { n - 6 } else { 6 },
        ) + board_column_count(bs[2], x, if n < 12 { 0 } else if n < 18 { n - 12 } else { 6 }) + board_column_count(
            bs[3],
            x,
            if n < 18 { 0 } else { n - 18 },
        ),
    decreases n,
{
    if n > 0 {
        lemma_column_count_large(bs, x, n - 1);
    }
}

/// The field-wide totals of a four-board field, from its boards.
proof fn lemma_large_aggregates(bs: Seq<u64>)
    requires
        bs.len() == 4,
    ensures
        total_popcount(bs) == popcount(bs[0]) + popcount(bs[1]) + popcount(bs[2]) + popcount(bs[3]),
        union_boards(bs) == bs[0] | bs[1] | bs[2] | bs[3],
        lowest_used_board(bs) == if bs[0] != 0 {
            0int
        } else if bs[1] != 0 {
            1int
        } else if bs[2] != 0 {
            2int
        } else if bs[3] != 0 {
            3int
        } else {
            4int
        },
        highest_used_board(bs) == if bs[3] != 0 {
            3int
        } else if bs[2] != 0 {
            2int
        } else if bs[1] != 0 {
            1int
        } else if bs[0] != 0 {
            0int
        } else {
            -1int
        },
{
    let s3 = bs.drop_last();
    let s2 = s3.drop_last();
    let s1 = s2.drop_last();
    let s0 = s1.drop_last();
    assert(s0 =~= Seq::<u64>::empty());
    assert(total_popcount(s0) == 0);
    assert(total_popcount(s1) == popcount(bs[0]));
    assert(total_popcount(s2) == popcount(bs[0]) + popcount(bs[1]));
    assert(total_popcount(s3) == popcount(bs[0]) + popcount(bs[1]) + popcount(bs[2]));
    assert(union_boards(s0) == 0);
    lemma_shift_zero(bs[0]);
    assert(union_boards(s1) == bs[0]);
    assert(union_boards(s2) == bs[0] | bs[1]);
    assert(union_boards(s3) == bs[0] | bs[1] | bs[2]);
    assert(highest_used_board(s0) == -1);
    assert(highest_used_board(s1) == if bs[0] != 0 { 0int } else { -1int });
    assert(s1.last() == bs[0] && s2.last() == bs[1] && s3.last() == bs[2] && bs.last() == bs[3]);
    assert(highest_used_board(s2) == if bs[1] != 0 { 1int } else if bs[0] != 0 { 0int } else { -1int });
    assert(highest_used_board(s3) == if bs[2] != 0 { 2int } else if bs[1] != 0 { 1int } else if bs[0] != 0 { 0int } else { -1int });
    let t1 = bs.drop_first();
    let t2 = t1.drop_first();
    let t3 = t2.drop_first();
    let t4 = t3.drop_first();
    assert(t4 =~= Seq::<u64>::empty());
    assert(lowest_used_board(t4) == 0);
    assert(lowest_used_board(t3) == if bs[3] != 0 { 0int } else { 1int });
    assert(t1[0] == bs[1] && t2[0] == bs[2] && t3[0] == bs[3]);
    assert(lowest_used_board(t2) == if bs[2] != 0 { 0int } else if bs[3] != 0 { 1int } else { 2int });
    assert(lowest_used_board(t1) == if bs[1] != 0 { 0int } else if bs[2] != 0 { 1int } else if bs[3] != 0 { 2int } else { 3int });
}

/// The key of the filled rows of a board is a single-board key.
proof fn lemma_filled_board_key(b: u64, key: u64)
    requires
        forall|i: int| 0 <= i < 64 ==> #[trigger] bit(key, i) == (i < 60 && i % 10 == 0 && row_filled(b, i / 10)),
    ensures
        is_board_key(key),
{
    assert forall|i: int| 0 <= i < 64 && #[trigger] bit(key, i) implies i < 60 && i % 10 == 0 by {}
}

/// The combined key of the filled rows of the four boards flags exactly the filled rows.
proof fn lemma_full_key_large(bs: Seq<u64>, k0: u64, k1: u64, k2: u64, k3: u64, r: u64)
    requires
        bs.len() == 4,
        forall|i: int| 0 <= i < 64 ==> #[trigger] bit(k0, i) == (i < 60 && i % 10 == 0 && row_filled(bs[0], i / 10)),
        forall|i: int| 0 <= i < 64 ==> #[trigger] bit(k1, i) == (i < 60 && i % 10 == 0 && row_filled(bs[1], i / 10)),
        forall|i: int| 0 <= i < 64 ==> #[trigger] bit(k2, i) == (i < 60 && i % 10 == 0 && row_filled(bs[2], i / 10)),
        forall|i: int| 0 <= i < 64 ==> #[trigger] bit(k3, i) == (i < 60 && i % 10 == 0 && row_filled(bs[3], i / 10)),
        forall|i: int| 0 <= i < 64 ==> #[trigger] bit(r, i) == (bit(k0, i) || (i >= 1 && bit(k1, i - 1)) || (i >= 2
            && bit(k2, i - 2)) || (i >= 3 && bit(k3, i - 3))),
    ensures
        forall|i: int| 0 <= i < 64 ==> #[trigger] bit(r, i) == (is_key_bit(i) && key_row(i) < 6 * bs.len()
            && row_full(bs, key_row(i))),
{
    assert forall|i: int| 0 <= i < 64 implies #[trigger] bit(r, i) == (is_key_bit(i) && key_row(i) < 6 * bs.len()
        && row_full(bs, key_row(i))) by {
        let c = i % 10;
        let q = i / 10;
        if i < 60 && c < 4 {
            lemma_row_full_used(bs[c], q);
            lemma_large_rows(bs, key_row(i));
            assert(key_row(i) == 6 * c + q);
            assert(i - c == 10 * q);
        }
    }
}

/// The rows left by deleting with the four board keys, stated over a field-wide key whose
/// flags are those of the board keys.
proof fn lemma_delete_key_large(old_bs: Seq<u64>, bs: Seq<u64>, k0: u64, k1: u64, k2: u64, k3: u64, r: u64)
    requires
        old_bs.len() == 4,
        bs.len() == 4,
        is_board_key(k0),
        is_board_key(k1),
        is_board_key(k2),
        is_board_key(k3),
        forall|q: int| 0 <= q < 6 ==> #[trigger] bit(r, 10 * q) == flagged(k0, q),
        forall|q: int| 0 <= q < 6 ==> #[trigger] bit(r, 10 * q + 1) == flagged(k1, q),
        forall|q: int| 0 <= q < 6 ==> #[trigger] bit(r, 10 * q + 2) == flagged(k2, q),
        forall|q: int| 0 <= q < 6 ==> #[trigger] bit(r, 10 * q + 3) == flagged(k3, q),
        forall|p: int| 0 <= p < 6 && !flagged(k0, p) ==> #[trigger] field_row(bs, kept_before(k0, p)) == row_of(old_bs[0], p),
        forall|p: int| 0 <= p < 6 && !flagged(k1, p) ==> #[trigger] field_row(bs, kept_before(k0, 6) + kept_before(k1, p))
            == row_of(old_bs[1], p),
        forall|p: int| 0 <= p < 6 && !flagged(k2, p) ==> #[trigger] field_row(bs, kept_before(k0, 6) + kept_before(k1, 6)
            + kept_before(k2, p)) == row_of(old_bs[2], p),
        forall|p: int| 0 <= p < 6 && !flagged(k3, p) ==> #[trigger] field_row(bs, kept_before(k0, 6) + kept_before(k1, 6)
            + kept_before(k2, 6) + kept_before(k3, p)) == row_of(old_bs[3], p),
        forall|y: int| kept_before(k0, 6) + kept_before(k1, 6) + kept_before(k2, 6) + kept_before(k3, 6) <= y < 24
            ==> #[trigger] field_row(bs, y) == 0,
    ensures
        forall|y: int| 0 <= y < 24 && !key_flagged(r, y) ==> #[trigger] field_row(bs, kept_below(r, y)) == field_row(old_bs, y),
        forall|y: int| kept_below(r, 24) <= y < 24 ==> #[trigger] field_row(bs, y) == 0,
        kept_below(r, 24) == kept_before(k0, 6) + kept_before(k1, 6) + kept_before(k2, 6) + kept_before(k3, 6),
{
    assert forall|q: int| 0 <= q < 6 implies #[trigger] flagged(k0, q) == key_flagged(r, 6 * 0 + q) by {
        lemma_key_flag_position(r, 0, q);
    }
    assert forall|q: int| 0 <= q < 6 implies #[trigger] flagged(k1, q) == key_flagged(r, 6 * 1 + q) by {
        lemma_key_flag_position(r, 1, q);
    }
    assert forall|q: int| 0 <= q < 6 implies #[trigger] flagged(k2, q) == key_flagged(r, 6 * 2 + q) by {
        lemma_key_flag_position(r, 2, q);
    }
    assert forall|q: int| 0 <= q < 6 implies #[trigger] flagged(k3, q) == key_flagged(r, 6 * 3 + q) by {
        lemma_key_flag_position(r, 3, q);
    }
    lemma_kept_below_split(r, k0, 0, 6);
    lemma_kept_below_split(r, k1, 1, 6);
    lemma_kept_below_split(r, k2, 2, 6);
    lemma_kept_below_split(r, k3, 3, 6);
    assert(kept_below(r, 0) == 0);
    assert forall|y: int| 0 <= y < 24 && !key_flagged(r, y) implies #[trigger] field_row(bs, kept_below(r, y)) == field_row(old_bs, y) by {
        lemma_large_rows(old_bs, y);
        if y < 6 {
            lemma_kept_below_split(r, k0, 0, y);
            assert(!flagged(k0, y));
        } else if y < 12 {
            lemma_kept_below_split(r, k1, 1, y - 6);
            assert(!flagged(k1, y - 6));
        } else if y < 18 {
            lemma_kept_below_split(r, k2, 2, y - 12);
            assert(!flagged(k2, y - 12));
        } else {
            lemma_kept_below_split(r, k3, 3, y - 18);
            assert(!flagged(k3, y - 18));
        }
    }
}

/// The board keys that move a four-board field down by `slide` rows.
proof fn lemma_slide_keys(k0: u64, k1: u64, k2: u64, k3: u64, slide: int)
    requires
        0 <= slide <= 24,
        slide <= 6 ==> (forall|i: int| 0 <= i < 64 ==> #[trigger] bit(k0, i) == (is_key_bit(i) && key_row(i) < slide))
            && k1 == 0 && k2 == 0 && k3 == 0,
        6 < slide <= 12 ==> (forall|i: int| 0 <= i < 64 ==> #[trigger] bit(k0, i) == (is_key_bit(i) && key_row(i) < 6))
            && (forall|i: int| 0 <= i < 64 ==> #[trigger] bit(k1, i) == (is_key_bit(i) && key_row(i) < slide - 6))
            && k2 == 0 && k3 == 0,
        12 < slide <= 18 ==> (forall|i: int| 0 <= i < 64 ==> #[trigger] bit(k0, i) == (is_key_bit(i) && key_row(i) < 6))
            && (forall|i: int| 0 <= i < 64 ==> #[trigger] bit(k1, i) == (is_key_bit(i) && key_row(i) < 6))
            && (forall|i: int| 0 <= i < 64 ==> #[trigger] bit(k2, i) == (is_key_bit(i) && key_row(i) < slide - 12))
            && k3 == 0,
        18 < slide ==> (forall|i: int| 0 <= i < 64 ==> #[trigger] bit(k0, i) == (is_key_bit(i) && key_row(i) < 6))
            && (forall|i: int| 0 <= i < 64 ==> #[trigger] bit(k1, i) == (is_key_bit(i) && key_row(i) < 6))
            && (forall|i: int| 0 <= i < 64 ==> #[trigger] bit(k2, i) == (is_key_bit(i) && key_row(i) < 6))
            && (forall|i: int| 0 <= i < 64 ==> #[trigger] bit(k3, i) == (is_key_bit(i) && key_row(i) < slide - 18)),
    ensures
        is_board_key(k0),
        is_board_key(k1),
        is_board_key(k2),
        is_board_key(k3),
        forall|q: int| 0 <= q < 6 ==> #[trigger] flagged(k0, q) == (q < slide),
        forall|q: int| 0 <= q < 6 ==> #[trigger] flagged(k1, q) == (q + 6 < slide),
        forall|q: int| 0 <= q < 6 ==> #[trigger] flagged(k2, q) == (q + 12 < slide),
        forall|q: int| 0 <= q < 6 ==> #[trigger] flagged(k3, q) == (q + 18 < slide),
        forall|q: int| 0 <= q <= 6 ==> #[trigger] kept_before(k0, q) == if q < slide { 0 } else { q - slide },
        forall|q: int| 0 <= q <= 6 ==> #[trigger] kept_before(k1, q) == if q + 6 < slide { 0 } else if slide <= 6 { q } else { q + 6 - slide },
        forall|q: int| 0 <= q <= 6 ==> #[trigger] kept_before(k2, q) == if q + 12 < slide { 0 } else if slide <= 12 { q } else { q + 12 - slide },
        forall|q: int| 0 <= q <= 6 ==> #[trigger] kept_before(k3, q) == if q + 18 < slide { 0 } else if slide <= 18 { q } else { q + 18 - slide },
{
    let n0 = if slide < 6 { slide } else { 6 };
    let n1 = if slide <= 6 { 0 } else if slide < 12 { slide - 6 } else { 6 };
    let n2 = if slide <= 12 { 0 } else if slide < 18 { slide - 12 } else { 6 };
    let n3 = if slide <= 18 { 0 } else { slide - 18 };
    lemma_slide_key(k0, n0);
    lemma_slide_key(k1, n1);
    lemma_slide_key(k2, n2);
    lemma_slide_key(k3, n3);
}

proof fn lemma_slide_key(k: u64, n: int)
    requires
        0 <= n <= 6,
        n == 0 ==> k == 0 || forall|i: int| 0 <= i < 64 ==> #[trigger] bit(k, i) == (is_key_bit(i) && key_row(i) < n),
        n > 0 ==> forall|i: int| 0 <= i < 64 ==> #[trigger] bit(k, i) == (is_key_bit(i) && key_row(i) < n),
    ensures
        is_board_key(k),
        forall|q: int| 0 <= q < 6 ==> #[trigger] flagged(k, q) == (q < n),
        forall|q: int| 0 <= q <= 6 ==> #[trigger] kept_before(k, q) == if q < n { 0 } else { q - n },
{
    if k == 0 && n == 0 {
        lemma_no_flags(k);
    } else {
        lemma_mask_board_key(k, n, 0);
    }
    assert forall|q: int| 0 <= q <= 6 implies #[trigger] kept_before(k, q) == if q < n { 0 } else { q - n } by {
        if q < n {
            lemma_kept_before_zero(k, n, q);
        }
    }
}

proof fn lemma_kept_before_zero(k: u64, n: int, q: int)
    requires
        0 <= q <= n <= 6,
        forall|p: int| 0 <= p < 6 ==> #[trigger] flagged(k, p) == (p < n),
    ensures
        kept_before(k, q) == 0,
    decreases q,
{
    if q > 0 {
        lemma_kept_before_zero(k, n, q - 1);
        assert(flagged(k, q - 1));
    }
}

/// Moving both a shape's center and a cell down by `6 * k` rows keeps whether the shape covers
/// the cell.
proof fn lemma_covers_moved(p: Piece, r: Rotate, x: int, y: int, cx: int, cy: int, k: int)
    requires
        0 <= k < 4,
    ensures
        covers(p, r, x, y, cx, cy) == covers(p, r, x, y - 6 * k, cx, cy - 6 * k),
    decreases k,
{
    if k > 0 {
        lemma_covers_moved(p, r, x, y, cx, cy, k - 1);
        lemma_covers_rows(p, r, x, y - 6 * (k - 1), cx, cy - 6 * (k - 1));
    }
}

} // verus!
