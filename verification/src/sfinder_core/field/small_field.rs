use vstd::prelude::*;
use super::bits::{
    bit, below, lemma_bit_ops, lemma_bit_not, lemma_bit_shl, lemma_bit_shr, lemma_bit_fixed,
    lemma_bit_consts, lemma_test_bit, lemma_shift_zero, lemma_all_ones, lemma_zero_bits,
    lemma_bit_ext,
};
use super::bit_operators::{
    self, cell, count_ones, popcount, lowest_bit, highest_bit, fold_rows, board_column_count,
    board_row_count, lemma_column_popcount, lemma_row_popcount, lemma_popcount_zero,
    lemma_popcount_nonzero,
};
use super::field::{
    board_clear, lemma_board_remove_cell, lemma_board_window, lemma_shape_clear_boards,
    lemma_board_put_cell, lemma_covers_rows,
    Field, FieldBoards, board_at, block_at, field_row, no_overflow, key_flagged, kept_below,
    total_popcount, union_boards, lowest_used_board, highest_used_board, lowest_used_row,
    highest_used_row, column_count, valid_mask, row_full, full_kept_below,
    kept_below_complement, lemma_kept_below_low,
};
use super::field_constants::{BoardCount, VALID_BOARD_RANGE};
use super::key_operators::{self, is_key_bit, key_row, key_index, row_filled, row_used};
use super::long_board_map::{
    self, row_of, flagged, kept_before, lemma_row_ops, lemma_row_bit, lemma_rows_ext,
    lemma_row_shr, lemma_row_shl, lemma_row_low_mask, lemma_below_rows,
    lemma_small_has_no_high_bit,
};
use crate::sfinder_core::mino::mino::{Mino, covers, mask_at, mino_min_y};
use crate::sfinder_core::mino::piece::Piece;
use crate::sfinder_core::srs::rotate::Rotate;

verus! {

pub const MAX_FIELD_HEIGHT: u8 = 6;

/// A field of 6 rows held in a single board.
#[derive(Clone, Copy, Debug, PartialEq, Eq, Structural)]
pub struct SmallField(u64);

/// Row `q` of a board is full iff each of its 10 cells holds a block.
pub proof fn lemma_row_full_used(b: u64, q: int)
    requires
        0 <= q < 6,
    ensures
        (row_of(b, q) == 0x3ffu64) == row_filled(b, q),
        (row_of(b, q) != 0) == row_used(b, q),
{
    let r = row_of(b, q);
    lemma_row_ops(b, b, q);
    assert forall|c: int| 0 <= c < 10 implies #[trigger] bit(r, c) == cell(b, c, q) by {
        lemma_row_bit(b, q, c);
    }
    assert forall|c: int| 10 <= c < 64 implies !#[trigger] bit(r, c) by {
        lemma_small_has_no_high_bit(r, c);
    }
    if row_filled(b, q) {
        assert forall|c: int| 0 <= c < 64 implies #[trigger] bit(r, c) == bit(0x3ffu64, c) by {
            lemma_bit_fixed(c);
            if c < 10 {
                assert(cell(b, c, q));
            }
        }
        lemma_bit_ext(r, 0x3ffu64);
    }
    if r == 0x3ffu64 {
        assert forall|c: int| 0 <= c < 10 implies #[trigger] cell(b, c, q) by {
            lemma_bit_fixed(c);
        }
    }
    lemma_zero_bits(r);
    if row_used(b, q) {
        let c = choose|c: int| 0 <= c < 10 && #[trigger] cell(b, c, q);
        assert(bit(r, c));
    }
    if !row_used(b, q) {
        assert forall|c: int| 0 <= c < 64 implies !#[trigger] bit(r, c) by {
            if c < 10 {
                assert(!cell(b, c, q));
            }
        }
    }
}

impl SmallField {
    /// The empty field.
    /// Every field of this kind holds one board.
    pub proof fn lemma_boards_len(&self)
        ensures
            self.boards().len() == 1,
    {
    }

    pub closed spec fn empty() -> Self {
        SmallField(0)
    }

    pub fn new() -> (r: Self)
        ensures
            r == Self::empty(),
            r.boards() == seq![0u64],
    {
        SmallField(0)
    }

    /// Builds a field from its board.
    pub fn from_board(board: u64) -> (r: Self)
        ensures
            r.boards() == seq![board],
    {
        SmallField(board)
    }

    /// The board of the field.
    pub fn get_x_board(&self) -> (r: u64)
        ensures
            r == self.boards()[0],
    {
        self.0
    }
}

impl From<u64> for SmallField {
    fn from(value: u64) -> (r: Self) {
        SmallField(value)
    }
}

impl vstd::std_specs::convert::FromSpecImpl<u64> for SmallField {
    open spec fn obeys_from_spec() -> bool {
        true
    }

    closed spec fn from_spec(value: u64) -> Self {
        SmallField(value)
    }
}

impl FieldBoards for SmallField {
    closed spec fn boards(&self) -> Seq<u64> {
        seq![self.0]
    }

    proof fn lemma_board_count(&self) {
    }

    fn get_board(&self, index: u8) -> (r: u64) {
        if index == 0 {
            self.0
        } else {
            0
        }
    }

    fn get_board_count(&self) -> (r: BoardCount) {
        BoardCount::Small
    }

    fn get_max_field_height(&self) -> (r: u8) {
        MAX_FIELD_HEIGHT
    }
}

impl Field for SmallField {
    open spec fn empty_field() -> Self {
        Self::empty()
    }

    open spec fn can_put_spec(&self, p: Piece, r: Rotate, x: int, y: int) -> bool {
        y >= 8 || self.boards()[0] & mask_at(p, r, x, y) == 0
    }

    open spec fn put_spec(&self, p: Piece, r: Rotate, x: int, y: int) -> Seq<u64> {
        seq![self.boards()[0] | mask_at(p, r, x, y)]
    }

    open spec fn remove_spec(&self, p: Piece, r: Rotate, x: int, y: int) -> Seq<u64> {
        seq![self.boards()[0] & !mask_at(p, r, x, y)]
    }

    proof fn lemma_put_cells(&self, p: Piece, r: Rotate, x: int, y: int, cx: int, cy: int) {
        lemma_covers_rows(p, r, x, y, cx, cy);
        if 0 <= cx < 10 && 0 <= cy < 6 {
            lemma_board_put_cell(self.0, p, r, x, y, cx, cy);
        }
    }

    proof fn lemma_remove_cells(&self, p: Piece, r: Rotate, x: int, y: int, cx: int, cy: int) {
        lemma_covers_rows(p, r, x, y, cx, cy);
        if 0 <= cx < 10 && 0 <= cy < 6 {
            lemma_board_remove_cell(self.0, p, r, x, y, cx, cy);
        }
    }

    proof fn lemma_can_put_cells(&self, p: Piece, r: Rotate, x: int, y: int) {
        Mino::lemma_cells_in_bounds(p, r);
        lemma_shape_clear_boards(self.boards(), p, r, x, y);
        if y < 8 {
            lemma_board_window(self.boards(), 0, p, r, x, y);
        } else {
            assert forall|cx: int, cy: int| 0 <= cy < 6 && #[trigger] covers(p, r, x, y, cx, cy) implies !block_at(
                self.boards(),
                cx,
                cy,
            ) by {
                lemma_covers_rows(p, r, x, y, cx, cy);
            }
            assert(board_clear(self.boards(), 0, p, r, x, y));
        }
    }

    fn new() -> (r: Self) {
        SmallField(0)
    }

    fn set_block(&mut self, x: u8, y: u8) {
        self.0 = self.0 | bit_operators::get_x_mask(x, y);
        assert(self.boards() =~= old(self).boards().update(
            y as int / 6,
            old(self).boards()[y as int / 6] | (1u64 << (x + 10 * (y as int % 6)) as u64),
        ));
    }

    fn remove_block(&mut self, x: u8, y: u8) {
        self.0 = self.0 & !bit_operators::get_x_mask(x, y);
        assert(self.boards() =~= old(self).boards().update(
            y as int / 6,
            old(self).boards()[y as int / 6] & !(1u64 << (x + 10 * (y as int % 6)) as u64),
        ));
    }

    fn clear_all(&mut self) {
        self.0 = 0;
    }

    fn put(&mut self, mino: &Mino, x: u8, y: u8) {
        self.0 = self.0 | mino.get_mask(x, y as i8);
        assert(self.boards() =~= old(self).put_spec(mino.piece_of(), mino.rotate_of(), x as int, y as int));
    }

    fn can_put(&self, mino: &Mino, x: u8, y: u8) -> (r: bool) {
        MAX_FIELD_HEIGHT + 2 <= y || self.0 & mino.get_mask(x, y as i8) == 0
    }

    fn remove(&mut self, mino: &Mino, x: u8, y: u8) {
        self.0 = self.0 & !mino.get_mask(x, y as i8);
        assert(self.boards() =~= old(self).remove_spec(mino.piece_of(), mino.rotate_of(), x as int, y as int));
    }

    fn is_empty_block(&self, x: u8, y: u8) -> (r: bool) {
        let m = bit_operators::get_x_mask(x, y);
        proof {
            lemma_test_bit(self.0, (x + 10 * y) as u64);
        }
        self.0 & m == 0
    }

    fn exists_above_row(&self, y: u8) -> (r: bool) {
        if y < MAX_FIELD_HEIGHT {
            let mask = bit_operators::board_shl(VALID_BOARD_RANGE, y);
            (self.0 & mask) != 0
        } else {
            false
        }
    }

    fn is_empty(&self) -> (r: bool) {
        assert(self.boards()[0] == self.0);
        self.0 == 0
    }

    fn is_filled_in_column(&self, x: u8, max_y: u8) -> (r: bool) {
        if max_y == 0 {
            return true;
        }
        let m = bit_operators::get_column_mask(max_y, x);
        let v = self.0 | !m;
        proof {
            lemma_all_ones(v);
            lemma_shift_zero(0);
            assert forall|i: int| 0 <= i < 64 implies #[trigger] bit(v, i) == (bit(self.0, i) || !(i < 10 * max_y && i % 10 == x)) by {
                lemma_bit_ops(self.0, !m, i);
                lemma_bit_not(m, i);
            }
            if forall|i: int| 0 <= i < 64 ==> #[trigger] bit(v, i) {
                assert forall|y: int| 0 <= y < max_y implies #[trigger] block_at(self.boards(), x as int, y) by {
                    assert(bit(v, x + 10 * y));
                }
            }
            if forall|y: int| 0 <= y < max_y ==> #[trigger] block_at(self.boards(), x as int, y) {
                assert forall|i: int| 0 <= i < 64 implies #[trigger] bit(v, i) by {
                    if i < 10 * max_y && i % 10 == x {
                        assert(block_at(self.boards(), x as int, i / 10));
                    }
                }
            }
        }
        v == !0u64
    }

    fn is_wall_between_left(&self, x: u8, max_y: u8) -> (r: bool) {
        let r = bit_operators::is_wall_between_left(x, max_y, self.0);
        proof {
            if r {
                assert forall|y: int| 0 <= y < max_y implies (#[trigger] block_at(self.boards(), x - 1, y)
                    || block_at(self.boards(), x as int, y)) by {
                    assert(cell(self.0, x - 1, y) || cell(self.0, x as int, y));
                }
            } else {
                let y = choose|y: int| 0 <= y < max_y && !(#[trigger] cell(self.0, x - 1, y) || cell(self.0, x as int, y));
                assert(!(block_at(self.boards(), x - 1, y) || block_at(self.boards(), x as int, y)));
            }
        }
        r
    }

    fn get_block_count_in_column(&self, x: u8, max_y: u8) -> (r: u32) {
        let m = bit_operators::get_column_mask(max_y, x);
        let w = self.0 & m;
        proof {
            assert forall|i: int| 0 <= i < 64 implies #[trigger] bit(w, i) == (i < 10 * max_y && i % 10 == x && bit(self.0, i)) by {
                lemma_bit_ops(self.0, m, i);
            }
            lemma_column_popcount(self.0, w, x as int, max_y as int);
            lemma_column_count_small(self.0, x as int, max_y as int);
        }
        count_ones(w)
    }

    fn get_block_count_in_row(&self, y: u8) -> (r: u32) {
        let m = bit_operators::get_row_mask(y);
        let w = self.0 & m;
        proof {
            assert forall|i: int| 0 <= i < 64 implies #[trigger] bit(w, i) == (10 * y <= i < 10 * y + 10 && bit(self.0, i - 10 * y + 10 * y)) by {
                lemma_bit_ops(self.0, m, i);
            }
            lemma_row_popcount(self.0, w, y as int, 10 * y as int);
        }
        count_ones(w)
    }

    fn exists_block_in_row(&self, y: u8) -> (r: bool) {
        let m = bit_operators::get_row_mask(y);
        let w = self.0 & m;
        proof {
            lemma_row_nonzero(self.0, m, y as int);
        }
        w != 0
    }

    fn get_num_of_all_blocks(&self) -> (r: u32) {
        proof {
            assert(self.boards().drop_last() =~= Seq::<u64>::empty());
            assert(total_popcount(self.boards().drop_last()) == 0);
        }
        count_ones(self.0)
    }

    fn clear_filled_rows_return_key(&mut self) -> (r: u64) {
        let key = self.get_filled_rows_key();
        proof {
            lemma_key_popcount_small(key, self.0);
        }
        self.delete_rows_with_key(key);
        key
    }

    fn get_filled_rows_key(&self) -> (r: u64) {
        let r = key_operators::get_delete_key(self.0);
        proof {
            assert forall|i: int| 0 <= i < 64 implies #[trigger] bit(r, i) == (is_key_bit(i) && key_row(i) < 6 * self.boards().len()
                && row_full(self.boards(), key_row(i))) by {
                if is_key_bit(i) && key_row(i) < 6 {
                    lemma_row_full_used(self.0, key_row(i));
                }
                if i < 60 && i % 10 == 0 {
                    lemma_row_full_used(self.0, i / 10);
                }
            }
        }
        r
    }

    fn get_using_key(&self) -> (r: u64) {
        let r = key_operators::get_using_key(self.0);
        proof {
            assert forall|i: int| 0 <= i < 64 implies #[trigger] bit(r, i) == (is_key_bit(i) && key_row(i) < 6 * self.boards().len()
                && field_row(self.boards(), key_row(i)) != 0) by {
                if is_key_bit(i) && key_row(i) < 6 {
                    lemma_row_full_used(self.0, key_row(i));
                }
                if i < 60 && i % 10 == 0 {
                    lemma_row_full_used(self.0, i / 10);
                }
            }
        }
        r
    }

    fn insert_filled_row_with_key(&mut self, delete_key: u64) {
        self.0 = long_board_map::insert_filled_row(self.0, delete_key);
        proof {
            assert forall|y: int| 0 <= y < 6 implies #[trigger] field_row(self.boards(), y) == if key_flagged(delete_key, y) {
                0x3ffu64
            } else {
                field_row(old(self).boards(), kept_below(delete_key, y))
            } by {
                lemma_kept_below_low(delete_key, y);
                long_board_map::lemma_kept_before_bounds(delete_key, y);
            }
        }
    }

    fn insert_blank_row_with_key(&mut self, delete_key: u64) {
        self.0 = long_board_map::insert_blank_row(self.0, delete_key);
        proof {
            assert forall|y: int| 0 <= y < 6 implies #[trigger] field_row(self.boards(), y) == if key_flagged(delete_key, y) {
                0u64
            } else {
                field_row(old(self).boards(), kept_below(delete_key, y))
            } by {
                lemma_kept_below_low(delete_key, y);
                long_board_map::lemma_kept_before_bounds(delete_key, y);
            }
        }
    }

    fn delete_rows_with_key(&mut self, delete_key: u64) {
        self.0 = long_board_map::delete_row(self.0, delete_key);
        proof {
            lemma_kept_below_low(delete_key, 6);
            long_board_map::lemma_kept_before_bounds(delete_key, 6);
            assert forall|y: int| kept_below(delete_key, 6) <= y < 6 implies #[trigger] field_row(self.boards(), y) == 0 by {
                assert(row_of(self.0, y) == 0);
            }
            assert forall|y: int| 0 <= y < 6 && !key_flagged(delete_key, y) implies #[trigger] field_row(self.boards(), kept_below(delete_key, y))
                == field_row(old(self).boards(), y) by {
                lemma_kept_below_low(delete_key, y);
                long_board_map::lemma_kept_before_mono(delete_key, y, 6);
                long_board_map::lemma_kept_before_bounds(delete_key, y);
            }
        }
    }

    fn fill_row(&mut self, y: u8) {
        self.0 = self.0 | bit_operators::get_row_mask(y);
        assert(self.boards() =~= old(self).boards().update(
            y as int / 6,
            old(self).boards()[y as int / 6] | (0x3ffu64 << (10 * (y as int % 6)) as u64),
        ));
    }

    fn prune(&self, max_height: u8) -> (r: super::any_field::AnyField) {
        assert(self.boards().take(1) =~= self.boards());
        super::any_field::AnyField::Small(*self)
    }

    fn merge<F: FieldBoards>(&mut self, other: &F) {
        self.0 = self.0 | other.get_board(0);
    }

    fn can_merge<F: FieldBoards>(&self, other: &F) -> (r: bool) {
        assert(self.boards()[0] == self.0);
        self.0 & other.get_board(0) == 0
    }

    fn reduce<F: FieldBoards>(&mut self, other: &F) {
        self.0 = self.0 & !other.get_board(0);
    }

    fn get_upper_y_with_4_blocks(&self) -> (r: u8) {
        proof {
            assert(self.boards().drop_last() =~= Seq::<u64>::empty());
            assert(total_popcount(self.boards().drop_last()) == 0);
            assert(self.boards().last() == self.0);
            if self.0 == 0 {
                lemma_popcount_zero();
            }
        }
        bit_operators::get_highest_y(self.0)
    }

    fn get_min_x(&self) -> (r: Option<u8>) {
        proof {
            assert(self.boards().drop_last() =~= Seq::<u64>::empty());
            assert(union_boards(self.boards().drop_last()) == 0);
            assert(self.boards().last() == self.0);
            lemma_shift_zero(self.0);
        }
        bit_operators::try_get_lowest_x(self.0)
    }

    fn get_min_y(&self) -> (r: Option<u8>) {
        proof {
            assert(self.boards().drop_first() =~= Seq::<u64>::empty());
            assert(lowest_used_board(self.boards().drop_first()) == 0);
            assert(self.boards()[0] == self.0);
        }
        bit_operators::try_get_lowest_y(self.0)
    }

    fn slide_left(&mut self, slide: u8) {
        let mask = bit_operators::get_column_mask_right_of_row(slide);
        let old0 = self.0;
        self.0 = (self.0 & mask) >> (slide as u64);
        proof {
            lemma_slide_left_bits(old0, mask, slide as int);
        }
    }

    fn slide_right(&mut self, slide: u8) {
        let mask = bit_operators::get_column_mask_left_of_row(10 - slide);
        let old0 = self.0;
        self.0 = (self.0 & mask) << (slide as u64);
        proof {
            lemma_slide_right_bits(old0, mask, slide as int);
        }
    }

    fn slide_down_one(&mut self) {
        let old0 = self.0;
        self.0 = self.0 >> 10u64;
        proof {
            if no_overflow(old(self).boards()) {
                assert(below(old(self).boards()[0], 60));
                super::board_rows::lemma_board_down(old0, 1);
            }
        }
    }

    fn slide_down(&mut self, slide: u8) {
        let old0 = self.0;
        self.0 = self.0 >> (10 * slide as u64);
        proof {
            if no_overflow(old(self).boards()) {
                assert(below(old(self).boards()[0], 60));
                super::board_rows::lemma_board_down(old0, slide as int);
            }
        }
    }

    fn slide_up_with_empty_row(&mut self, slide: u8) {
        let old0 = self.0;
        self.0 = self.0 << (10 * slide as u64);
        proof {
            assert forall|y: int| 0 <= y < 6 implies #[trigger] field_row(self.boards(), y) == if y < slide {
                0u64
            } else {
                field_row(old(self).boards(), y - slide)
            } by {
                lemma_row_shl(old0, slide as int, y);
            }
        }
    }

    fn slide_up_with_filled_row(&mut self, slide: u8) {
        let count: u64 = 10 * slide as u64;
        let old0 = self.0;
        proof {
            lemma_bit_consts(count, 0);
        }
        let low = (1u64 << count) - 1;
        self.0 = (self.0 << count) | low;
        proof {
            assert forall|y: int| 0 <= y < 6 implies #[trigger] field_row(self.boards(), y) == if y < slide {
                0x3ffu64
            } else {
                field_row(old(self).boards(), y - slide)
            } by {
                lemma_row_shl(old0, slide as int, y);
                lemma_row_low_mask(slide as int, y);
                lemma_row_ops(old0 << count, low, y);
                lemma_row_ops(0, 0x3ffu64, y);
                if y >= slide {
                    lemma_row_ops(old0, 0, y - slide);
                    lemma_shift_zero(row_of(old0, y - slide));
                }
                lemma_shift_zero(0x3ffu64);
            }
        }
    }

    fn contains<F: FieldBoards>(&self, child: &F) -> (r: bool) {
        proof {
            child.lemma_board_count();
        }
        let child_board_low = child.get_board(0);
        assert(self.boards()[0] == self.0);
        let count = child.get_board_count();
        let r = match count {
            BoardCount::Small => self.0 & child_board_low == child_board_low,
            BoardCount::Middle => self.0 & child_board_low == child_board_low && child.get_board(1) == 0,
            BoardCount::Large => self.0 & child_board_low == child_board_low && child.get_board(1) == 0
                && child.get_board(2) == 0 && child.get_board(3) == 0,
        };
        proof {
            let cb = child.boards();
            if r {
                assert forall|k: int| 0 <= k < cb.len() implies if k < self.boards().len() {
                    #[trigger] (self.boards()[k] & cb[k]) == cb[k]
                } else {
                    cb[k] == 0
                } by {
                    if k == 0 {
                        assert(cb[k] == child_board_low);
                    } else {
                        assert(cb[k] == board_at(cb, k));
                    }
                }
            } else {
                if self.0 & child_board_low != child_board_low {
                    assert(!((self.boards()[0] & cb[0]) == cb[0]));
                } else {
                    let k: int = if cb[1] != 0 { 1 } else if cb[2] != 0 { 2 } else { 3 };
                    assert(cb[k] != 0);
                    assert(k >= self.boards().len());
                    let t = self.boards()[k] & cb[k];
                }
            }
        }
        r
    }

    fn invert(&mut self) {
        self.0 = !self.0 & VALID_BOARD_RANGE;
    }

    fn mirror(&mut self) {
        self.0 = key_operators::mirror(self.0);
    }

    fn mask<F: FieldBoards>(&mut self, mask_field: &F) {
        self.0 = self.0 & mask_field.get_board(0);
    }
}

/// The bits of a board after sliding it `slide` columns left through a column mask.
pub proof fn lemma_slide_left_bits(b: u64, mask: u64, slide: int)
    requires
        0 <= slide <= 10,
        forall|i: int| 0 <= i < 64 ==> #[trigger] bit(mask, i) == (i < 60 && i % 10 >= slide),
    ensures
        forall|i: int| 0 <= i < 64 ==> #[trigger] bit((b & mask) >> (slide as u64), i) == (i < 60 && i % 10 + slide < 10
            && bit(b, i + slide)),
{
    assert forall|i: int| 0 <= i < 64 implies #[trigger] bit((b & mask) >> (slide as u64), i) == (i < 60 && i % 10 + slide < 10
        && bit(b, i + slide)) by {
        lemma_bit_shr(b & mask, slide as u64, i);
        if i + slide < 64 {
            lemma_bit_ops(b, mask, i + slide);
        }
    }
}

/// The bits of a board after sliding it `slide` columns right through a column mask.
pub proof fn lemma_slide_right_bits(b: u64, mask: u64, slide: int)
    requires
        0 <= slide <= 10,
        forall|i: int| 0 <= i < 64 ==> #[trigger] bit(mask, i) == (i < 60 && i % 10 < 10 - slide),
    ensures
        forall|i: int| 0 <= i < 64 ==> #[trigger] bit((b & mask) << (slide as u64), i) == (i < 60 && i % 10 >= slide
            && bit(b, i - slide)),
{
    assert forall|i: int| 0 <= i < 64 implies #[trigger] bit((b & mask) << (slide as u64), i) == (i < 60 && i % 10 >= slide
        && bit(b, i - slide)) by {
        lemma_bit_shl(b & mask, slide as u64, i);
        if i >= slide {
            lemma_bit_ops(b, mask, i - slide);
        }
    }
}

/// A row of a board is non-empty iff the board meets that row's mask.
pub proof fn lemma_row_nonzero(b: u64, m: u64, q: int)
    requires
        0 <= q < 6,
        forall|i: int| 0 <= i < 64 ==> #[trigger] bit(m, i) == (10 * q <= i < 10 * q + 10),
    ensures
        ((b & m) != 0) == (row_of(b, q) != 0),
{
    lemma_zero_bits(b & m);
    lemma_zero_bits(row_of(b, q));
    lemma_row_ops(b, b, q);
    if row_of(b, q) != 0 {
        let c = choose|c: int| 0 <= c < 64 && #[trigger] bit(row_of(b, q), c);
        if c >= 10 {
            lemma_small_has_no_high_bit(row_of(b, q), c);
        }
        lemma_row_bit(b, q, c);
        lemma_bit_ops(b, m, 10 * q + c);
    }
    if (b & m) != 0 {
        let i = choose|i: int| 0 <= i < 64 && #[trigger] bit(b & m, i);
        lemma_bit_ops(b, m, i);
        lemma_row_bit(b, q, i - 10 * q);
    }
}

proof fn lemma_column_count_small(b: u64, x: int, n: int)
    requires
        0 <= x < 10,
        0 <= n <= 6,
    ensures
        column_count(seq![b], x, n) == board_column_count(b, x, n),
    decreases n,
{
    if n > 0 {
        lemma_column_count_small(b, x, n - 1);
    }
}

/// The number of rows flagged by a key that flags exactly the filled rows of a board.
proof fn lemma_key_popcount_small(key: u64, b: u64)
    requires
        forall|i: int| 0 <= i < 64 ==> #[trigger] bit(key, i) == (is_key_bit(i) && key_row(i) < 6
            && row_full(seq![b], key_row(i))),
    ensures
        popcount(key) == kept_below_complement(seq![b]),
{
    assert forall|i: int| 0 <= i < 64 && #[trigger] bit(key, i) implies i < 60 && i % 10 == 0 by {}
    long_board_map::lemma_board_key_popcount(key);
    super::field::lemma_filled_key_kept(seq![b], key, 6);
    lemma_kept_below_low(key, 6);
}

} // verus!
