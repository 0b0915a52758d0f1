//! The field abstraction: a 10-wide grid of cells stored as 1, 2 or 4 boards of 6 rows.
//!
//! Each board keeps its 6 rows in its low 60 bits. The 4 high bits of a board are not part of
//! any row; only `put` may leave something there, and what is there is kept as it is.

use vstd::prelude::*;
use super::bits::{bit, below, lemma_bit_ops, lemma_bit_shr, lemma_test_bit};
use super::bit_operators::{cell, fold_rows, lowest_bit, highest_bit, popcount, board_row_count};
use super::field_constants::{BoardCount, VALID_BOARD_RANGE, BOARD_HEIGHT, FIELD_WIDTH};
use super::key_operators::{key_index, is_key_bit, key_row, lemma_key_index_row};
use super::long_board_map::{row_of, flagged, kept_before};
use super::bit_operators;
use super::long_board_map;
use crate::sfinder_core::mino::mino::{Mino, covers, lemma_mask_at_bits, mask_at, mino_cells, mino_max_x, mino_max_y, mino_min_x, mino_min_y};
use crate::sfinder_core::neighbor::original_piece::OriginalPiece;
use crate::sfinder_core::mino::piece::Piece;
use crate::sfinder_core::srs::rotate::Rotate;

verus! {

/// Board `i` of a field, or zero past its last board.
pub open spec fn board_at(bs: Seq<u64>, i: int) -> u64 {
    if 0 <= i < bs.len() {
        bs[i]
    } else {
        0
    }
}

/// Whether cell `(x, y)` of a field holds a block.
pub open spec fn block_at(bs: Seq<u64>, x: int, y: int) -> bool {
    0 <= x < 10 && 0 <= y < 6 * bs.len() && cell(bs[y / 6], x, y % 6)
}

/// Row `y` of a field as a 10-cell value.
pub open spec fn field_row(bs: Seq<u64>, y: int) -> u64 {
    row_of(bs[y / 6], y % 6)
}

/// No board of the field has a bit above its 6 rows.
pub open spec fn no_overflow(bs: Seq<u64>) -> bool {
    forall|k: int| 0 <= k < bs.len() ==> below(#[trigger] bs[k], 60)
}

/// Whether a field-wide row key flags row `y`.
pub open spec fn key_flagged(key: u64, y: int) -> bool {
    bit(key, key_index(y))
}

/// Number of rows below `y` that a field-wide row key leaves in place.
pub open spec fn kept_below(key: u64, y: int) -> int
    decreases y,
{
    if y <= 0 {
        0
    } else {
        kept_below(key, y - 1) + if key_flagged(key, y - 1) { 0int } else { 1int }
    }
}

/// Total number of set bits over all boards.
pub open spec fn total_popcount(bs: Seq<u64>) -> nat
    decreases bs.len(),
{
    if bs.len() == 0 {
        0
    } else {
        total_popcount(bs.drop_last()) + popcount(bs.last())
    }
}

/// The bitwise union of all boards.
pub open spec fn union_boards(bs: Seq<u64>) -> u64
    decreases bs.len(),
{
    if bs.len() == 0 {
        0
    } else {
        union_boards(bs.drop_last()) | bs.last()
    }
}

/// Index of the lowest non-empty board (`bs.len()` when all are empty).
pub open spec fn lowest_used_board(bs: Seq<u64>) -> int
    decreases bs.len(),
{
    if bs.len() == 0 {
        0
    } else if bs[0] != 0 {
        0
    } else {
        1 + lowest_used_board(bs.drop_first())
    }
}

/// Index of the highest non-empty board (`-1` when all are empty).
pub open spec fn highest_used_board(bs: Seq<u64>) -> int
    decreases bs.len(),
{
    if bs.len() == 0 {
        -1
    } else if bs.last() != 0 {
        bs.len() - 1
    } else {
        highest_used_board(bs.drop_last())
    }
}

/// Lowest row holding a block (counting the bits above a board's rows as part of a seventh
/// row), or `None` for an empty field.
pub open spec fn lowest_used_row(bs: Seq<u64>) -> Option<u8> {
    let k = lowest_used_board(bs);
    if k >= bs.len() {
        None
    } else {
        Some((6 * k + lowest_bit(bs[k]) / 10) as u8)
    }
}

/// Highest row holding a block, for a non-empty field.
pub open spec fn highest_used_row(bs: Seq<u64>) -> int {
    let k = highest_used_board(bs);
    6 * k + highest_bit(bs[k]) / 10
}

/// Number of boards kept when pruning a field of `len` boards down to `max_height` rows.
pub open spec fn pruned_len(len: nat, max_height: int) -> nat {
    if max_height <= 6 || len == 1 {
        1
    } else if max_height <= 12 || len == 2 {
        2
    } else {
        4
    }
}

/// Number of blocks in column `x` below row `max_y`.
pub open spec fn column_count(bs: Seq<u64>, x: int, max_y: int) -> nat
    decreases max_y,
{
    if max_y <= 0 {
        0
    } else {
        column_count(bs, x, max_y - 1) + if block_at(bs, x, max_y - 1) { 1nat } else { 0nat }
    }
}

/// On the lowest board, the field-wide key of a row is its single-board key.
pub proof fn lemma_kept_below_low(key: u64, y: int)
    requires
        0 <= y <= 6,
    ensures
        kept_below(key, y) == super::long_board_map::kept_before(key, y),
        y < 6 ==> key_flagged(key, y) == super::long_board_map::flagged(key, y),
    decreases y,
{
    if y > 0 {
        lemma_kept_below_low(key, y - 1);
    }
}

/// Access to the raw boards of a field.
pub trait FieldBoards: Sized {
    /// The boards of the field, lowest first.
    spec fn boards(&self) -> Seq<u64>;

    proof fn lemma_board_count(&self)
        ensures
            self.boards().len() == 1 || self.boards().len() == 2 || self.boards().len() == 4,
    ;

    /// Board `index` (0 is the lowest); zero past the last board.
    fn get_board(&self, index: u8) -> (r: u64)
        ensures
            r == board_at(self.boards(), index as int),
    ;

    /// Number of boards of the field.
    fn get_board_count(&self) -> (r: BoardCount)
        ensures
            r.spec_len() == self.boards().len(),
    ;

    /// Height of the field in rows.
    fn get_max_field_height(&self) -> (r: u8)
        ensures
            r == 6 * self.boards().len(),
    ;
}

/// Every set bit of the boards `cb` is set in the boards `bs`.
pub open spec fn contains_boards(bs: Seq<u64>, cb: Seq<u64>) -> bool {
    forall|k: int| 0 <= k < cb.len() ==> if k < bs.len() {
        #[trigger] (bs[k] & cb[k]) == cb[k]
    } else {
        cb[k] == 0
    }
}

/// The bits of a board that fall in rows `q..6` and above (the valid range shifted up by `q`
/// rows).
pub open spec fn valid_mask(q: int) -> u64 {
    VALID_BOARD_RANGE << (10 * q) as u64
}

/// A Tetris field.
///
/// Cells are addressed by `(x, y)` with `x < 10` and `y` counted from the bottom row.
pub trait Field: FieldBoards {
    /// Whether the shape of `p` in orientation `r`, centered at `(x, y)`, fits the field.
    spec fn can_put_spec(&self, p: Piece, r: Rotate, x: int, y: int) -> bool;

    /// The boards after placing the shape of `p` in orientation `r` at `(x, y)`.
    spec fn put_spec(&self, p: Piece, r: Rotate, x: int, y: int) -> Seq<u64>;

    /// The boards after removing the shape of `p` in orientation `r` at `(x, y)`.
    spec fn remove_spec(&self, p: Piece, r: Rotate, x: int, y: int) -> Seq<u64>;

    /// Placing a shape between the walls adds exactly its cells within the field.
    proof fn lemma_put_cells(&self, p: Piece, r: Rotate, x: int, y: int, cx: int, cy: int)
        requires
            -mino_min_x(p, r) <= x < 10 - mino_max_x(p, r),
            0 <= y < 6 * self.boards().len() + 2,
        ensures
            self.put_spec(p, r, x, y).len() == self.boards().len(),
            block_at(self.put_spec(p, r, x, y), cx, cy) == (block_at(self.boards(), cx, cy) || (0 <= cx < 10 && 0 <= cy
                < 6 * self.boards().len() && covers(p, r, x, y, cx, cy))),
    ;

    /// Removing a shape between the walls empties exactly its cells and leaves the others.
    proof fn lemma_remove_cells(&self, p: Piece, r: Rotate, x: int, y: int, cx: int, cy: int)
        requires
            -mino_min_x(p, r) <= x < 10 - mino_max_x(p, r),
            0 <= y < 6 * self.boards().len() + 2,
        ensures
            self.remove_spec(p, r, x, y).len() == self.boards().len(),
            block_at(self.remove_spec(p, r, x, y), cx, cy) == (block_at(self.boards(), cx, cy) && !covers(
                p,
                r,
                x,
                y,
                cx,
                cy,
            )),
    ;

    /// A shape between the walls fits exactly where none of its cells holds a block, on a field
    /// with nothing above its rows.
    proof fn lemma_can_put_cells(&self, p: Piece, r: Rotate, x: int, y: int)
        requires
            -mino_min_x(p, r) <= x < 10 - mino_max_x(p, r),
            0 <= y,
            self.boards().len() == 4 ==> y < 26,
            no_overflow(self.boards()),
        ensures
            self.can_put_spec(p, r, x, y) == shape_clear(self.boards(), p, r, x, y),
    ;

    /// An empty field.
    /// The field that `new` gives: an empty field of this kind with its fewest boards.
    spec fn empty_field() -> Self;

    /// An empty field.
    fn new() -> (r: Self)
        ensures
            r == Self::empty_field(),
            forall|k: int| 0 <= k < r.boards().len() ==> #[trigger] r.boards()[k] == 0,
    ;

    /// Puts a block on cell `(x, y)`.
    fn set_block(&mut self, x: u8, y: u8)
        requires
            x < 10,
            y < 6 * old(self).boards().len(),
        ensures
            final(self).boards() == old(self).boards().update(
                y as int / 6,
                old(self).boards()[y as int / 6] | (1u64 << (x + 10 * (y as int % 6)) as u64),
            ),
    ;

    /// Removes the block of cell `(x, y)`.
    fn remove_block(&mut self, x: u8, y: u8)
        requires
            x < 10,
            y < 6 * old(self).boards().len(),
        ensures
            final(self).boards() == old(self).boards().update(
                y as int / 6,
                old(self).boards()[y as int / 6] & !(1u64 << (x + 10 * (y as int % 6)) as u64),
            ),
    ;

    /// Empties the whole field.
    fn clear_all(&mut self)
        ensures
            final(self).boards().len() == old(self).boards().len(),
            forall|k: int| 0 <= k < final(self).boards().len() ==> #[trigger] final(self).boards()[k] == 0,
    ;

    /// Places the shape `mino` with its rotation center on `(x, y)`.
    fn put(&mut self, mino: &Mino, x: u8, y: u8)
        requires
            x < 10,
            y < 6 * old(self).boards().len() + 2,
        ensures
            final(self).boards() == old(self).put_spec(mino.piece_of(), mino.rotate_of(), x as int, y as int),
            final(self).boards().len() == old(self).boards().len(),
    ;

    /// Places the shape of a placed piece.
    fn put_piece(&mut self, piece: &OriginalPiece)
        ensures
            final(self).boards().len() == old(self).boards().len(),
            forall|k: int| 0 <= k < old(self).boards().len() ==> #[trigger] final(self).boards()[k]
                == old(self).boards()[k] | board_at(piece.mino_field().boards(), k),
    {
        self.merge(piece.get_mino_field())
    }

    /// Whether the shape of a placed piece overlaps no block.
    fn can_put_piece(&self, piece: &OriginalPiece) -> (r: bool)
        requires
            self.boards().len() != 2 || piece.mino_field().boards().len() <= 2,
        ensures
            r == forall|k: int| 0 <= k < self.boards().len() ==> #[trigger] (self.boards()[k] & board_at(
                piece.mino_field().boards(),
                k,
            )) == 0,
    {
        self.can_merge(piece.get_mino_field())
    }

    /// Removes the cells of the shape of a placed piece.
    fn remove_piece(&mut self, piece: &OriginalPiece)
        ensures
            final(self).boards().len() == old(self).boards().len(),
            forall|k: int| 0 <= k < old(self).boards().len() ==> #[trigger] final(self).boards()[k]
                == old(self).boards()[k] & !board_at(piece.mino_field().boards(), k),
    {
        self.reduce(piece.get_mino_field())
    }

    /// Whether a placed piece can fall from the top of the field to its position: its drop
    /// path overlaps no block.
    fn can_reach_on_harddrop_piece(&self, piece: &OriginalPiece) -> (r: bool)
        requires
            self.boards().len() != 2 || piece.harddrop_collider().boards().len() <= 2,
        ensures
            r == forall|k: int| 0 <= k < self.boards().len() ==> #[trigger] (self.boards()[k] & board_at(
                piece.harddrop_collider().boards(),
                k,
            )) == 0,
    {
        self.can_merge(piece.get_harddrop_collider())
    }

    /// Whether the shape `mino` centered on `(x, y)` overlaps no block.
    fn can_put(&self, mino: &Mino, x: u8, y: u8) -> (r: bool)
        requires
            x < 10,
            y < 26 || self.boards().len() != 4,
        ensures
            r == self.can_put_spec(mino.piece_of(), mino.rotate_of(), x as int, y as int),
    ;

    /// Removes the cells of the shape `mino` centered on `(x, y)`.
    fn remove(&mut self, mino: &Mino, x: u8, y: u8)
        requires
            x < 10,
            y < 6 * old(self).boards().len() + 2,
        ensures
            final(self).boards() == old(self).remove_spec(mino.piece_of(), mino.rotate_of(), x as int, y as int),
            final(self).boards().len() == old(self).boards().len(),
    ;

    /// Row at which `mino`, dropped from `start_y` at column `x`, comes to rest: the lowest row
    /// `r` at or above the floor such that the shape fits at every row from `r` up to
    /// `start_y`.
    fn get_y_on_harddrop(&self, mino: &Mino, x: u8, start_y: u8) -> (r: u8)
        requires
            x < 10,
            start_y <= 26 || self.boards().len() != 4,
        ensures
            -mino_min_y_of(mino) <= r,
            r <= start_y || r == -mino_min_y_of(mino),
            forall|y: int| r <= y < start_y ==> #[trigger] self.can_put_spec(mino.piece_of(), mino.rotate_of(), x as int, y),
            r == -mino_min_y_of(mino) || !self.can_put_spec(mino.piece_of(), mino.rotate_of(), x as int, r - 1),
    {
        let min: u8 = (-mino.get_min_y()) as u8;
        let mut y: u8 = start_y;
        if y < min {
            return min;
        }
        while y > min
            invariant
                min <= y <= start_y,
                min == -mino_min_y_of(mino),
                x < 10,
                start_y <= 26 || self.boards().len() != 4,
                forall|yy: int| y <= yy < start_y ==> #[trigger] self.can_put_spec(mino.piece_of(), mino.rotate_of(), x as int, yy),
            decreases y,
        {
            if !self.can_put(mino, x, y - 1) {
                return y;
            }
            y = y - 1;
        }
        min
    }

    /// Whether `mino` can fall from above the field down to `(x, start_y)`.
    fn can_reach_on_harddrop(&self, mino: &Mino, x: u8, start_y: u8) -> (r: bool)
        requires
            x < 10,
            start_y < 255,
        ensures
            r == forall|y: int| start_y + 1 <= y < 6 * self.boards().len() - mino_min_y_of(mino)
                ==> #[trigger] self.can_put_spec(mino.piece_of(), mino.rotate_of(), x as int, y),
    {
        proof {
            self.lemma_board_count();
        }
        let height = self.get_max_field_height();
        self._can_reach_on_harddrop(mino, x, start_y, height)
    }

    /// Whether `mino` fits at every row above `start_y` up to the top of a field of
    /// `max_field_height` rows.
    fn _can_reach_on_harddrop(&self, mino: &Mino, x: u8, start_y: u8, max_field_height: u8) -> (r: bool)
        requires
            x < 10,
            start_y < 255,
            max_field_height <= 24,
            max_field_height <= 6 * self.boards().len(),
        ensures
            r == forall|y: int| start_y + 1 <= y < max_field_height - mino_min_y_of(mino)
                ==> #[trigger] self.can_put_spec(mino.piece_of(), mino.rotate_of(), x as int, y),
    {
        proof {
            self.lemma_board_count();
            Mino::lemma_cells_in_bounds(mino.piece_of(), mino.rotate_of());
        }
        let top: u8 = max_field_height + (-mino.get_min_y()) as u8;
        let mut y: u8 = start_y + 1;
        while y < top
            invariant
                start_y + 1 <= y,
                top == max_field_height - mino_min_y_of(mino),
                top <= 26,
                x < 10,
                forall|yy: int| start_y + 1 <= yy < y ==> #[trigger] self.can_put_spec(mino.piece_of(), mino.rotate_of(), x as int, yy),
            decreases top - y,
        {
            if !self.can_put(mino, x, y) {
                return false;
            }
            y = y + 1;
        }
        true
    }

    /// Whether cell `(x, y)` is empty.
    fn is_empty_block(&self, x: u8, y: u8) -> (r: bool)
        requires
            x < 10,
            y < 6 * self.boards().len(),
        ensures
            r == !block_at(self.boards(), x as int, y as int),
    ;

    /// Whether cell `(x, y)` holds a block.
    fn exists_block(&self, x: u8, y: u8) -> (r: bool)
        requires
            x < 10,
            y < 6 * self.boards().len(),
        ensures
            r == block_at(self.boards(), x as int, y as int),
    {
        !self.is_empty_block(x, y)
    }

    /// Whether some bit at or above row `y` is set.
    fn exists_above_row(&self, y: u8) -> (r: bool)
        ensures
            r == (y < 6 * self.boards().len() && ((exists|k: int| y as int / 6 < k < self.boards().len()
                && #[trigger] self.boards()[k] != 0) || self.boards()[y as int / 6] & valid_mask(y as int % 6) != 0)),
    ;

    /// Whether no board has any bit set.
    fn is_empty(&self) -> (r: bool)
        ensures
            r == forall|k: int| 0 <= k < self.boards().len() ==> #[trigger] self.boards()[k] == 0,
    ;

    /// Whether column `x` holds blocks in every row below `max_y`.
    fn is_filled_in_column(&self, x: u8, max_y: u8) -> (r: bool)
        requires
            x < 10,
            max_y <= 6 * self.boards().len(),
        ensures
            r == forall|y: int| 0 <= y < max_y ==> #[trigger] block_at(self.boards(), x as int, y),
    ;

    /// Whether no row below `max_y` has both cell `x - 1` and cell `x` empty.
    fn is_wall_between_left(&self, x: u8, max_y: u8) -> (r: bool)
        requires
            1 <= x < 10,
            max_y <= 6 * self.boards().len(),
        ensures
            r == forall|y: int| 0 <= y < max_y ==> (#[trigger] block_at(self.boards(), x - 1, y)
                || block_at(self.boards(), x as int, y)),
    ;

    /// Whether `mino` at `(x, y)` rests on the floor or on a block.
    fn is_on_ground(&self, mino: &Mino, x: u8, y: u8) -> (r: bool)
        requires
            x < 10,
            y <= 26 || self.boards().len() != 4,
        ensures
            r == (y <= -mino_min_y_of(mino) || !self.can_put_spec(mino.piece_of(), mino.rotate_of(), x as int, y - 1)),
    {
        proof {
            Mino::lemma_cells_in_bounds(mino.piece_of(), mino.rotate_of());
        }
        y <= (-mino.get_min_y()) as u8 || !self.can_put(mino, x, y - 1)
    }

    /// Number of blocks in column `x` below row `max_y`.
    fn get_block_count_in_column(&self, x: u8, max_y: u8) -> (r: u32)
        requires
            x < 10,
            max_y <= 6 * self.boards().len(),
        ensures
            r == column_count(self.boards(), x as int, max_y as int),
    ;

    /// Number of blocks in row `y`.
    fn get_block_count_in_row(&self, y: u8) -> (r: u32)
        requires
            y < 6 * self.boards().len(),
        ensures
            r == board_row_count(self.boards()[y as int / 6], y as int % 6, 10),
    ;

    /// Whether row `y` holds a block.
    fn exists_block_in_row(&self, y: u8) -> (r: bool)
        requires
            y < 6 * self.boards().len(),
        ensures
            r == (field_row(self.boards(), y as int) != 0),
    ;

    /// Number of set bits over all boards.
    fn get_num_of_all_blocks(&self) -> (r: u32)
        ensures
            r == total_popcount(self.boards()),
    ;

    /// Removes every filled row and returns the number of rows removed.
    fn clear_filled_rows(&mut self) -> (r: u32)
        ensures
            final(self).boards().len() == old(self).boards().len(),
            no_overflow(final(self).boards()),
            r == kept_below_complement(old(self).boards()),
            forall|y: int| 0 <= y < 6 * old(self).boards().len() && !row_full(old(self).boards(), y)
                ==> #[trigger] field_row(final(self).boards(), full_kept_below(old(self).boards(), y)) == field_row(old(self).boards(), y),
            forall|y: int| full_kept_below(old(self).boards(), 6 * old(self).boards().len() as int) <= y < 6 * old(self).boards().len()
                ==> #[trigger] field_row(final(self).boards(), y) == 0,
    {
        proof {
            self.lemma_board_count();
        }
        let ghost bs = self.boards();
        let key = self.clear_filled_rows_return_key();
        proof {
            lemma_filled_key_kept(bs, key, 6 * bs.len() as int);
            assert forall|y: int| 0 <= y < 6 * bs.len() && !row_full(bs, y) implies #[trigger] field_row(self.boards(),
                full_kept_below(bs, y)) == field_row(bs, y) by {
                lemma_filled_key_kept(bs, key, y);
            }
        }
        bit_operators::count_ones(key)
    }

    /// Removes every filled row and returns the key of the rows removed.
    fn clear_filled_rows_return_key(&mut self) -> (r: u64)
        ensures
            final(self).boards().len() == old(self).boards().len(),
            forall|i: int| 0 <= i < 64 ==> #[trigger] bit(r, i) == (is_key_bit(i) && key_row(i) < 6 * old(self).boards().len()
                && row_full(old(self).boards(), key_row(i))),
            popcount(r) == kept_below_complement(old(self).boards()),
            no_overflow(final(self).boards()),
            forall|y: int| 0 <= y < 6 * old(self).boards().len() && !key_flagged(r, y)
                ==> #[trigger] field_row(final(self).boards(), kept_below(r, y)) == field_row(old(self).boards(), y),
            forall|y: int| kept_below(r, 6 * old(self).boards().len() as int) <= y < 6 * old(self).boards().len()
                ==> #[trigger] field_row(final(self).boards(), y) == 0,
    ;

    /// The key of the filled rows.
    fn get_filled_rows_key(&self) -> (r: u64)
        ensures
            forall|i: int| 0 <= i < 64 ==> #[trigger] bit(r, i) == (is_key_bit(i) && key_row(i) < 6 * self.boards().len()
                && row_full(self.boards(), key_row(i))),
    ;

    /// The key of the rows holding a block.
    fn get_using_key(&self) -> (r: u64)
        ensures
            forall|i: int| 0 <= i < 64 ==> #[trigger] bit(r, i) == (is_key_bit(i) && key_row(i) < 6 * self.boards().len()
                && field_row(self.boards(), key_row(i)) != 0),
    ;

    /// Inserts a filled row at each row flagged by `delete_key`; the other rows keep their
    /// order and move up past the inserted rows.
    fn insert_filled_row_with_key(&mut self, delete_key: u64)
        ensures
            final(self).boards().len() == old(self).boards().len(),
            no_overflow(final(self).boards()),
            forall|y: int| 0 <= y < 6 * old(self).boards().len() ==> #[trigger] field_row(final(self).boards(), y)
                == if key_flagged(delete_key, y) {
                    0x3ffu64
                } else {
                    field_row(old(self).boards(), kept_below(delete_key, y))
                },
    ;

    /// Inserts an empty row at each row flagged by `delete_key`; the other rows keep their
    /// order and move up past the inserted rows.
    fn insert_blank_row_with_key(&mut self, delete_key: u64)
        ensures
            final(self).boards().len() == old(self).boards().len(),
            no_overflow(final(self).boards()),
            forall|y: int| 0 <= y < 6 * old(self).boards().len() ==> #[trigger] field_row(final(self).boards(), y)
                == if key_flagged(delete_key, y) {
                    0u64
                } else {
                    field_row(old(self).boards(), kept_below(delete_key, y))
                },
    ;

    /// Removes the rows flagged by `delete_key`; the other rows keep their order and move down.
    fn delete_rows_with_key(&mut self, delete_key: u64)
        ensures
            final(self).boards().len() == old(self).boards().len(),
            no_overflow(final(self).boards()),
            forall|y: int| 0 <= y < 6 * old(self).boards().len() && !key_flagged(delete_key, y)
                ==> #[trigger] field_row(final(self).boards(), kept_below(delete_key, y)) == field_row(old(self).boards(), y),
            forall|y: int| kept_below(delete_key, 6 * old(self).boards().len() as int) <= y < 6 * old(self).boards().len()
                ==> #[trigger] field_row(final(self).boards(), y) == 0,
    ;

    /// Fills row `y` with blocks.
    fn fill_row(&mut self, y: u8)
        requires
            y < 6 * old(self).boards().len(),
        ensures
            final(self).boards() == old(self).boards().update(
                y as int / 6,
                old(self).boards()[y as int / 6] | (0x3ffu64 << (10 * (y as int % 6)) as u64),
            ),
    ;

    /// A copy of the field kept to the fewest boards that hold `max_height` rows (never more
    /// boards than the field has).
    fn prune(&self, max_height: u8) -> (r: super::any_field::AnyField)
        requires
            self.boards().len() != 2 || max_height <= 12,
        ensures
            r.boards() == self.boards().take(pruned_len(self.boards().len(), max_height as int) as int),
    ;

    /// Adds the blocks of `other`.
    fn merge<F: FieldBoards>(&mut self, other: &F)
        ensures
            final(self).boards().len() == old(self).boards().len(),
            forall|k: int| 0 <= k < old(self).boards().len() ==> #[trigger] final(self).boards()[k]
                == old(self).boards()[k] | board_at(other.boards(), k),
    ;

    /// Whether the boards of `other` meet no bit of this field's boards.
    fn can_merge<F: FieldBoards>(&self, other: &F) -> (r: bool)
        requires
            self.boards().len() != 2 || other.boards().len() <= 2,
        ensures
            r == forall|k: int| 0 <= k < self.boards().len() ==> #[trigger] (self.boards()[k] & board_at(other.boards(), k)) == 0,
    ;

    /// Removes the blocks of `other`.
    fn reduce<F: FieldBoards>(&mut self, other: &F)
        ensures
            final(self).boards().len() == old(self).boards().len(),
            forall|k: int| 0 <= k < old(self).boards().len() ==> #[trigger] final(self).boards()[k]
                == old(self).boards()[k] & !board_at(other.boards(), k),
    ;

    /// Row of the highest block of a field that holds exactly 4 set bits.
    fn get_upper_y_with_4_blocks(&self) -> (r: u8)
        requires
            total_popcount(self.boards()) == 4,
        ensures
            r == highest_used_row(self.boards()),
    ;

    /// Leftmost column holding a block, or `None` for an empty field.
    fn get_min_x(&self) -> (r: Option<u8>)
        ensures
            union_boards(self.boards()) == 0 ==> r is None,
            union_boards(self.boards()) != 0 ==> r == Some(lowest_bit(fold_rows(union_boards(self.boards()))) as u8),
    ;

    /// Row of the lowest block, or `None` for an empty field.
    fn get_min_y(&self) -> (r: Option<u8>)
        ensures
            r == lowest_used_row(self.boards()),
    ;

    /// Moves every block `slide` columns left; blocks pushed past the wall are lost.
    fn slide_left(&mut self, slide: u8)
        requires
            slide <= 10,
        ensures
            final(self).boards().len() == old(self).boards().len(),
            forall|k: int, i: int| 0 <= k < old(self).boards().len() && 0 <= i < 64 ==> #[trigger] bit(final(self).boards()[k], i)
                == (i < 60 && i % 10 + slide < 10 && bit(old(self).boards()[k], i + slide)),
    ;

    /// Moves every block `slide` columns right; blocks pushed past the wall are lost.
    fn slide_right(&mut self, slide: u8)
        requires
            slide <= 10,
        ensures
            final(self).boards().len() == old(self).boards().len(),
            forall|k: int, i: int| 0 <= k < old(self).boards().len() && 0 <= i < 64 ==> #[trigger] bit(final(self).boards()[k], i)
                == (i < 60 && i % 10 >= slide && bit(old(self).boards()[k], i - slide)),
    ;

    /// Moves every row one row down; the bottom row is lost and an empty row comes in at
    /// the top.
    fn slide_down_one(&mut self)
        ensures
            final(self).boards().len() == old(self).boards().len(),
            no_overflow(old(self).boards()) ==> no_overflow(final(self).boards()),
            no_overflow(old(self).boards()) ==> forall|y: int| 0 <= y < 6 * old(self).boards().len()
                ==> #[trigger] field_row(final(self).boards(), y) == if y + 1 < 6 * old(self).boards().len() {
                    field_row(old(self).boards(), y + 1)
                } else {
                    0u64
                },
    ;

    /// Moves every row `slide` rows down; the lowest rows are lost and empty rows come in at
    /// the top.
    fn slide_down(&mut self, slide: u8)
        requires
            slide <= 6 || old(self).boards().len() != 1,
        ensures
            final(self).boards().len() == old(self).boards().len(),
            no_overflow(old(self).boards()) ==> no_overflow(final(self).boards()),
            no_overflow(old(self).boards()) ==> forall|y: int| 0 <= y < 6 * old(self).boards().len()
                ==> #[trigger] field_row(final(self).boards(), y) == if y + slide < 6 * old(self).boards().len() {
                    field_row(old(self).boards(), y + slide)
                } else {
                    0u64
                },
    ;

    /// Moves every row `slide` rows up; empty rows come in at the bottom.
    fn slide_up_with_empty_row(&mut self, slide: u8)
        requires
            slide <= 6 || old(self).boards().len() != 1,
        ensures
            final(self).boards().len() == old(self).boards().len(),
            forall|y: int| 0 <= y < 6 * old(self).boards().len() ==> #[trigger] field_row(final(self).boards(), y)
                == if y < slide {
                    0u64
                } else {
                    field_row(old(self).boards(), y - slide)
                },
    ;

    /// Moves every row `slide` rows up; filled rows come in at the bottom.
    fn slide_up_with_filled_row(&mut self, slide: u8)
        requires
            slide <= 6 || old(self).boards().len() != 1,
        ensures
            final(self).boards().len() == old(self).boards().len(),
            forall|y: int| 0 <= y < 6 * old(self).boards().len() ==> #[trigger] field_row(final(self).boards(), y)
                == if y < slide {
                    0x3ffu64
                } else {
                    field_row(old(self).boards(), y - slide)
                },
    ;

    /// Whether every set bit of `child` is set in this field (bits of boards past this
    /// field's last board must be absent).
    fn contains<F: FieldBoards>(&self, child: &F) -> (r: bool)
        requires
            self.boards().len() != 1 || child.boards().len() <= 2,
        ensures
            r == contains_boards(self.boards(), child.boards()),
    ;

    /// Swaps blocks and empty cells.
    fn invert(&mut self)
        ensures
            final(self).boards().len() == old(self).boards().len(),
            forall|k: int| 0 <= k < old(self).boards().len() ==> #[trigger] final(self).boards()[k]
                == !old(self).boards()[k] & VALID_BOARD_RANGE,
    ;

    /// Flips the field left to right.
    fn mirror(&mut self)
        ensures
            final(self).boards().len() == old(self).boards().len(),
            forall|k: int, i: int| 0 <= k < old(self).boards().len() && 0 <= i < 64 ==> #[trigger] bit(final(self).boards()[k], i)
                == (i < 60 && cell(old(self).boards()[k], 9 - i % 10, i / 10)),
    ;

    /// Keeps only the blocks that `mask_field` also holds.
    fn mask<F: FieldBoards>(&mut self, mask_field: &F)
        ensures
            final(self).boards().len() == old(self).boards().len(),
            forall|k: int| 0 <= k < old(self).boards().len() ==> #[trigger] final(self).boards()[k]
                == old(self).boards()[k] & board_at(mask_field.boards(), k),
    ;
}

/// The lowest cell offset of a shape.
pub open spec fn mino_min_y_of(mino: &Mino) -> int {
    crate::sfinder_core::mino::mino::mino_min_y(mino.piece_of(), mino.rotate_of())
}

/// Row `y` of the field is completely filled.
pub open spec fn row_full(bs: Seq<u64>, y: int) -> bool {
    field_row(bs, y) == 0x3ffu64
}

/// Number of rows below `y` that are not completely filled.
pub open spec fn full_kept_below(bs: Seq<u64>, y: int) -> int
    decreases y,
{
    if y <= 0 {
        0
    } else {
        full_kept_below(bs, y - 1) + if row_full(bs, y - 1) { 0int } else { 1int }
    }
}

/// Number of completely filled rows of the field.
pub open spec fn kept_below_complement(bs: Seq<u64>) -> int {
    6 * bs.len() - full_kept_below(bs, 6 * bs.len() as int)
}

/// A key that flags exactly the filled rows of a field keeps the same rows as the filled rows
/// themselves do.
pub proof fn lemma_filled_key_kept(bs: Seq<u64>, key: u64, y: int)
    requires
        bs.len() <= 4,
        0 <= y <= 6 * bs.len(),
        forall|i: int| 0 <= i < 64 ==> #[trigger] bit(key, i) == (is_key_bit(i) && key_row(i) < 6 * bs.len()
            && row_full(bs, key_row(i))),
    ensures
        kept_below(key, y) == full_kept_below(bs, y),
        y < 6 * bs.len() ==> key_flagged(key, y) == row_full(bs, y),
    decreases y,
{
    if y < 6 * bs.len() {
        lemma_key_index_row(y, key_index(y));
        assert(bit(key, key_index(y)) == row_full(bs, y));
    }
    if y > 0 {
        lemma_filled_key_kept(bs, key, y - 1);
        lemma_key_index_row(y - 1, key_index(y - 1));
        assert(bit(key, key_index(y - 1)) == row_full(bs, y - 1));
    }
}

/// The rows of board `j` of a field counted as field rows: the kept rows below row `6 * j + q`
/// are those below the board plus those the board's own key keeps below row `q`.
pub proof fn lemma_kept_below_split(key: u64, k: u64, j: int, q: int)
    requires
        0 <= j,
        0 <= q <= 6,
        forall|p: int| 0 <= p < 6 ==> #[trigger] flagged(k, p) == key_flagged(key, 6 * j + p),
    ensures
        kept_below(key, 6 * j + q) == kept_below(key, 6 * j) + kept_before(k, q),
    decreases q,
{
    if q > 0 {
        lemma_kept_below_split(key, k, j, q - 1);
        assert(flagged(k, q - 1) == key_flagged(key, 6 * j + q - 1));
    }
}

/// The key flag of row `6 * j + q` is bit `10 * q + j` of a field-wide key.
pub proof fn lemma_key_flag_position(key: u64, j: int, q: int)
    requires
        0 <= j < 4,
        0 <= q < 6,
    ensures
        key_flagged(key, 6 * j + q) == bit(key, 10 * q + j),
{
    assert((6 * j + q) % 6 == q && (6 * j + q) / 6 == j) by (nonlinear_arith)
        requires
            0 <= j < 4,
            0 <= q < 6,
    ;
}

/// The row value inserted by a row insertion: a filled row or an empty one.
pub open spec fn fill_value(filled: bool) -> u64 {
    if filled {
        0x3ffu64
    } else {
        0u64
    }
}

/// The rows `lo` and `hi` stacked, seen from row `6 - d` of `lo`.
pub open spec fn stacked_row(lo: u64, hi: u64, d: int, p: int) -> u64 {
    if p < d {
        row_of(lo, p + 6 - d)
    } else {
        row_of(hi, p - d)
    }
}

/// Helpers shared by the field implementations.
pub trait FieldHelper {
    /// Whether `mino` centered on `(x, y)` lies within the walls and above the floor.
    fn is_in(mino: &Mino, x: i8, y: i8) -> (r: bool)
        requires
            -126 <= x <= 125,
            -126 <= y,
        ensures
            r == (0 <= x + crate::sfinder_core::mino::mino::mino_min_x(mino.piece_of(), mino.rotate_of())
                && x + crate::sfinder_core::mino::mino::mino_max_x(mino.piece_of(), mino.rotate_of()) < 10
                && 0 <= y + mino_min_y_of(mino)),
    {
        proof {
            Mino::lemma_cells_in_bounds(mino.piece_of(), mino.rotate_of());
        }
        let min_x = x + mino.get_min_x();
        let max_x = x + mino.get_max_x();
        let min_y = y + mino.get_min_y();
        0 <= min_x && max_x < FIELD_WIDTH as i8 && 0 <= min_y
    }

    /// The bits of a board in rows `y` and above.
    fn get_valid_mask(y: u8) -> (r: u64)
        requires
            y <= 6,
        ensures
            r == valid_mask(y as int),
    {
        bit_operators::board_shl(VALID_BOARD_RANGE, y)
    }

    /// The single-board key of board `index` taken out of a field-wide key.
    fn extract_delete_key(delete_key: u64, index: u8) -> (r: u64)
        requires
            index <= 4,
        ensures
            forall|i: int| 0 <= i < 64 ==> #[trigger] bit(r, i) == (i < 60 && i % 10 == 0 && bit(delete_key, i + index)),
            long_board_map::is_board_key(r),
            forall|q: int| 0 <= q < 6 ==> #[trigger] flagged(r, q) == bit(delete_key, 10 * q + index),
    {
        let column = bit_operators::get_column_one_row_below_y(BOARD_HEIGHT);
        let r = (delete_key >> (index as u64)) & column;
        proof {
            assert forall|i: int| 0 <= i < 64 implies #[trigger] bit(r, i) == (i < 60 && i % 10 == 0 && bit(delete_key, i + index)) by {
                lemma_bit_ops(delete_key >> (index as u64), column, i);
                lemma_bit_shr(delete_key, index as u64, i);
            }
            assert forall|q: int| 0 <= q < 6 implies #[trigger] flagged(r, q) == bit(delete_key, 10 * q + index) by {
                assert(bit(r, 10 * q) == (10 * q < 60 && (10 * q) % 10 == 0 && bit(delete_key, 10 * q + index)));
            }
        }
        r
    }

    /// A board above the lowest one after inserting rows: the top `delete_row` rows of
    /// `board_low` under the rows of `board_high`, with a row inserted at each row flagged by
    /// `delete_key` (filled if `filled`).
    fn create_upper_board(board_low: u64, board_high: u64, delete_row: u8, delete_key: u64, filled: bool) -> (r: u64)
        requires
            delete_row <= 6,
        ensures
            below(r, 60),
            forall|q: int| 0 <= q < 6 ==> #[trigger] row_of(r, q) == if flagged(delete_key, q) {
                fill_value(filled)
            } else {
                stacked_row(board_low, board_high, delete_row as int, kept_before(delete_key, q))
            },
    {
        let left_row = BOARD_HEIGHT - delete_row;
        let joined = bit_operators::board_shl(board_high, delete_row)
            | bit_operators::board_shr(board_low & VALID_BOARD_RANGE, left_row);
        proof {
            super::board_rows::lemma_board_upper(board_low, board_high, delete_row as int);
            assert forall|q: int| 0 <= q < 6 implies #[trigger] row_of(joined, kept_before(delete_key, q))
                == stacked_row(board_low, board_high, delete_row as int, kept_before(delete_key, q)) by {
                long_board_map::lemma_kept_before_bounds(delete_key, q);
            }
        }
        let r = long_board_map::insert_row(joined, delete_key, filled);
        r
    }

    /// The lowest board after inserting rows: its rows below `6 - delete_row`, with a row
    /// inserted at each row flagged by `delete_key` (filled if `filled`).
    fn create_bottom_board(board_bottom: u64, delete_row: u8, delete_key: u64, filled: bool) -> (r: u64)
        requires
            delete_row <= 6,
        ensures
            below(r, 60),
            forall|q: int| 0 <= q < 6 ==> #[trigger] row_of(r, q) == if flagged(delete_key, q) {
                fill_value(filled)
            } else if kept_before(delete_key, q) < 6 - delete_row {
                row_of(board_bottom, kept_before(delete_key, q))
            } else {
                0u64
            },
    {
        let left_row = BOARD_HEIGHT - delete_row;
        let m = bit_operators::get_row_mask_below_y(left_row);
        let lower = board_bottom & m;
        proof {
            super::board_rows::lemma_board_lower(board_bottom, m, left_row as int);
            assert forall|q: int| 0 <= q < 6 implies #[trigger] row_of(lower, kept_before(delete_key, q))
                == if kept_before(delete_key, q) < 6 - delete_row {
                row_of(board_bottom, kept_before(delete_key, q))
            } else {
                0u64
            } by {
                long_board_map::lemma_kept_before_bounds(delete_key, q);
            }
        }
        long_board_map::insert_row(lower, delete_key, filled)
    }
}

/// A field-wide key flagging exactly the rows below `n` keeps, below row `y`, the rows from `n`
/// up.
pub proof fn lemma_kept_below_mask(key: u64, n: int, y: int)
    requires
        0 <= n <= 24,
        0 <= y <= 24,
        forall|i: int| 0 <= i < 64 ==> #[trigger] bit(key, i) == (is_key_bit(i) && key_row(i) < n),
    ensures
        kept_below(key, y) == if y < n { 0 } else { y - n },
        y < 24 ==> key_flagged(key, y) == (y < n),
    decreases y,
{
    if y < 24 {
        lemma_key_index_row(y, key_index(y));
        assert(bit(key, key_index(y)) == (y < n));
    }
    if y > 0 {
        lemma_kept_below_mask(key, n, y - 1);
        lemma_key_index_row(y - 1, key_index(y - 1));
        assert(bit(key, key_index(y - 1)) == (y - 1 < n));
    }
}

/// Putting a block on cell `(x, y)` adds that cell and changes no other.
pub proof fn lemma_set_block_cells(bs: Seq<u64>, x: int, y: int)
    requires
        0 <= x < 10,
        0 <= y < 6 * bs.len(),
    ensures
        forall|cx: int, cy: int| #[trigger] block_at(bs.update(y / 6, bs[y / 6] | (1u64 << (x + 10 * (y % 6)) as u64)), cx, cy)
            == (block_at(bs, cx, cy) || (cx == x && cy == y)),
        no_overflow(bs) ==> no_overflow(bs.update(y / 6, bs[y / 6] | (1u64 << (x + 10 * (y % 6)) as u64))),
{
    let k = (x + 10 * (y % 6)) as u64;
    let nb = bs[y / 6] | (1u64 << k);
    let ns = bs.update(y / 6, nb);
    assert forall|i: int| 0 <= i < 64 implies #[trigger] bit(nb, i) == (bit(bs[y / 6], i) || i == k) by {
        lemma_bit_ops(bs[y / 6], 1u64 << k, i);
        super::bits::lemma_bit_consts(k, i);
    }
    assert forall|cx: int, cy: int| #[trigger] block_at(ns, cx, cy) == (block_at(bs, cx, cy) || (cx == x && cy == y)) by {
        if 0 <= cx < 10 && 0 <= cy < 6 * bs.len() && cy / 6 == y / 6 {
            assert(bit(nb, cx + 10 * (cy % 6)) == (bit(bs[y / 6], cx + 10 * (cy % 6)) || cx + 10 * (cy % 6) == k));
        }
    }
    if no_overflow(bs) {
        assert forall|j: int| 0 <= j < ns.len() implies below(#[trigger] ns[j], 60) by {
            if j == y / 6 {
                assert(below(bs[j], 60));
            }
        }
    }
}

/// Filling row `y` puts a block on each of its cells and leaves the other rows as they are.
pub proof fn lemma_fill_row_cells(bs: Seq<u64>, y: int)
    requires
        0 <= y < 6 * bs.len(),
    ensures
        forall|cx: int, cy: int| #[trigger] block_at(bs.update(y / 6, bs[y / 6] | (0x3ffu64 << (10 * (y % 6)) as u64)), cx, cy)
            == (block_at(bs, cx, cy) || (0 <= cx < 10 && cy == y)),
{
    let k = (10 * (y % 6)) as u64;
    let nb = bs[y / 6] | (0x3ffu64 << k);
    let ns = bs.update(y / 6, nb);
    assert(0x3ffu64 == ((1u64 << 10u64) - 1u64) as u64) by (bit_vector);
    assert forall|i: int| 0 <= i < 64 implies #[trigger] bit(nb, i) == (bit(bs[y / 6], i) || (k <= i < k + 10)) by {
        lemma_bit_ops(bs[y / 6], 0x3ffu64 << k, i);
        super::bits::lemma_bit_shl(0x3ffu64, k, i);
        if i >= k {
            super::bits::lemma_bit_consts(10u64, i - k);
        }
    }
    assert forall|cx: int, cy: int| #[trigger] block_at(ns, cx, cy) == (block_at(bs, cx, cy) || (0 <= cx < 10 && cy == y)) by {
        if 0 <= cx < 10 && 0 <= cy < 6 * bs.len() && cy / 6 == y / 6 {
            assert(bit(nb, cx + 10 * (cy % 6)) == (bit(bs[y / 6], cx + 10 * (cy % 6)) || (k <= cx + 10 * (cy % 6) < k + 10)));
        }
    }
}

/// Removing the block of cell `(x, y)` empties that cell and leaves the others as they are.
pub proof fn lemma_remove_block_cells(bs: Seq<u64>, x: int, y: int)
    requires
        0 <= x < 10,
        0 <= y < 6 * bs.len(),
    ensures
        forall|cx: int, cy: int| #[trigger] block_at(bs.update(y / 6, bs[y / 6] & !(1u64 << (x + 10 * (y % 6)) as u64)), cx, cy)
            == (block_at(bs, cx, cy) && !(cx == x && cy == y)),
{
    let k = (x + 10 * (y % 6)) as u64;
    let nb = bs[y / 6] & !(1u64 << k);
    let ns = bs.update(y / 6, nb);
    assert forall|i: int| 0 <= i < 64 implies #[trigger] bit(nb, i) == (bit(bs[y / 6], i) && i != k) by {
        lemma_bit_ops(bs[y / 6], !(1u64 << k), i);
        super::bits::lemma_bit_not(1u64 << k, i);
        super::bits::lemma_bit_consts(k, i);
    }
    assert forall|cx: int, cy: int| #[trigger] block_at(ns, cx, cy) == (block_at(bs, cx, cy) && !(cx == x && cy == y)) by {
        if 0 <= cx < 10 && 0 <= cy < 6 * bs.len() && cy / 6 == y / 6 {
            assert(bit(nb, cx + 10 * (cy % 6)) == (bit(bs[y / 6], cx + 10 * (cy % 6)) && cx + 10 * (cy % 6) != k));
        }
    }
}

/// Removing the filled rows and then inserting filled rows at the key of the removed rows gives
/// the field back.
pub proof fn lemma_clear_then_insert_restores(bs: Seq<u64>, key: u64, cleared: Seq<u64>, restored: Seq<u64>)
    requires
        bs.len() <= 4,
        forall|i: int| 0 <= i < 64 ==> #[trigger] bit(key, i) == (is_key_bit(i) && key_row(i) < 6 * bs.len() && row_full(
            bs,
            key_row(i),
        )),
        forall|y: int| 0 <= y < 6 * bs.len() && !key_flagged(key, y) ==> #[trigger] field_row(cleared, kept_below(key, y))
            == field_row(bs, y),
        forall|y: int| 0 <= y < 6 * bs.len() ==> #[trigger] field_row(restored, y) == if key_flagged(key, y) {
            0x3ffu64
        } else {
            field_row(cleared, kept_below(key, y))
        },
    ensures
        forall|y: int| 0 <= y < 6 * bs.len() ==> #[trigger] field_row(restored, y) == field_row(bs, y),
{
    assert forall|y: int| 0 <= y < 6 * bs.len() implies #[trigger] field_row(restored, y) == field_row(bs, y) by {
        lemma_key_index_row(y, key_index(y));
        assert(key_flagged(key, y) == row_full(bs, y));
    }
}

/// Inverting a field twice gives it back, for boards with no bit above their 60 cells.
pub proof fn lemma_invert_involution(board: u64)
    requires
        board & !VALID_BOARD_RANGE == 0,
    ensures
        !(!board & VALID_BOARD_RANGE) & VALID_BOARD_RANGE == board,
{
    assert(!(!board & 0x0fff_ffff_ffff_ffffu64) & 0x0fff_ffff_ffff_ffffu64 == board) by (bit_vector)
        requires
            board & !0x0fff_ffff_ffff_ffffu64 == 0,
    ;
}

/// Putting a block on an empty cell and removing it again gives the board back (for a field's
/// boards and for a field of columns alike).
pub proof fn lemma_set_then_remove_block(board: u64, i: int)
    requires
        0 <= i < 64,
        !bit(board, i),
    ensures
        (board | (1u64 << i as u64)) & !(1u64 << i as u64) == board,
{
    lemma_test_bit(board, i as u64);
    let m = 1u64 << i as u64;
    assert((board | m) & !m == board) by (bit_vector)
        requires
            board & m == 0,
    ;
}

/// Adding the blocks of a disjoint board and removing them again gives the board back (a
/// piece put where it fits and then removed, or two fields merged and reduced).
pub proof fn lemma_merge_then_reduce(board: u64, other: u64)
    requires
        board & other == 0,
    ensures
        (board | other) & !other == board,
{
    assert((board | other) & !other == board) by (bit_vector)
        requires
            board & other == 0,
    ;
}

/// A board with a shape's mask added holds a block at a cell iff it held one there or the shape
/// covers it, for a center between the walls.
pub proof fn lemma_board_put_cell(b: u64, p: Piece, r: Rotate, x: int, y: int, cx: int, cy: int)
    requires
        -mino_min_x(p, r) <= x < 10 - mino_max_x(p, r),
        -4 < y < 8,
        0 <= cx < 10,
        0 <= cy < 6,
    ensures
        cell(b | mask_at(p, r, x, y), cx, cy) == (cell(b, cx, cy) || covers(p, r, x, y, cx, cy)),
{
    Mino::lemma_cells_in_bounds(p, r);
    let i = cx + 10 * cy;
    lemma_bit_ops(b, mask_at(p, r, x, y), i);
    lemma_mask_at_bits(p, r, x, y, i);
    if exists|j: int| 0 <= j < 4 && i == (x + (#[trigger] mino_cells(p, r)[j]).0) + 10 * (y + mino_cells(p, r)[j].1) {
        let j = choose|j: int| 0 <= j < 4 && i == (x + (#[trigger] mino_cells(p, r)[j]).0) + 10 * (y + mino_cells(p, r)[j].1);
        assert(0 <= x + mino_cells(p, r)[j].0 < 10);
        assert(cx == x + mino_cells(p, r)[j].0 && cy == y + mino_cells(p, r)[j].1);
    }
    if covers(p, r, x, y, cx, cy) {
        let j = choose|j: int| 0 <= j < 4 && cx == x + (#[trigger] mino_cells(p, r)[j]).0 && cy == y + mino_cells(p, r)[j].1;
        assert(i == (x + mino_cells(p, r)[j].0) + 10 * (y + mino_cells(p, r)[j].1));
    }
}

/// A shape covers no cell of a row it does not reach.
pub proof fn lemma_covers_rows(p: Piece, r: Rotate, x: int, y: int, cx: int, cy: int)
    ensures
        covers(p, r, x, y, cx, cy) ==> y + mino_min_y(p, r) <= cy <= y + mino_max_y(p, r),
        covers(p, r, x, y, cx, cy) == covers(p, r, x, y - 6, cx, cy - 6),
        covers(p, r, x, y, cx, cy) == covers(p, r, x, y + 6, cx, cy + 6),
{
    Mino::lemma_cells_in_bounds(p, r);
    if covers(p, r, x, y, cx, cy) {
        let j = choose|j: int| 0 <= j < 4 && cx == x + (#[trigger] mino_cells(p, r)[j]).0 && cy == y + mino_cells(p, r)[j].1;
        assert(covers(p, r, x, y - 6, cx, cy - 6));
        assert(covers(p, r, x, y + 6, cx, cy + 6));
    }
    if covers(p, r, x, y - 6, cx, cy - 6) {
        let j = choose|j: int| 0 <= j < 4 && cx == x + (#[trigger] mino_cells(p, r)[j]).0 && cy - 6 == y - 6 + mino_cells(
            p,
            r,
        )[j].1;
        assert(covers(p, r, x, y, cx, cy));
    }
    if covers(p, r, x, y + 6, cx, cy + 6) {
        let j = choose|j: int| 0 <= j < 4 && cx == x + (#[trigger] mino_cells(p, r)[j]).0 && cy + 6 == y + 6 + mino_cells(
            p,
            r,
        )[j].1;
        assert(covers(p, r, x, y, cx, cy));
    }
}

/// No cell covered by the shape of `p` in orientation `r` centered on `(x, y)` holds a block.
pub open spec fn shape_clear(bs: Seq<u64>, p: Piece, r: Rotate, x: int, y: int) -> bool {
    forall|cx: int, cy: int| #[trigger] covers(p, r, x, y, cx, cy) ==> !block_at(bs, cx, cy)
}

/// No cell of board `k` covered by the shape holds a block.
pub open spec fn board_clear(bs: Seq<u64>, k: int, p: Piece, r: Rotate, x: int, y: int) -> bool {
    forall|cx: int, cy: int| 6 * k <= cy < 6 * k + 6 && #[trigger] covers(p, r, x, y, cx, cy) ==> !block_at(bs, cx, cy)
}

/// A board with a shape's mask removed holds a block at a cell iff it held one there and the
/// shape does not cover it, for a center between the walls.
pub proof fn lemma_board_remove_cell(b: u64, p: Piece, r: Rotate, x: int, y: int, cx: int, cy: int)
    requires
        -mino_min_x(p, r) <= x < 10 - mino_max_x(p, r),
        -4 < y < 8,
        0 <= cx < 10,
        0 <= cy < 6,
    ensures
        cell(b & !mask_at(p, r, x, y), cx, cy) == (cell(b, cx, cy) && !covers(p, r, x, y, cx, cy)),
{
    lemma_board_put_cell(0u64, p, r, x, y, cx, cy);
    let i = cx + 10 * cy;
    lemma_bit_ops(b, !mask_at(p, r, x, y), i);
    super::bits::lemma_bit_not(mask_at(p, r, x, y), i);
    lemma_bit_ops(0u64, mask_at(p, r, x, y), i);
    super::bits::lemma_zero_bits(0u64);
}

/// A board with nothing above its 60 cells is disjoint from a shape's mask iff no cell of the
/// board covered by the shape holds a block.
pub proof fn lemma_board_mask_disjoint(b: u64, p: Piece, r: Rotate, x: int, y: int)
    requires
        -mino_min_x(p, r) <= x < 10 - mino_max_x(p, r),
        -4 < y < 8,
        below(b, 60),
    ensures
        (b & mask_at(p, r, x, y) == 0) == (forall|cx: int, cy: int| 0 <= cy < 6 && #[trigger] covers(p, r, x, y, cx, cy)
            ==> !cell(b, cx, cy)),
{
    Mino::lemma_cells_in_bounds(p, r);
    let m = mask_at(p, r, x, y);
    super::bits::lemma_zero_bits(b & m);
    if b & m == 0 {
        assert forall|cx: int, cy: int| 0 <= cy < 6 && #[trigger] covers(p, r, x, y, cx, cy) implies !cell(b, cx, cy) by {
            let j = choose|j: int| 0 <= j < 4 && cx == x + (#[trigger] mino_cells(p, r)[j]).0 && cy == y + mino_cells(p, r)[j].1;
            let i = cx + 10 * cy;
            lemma_mask_at_bits(p, r, x, y, i);
            assert(i == (x + mino_cells(p, r)[j].0) + 10 * (y + mino_cells(p, r)[j].1));
            lemma_bit_ops(b, m, i);
            assert(!bit(b & m, i));
        }
    }
    if forall|cx: int, cy: int| 0 <= cy < 6 && #[trigger] covers(p, r, x, y, cx, cy) ==> !cell(b, cx, cy) {
        assert forall|i: int| 0 <= i < 64 implies !#[trigger] bit(b & m, i) by {
            lemma_bit_ops(b, m, i);
            lemma_mask_at_bits(p, r, x, y, i);
            if bit(m, i) && i < 60 {
                let j = choose|j: int| 0 <= j < 4 && i == (x + (#[trigger] mino_cells(p, r)[j]).0) + 10 * (y + mino_cells(p, r)[j].1);
                let cx = x + mino_cells(p, r)[j].0;
                let cy = y + mino_cells(p, r)[j].1;
                assert(0 <= cx < 10);
                assert(0 <= cy < 6);
                assert(covers(p, r, x, y, cx, cy));
            }
        }
    }
}

/// Moving a shape's center and a cell by the same number of rows keeps whether the shape
/// covers the cell.
pub proof fn lemma_covers_shift(p: Piece, r: Rotate, x: int, y: int, cx: int, cy: int, d: int)
    ensures
        covers(p, r, x, y, cx, cy) == covers(p, r, x, y - d, cx, cy - d),
{
    if covers(p, r, x, y, cx, cy) {
        let j = choose|j: int| 0 <= j < 4 && cx == x + (#[trigger] mino_cells(p, r)[j]).0 && cy == y + mino_cells(p, r)[j].1;
        assert(cy - d == y - d + mino_cells(p, r)[j].1);
    }
    if covers(p, r, x, y - d, cx, cy - d) {
        let j = choose|j: int| 0 <= j < 4 && cx == x + (#[trigger] mino_cells(p, r)[j]).0 && cy - d == y - d + mino_cells(
            p,
            r,
        )[j].1;
        assert(cy == y + mino_cells(p, r)[j].1);
    }
}

/// Board `k` of a field is disjoint from the shape's mask placed at row `y - 6 * k` of that
/// board iff no cell of board `k` covered by the shape holds a block.
pub proof fn lemma_board_window(bs: Seq<u64>, k: int, p: Piece, r: Rotate, x: int, y: int)
    requires
        0 <= k < bs.len(),
        -mino_min_x(p, r) <= x < 10 - mino_max_x(p, r),
        -4 < y - 6 * k < 8,
        no_overflow(bs),
    ensures
        (bs[k] & mask_at(p, r, x, y - 6 * k) == 0) == board_clear(bs, k, p, r, x, y),
{
    lemma_board_mask_disjoint(bs[k], p, r, x, y - 6 * k);
    assert(below(bs[k], 60));
    if bs[k] & mask_at(p, r, x, y - 6 * k) == 0 {
        assert forall|cx: int, cy: int| 6 * k <= cy < 6 * k + 6 && #[trigger] covers(p, r, x, y, cx, cy) implies !block_at(
            bs,
            cx,
            cy,
        ) by {
            lemma_covers_shift(p, r, x, y, cx, cy, 6 * k);
            assert(covers(p, r, x, y - 6 * k, cx, cy - 6 * k));
            assert(cy / 6 == k && cy % 6 == cy - 6 * k);
        }
    }
    if board_clear(bs, k, p, r, x, y) {
        assert forall|cx: int, cy: int| 0 <= cy < 6 && #[trigger] covers(p, r, x, y - 6 * k, cx, cy) implies !cell(
            bs[k],
            cx,
            cy,
        ) by {
            lemma_covers_shift(p, r, x, y, cx, cy + 6 * k, 6 * k);
            assert(covers(p, r, x, y, cx, cy + 6 * k));
            Mino::lemma_cells_in_bounds(p, r);
            let j = choose|j: int| 0 <= j < 4 && cx == x + (#[trigger] mino_cells(p, r)[j]).0 && cy == y - 6 * k + mino_cells(
                p,
                r,
            )[j].1;
            assert(0 <= cx < 10);
            assert((cy + 6 * k) / 6 == k && (cy + 6 * k) % 6 == cy);
            assert(!block_at(bs, cx, cy + 6 * k));
        }
    }
}

/// A shape is clear of blocks iff it is clear on every board.
pub proof fn lemma_shape_clear_boards(bs: Seq<u64>, p: Piece, r: Rotate, x: int, y: int)
    ensures
        shape_clear(bs, p, r, x, y) == (forall|k: int| 0 <= k < bs.len() ==> #[trigger] board_clear(bs, k, p, r, x, y)),
{
    if forall|k: int| 0 <= k < bs.len() ==> #[trigger] board_clear(bs, k, p, r, x, y) {
        assert forall|cx: int, cy: int| #[trigger] covers(p, r, x, y, cx, cy) implies !block_at(bs, cx, cy) by {
            if block_at(bs, cx, cy) {
                let k = cy / 6;
                assert(board_clear(bs, k, p, r, x, y));
            }
        }
    }
}

} // verus!
