//! A field of any of the three sizes.

use vstd::prelude::*;
use std::cmp::Ordering;
use super::field::{Field, FieldBoards, board_at, contains_boards};
use super::field_constants::BoardCount;
use super::small_field::SmallField;
use super::middle_field::MiddleField;
use super::large_field::LargeField;
use crate::sfinder_core::mino::mino::Mino;
use crate::sfinder_core::mino::piece::Piece;
use crate::sfinder_core::srs::rotate::Rotate;

verus! {

/// A field of one, two or four boards.
#[derive(Clone, Copy, Debug)]
pub enum AnyField {
    Small(SmallField),
    Middle(MiddleField),
    Large(LargeField),
}

impl FieldBoards for AnyField {
    open spec fn boards(&self) -> Seq<u64> {
        match self {
            AnyField::Small(f) => f.boards(),
            AnyField::Middle(f) => f.boards(),
            AnyField::Large(f) => f.boards(),
        }
    }

    proof fn lemma_board_count(&self) {
        match self {
            AnyField::Small(f) => f.lemma_board_count(),
            AnyField::Middle(f) => f.lemma_board_count(),
            AnyField::Large(f) => f.lemma_board_count(),
        }
    }

    fn get_board(&self, index: u8) -> (r: u64) {
        match self {
            AnyField::Small(f) => f.get_board(index),
            AnyField::Middle(f) => f.get_board(index),
            AnyField::Large(f) => f.get_board(index),
        }
    }

    fn get_board_count(&self) -> (r: BoardCount) {
        match self {
            AnyField::Small(f) => f.get_board_count(),
            AnyField::Middle(f) => f.get_board_count(),
            AnyField::Large(f) => f.get_board_count(),
        }
    }

    fn get_max_field_height(&self) -> (r: u8) {
        match self {
            AnyField::Small(f) => f.get_max_field_height(),
            AnyField::Middle(f) => f.get_max_field_height(),
            AnyField::Large(f) => f.get_max_field_height(),
        }
    }
}

impl Field for AnyField {
    /// The empty field of one board.
    open spec fn empty_field() -> Self {
        AnyField::Small(SmallField::empty())
    }

    open spec fn can_put_spec(&self, p: Piece, r: Rotate, x: int, y: int) -> bool {
        match self {
            AnyField::Small(f) => f.can_put_spec(p, r, x, y),
            AnyField::Middle(f) => f.can_put_spec(p, r, x, y),
            AnyField::Large(f) => f.can_put_spec(p, r, x, y),
        }
    }

    open spec fn put_spec(&self, p: Piece, r: Rotate, x: int, y: int) -> Seq<u64> {
        match self {
            AnyField::Small(f) => f.put_spec(p, r, x, y),
            AnyField::Middle(f) => f.put_spec(p, r, x, y),
            AnyField::Large(f) => f.put_spec(p, r, x, y),
        }
    }

    open spec fn remove_spec(&self, p: Piece, r: Rotate, x: int, y: int) -> Seq<u64> {
        match self {
            AnyField::Small(f) => f.remove_spec(p, r, x, y),
            AnyField::Middle(f) => f.remove_spec(p, r, x, y),
            AnyField::Large(f) => f.remove_spec(p, r, x, y),
        }
    }

    proof fn lemma_put_cells(&self, p: Piece, r: Rotate, x: int, y: int, cx: int, cy: int) {
        match self {
            AnyField::Small(f) => f.lemma_put_cells(p, r, x, y, cx, cy),
            AnyField::Middle(f) => f.lemma_put_cells(p, r, x, y, cx, cy),
            AnyField::Large(f) => f.lemma_put_cells(p, r, x, y, cx, cy),
        }
    }

    proof fn lemma_remove_cells(&self, p: Piece, r: Rotate, x: int, y: int, cx: int, cy: int) {
        match self {
            AnyField::Small(f) => f.lemma_remove_cells(p, r, x, y, cx, cy),
            AnyField::Middle(f) => f.lemma_remove_cells(p, r, x, y, cx, cy),
            AnyField::Large(f) => f.lemma_remove_cells(p, r, x, y, cx, cy),
        }
    }

    proof fn lemma_can_put_cells(&self, p: Piece, r: Rotate, x: int, y: int) {
        match self {
            AnyField::Small(f) => f.lemma_can_put_cells(p, r, x, y),
            AnyField::Middle(f) => f.lemma_can_put_cells(p, r, x, y),
            AnyField::Large(f) => f.lemma_can_put_cells(p, r, x, y),
        }
    }

    fn new() -> (r: Self) {
        AnyField::Small(SmallField::new())
    }

    fn set_block(&mut self, x: u8, y: u8) {
        match self {
            AnyField::Small(f) => f.set_block(x, y),
            AnyField::Middle(f) => f.set_block(x, y),
            AnyField::Large(f) => f.set_block(x, y),
        }
    }

    fn remove_block(&mut self, x: u8, y: u8) {
        match self {
            AnyField::Small(f) => f.remove_block(x, y),
            AnyField::Middle(f) => f.remove_block(x, y),
            AnyField::Large(f) => f.remove_block(x, y),
        }
    }

    fn clear_all(&mut self) {
        match self {
            AnyField::Small(f) => f.clear_all(),
            AnyField::Middle(f) => f.clear_all(),
            AnyField::Large(f) => f.clear_all(),
        }
    }

    fn put(&mut self, mino: &Mino, x: u8, y: u8) {
        match self {
            AnyField::Small(f) => f.put(mino, x, y),
            AnyField::Middle(f) => f.put(mino, x, y),
            AnyField::Large(f) => f.put(mino, x, y),
        }
    }

    fn can_put(&self, mino: &Mino, x: u8, y: u8) -> (r: bool) {
        match self {
            AnyField::Small(f) => f.can_put(mino, x, y),
            AnyField::Middle(f) => f.can_put(mino, x, y),
            AnyField::Large(f) => f.can_put(mino, x, y),
        }
    }

    fn remove(&mut self, mino: &Mino, x: u8, y: u8) {
        match self {
            AnyField::Small(f) => f.remove(mino, x, y),
            AnyField::Middle(f) => f.remove(mino, x, y),
            AnyField::Large(f) => f.remove(mino, x, y),
        }
    }

    fn is_empty_block(&self, x: u8, y: u8) -> (r: bool) {
        match self {
            AnyField::Small(f) => f.is_empty_block(x, y),
            AnyField::Middle(f) => f.is_empty_block(x, y),
            AnyField::Large(f) => f.is_empty_block(x, y),
        }
    }

    fn exists_above_row(&self, y: u8) -> (r: bool) {
        match self {
            AnyField::Small(f) => f.exists_above_row(y),
            AnyField::Middle(f) => f.exists_above_row(y),
            AnyField::Large(f) => f.exists_above_row(y),
        }
    }

    fn is_empty(&self) -> (r: bool) {
        let r = match self {
            AnyField::Small(f) => f.is_empty(),
            AnyField::Middle(f) => f.is_empty(),
            AnyField::Large(f) => f.is_empty(),
        };
        proof {
            match self {
                AnyField::Small(f) => assert(self.boards() =~= f.boards()),
                AnyField::Middle(f) => assert(self.boards() =~= f.boards()),
                AnyField::Large(f) => assert(self.boards() =~= f.boards()),
            }
        }
        r
    }

    fn is_filled_in_column(&self, x: u8, max_y: u8) -> (r: bool) {
        match self {
            AnyField::Small(f) => f.is_filled_in_column(x, max_y),
            AnyField::Middle(f) => f.is_filled_in_column(x, max_y),
            AnyField::Large(f) => f.is_filled_in_column(x, max_y),
        }
    }

    fn is_wall_between_left(&self, x: u8, max_y: u8) -> (r: bool) {
        match self {
            AnyField::Small(f) => f.is_wall_between_left(x, max_y),
            AnyField::Middle(f) => f.is_wall_between_left(x, max_y),
            AnyField::Large(f) => f.is_wall_between_left(x, max_y),
        }
    }

    fn get_block_count_in_column(&self, x: u8, max_y: u8) -> (r: u32) {
        match self {
            AnyField::Small(f) => f.get_block_count_in_column(x, max_y),
            AnyField::Middle(f) => f.get_block_count_in_column(x, max_y),
            AnyField::Large(f) => f.get_block_count_in_column(x, max_y),
        }
    }

    fn get_block_count_in_row(&self, y: u8) -> (r: u32) {
        match self {
            AnyField::Small(f) => f.get_block_count_in_row(y),
            AnyField::Middle(f) => f.get_block_count_in_row(y),
            AnyField::Large(f) => f.get_block_count_in_row(y),
        }
    }

    fn exists_block_in_row(&self, y: u8) -> (r: bool) {
        match self {
            AnyField::Small(f) => f.exists_block_in_row(y),
            AnyField::Middle(f) => f.exists_block_in_row(y),
            AnyField::Large(f) => f.exists_block_in_row(y),
        }
    }

    fn get_num_of_all_blocks(&self) -> (r: u32) {
        match self {
            AnyField::Small(f) => f.get_num_of_all_blocks(),
            AnyField::Middle(f) => f.get_num_of_all_blocks(),
            AnyField::Large(f) => f.get_num_of_all_blocks(),
        }
    }

    fn clear_filled_rows_return_key(&mut self) -> (r: u64) {
        match self {
            AnyField::Small(f) => f.clear_filled_rows_return_key(),
            AnyField::Middle(f) => f.clear_filled_rows_return_key(),
            AnyField::Large(f) => f.clear_filled_rows_return_key(),
        }
    }

    fn get_filled_rows_key(&self) -> (r: u64) {
        match self {
            AnyField::Small(f) => f.get_filled_rows_key(),
            AnyField::Middle(f) => f.get_filled_rows_key(),
            AnyField::Large(f) => f.get_filled_rows_key(),
        }
    }

    fn get_using_key(&self) -> (r: u64) {
        match self {
            AnyField::Small(f) => f.get_using_key(),
            AnyField::Middle(f) => f.get_using_key(),
            AnyField::Large(f) => f.get_using_key(),
        }
    }

    fn insert_filled_row_with_key(&mut self, delete_key: u64) {
        match self {
            AnyField::Small(f) => f.insert_filled_row_with_key(delete_key),
            AnyField::Middle(f) => f.insert_filled_row_with_key(delete_key),
            AnyField::Large(f) => f.insert_filled_row_with_key(delete_key),
        }
    }

    fn insert_blank_row_with_key(&mut self, delete_key: u64) {
        match self {
            AnyField::Small(f) => f.insert_blank_row_with_key(delete_key),
            AnyField::Middle(f) => f.insert_blank_row_with_key(delete_key),
            AnyField::Large(f) => f.insert_blank_row_with_key(delete_key),
        }
    }

    fn delete_rows_with_key(&mut self, delete_key: u64) {
        match self {
            AnyField::Small(f) => f.delete_rows_with_key(delete_key),
            AnyField::Middle(f) => f.delete_rows_with_key(delete_key),
            AnyField::Large(f) => f.delete_rows_with_key(delete_key),
        }
    }

    fn fill_row(&mut self, y: u8) {
        match self {
            AnyField::Small(f) => f.fill_row(y),
            AnyField::Middle(f) => f.fill_row(y),
            AnyField::Large(f) => f.fill_row(y),
        }
    }

    fn prune(&self, max_height: u8) -> (r: AnyField) {
        match self {
            AnyField::Small(f) => f.prune(max_height),
            AnyField::Middle(f) => f.prune(max_height),
            AnyField::Large(f) => f.prune(max_height),
        }
    }

    fn merge<F: FieldBoards>(&mut self, other: &F) {
        match self {
            AnyField::Small(f) => f.merge(other),
            AnyField::Middle(f) => f.merge(other),
            AnyField::Large(f) => f.merge(other),
        }
    }

    fn can_merge<F: FieldBoards>(&self, other: &F) -> (r: bool) {
        match self {
            AnyField::Small(f) => f.can_merge(other),
            AnyField::Middle(f) => f.can_merge(other),
            AnyField::Large(f) => f.can_merge(other),
        }
    }

    fn reduce<F: FieldBoards>(&mut self, other: &F) {
        match self {
            AnyField::Small(f) => f.reduce(other),
            AnyField::Middle(f) => f.reduce(other),
            AnyField::Large(f) => f.reduce(other),
        }
    }

    fn get_upper_y_with_4_blocks(&self) -> (r: u8) {
        match self {
            AnyField::Small(f) => f.get_upper_y_with_4_blocks(),
            AnyField::Middle(f) => f.get_upper_y_with_4_blocks(),
            AnyField::Large(f) => f.get_upper_y_with_4_blocks(),
        }
    }

    fn get_min_x(&self) -> (r: Option<u8>) {
        match self {
            AnyField::Small(f) => f.get_min_x(),
            AnyField::Middle(f) => f.get_min_x(),
            AnyField::Large(f) => f.get_min_x(),
        }
    }

    fn get_min_y(&self) -> (r: Option<u8>) {
        match self {
            AnyField::Small(f) => f.get_min_y(),
            AnyField::Middle(f) => f.get_min_y(),
            AnyField::Large(f) => f.get_min_y(),
        }
    }

    fn slide_left(&mut self, slide: u8) {
        match self {
            AnyField::Small(f) => f.slide_left(slide),
            AnyField::Middle(f) => f.slide_left(slide),
            AnyField::Large(f) => f.slide_left(slide),
        }
    }

    fn slide_right(&mut self, slide: u8) {
        match self {
            AnyField::Small(f) => f.slide_right(slide),
            AnyField::Middle(f) => f.slide_right(slide),
            AnyField::Large(f) => f.slide_right(slide),
        }
    }

    fn slide_down_one(&mut self) {
        match self {
            AnyField::Small(f) => f.slide_down_one(),
            AnyField::Middle(f) => f.slide_down_one(),
            AnyField::Large(f) => f.slide_down_one(),
        }
    }

    fn slide_down(&mut self, slide: u8) {
        match self {
            AnyField::Small(f) => f.slide_down(slide),
            AnyField::Middle(f) => f.slide_down(slide),
            AnyField::Large(f) => f.slide_down(slide),
        }
    }

    fn slide_up_with_empty_row(&mut self, slide: u8) {
        match self {
            AnyField::Small(f) => f.slide_up_with_empty_row(slide),
            AnyField::Middle(f) => f.slide_up_with_empty_row(slide),
            AnyField::Large(f) => f.slide_up_with_empty_row(slide),
        }
    }

    fn slide_up_with_filled_row(&mut self, slide: u8) {
        match self {
            AnyField::Small(f) => f.slide_up_with_filled_row(slide),
            AnyField::Middle(f) => f.slide_up_with_filled_row(slide),
            AnyField::Large(f) => f.slide_up_with_filled_row(slide),
        }
    }

    fn contains<F: FieldBoards>(&self, child: &F) -> (r: bool) {
        let r = match self {
            AnyField::Small(f) => f.contains(child),
            AnyField::Middle(f) => f.contains(child),
            AnyField::Large(f) => f.contains(child),
        };
        proof {
            let cb = child.boards();
            match self {
                AnyField::Small(f) => {
                    assert(r == contains_boards(f.boards(), cb));
                    assert(self.boards() =~= f.boards());
                },
                AnyField::Middle(f) => {
                    assert(r == contains_boards(f.boards(), cb));
                    assert(self.boards() =~= f.boards());
                },
                AnyField::Large(f) => {
                    assert(r == contains_boards(f.boards(), cb));
                    assert(self.boards() =~= f.boards());
                },
            }
            assert(r == contains_boards(self.boards(), cb));
        }
        r
    }

    fn invert(&mut self) {
        match self {
            AnyField::Small(f) => f.invert(),
            AnyField::Middle(f) => f.invert(),
            AnyField::Large(f) => f.invert(),
        }
    }

    fn mirror(&mut self) {
        match self {
            AnyField::Small(f) => f.mirror(),
            AnyField::Middle(f) => f.mirror(),
            AnyField::Large(f) => f.mirror(),
        }
    }

    fn mask<F: FieldBoards>(&mut self, mask_field: &F) {
        match self {
            AnyField::Small(f) => f.mask(mask_field),
            AnyField::Middle(f) => f.mask(mask_field),
            AnyField::Large(f) => f.mask(mask_field),
        }
    }
}

impl PartialEq for AnyField {
    fn eq(&self, other: &Self) -> (r: bool) {
        let count = if self.get_board_count().is_smaller_than(other.get_board_count()) {
            other.get_board_count().len()
        } else {
            self.get_board_count().len()
        };
        let mut index: u8 = 0;
        proof {
            self.lemma_board_count();
            other.lemma_board_count();
        }
        while index < count
            invariant
                index <= count,
                count == 1 || count == 2 || count == 4,
                count >= self.boards().len() && count >= other.boards().len(),
                forall|k: int| 0 <= k < index ==> #[trigger] board_at(self.boards(), k) == board_at(other.boards(), k),
            decreases count - index,
        {
            if self.get_board(index) != other.get_board(index) {
                return false;
            }
            index = index + 1;
        }
        true
    }
}

impl vstd::std_specs::cmp::PartialEqSpecImpl for AnyField {
    open spec fn obeys_eq_spec() -> bool {
        true
    }

    open spec fn eq_spec(&self, other: &Self) -> bool {
        forall|k: int| 0 <= k < 4 ==> #[trigger] board_at(self.boards(), k) == board_at(other.boards(), k)
    }
}

/// Whether the boards of `a` come before those of `b` from board `k` on: the first board that
/// differs decides (boards past a field's last count as empty).
pub open spec fn boards_before(a: Seq<u64>, b: Seq<u64>, k: int) -> bool
    decreases 4 - k,
{
    if k >= 4 {
        false
    } else if board_at(a, k) < board_at(b, k) {
        true
    } else if board_at(a, k) > board_at(b, k) {
        false
    } else {
        boards_before(a, b, k + 1)
    }
}

impl AnyField {
    /// The lowest board at which the two fields differ, or 4 where they agree on every board.
    fn first_difference(&self, other: &Self) -> (r: u8)
        ensures
            r <= 4,
            (r == 4) == (forall|k: int| 0 <= k < 4 ==> #[trigger] board_at(self.boards(), k) == board_at(
                other.boards(),
                k,
            )),
            r < 4 ==> board_at(self.boards(), r as int) != board_at(other.boards(), r as int) && boards_before(
                self.boards(),
                other.boards(),
                0,
            ) == (board_at(self.boards(), r as int) < board_at(other.boards(), r as int)),
    {
        let count = if self.get_board_count().is_smaller_than(other.get_board_count()) {
            other.get_board_count().len()
        } else {
            self.get_board_count().len()
        };
        proof {
            self.lemma_board_count();
            other.lemma_board_count();
        }
        let mut index: u8 = 0;
        while index < count
            invariant
                index <= count,
                count == 1 || count == 2 || count == 4,
                count >= self.boards().len() && count >= other.boards().len(),
                forall|k: int| 0 <= k < index ==> #[trigger] board_at(self.boards(), k) == board_at(other.boards(), k),
                boards_before(self.boards(), other.boards(), 0) == boards_before(self.boards(), other.boards(), index as int),
            decreases count - index,
        {
            if self.get_board(index) != other.get_board(index) {
                return index;
            }
            index = index + 1;
        }
        proof {
            assert forall|k: int| 0 <= k < 4 implies #[trigger] board_at(self.boards(), k) == board_at(other.boards(), k) by {
                if k >= count {
                    assert(board_at(self.boards(), k) == 0 && board_at(other.boards(), k) == 0);
                }
            }
        }
        4
    }
}

impl PartialOrd for AnyField {
    fn partial_cmp(&self, other: &Self) -> (r: Option<Ordering>) {
        let index = self.first_difference(other);
        if index == 4 {
            Some(Ordering::Equal)
        } else if self.get_board(index) < other.get_board(index) {
            Some(Ordering::Less)
        } else {
            Some(Ordering::Greater)
        }
    }
}

impl vstd::std_specs::cmp::PartialOrdSpecImpl for AnyField {
    open spec fn obeys_partial_cmp_spec() -> bool {
        true
    }

    /// Equal where every board agrees, else ordered by the lowest board that differs.
    open spec fn partial_cmp_spec(&self, other: &Self) -> Option<Ordering> {
        if forall|k: int| 0 <= k < 4 ==> #[trigger] board_at(self.boards(), k) == board_at(other.boards(), k) {
            Some(Ordering::Equal)
        } else if boards_before(self.boards(), other.boards(), 0) {
            Some(Ordering::Less)
        } else {
            Some(Ordering::Greater)
        }
    }
}

} // verus!
