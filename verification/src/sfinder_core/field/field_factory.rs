//! Building fields, empty or from text marks.
//!
//! A marks text holds 10 characters per row, top row first; a space or `_` marks an empty
//! cell and any other character a block.

use vstd::prelude::*;
use super::any_field::AnyField;
use super::field::{Field, FieldBoards, block_at, no_overflow, lemma_set_block_cells};
use super::large_field::LargeField;
use super::middle_field::MiddleField;
use super::small_field::SmallField;

verus! {

/// Whether the mark of cell `(x, y)` in a marks text is a block mark.
pub open spec fn mark_is_block(marks: Seq<char>, x: int, y: int) -> bool {
    let c = marks[(marks.len() / 10 - y - 1) * 10 + x];
    c != ' ' && c != '_'
}

/// Whether reading a marks text puts a block on cell `(x, y)`: with `is_block`, the cells
/// holding a block mark; without it, the cells holding an empty mark.
pub open spec fn marked(marks: Seq<char>, is_block: bool, x: int, y: int) -> bool {
    0 <= x < 10 && 0 <= y < marks.len() / 10 && mark_is_block(marks, x, y) == is_block
}

/// A field whose cells are exactly those given by `cells`, and with nothing above its rows.
pub open spec fn holds_exactly(bs: Seq<u64>, marks: Seq<char>, is_block: bool) -> bool {
    &&& no_overflow(bs)
    &&& forall|x: int, y: int| 0 <= x < 10 && 0 <= y < 6 * bs.len() ==> #[trigger] block_at(bs, x, y)
        == marked(marks, is_block, x, y)
}

/// The empty field of `create_field(max_height)`.
pub open spec fn field_of_height(max_height: int) -> AnyField {
    if max_height <= 6 {
        AnyField::Small(SmallField::empty())
    } else if max_height <= 12 {
        AnyField::Middle(MiddleField::empty())
    } else {
        AnyField::Large(LargeField::empty())
    }
}

/// An empty field holding `max_height` rows: one board up to 6 rows, two up to 12, four up to 24.
pub fn create_field(max_height: u8) -> (r: AnyField)
    requires
        max_height <= 24,
    ensures
        r == field_of_height(max_height as int),
        r.boards().len() == if max_height <= 6 { 1nat } else if max_height <= 12 { 2nat } else { 4nat },
        forall|k: int| 0 <= k < r.boards().len() ==> #[trigger] r.boards()[k] == 0,
{
    if max_height <= 6 {
        AnyField::Small(SmallField::new())
    } else if max_height <= 12 {
        AnyField::Middle(MiddleField::new())
    } else {
        AnyField::Large(LargeField::new())
    }
}

/// A field holding `max_height` rows, with the blocks of `marks` on the rows it holds.
pub fn create_field_with_marks_and_height(marks: String, max_height: u8) -> (r: AnyField)
    requires
        max_height <= 24,
        marks.is_ascii(),
        marks@.len() % 10 == 0,
        marks@.len() <= 120,
    ensures
        r.boards().len() == if max_height <= 6 { 1nat } else if max_height <= 12 { 2nat } else { 4nat },
        forall|x: int, y: int| 0 <= x < 10 && 0 <= y < 6 * r.boards().len() ==> #[trigger] block_at(r.boards(), x, y)
            == marked(marks@, true, x, y),
{
    let mut field = create_field(max_height);
    let ghost m = marks@;
    let marked_field = create_field_with_marks(marks);
    field.merge(&marked_field);
    proof {
        marked_field.lemma_board_count();
        let bs = field.boards();
        let mb = marked_field.boards();
        assert forall|x: int, y: int| 0 <= x < 10 && 0 <= y < 6 * bs.len() implies #[trigger] block_at(bs, x, y)
            == marked(m, true, x, y) by {
            super::bits::lemma_shift_zero(super::field::board_at(mb, y / 6));
            if y / 6 < mb.len() {
                assert(block_at(mb, x, y) == marked(m, true, x, y));
            } else {
                super::bits::lemma_bit_fixed(x + 10 * (y % 6));
            }
        }
    }
    field
}

/// The field given by a marks text of at most 12 rows, with as few boards as hold them.
pub fn create_field_with_marks(marks: String) -> (r: AnyField)
    requires
        marks.is_ascii(),
        marks@.len() % 10 == 0,
        marks@.len() <= 120,
    ensures
        r.boards().len() == if marks@.len() <= 60 { 1nat } else { 2nat },
        holds_exactly(r.boards(), marks@, true),
{
    let len = marks.as_str().unicode_len();
    if len <= 60 {
        AnyField::Small(create_small_field_with_marks(marks))
    } else {
        AnyField::Middle(create_middle_field_with_marks(marks))
    }
}

pub fn create_small_field() -> (r: SmallField)
    ensures
        r.boards() == seq![0u64],
{
    SmallField::new()
}

pub fn create_small_field_with_marks(marks: String) -> (r: SmallField)
    requires
        marks.is_ascii(),
        marks@.len() % 10 == 0,
        marks@.len() <= 60,
    ensures
        r.boards().len() == 1,
        holds_exactly(r.boards(), marks@, true),
{
    create_small_field_with_marks_and_block(marks, true)
}

/// Puts on `field` the blocks that `marks` gives with `is_block`; the field's other blocks stay.
fn set_marks_to_field<F: Field>(marks: String, field: &mut F, is_block: bool)
    requires
        marks.is_ascii(),
        marks@.len() % 10 == 0,
        marks@.len() / 10 <= 6 * old(field).boards().len(),
        old(field).boards().len() <= 4,
    ensures
        final(field).boards().len() == old(field).boards().len(),
        no_overflow(old(field).boards()) ==> no_overflow(final(field).boards()),
        forall|x: int, y: int| 0 <= x < 10 && 0 <= y < 6 * old(field).boards().len() ==> #[trigger] block_at(
            final(field).boards(),
            x,
            y,
        ) == (block_at(old(field).boards(), x, y) || marked(marks@, is_block, x, y)),
{
    let text = marks.as_str();
    let len = text.unicode_len();
    let max_y = (len / 10) as u8;
    let ghost m = marks@;
    let ghost old_boards = field.boards();
    let mut y: u8 = 0;
    while y < max_y
        invariant
            y <= max_y,
            max_y == m.len() / 10,
            m.len() == len,
            len % 10 == 0,
            text@ == m,
            text.is_ascii(),
            max_y <= 6 * old_boards.len(),
            field.boards().len() == old_boards.len(),
            no_overflow(old_boards) ==> no_overflow(field.boards()),
            forall|cx: int, cy: int| 0 <= cx < 10 && 0 <= cy < 6 * old_boards.len() ==> #[trigger] block_at(field.boards(), cx, cy)
                == (block_at(old_boards, cx, cy) || (cy < y && marked(m, is_block, cx, cy))),
        decreases max_y - y,
    {
        let mut x: u8 = 0;
        while x < 10
            invariant
                x <= 10,
                y < max_y,
                max_y == m.len() / 10,
                m.len() == len,
                len % 10 == 0,
                text@ == m,
                text.is_ascii(),
                max_y <= 6 * old_boards.len(),
                field.boards().len() == old_boards.len(),
                no_overflow(old_boards) ==> no_overflow(field.boards()),
                forall|cx: int, cy: int| 0 <= cx < 10 && 0 <= cy < 6 * old_boards.len() ==> #[trigger] block_at(field.boards(), cx, cy)
                    == (block_at(old_boards, cx, cy) || (cy < y && marked(m, is_block, cx, cy)) || (cy == y && cx < x
                    && marked(m, is_block, cx, cy))),
            decreases 10 - x,
        {
            let index: usize = ((max_y - y - 1) as usize) * 10 + (x as usize);
            let c = text.get_ascii(index);
            let block_mark = c != 32u8 && c != 95u8;
            proof {
                assert(m[index as int] as u8 == c);
                assert(block_mark == mark_is_block(m, x as int, y as int));
            }
            if block_mark == is_block {
                let ghost before = field.boards();
                field.set_block(x, y);
                proof {
                    lemma_set_block_cells(before, x as int, y as int);
                }
            }
            x = x + 1;
        }
        y = y + 1;
    }
}

pub fn create_small_field_with_marks_and_block(marks: String, is_block: bool) -> (r: SmallField)
    requires
        marks.is_ascii(),
        marks@.len() % 10 == 0,
        marks@.len() <= 60,
    ensures
        r.boards().len() == 1,
        holds_exactly(r.boards(), marks@, is_block),
{
    let mut field = create_small_field();
    let ghost m = marks@;
    proof {
        lemma_empty_holds_nothing(field.boards());
    }
    set_marks_to_field(marks, &mut field, is_block);
    field
}

pub fn create_middle_field() -> (r: MiddleField)
    ensures
        r.boards() == seq![0u64, 0u64],
{
    MiddleField::new()
}

pub fn create_middle_field_with_marks(marks: String) -> (r: MiddleField)
    requires
        marks.is_ascii(),
        marks@.len() % 10 == 0,
        marks@.len() <= 120,
    ensures
        r.boards().len() == 2,
        holds_exactly(r.boards(), marks@, true),
{
    create_middle_field_with_marks_and_block(marks, true)
}

pub fn create_middle_field_with_marks_and_block(marks: String, is_block: bool) -> (r: MiddleField)
    requires
        marks.is_ascii(),
        marks@.len() % 10 == 0,
        marks@.len() <= 120,
    ensures
        r.boards().len() == 2,
        holds_exactly(r.boards(), marks@, is_block),
{
    let mut field = create_middle_field();
    proof {
        lemma_empty_holds_nothing(field.boards());
    }
    set_marks_to_field(marks, &mut field, is_block);
    field
}

pub fn create_large_field() -> (r: LargeField)
    ensures
        r.boards() == seq![0u64, 0u64, 0u64, 0u64],
{
    LargeField::new()
}

fn create_large_field_with_marks_and_block(marks: String, is_block: bool) -> (r: LargeField)
    requires
        marks.is_ascii(),
        marks@.len() % 10 == 0,
        marks@.len() <= 240,
    ensures
        r.boards().len() == 4,
        holds_exactly(r.boards(), marks@, is_block),
{
    let mut field = create_large_field();
    proof {
        lemma_empty_holds_nothing(field.boards());
    }
    set_marks_to_field(marks, &mut field, is_block);
    field
}

pub fn create_large_field_with_marks(marks: String) -> (r: LargeField)
    requires
        marks.is_ascii(),
        marks@.len() % 10 == 0,
        marks@.len() <= 240,
    ensures
        r.boards().len() == 4,
        holds_exactly(r.boards(), marks@, true),
{
    create_large_field_with_marks_and_block(marks, true)
}

/// The field whose blocks are the empty marks of a marks text of at most 12 rows.
pub fn create_inverse_field(marks: String) -> (r: AnyField)
    requires
        marks.is_ascii(),
        marks@.len() % 10 == 0,
        marks@.len() <= 120,
    ensures
        r.boards().len() == if marks@.len() <= 60 { 1nat } else { 2nat },
        holds_exactly(r.boards(), marks@, false),
{
    let len = marks.as_str().unicode_len();
    if len <= 60 {
        AnyField::Small(create_small_field_with_marks_and_block(marks, false))
    } else {
        AnyField::Middle(create_middle_field_with_marks_and_block(marks, false))
    }
}

/// A field of zero boards holds no block and nothing above its rows.
proof fn lemma_empty_holds_nothing(bs: Seq<u64>)
    requires
        forall|k: int| 0 <= k < bs.len() ==> #[trigger] bs[k] == 0,
    ensures
        no_overflow(bs),
        forall|x: int, y: int| !#[trigger] block_at(bs, x, y),
{
    assert forall|i: int| 0 <= i < 64 implies !#[trigger] super::bits::bit(0u64, i) by {
        super::bits::lemma_bit_fixed(i);
    }
    assert forall|x: int, y: int| !#[trigger] block_at(bs, x, y) by {
        if 0 <= x < 10 && 0 <= y < 6 * bs.len() {
            assert(bs[y / 6] == 0);
            super::bits::lemma_bit_fixed(x + 10 * (y % 6));
        }
    }
}

} // verus!
