use vstd::prelude::*;
use vstd::string::StringSliceAdditionalSpecFns;
use super::column_field::{ColumnBoards, ColumnField, column_bit};
use super::column_small_field::ColumnSmallField;
use crate::sfinder_core::field::bits::{bit, lemma_bit_consts, lemma_bit_ops, lemma_zero_bits};

verus! {

/// Whether the mark of cell `(x, y)` of a column marks text, `width` characters per row and
/// top row first, is a block mark.
pub open spec fn column_mark_is_block(marks: Seq<char>, width: int, height: int, x: int, y: int) -> bool {
    let c = marks[(height - y - 1) * width + x];
    c != ' ' && c != '_'
}

/// Whether some block mark of the text falls on bit `i` of the board.
pub open spec fn marked_bit(marks: Seq<char>, width: int, height: int, i: int) -> bool {
    exists|x: int, y: int|
        0 <= x < width && 0 <= y < height && #[trigger] column_mark_is_block(marks, width, height, x, y) && (y + height
            * x) % 64 == i
}

/// An empty field of columns.
pub fn create_small_field() -> (r: ColumnSmallField)
    ensures
        r.board() == 0,
{
    ColumnSmallField::new()
}

/// A field of columns holding the board given, if any.
pub fn create_small_field_from_inner(boards: &[u64]) -> (r: ColumnSmallField)
    requires
        boards@.len() <= 1,
    ensures
        r.board() == if boards@.len() == 0 {
            0
        } else {
            boards@[0]
        },
{
    if boards.len() == 0 {
        ColumnSmallField::new()
    } else {
        ColumnSmallField::from(boards[0])
    }
}

/// A field of columns of height `height` read from a marks text, top row first; a space or
/// `_` marks an empty cell and any other character a block.
pub fn create_small_field_with_marks(marks: String, height: u8) -> (r: ColumnSmallField)
    requires
        marks.is_ascii(),
        0 < height,
        6 * height < 256,
        marks@.len() <= 6 * height,
        (marks@.len() as int) % (height as int) == 0,
    ensures
        forall|i: int| 0 <= i < 64 ==> #[trigger] bit(r.board(), i) == marked_bit(
            marks@,
            (marks@.len() as int) / (height as int),
            height as int,
            i,
        ),
{
    broadcast use lemma_bit_ops, lemma_bit_consts;

    let text = marks.as_str();
    let len = text.unicode_len();
    let ghost m = marks@;
    let ghost h = height as int;
    let width: u8 = (len / height as usize) as u8;
    proof {
        assert(width as int * h <= len) by (nonlinear_arith)
            requires
                width as int == (len as int) / h,
                h > 0,
        ;
        assert(width * h == len) by (nonlinear_arith)
            requires
                width as int == (len as int) / h,
                h > 0,
                (len as int) % h == 0,
        ;
    }
    let mut field = ColumnSmallField::new();
    proof {
        assert forall|i: int| 0 <= i < 64 implies !#[trigger] bit(field.board(), i) by {
            lemma_zero_bits(0u64);
        }
    }
    let mut x: u8 = 0;
    while x < width
        invariant
            x <= width,
            width as int == (m.len() as int) / h,
            width * h == len,
            m.len() == len,
            len <= 6 * h,
            6 * h < 256,
            text@ == m,
            text.is_ascii(),
            h == height,
            0 < h,
            forall|i: int| 0 <= i < 64 ==> #[trigger] bit(field.board(), i) == exists|cx: int, cy: int|
                0 <= cx < x && 0 <= cy < h && #[trigger] column_mark_is_block(m, width as int, h, cx, cy) && (cy + h
                    * cx) % 64 == i,
        decreases width - x,
    {
        let mut y: u8 = 0;
        while y < height
            invariant
                x < width,
                y <= height,
                width as int == (m.len() as int) / h,
                width * h == len,
                m.len() == len,
                len <= 6 * h,
                6 * h < 256,
                text@ == m,
                text.is_ascii(),
                h == height,
                0 < h,
                forall|i: int| 0 <= i < 64 ==> #[trigger] bit(field.board(), i) == exists|cx: int, cy: int|
                    0 <= cx < width && 0 <= cy < h && #[trigger] column_mark_is_block(m, width as int, h, cx, cy) && (
                    cx < x || (cx == x && cy < y)) && (cy + h * cx) % 64 == i,
            decreases height - y,
        {
            proof {
                assert((height - y - 1) * width + x < width * height) by (nonlinear_arith)
                    requires
                        x < width,
                        y < height,
                ;
                assert(y + height * x < 6 * height) by (nonlinear_arith)
                    requires
                        x < width,
                        y < height,
                        width * height <= 6 * height,
                ;
            }
            let index: usize = ((height - y - 1) as usize) * (width as usize) + (x as usize);
            let c = text.get_ascii(index);
            let block_mark = c != 32u8 && c != 95u8;
            let ghost before = field.board();
            proof {
                assert(m[index as int] as u8 == c);
                assert(block_mark == column_mark_is_block(m, width as int, h, x as int, y as int));
            }
            if block_mark {
                field.set_block(x, y, height);
            }
            proof {
                let k = (y + h * x) % 64;
                assert forall|i: int| 0 <= i < 64 implies #[trigger] bit(field.board(), i) == exists|cx: int, cy: int|
                    0 <= cx < width && 0 <= cy < h && #[trigger] column_mark_is_block(m, width as int, h, cx, cy) && (
                    cx < x || (cx == x && cy < y + 1)) && (cy + h * cx) % 64 == i by {
                    lemma_bit_consts(k as u64, i);
                    if block_mark {
                        assert(field.board() == before | column_bit(x as int, y as int, h));
                        lemma_bit_ops(before, column_bit(x as int, y as int, h), i);
                        assert(bit(field.board(), i) == (bit(before, i) || bit(column_bit(x as int, y as int, h), i)));
                    } else {
                        assert(field.board() == before);
                    }
                    assert(bit(field.board(), i) == (bit(before, i) || (block_mark && i == k)));
                    if exists|cx: int, cy: int|
                        0 <= cx < width && 0 <= cy < h && #[trigger] column_mark_is_block(m, width as int, h, cx, cy)
                            && (cx < x || (cx == x && cy < y + 1)) && (cy + h * cx) % 64 == i {
                        let (cx, cy) = choose|cx: int, cy: int|
                            0 <= cx < width && 0 <= cy < h && #[trigger] column_mark_is_block(m, width as int, h, cx, cy)
                                && (cx < x || (cx == x && cy < y + 1)) && (cy + h * cx) % 64 == i;
                        if cx == x && cy == y {
                            assert(block_mark && i == k);
                        } else {
                            assert(bit(before, i));
                        }
                    }
                    if block_mark && i == k {
                        assert(column_mark_is_block(m, width as int, h, x as int, y as int));
                    }
                }
            }
            y = y + 1;
        }
        proof {
            assert forall|i: int| 0 <= i < 64 implies #[trigger] bit(field.board(), i) == exists|cx: int, cy: int|
                0 <= cx < x + 1 && 0 <= cy < h && #[trigger] column_mark_is_block(m, width as int, h, cx, cy) && (cy + h
                    * cx) % 64 == i by {
                if exists|cx: int, cy: int|
                    0 <= cx < x + 1 && 0 <= cy < h && #[trigger] column_mark_is_block(m, width as int, h, cx, cy) && (cy
                        + h * cx) % 64 == i {
                    let (cx, cy) = choose|cx: int, cy: int|
                        0 <= cx < x + 1 && 0 <= cy < h && #[trigger] column_mark_is_block(m, width as int, h, cx, cy) && (
                        cy + h * cx) % 64 == i;
                    assert(cx < width);
                }
            }
        }
        x = x + 1;
    }
    field
}

} // verus!
