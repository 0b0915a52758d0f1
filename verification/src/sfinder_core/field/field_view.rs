//! Fields drawn as text: `X` for a block, `_` for an empty cell, top row first.
use vstd::prelude::*;
use vstd::string::StringExecFns;
use super::field::{Field, FieldBoards, block_at};

verus! {

/// Row `y` of a field drawn as 10 characters.
pub open spec fn field_row_text(bs: Seq<u64>, y: int) -> Seq<char> {
    Seq::new(
        10,
        |x: int|
            if block_at(bs, x, y) {
                'X'
            } else {
                '_'
            },
    )
}

/// Rows `height - 1` down to `height - k` of a field, each followed by a line break.
pub open spec fn field_text(bs: Seq<u64>, height: int, k: int) -> Seq<char>
    decreases k,
{
    if k <= 0 {
        Seq::empty()
    } else {
        field_text(bs, height, k - 1) + field_row_text(bs, height - k) + seq!['\n']
    }
}

/// Rows `top - 1` down to `top - k` of a field, with a line break between two rows.
pub open spec fn joined_rows(bs: Seq<u64>, top: int, k: int) -> Seq<char>
    decreases k,
{
    if k <= 0 {
        Seq::empty()
    } else if k == 1 {
        field_row_text(bs, top - 1)
    } else {
        joined_rows(bs, top, k - 1) + seq!['\n'] + field_row_text(bs, top - k)
    }
}

/// Whether row `y` of a field holds a block.
pub open spec fn row_used(bs: Seq<u64>, y: int) -> bool {
    exists|x: int| 0 <= x < 10 && #[trigger] block_at(bs, x, y)
}

/// Number of rows below the lowest empty run that reaches row `height`: one more than the
/// highest used row below `height`, or 0.
pub open spec fn used_height(bs: Seq<u64>, height: int) -> int
    decreases height,
{
    if height <= 0 {
        0
    } else if row_used(bs, height - 1) {
        height
    } else {
        used_height(bs, height - 1)
    }
}

proof fn lemma_used_height(bs: Seq<u64>, height: int)
    requires
        0 <= height,
    ensures
        0 <= used_height(bs, height) <= height,
        forall|y: int| used_height(bs, height) <= y < height ==> !#[trigger] row_used(bs, y),
        used_height(bs, height) > 0 ==> row_used(bs, used_height(bs, height) - 1),
    decreases height,
{
    if height > 0 && !row_used(bs, height - 1) {
        lemma_used_height(bs, height - 1);
    }
}

/// The top `max_field_height` rows of the field drawn as text, each line ended by a line break.
pub fn to_string_with_height<F: Field>(field: &F, max_field_height: u8) -> (r: String)
    requires
        max_field_height <= 6 * field.boards().len(),
    ensures
        r@ == field_text(field.boards(), max_field_height as int, max_field_height as int),
{
    let ghost bs = field.boards();
    let ghost h = max_field_height as int;
    let mut out = String::new();
    let mut k: u8 = 0;
    while k < max_field_height
        invariant
            k <= max_field_height,
            max_field_height <= 6 * field.boards().len(),
            bs == field.boards(),
            h == max_field_height,
            out@ == field_text(bs, h, k as int),
        decreases max_field_height - k,
    {
        let y: u8 = max_field_height - 1 - k;
        let ghost prefix = out@;
        let mut x: u8 = 0;
        while x < 10
            invariant
                x <= 10,
                k < max_field_height,
                y == max_field_height - 1 - k,
                max_field_height <= 6 * field.boards().len(),
                bs == field.boards(),
                h == max_field_height,
                prefix == field_text(bs, h, k as int),
                out@ == prefix + field_row_text(bs, y as int).take(x as int),
            decreases 10 - x,
        {
            let empty = field.is_empty_block(x, y);
            if empty {
                out.append("_");
            } else {
                out.append("X");
            }
            proof {
                reveal_strlit("_");
                reveal_strlit("X");
                assert(field_row_text(bs, y as int).take(x as int + 1) =~= field_row_text(bs, y as int).take(x as int).push(
                    field_row_text(bs, y as int)[x as int],
                ));
                assert(out@ =~= prefix + field_row_text(bs, y as int).take(x as int + 1));
            }
            x = x + 1;
        }
        out.append("\n");
        proof {
            reveal_strlit("\n");
            assert(field_row_text(bs, y as int).take(10) =~= field_row_text(bs, y as int));
            assert(out@ =~= field_text(bs, h, k as int + 1));
        }
        k = k + 1;
    }
    out
}

/// The whole field drawn as text, each line ended by a line break.
pub fn to_string<F: Field>(field: &F) -> (r: String)
    ensures
        r@ == field_text(field.boards(), 6 * field.boards().len() as int, 6 * field.boards().len() as int),
{
    proof {
        field.lemma_board_count();
    }
    let height = field.get_max_field_height();
    to_string_with_height(field, height)
}

/// The field drawn as text without the empty rows at its top, lines joined by line breaks.
pub fn to_reduced_string<F: Field>(field: &F) -> (r: String)
    ensures
        r@ == joined_rows(
            field.boards(),
            used_height(field.boards(), 6 * field.boards().len() as int),
            used_height(field.boards(), 6 * field.boards().len() as int),
        ),
{
    proof {
        field.lemma_board_count();
    }
    let max_field_height = field.get_max_field_height();
    let ghost bs = field.boards();
    let ghost h = max_field_height as int;
    let ghost u = used_height(bs, h);
    proof {
        lemma_used_height(bs, h);
    }
    let mut out = String::new();
    let mut started = false;
    let mut k: u8 = 0;
    while k < max_field_height
        invariant
            k <= max_field_height,
            max_field_height == 6 * field.boards().len(),
            bs == field.boards(),
            h == max_field_height,
            u == used_height(bs, h),
            0 <= u <= h,
            forall|y: int| u <= y < h ==> !#[trigger] row_used(bs, y),
            u > 0 ==> row_used(bs, u - 1),
            started == (h - k < u),
            out@ == if started {
                joined_rows(bs, u, u - (h - k))
            } else {
                Seq::<char>::empty()
            },
        decreases max_field_height - k,
    {
        let y: u8 = max_field_height - 1 - k;
        let mut line = String::new();
        let mut empty_line = true;
        let mut x: u8 = 0;
        while x < 10
            invariant
                x <= 10,
                k < max_field_height,
                y == max_field_height - 1 - k,
                max_field_height == 6 * field.boards().len(),
                bs == field.boards(),
                line@ == field_row_text(bs, y as int).take(x as int),
                empty_line == forall|c: int| 0 <= c < x ==> !#[trigger] block_at(bs, c, y as int),
            decreases 10 - x,
        {
            let empty = field.is_empty_block(x, y);
            if empty {
                line.append("_");
            } else {
                line.append("X");
                empty_line = false;
            }
            proof {
                reveal_strlit("_");
                reveal_strlit("X");
                assert(field_row_text(bs, y as int).take(x as int + 1) =~= field_row_text(bs, y as int).take(x as int).push(
                    field_row_text(bs, y as int)[x as int],
                ));
            }
            x = x + 1;
        }
        proof {
            assert(field_row_text(bs, y as int).take(10) =~= field_row_text(bs, y as int));
            assert(empty_line == !row_used(bs, y as int));
        }
        if !(empty_line && !started) {
            if started {
                out.append("\n");
            }
            out.append(line.as_str());
            proof {
                reveal_strlit("\n");
                assert(y < u);
                if !started {
                    assert(y == u - 1);
                }
                assert(out@ =~= joined_rows(bs, u, u - (h - (k + 1))));
            }
            started = true;
        } else {
            proof {
                assert(!(y < u)) by {
                    if y < u && y != u - 1 {
                    }
                }
            }
        }
        k = k + 1;
    }
    proof {
        if !started {
            assert(u == 0);
        }
    }
    out
}

} // verus!
