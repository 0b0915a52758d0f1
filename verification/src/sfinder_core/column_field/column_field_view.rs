use vstd::prelude::*;
use vstd::string::StringExecFns;
use super::column_field::{ColumnBoards, ColumnField, column_bit};

verus! {

/// Row `y` of a field of columns drawn as text: `X` for a block, `_` for an empty cell.
pub open spec fn column_row_text(board: u64, width: int, height: int, y: int) -> Seq<char> {
    Seq::new(
        width as nat,
        |x: int|
            if board & column_bit(x, y, height) == 0 {
                '_'
            } else {
                'X'
            },
    )
}

/// The top `k` rows of a field of columns drawn as text, one line per row.
pub open spec fn column_text(board: u64, width: int, height: int, k: int) -> Seq<char>
    decreases k,
{
    if k <= 0 {
        Seq::empty()
    } else if k == 1 {
        column_row_text(board, width, height, height - 1)
    } else {
        column_text(board, width, height, k - 1) + seq!['\n'] + column_row_text(board, width, height, height - k)
    }
}

/// The field drawn as text: `max_height` lines of `max_width` characters, top row first.
pub fn to_string<C: ColumnField>(field: &C, max_width: u8, max_height: u8) -> (r: String)
    requires
        max_width * max_height <= 256,
    ensures
        r@ == column_text(field.board(), max_width as int, max_height as int, max_height as int),
{
    let ghost b = field.board();
    let ghost w = max_width as int;
    let ghost h = max_height as int;
    proof {
        reveal_strlit("_");
        reveal_strlit("X");
        reveal_strlit("\n");
    }
    let mut out = String::new();
    let mut k: u8 = 0;
    while k < max_height
        invariant
            k <= max_height,
            max_width * max_height <= 256,
            b == field.board(),
            w == max_width,
            h == max_height,
            out@ == column_text(b, w, h, k as int),
        decreases max_height - k,
    {
        let y: u8 = max_height - 1 - k;
        let ghost prefix = if k == 0 {
            Seq::<char>::empty()
        } else {
            column_text(b, w, h, k as int) + seq!['\n']
        };
        if k > 0 {
            out.append("\n");
        }
        proof {
            reveal_strlit("\n");
            assert(out@ =~= prefix);
        }
        let mut x: u8 = 0;
        while x < max_width
            invariant
                x <= max_width,
                k < max_height,
                y == max_height - 1 - k,
                max_width * max_height <= 256,
                b == field.board(),
                w == max_width,
                h == max_height,
                out@ == prefix + column_row_text(b, w, h, y as int).take(x as int),
            decreases max_width - x,
        {
            proof {
                assert(y + max_height * x < 256) by (nonlinear_arith)
                    requires
                        x < max_width,
                        y < max_height,
                        max_width * max_height <= 256,
                ;
            }
            let empty = field.is_empty_block(x, y, max_height);
            if empty {
                out.append("_");
            } else {
                out.append("X");
            }
            proof {
                reveal_strlit("_");
                reveal_strlit("X");
                assert(column_row_text(b, w, h, y as int).take(x as int + 1) =~= column_row_text(b, w, h, y as int).take(
                    x as int,
                ).push(column_row_text(b, w, h, y as int)[x as int]));
                assert(out@ =~= prefix + column_row_text(b, w, h, y as int).take(x as int + 1));
            }
            x = x + 1;
        }
        proof {
            assert(column_row_text(b, w, h, y as int).take(w) =~= column_row_text(b, w, h, y as int));
            assert(out@ =~= column_text(b, w, h, k as int + 1));
        }
        k = k + 1;
    }
    out
}

} // verus!
