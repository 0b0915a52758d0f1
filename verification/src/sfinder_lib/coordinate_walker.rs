use vstd::prelude::*;
use crate::sfinder_core::field::field_constants::FIELD_WIDTH;
use crate::sfinder_core::mino::mino::{Mino, mino_max_x, mino_max_y, mino_min_x, mino_min_y};

verus! {

/// The columns and rows at which the center of `mino` keeps the shape between the walls, above
/// the floor and below row `max_y`.
pub fn get_ranges(mino: &Mino, max_y: u8) -> (r: (std::ops::Range<u8>, std::ops::Range<u8>))
    requires
        max_y < 128,
        mino_max_y(mino.piece_of(), mino.rotate_of()) <= max_y,
    ensures
        r.0.start == -mino_min_x(mino.piece_of(), mino.rotate_of()),
        r.0.end == 10 - mino_max_x(mino.piece_of(), mino.rotate_of()),
        r.1.start == -mino_min_y(mino.piece_of(), mino.rotate_of()),
        r.1.end == max_y - mino_max_y(mino.piece_of(), mino.rotate_of()),
{
    proof {
        Mino::lemma_cells_in_bounds(mino.piece_of(), mino.rotate_of());
    }
    let x_start = (-mino.get_min_x()) as u8;
    let x_end = (FIELD_WIDTH as i8 - mino.get_max_x()) as u8;
    let y_start = (-mino.get_min_y()) as u8;
    let y_end = (max_y as i8 - mino.get_max_y()) as u8;
    (x_start..x_end, y_start..y_end)
}

/// Every center `(x, y)` at which `mino` lies between the walls, above the floor and below row
/// `max_y`, row by row from the bottom and left to right in each row.
pub fn walk(mino: &Mino, max_y: u8) -> (r: Vec<(u8, u8)>)
    requires
        max_y < 128,
        mino_max_y(mino.piece_of(), mino.rotate_of()) <= max_y,
    ensures
        ({
            let x0 = -mino_min_x(mino.piece_of(), mino.rotate_of());
            let w = 10 - mino_max_x(mino.piece_of(), mino.rotate_of()) - x0;
            let y0 = -mino_min_y(mino.piece_of(), mino.rotate_of());
            let h = if max_y - mino_max_y(mino.piece_of(), mino.rotate_of()) > y0 {
                max_y - mino_max_y(mino.piece_of(), mino.rotate_of()) - y0
            } else {
                0
            };
            &&& r.len() == w * h
            &&& forall|i: int| 0 <= i < r.len() ==> #[trigger] r@[i] == ((x0 + i % w) as u8, (y0 + i / w) as u8)
        }),
{
    proof {
        Mino::lemma_cells_in_bounds(mino.piece_of(), mino.rotate_of());
    }
    let ranges = get_ranges(mino, max_y);
    let x_range = ranges.0;
    let y_range = ranges.1;
    let ghost x0 = x_range.start as int;
    let ghost w = x_range.end - x_range.start;
    let mut r: Vec<(u8, u8)> = Vec::new();
    let mut y = y_range.start;
    while y < y_range.end
        invariant
            y_range.start <= y,
            y <= y_range.end || y == y_range.start,
            x_range.start < x_range.end <= 10,
            x0 == x_range.start,
            w == x_range.end - x_range.start,
            r.len() == w * (y - y_range.start),
            forall|i: int| 0 <= i < r.len() ==> #[trigger] r@[i] == ((x0 + i % w) as u8, (y_range.start + i / w) as u8),
        decreases y_range.end - y,
    {
        let mut x = x_range.start;
        while x < x_range.end
            invariant
                x_range.start <= x <= x_range.end,
                y_range.start <= y < y_range.end,
                x_range.start < x_range.end <= 10,
                x0 == x_range.start,
                w == x_range.end - x_range.start,
                r.len() == w * (y - y_range.start) + (x - x_range.start),
                forall|i: int| 0 <= i < r.len() ==> #[trigger] r@[i] == ((x0 + i % w) as u8, (y_range.start + i / w) as u8),
            decreases x_range.end - x,
        {
            proof {
                let n = r.len() as int;
                let k = y - y_range.start;
                let d = x - x_range.start;
                assert(n % w == d && n / w == k) by (nonlinear_arith)
                    requires
                        n == w * k + d,
                        0 <= d < w,
                        0 <= k,
                ;
            }
            r.push((x, y));
            x = x + 1;
        }
        proof {
            assert(w * (y - y_range.start) + w == w * (y + 1 - y_range.start)) by (nonlinear_arith);
        }
        y = y + 1;
    }
    proof {
        if !(y_range.end > y_range.start) {
            assert(r.len() == 0);
        }
    }
    r
}

} // verus!
