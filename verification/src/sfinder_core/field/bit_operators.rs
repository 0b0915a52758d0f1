//! Masks and queries on single boards.
//!
//! A board is a `u64` whose low 60 bits hold 6 rows of 10 cells: cell `(x, y)` is bit
//! `x + 10 * y`.

use vstd::prelude::*;
use super::bits::{
    bit, below, group_bits, lemma_bit_ext, lemma_no_bits_zero, lemma_bit_consts, lemma_bit_fixed, lemma_bit_ops,
    lemma_bit_not, lemma_bit_shl, lemma_bit_shr, lemma_shift_zero,
};
use vstd::std_specs::bits::{
    axiom_u64_trailing_zeros, u64_trailing_zeros, axiom_u64_leading_zeros, u64_leading_zeros,
};

verus! {

broadcast use group_bits;

proof fn lemma_row_bound_bv(w: u64, i: u64)
    by (bit_vector)
    requires
        w < 1024,
        10 <= i < 64,
    ensures
        (w >> i) & 1u64 != 1u64,
{
}

/// A value below 1024 only has bits among the 10 cells of a row.
pub proof fn lemma_row_value(w: u64)
    requires
        w < 1024,
    ensures
        below(w, 10),
{
    assert forall|i: int| 10 <= i < 64 implies !#[trigger] bit(w, i) by {
        lemma_row_bound_bv(w, i as u64);
    }
}

/// Index of the lowest set bit of a non-zero word.
pub open spec fn lowest_bit(w: u64) -> int {
    u64_trailing_zeros(w) as int
}

/// Index of the highest set bit of a non-zero word.
pub open spec fn highest_bit(w: u64) -> int {
    63 - u64_leading_zeros(w)
}

/// The lowest and highest set bits of a non-zero word are set, and no bit lies outside them.
pub proof fn lemma_lowest_highest(w: u64)
    requires
        w != 0,
    ensures
        0 <= lowest_bit(w) <= highest_bit(w) < 64,
        bit(w, lowest_bit(w)),
        bit(w, highest_bit(w)),
        forall|i: int| 0 <= i < lowest_bit(w) ==> !#[trigger] bit(w, i),
        forall|i: int| highest_bit(w) < i < 64 ==> !#[trigger] bit(w, i),
{
    axiom_u64_trailing_zeros(w);
    axiom_u64_leading_zeros(w);
    assert forall|i: int| 0 <= i < lowest_bit(w) implies !#[trigger] bit(w, i) by {
        assert((w >> (i as u64)) & 1u64 == 0u64);
    }
    assert forall|i: int| highest_bit(w) < i < 64 implies !#[trigger] bit(w, i) by {
        assert((w >> (i as u64)) & 1u64 == 0u64);
    }
    lemma_bit_ops(w, w, highest_bit(w));
}

/// A row value shifted up by `k` rows occupies exactly row `k`.
pub proof fn lemma_shl_row(w: u64, s: u64, k: int, i: int)
    requires
        w < 1024,
        0 <= k <= 6,
        s == 10 * k,
        0 <= i < 64,
    ensures
        bit(w << s, i) == (i / 10 == k && bit(w, i % 10)),
{
    lemma_row_value(w);
    lemma_bit_shl(w, s, i);
    if i >= 10 * k {
        assert(bit(w, i - 10 * k) ==> i - 10 * k < 10);
    }
}

/// Writes the 10-cell pattern `row_mask` into each of the 6 rows of a board.
pub fn repeat_rows(row_mask: u64) -> (r: u64)
    requires
        row_mask < 1024,
    ensures
        forall|i: int| 0 <= i < 64 ==> #[trigger] bit(r, i) == (i < 60 && bit(row_mask, i % 10)),
{
    let a1 = row_mask << 10u64;
    let a2 = row_mask << 20u64;
    let a3 = row_mask << 30u64;
    let a4 = row_mask << 40u64;
    let a5 = row_mask << 50u64;
    let b1 = row_mask | a1;
    let b2 = b1 | a2;
    let b3 = b2 | a3;
    let b4 = b3 | a4;
    let r = b4 | a5;
    proof {
        assert forall|i: int| 0 <= i < 64 implies #[trigger] bit(r, i) == (i < 60 && bit(
            row_mask,
            i % 10,
        )) by {
            lemma_shl_row(row_mask, 0u64, 0, i);
            lemma_shl_row(row_mask, 10u64, 1, i);
            lemma_shl_row(row_mask, 20u64, 2, i);
            lemma_shl_row(row_mask, 30u64, 3, i);
            lemma_shl_row(row_mask, 40u64, 4, i);
            lemma_shl_row(row_mask, 50u64, 5, i);
            lemma_bit_ops(row_mask, a1, i);
            lemma_bit_ops(b1, a2, i);
            lemma_bit_ops(b2, a3, i);
            lemma_bit_ops(b3, a4, i);
            lemma_bit_ops(b4, a5, i);
            lemma_shift_zero(row_mask);
        }
    }
    r
}

/// The cells of column 0 in the rows below `max_y` (row `max_y` excluded).
pub fn get_column_one_row_below_y(max_y: u8) -> (r: u64)
    requires
        max_y <= 6,
    ensures
        forall|i: int| 0 <= i < 64 ==> #[trigger] bit(r, i) == (i < 10 * max_y && i % 10 == 0),
{
    let a = repeat_rows(1);
    let b = get_row_mask_below_y(max_y);
    proof {
        assert forall|i: int| 0 <= i < 64 implies #[trigger] bit(a & b, i) == (i < 10 * max_y && i % 10
            == 0) by {
            lemma_bit_ops(a, b, i);
            lemma_bit_consts(0, i % 10);
            lemma_shift_zero(1);
        }
    }
    a & b
}

/// The cells of column `x` in the rows below `max_y`.
pub fn get_column_mask(max_y: u8, x: u8) -> (r: u64)
    requires
        max_y <= 6,
        x < 10,
    ensures
        forall|i: int| 0 <= i < 64 ==> #[trigger] bit(r, i) == (i < 10 * max_y && i % 10 == x),
{
    let c = get_column_one_row_below_y(max_y);
    let r = c << (x as u64);
    proof {
        assert forall|i: int| 0 <= i < 64 implies #[trigger] bit(r, i) == (i < 10 * max_y && i % 10
            == x) by {
            lemma_bit_shl(c, x as u64, i);
        }
    }
    r
}

/// The row value holding the cells `lo..10`.
proof fn lemma_high_cells(lo: u64, low: u64, row: u64)
    requires
        lo <= 10,
        low == ((1u64 << lo) - 1u64) as u64,
        row == !low & 0x3ffu64,
    ensures
        row < 1024,
        forall|j: int| 0 <= j < 64 ==> #[trigger] bit(row, j) == (j < 10 && j >= lo),
{
    lemma_bit_ops(!low, 0x3ffu64, 0);
    assert forall|j: int| 0 <= j < 64 implies #[trigger] bit(row, j) == (j < 10 && j >= lo) by {
        lemma_bit_ops(!low, 0x3ffu64, j);
        lemma_bit_not(low, j);
        lemma_bit_consts(lo, j);
        lemma_bit_fixed(j);
    }
}

/// The cells of the columns at or right of `min_x`, in all rows.
pub fn get_column_mask_right_of_row(min_x: u8) -> (r: u64)
    requires
        min_x <= 10,
    ensures
        forall|i: int| 0 <= i < 64 ==> #[trigger] bit(r, i) == (i < 60 && i % 10 >= min_x),
{
    proof {
        lemma_bit_consts(min_x as u64, 0);
    }
    let low = (1u64 << (min_x as u64)) - 1;
    let row = !low & 0x3ffu64;
    proof {
        lemma_high_cells(min_x as u64, low, row);
    }
    repeat_rows(row)
}

/// The cells of the columns left of `min_x` (column `min_x` excluded), in all rows.
pub fn get_column_mask_left_of_row(min_x: u8) -> (r: u64)
    requires
        min_x <= 10,
    ensures
        forall|i: int| 0 <= i < 64 ==> #[trigger] bit(r, i) == (i < 60 && i % 10 < min_x),
{
    proof {
        lemma_bit_consts(min_x as u64, 0);
    }
    let low = (1u64 << (min_x as u64)) - 1;
    let row = low & 0x3ffu64;
    proof {
        assert forall|j: int| 0 <= j < 64 implies #[trigger] bit(row, j) == (j < min_x) by {
            lemma_bit_ops(low, 0x3ffu64, j);
            lemma_bit_consts(min_x as u64, j);
            lemma_bit_fixed(j);
        }
        lemma_bit_ops(low, 0x3ffu64, 0);
    }
    repeat_rows(row)
}

/// The cells of the rows below `y` (row `y` excluded).
pub fn get_row_mask_below_y(y: u8) -> (r: u64)
    requires
        y <= 6,
    ensures
        forall|i: int| 0 <= i < 64 ==> #[trigger] bit(r, i) == (i < 10 * y),
{
    let k: u64 = 10 * (y as u64);
    proof {
        lemma_bit_consts(k, 0);
    }
    let r = (1u64 << k) - 1;
    proof {
        assert forall|i: int| 0 <= i < 64 implies #[trigger] bit(r, i) == (i < 10 * y) by {
            lemma_bit_consts(k, i);
        }
    }
    r
}

/// The cells of the rows at or above `y`.
pub fn get_row_mask_above_y(y: u8) -> (r: u64)
    requires
        y <= 6,
    ensures
        forall|i: int| 0 <= i < 64 ==> #[trigger] bit(r, i) == (10 * y <= i < 60),
{
    let below_mask = get_row_mask_below_y(y);
    let all = get_row_mask_below_y(6);
    proof {
        assert forall|i: int| 0 <= i < 64 implies #[trigger] bit(all & !below_mask, i) == (10 * y <= i
            < 60) by {
            lemma_bit_ops(all, !below_mask, i);
            lemma_bit_not(below_mask, i);
        }
    }
    all & !below_mask
}

/// Row of the lowest block of a non-empty board.
pub fn get_lowest_y(board: u64) -> (r: u8)
    requires
        board != 0,
    ensures
        r == lowest_bit(board) / 10,
{
    proof {
        axiom_u64_trailing_zeros(board);
    }
    (board.trailing_zeros() as u8) / 10
}

/// Row of the lowest block, or `None` for an empty board.
pub fn try_get_lowest_y(board: u64) -> (r: Option<u8>)
    ensures
        board == 0 ==> r is None,
        board != 0 ==> r == Some((lowest_bit(board) / 10) as u8),
{
    if board != 0 {
        Some(get_lowest_y(board))
    } else {
        None
    }
}

/// Row of the highest block of a non-empty board.
pub fn get_highest_y(board: u64) -> (r: u8)
    requires
        board != 0,
    ensures
        r == highest_bit(board) / 10,
{
    proof {
        axiom_u64_leading_zeros(board);
    }
    let lz = board.leading_zeros();
    ((63 - lz) as u8) / 10
}

/// Row of the highest block, or `None` for an empty board.
pub fn try_get_highest_y(board: u64) -> (r: Option<u8>)
    ensures
        board == 0 ==> r is None,
        board != 0 ==> r == Some((highest_bit(board) / 10) as u8),
{
    if board != 0 {
        Some(get_highest_y(board))
    } else {
        None
    }
}

/// Cell `(x, y)` of a board: bit `x + 10 * y`.
pub open spec fn cell(board: u64, x: int, y: int) -> bool {
    bit(board, x + 10 * y)
}

/// Whether some cell of column `x` holds a block, considering the 6 rows of a board.
pub open spec fn column_used(board: u64, x: int) -> bool {
    exists|y: int| 0 <= y < 6 && #[trigger] cell(board, x, y)
}

/// The fold of a board's 6 rows onto one another.
pub open spec fn fold_rows(board: u64) -> u64 {
    let f1 = board | board >> 20u64;
    let f2 = f1 | f1 >> 20u64;
    f2 | f2 >> 10u64
}

/// Bit `i` of the fold is set iff some row of the board has bit `i % 10`-column set at an
/// index `i + 10 * k` inside the word.
proof fn lemma_fold_rows(board: u64, i: int)
    requires
        0 <= i < 64,
    ensures
        bit(fold_rows(board), i) == (exists|k: int|
            0 <= k < 6 && i + 10 * k < 64 && #[trigger] cell(board, i, k)),
{
    let f1 = board | board >> 20u64;
    let f2 = f1 | f1 >> 20u64;
    lemma_bit_ops(f2, f2 >> 10u64, i);
    lemma_bit_shr(f2, 10, i);
    lemma_bit_ops(f1, f1 >> 20u64, i);
    lemma_bit_shr(f1, 20, i);
    if i + 10 < 64 {
        lemma_bit_ops(f1, f1 >> 20u64, i + 10);
        lemma_bit_shr(f1, 20, i + 10);
    }
    if i + 0 < 64 {
        lemma_bit_ops(board, board >> 20u64, i + 0);
        lemma_bit_shr(board, 20, i + 0);
    }
    if i + 10 < 64 {
        lemma_bit_ops(board, board >> 20u64, i + 10);
        lemma_bit_shr(board, 20, i + 10);
    }
    if i + 20 < 64 {
        lemma_bit_ops(board, board >> 20u64, i + 20);
        lemma_bit_shr(board, 20, i + 20);
    }
    if i + 30 < 64 {
        lemma_bit_ops(board, board >> 20u64, i + 30);
        lemma_bit_shr(board, 20, i + 30);
    }
    assert(bit(board, i) == cell(board, i, 0));
    assert(i + 10 < 64 ==> bit(board, i + 10) == cell(board, i, 1));
    assert(i + 20 < 64 ==> bit(board, i + 20) == cell(board, i, 2));
    assert(i + 30 < 64 ==> bit(board, i + 30) == cell(board, i, 3));
    assert(i + 40 < 64 ==> bit(board, i + 40) == cell(board, i, 4));
    assert(i + 50 < 64 ==> bit(board, i + 50) == cell(board, i, 5));
    if exists|k: int| 0 <= k < 6 && i + 10 * k < 64 && #[trigger] cell(board, i, k) {
        let k = choose|k: int| 0 <= k < 6 && i + 10 * k < 64 && #[trigger] cell(board, i, k);
        assert(bit(fold_rows(board), i));
    }
}

/// Leftmost column holding a block, or `None` for an empty board.
pub fn try_get_lowest_x(board: u64) -> (r: Option<u8>)
    ensures
        board == 0 ==> r is None,
        board != 0 ==> r == Some(lowest_bit(fold_rows(board)) as u8),
        board != 0 && below(board, 60) ==> (r matches Some(x) && x < 10 && column_used(board, x as int)
            && forall|c: int| 0 <= c < x ==> !column_used(board, c)),
{
    if board != 0 {
        let mut folded = board;
        folded = folded | folded >> 20u64;
        folded = folded | folded >> 20u64;
        folded = folded | folded >> 10u64;
        proof {
            assert(folded == fold_rows(board));
            lemma_fold_rows(board, 0);
            lemma_lowest_highest(board);
            let lb = lowest_bit(board);
            lemma_fold_rows(board, lb);
            assert(cell(board, lb, 0));
            assert(bit(folded, lb));
            assert(folded != 0) by {
                if folded == 0 {
                    lemma_bit_fixed(lb);
                }
            }
            lemma_lowest_highest(folded);
        }
        let t = folded.trailing_zeros();
        proof {
            if below(board, 60) {
                let lb = lowest_bit(board);
                lemma_fold_rows(board, lb % 10);
                assert(cell(board, lb % 10, lb / 10));
                assert(bit(folded, lb % 10));
                assert(t <= lb % 10);
                lemma_fold_rows(board, t as int);
                let k = choose|k: int| 0 <= k < 6 && t + 10 * k < 64 && #[trigger] cell(board, t as int, k);
                assert(t < 10) by {
                    if t >= 10 {
                        assert(!bit(board, t + 10 * k));
                    }
                }
                assert(column_used(board, t as int));
                assert forall|c: int| 0 <= c < t implies !column_used(board, c) by {
                    if column_used(board, c) {
                        let y = choose|y: int| 0 <= y < 6 && #[trigger] cell(board, c, y);
                        lemma_fold_rows(board, c);
                        assert(bit(folded, c));
                    }
                }
            }
        }
        Some(t as u8)
    } else {
        None
    }
}

/// Whether column `x` and the column left of it leave no gap side by side in the rows below
/// `max_y`, i.e. no row has both cells empty.
pub fn is_wall_between_left(x: u8, max_y: u8, board: u64) -> (r: bool)
    requires
        1 <= x < 10,
        max_y <= 6,
    ensures
        r == forall|y: int| 0 <= y < max_y ==> (#[trigger] cell(board, x - 1, y) || cell(board, x as int, y)),
{
    let reverse_x_board_high = !board;
    let column_high = get_column_mask(max_y, x);
    let right_high = reverse_x_board_high & column_high;
    let left_high = reverse_x_board_high & (column_high >> 1u64);
    let v = (left_high << 1u64) & right_high;
    proof {
        assert forall|i: int| 0 <= i < 64 implies #[trigger] bit(v, i) == (i < 10 * max_y && i % 10 == x
            && !bit(board, i) && !bit(board, i - 1)) by {
            lemma_bit_ops(left_high << 1u64, right_high, i);
            lemma_bit_shl(left_high, 1, i);
            lemma_bit_ops(reverse_x_board_high, column_high, i);
            lemma_bit_not(board, i);
            if i >= 1 {
                lemma_bit_ops(reverse_x_board_high, column_high >> 1u64, i - 1);
                lemma_bit_not(board, i - 1);
                lemma_bit_shr(column_high, 1, i - 1);
            }
        }
        if v == 0 {
            assert forall|y: int| 0 <= y < max_y implies (#[trigger] cell(board, x - 1, y) || cell(
                board,
                x as int,
                y,
            )) by {
                lemma_bit_fixed(x + 10 * y);
                assert(!bit(v, x + 10 * y));
                assert(x + 10 * y - 1 == x - 1 + 10 * y);
            }
        } else {
            assert(!forall|i: int| 0 <= i < 64 ==> !#[trigger] bit(v, i)) by {
                if forall|i: int| 0 <= i < 64 ==> !#[trigger] bit(v, i) {
                    lemma_no_bits_zero(v);
                }
            }
            let i = choose|i: int| 0 <= i < 64 && #[trigger] bit(v, i);
            let y = i / 10;
            assert(!(cell(board, x - 1, y) || cell(board, x as int, y)));
        }
    }
    v == 0
}

/// The single cell `(x, y)` of a board.
pub fn get_x_mask(x: u8, y: u8) -> (r: u64)
    requires
        x + 10 * y < 64,
    ensures
        r == 1u64 << (x + 10 * y) as u64,
        forall|i: int| 0 <= i < 64 ==> #[trigger] bit(r, i) == (i == x + 10 * y),
{
    let k = (x as u64) + 10 * (y as u64);
    proof {
        assert forall|i: int| 0 <= i < 64 implies #[trigger] bit(1u64 << k, i) == (i == k) by {
            lemma_bit_consts(k, i);
        }
    }
    1u64 << k
}

/// Moves a board up by `shift` rows; rows pushed past the word are lost.
pub fn board_shl(board: u64, shift: u8) -> (r: u64)
    requires
        shift <= 6,
    ensures
        r == board << (10 * shift) as u64,
{
    board << (10 * shift as u64)
}

/// Moves a board down by `shift` rows; the lowest `shift` rows are lost.
pub fn board_shr(board: u64, shift: u8) -> (r: u64)
    requires
        shift <= 6,
    ensures
        r == board >> (10 * shift) as u64,
{
    board >> (10 * shift as u64)
}

/// The 10 cells of row `y`.
pub fn get_row_mask(y: u8) -> (r: u64)
    requires
        y <= 6,
    ensures
        r == 0x3ffu64 << (10 * y) as u64,
        forall|i: int| 0 <= i < 64 ==> #[trigger] bit(r, i) == (10 * y <= i < 10 * y + 10),
{
    let r = board_shl(0x3ff, y);
    proof {
        assert forall|i: int| 0 <= i < 64 implies #[trigger] bit(r, i) == (10 * y <= i < 10 * y + 10) by {
            lemma_bit_shl(0x3ffu64, (10 * y) as u64, i);
            if i >= 10 * y {
                lemma_bit_fixed(i - 10 * y);
            }
        }
    }
    r
}

/// Number of set bits among positions `0..n` of `w`.
pub open spec fn count_bits(w: u64, n: int) -> nat
    decreases n,
{
    if n <= 0 {
        0
    } else {
        count_bits(w, n - 1) + if bit(w, n - 1) { 1nat } else { 0nat }
    }
}

/// Number of set bits of `w`.
pub open spec fn popcount(w: u64) -> nat {
    count_bits(w, 64)
}

proof fn lemma_count_bits_bound(w: u64, n: int)
    requires
        0 <= n,
    ensures
        count_bits(w, n) <= n,
    decreases n,
{
    if n > 0 {
        lemma_count_bits_bound(w, n - 1);
    }
}

/// Number of set bits of `w`.
pub fn count_ones(w: u64) -> (r: u32)
    ensures
        r == popcount(w),
        r <= 64,
{
    let mut count: u32 = 0;
    let mut i: u64 = 0;
    while i < 64
        invariant
            i <= 64,
            count == count_bits(w, i as int),
            count <= i,
        decreases 64 - i,
    {
        proof {
            lemma_bit_ops(w >> i, 1, 0);
        }
        if (w >> i) & 1 == 1 {
            count = count + 1;
        }
        i = i + 1;
    }
    count
}

/// Positions `a..b` hold no set bit, so counting up to `b` counts as much as up to `a`.
pub proof fn lemma_count_bits_skip(w: u64, a: int, b: int)
    requires
        0 <= a <= b <= 64,
        forall|i: int| a <= i < b ==> !#[trigger] bit(w, i),
    ensures
        count_bits(w, b) == count_bits(w, a),
    decreases b - a,
{
    if b > a {
        lemma_count_bits_skip(w, a, b - 1);
    }
}

/// Zero has no set bit.
pub proof fn lemma_popcount_zero()
    ensures
        popcount(0) == 0,
{
    assert forall|i: int| 0 <= i < 64 implies !#[trigger] bit(0u64, i) by {
        lemma_bit_fixed(i);
    }
    lemma_count_bits_skip(0, 0, 64);
}

/// A word with a set bit has a positive count.
pub proof fn lemma_popcount_nonzero(w: u64)
    requires
        w != 0,
    ensures
        popcount(w) > 0,
{
    lemma_lowest_highest(w);
    let t = lowest_bit(w);
    lemma_count_bits_mono(w, t + 1, 64);
}

proof fn lemma_count_bits_mono(w: u64, a: int, b: int)
    requires
        0 <= a <= b,
    ensures
        count_bits(w, a) <= count_bits(w, b),
    decreases b - a,
{
    if b > a {
        lemma_count_bits_mono(w, a, b - 1);
    }
}

/// Number of blocks in column `x` among the rows below `n` of a board.
pub open spec fn board_column_count(b: u64, x: int, n: int) -> nat
    decreases n,
{
    if n <= 0 {
        0
    } else {
        board_column_count(b, x, n - 1) + if cell(b, x, n - 1) { 1nat } else { 0nat }
    }
}

/// Number of blocks among the first `c` cells of row `q` of a board.
pub open spec fn board_row_count(b: u64, q: int, c: int) -> nat
    decreases c,
{
    if c <= 0 {
        0
    } else {
        board_row_count(b, q, c - 1) + if cell(b, c - 1, q) { 1nat } else { 0nat }
    }
}

/// Counting the bits of the cells of column `x` below row `m` counts the column's blocks.
pub proof fn lemma_column_popcount(b: u64, w: u64, x: int, m: int)
    requires
        0 <= x < 10,
        0 <= m <= 6,
        forall|i: int| 0 <= i < 64 ==> #[trigger] bit(w, i) == (i < 10 * m && i % 10 == x && bit(b, i)),
    ensures
        popcount(w) == board_column_count(b, x, m),
{
    lemma_column_popcount_upto(b, w, x, m, m);
    assert forall|i: int| 10 * m <= i < 64 implies !#[trigger] bit(w, i) by {}
    lemma_count_bits_skip(w, 10 * m, 64);
}

proof fn lemma_column_popcount_upto(b: u64, w: u64, x: int, m: int, t: int)
    requires
        0 <= x < 10,
        0 <= t <= m <= 6,
        forall|i: int| 0 <= i < 64 ==> #[trigger] bit(w, i) == (i < 10 * m && i % 10 == x && bit(b, i)),
    ensures
        count_bits(w, 10 * t) == board_column_count(b, x, t),
    decreases t,
{
    if t > 0 {
        lemma_column_popcount_upto(b, w, x, m, t - 1);
        let base = 10 * (t - 1);
        assert forall|i: int| base <= i < base + x implies !#[trigger] bit(w, i) by {}
        lemma_count_bits_skip(w, base, base + x);
        assert forall|i: int| base + x + 1 <= i < base + 10 implies !#[trigger] bit(w, i) by {}
        lemma_count_bits_skip(w, base + x + 1, base + 10);
        assert(bit(w, base + x) == cell(b, x, t - 1));
    }
}

/// Counting the bits of row `q` counts the blocks of that row.
pub proof fn lemma_row_popcount(b: u64, w: u64, q: int, lo: int)
    requires
        0 <= q < 6,
        0 <= lo <= 54,
        forall|i: int| 0 <= i < 64 ==> #[trigger] bit(w, i) == (lo <= i < lo + 10 && bit(b, i - lo + 10 * q)),
    ensures
        popcount(w) == board_row_count(b, q, 10),
{
    assert forall|i: int| 0 <= i < lo implies !#[trigger] bit(w, i) by {}
    lemma_count_bits_skip(w, 0, lo);
    lemma_row_popcount_upto(b, w, q, lo, 10);
    assert forall|i: int| lo + 10 <= i < 64 implies !#[trigger] bit(w, i) by {}
    lemma_count_bits_skip(w, lo + 10, 64);
}

proof fn lemma_row_popcount_upto(b: u64, w: u64, q: int, lo: int, c: int)
    requires
        0 <= q < 6,
        0 <= lo <= 54,
        0 <= c <= 10,
        forall|i: int| 0 <= i < 64 ==> #[trigger] bit(w, i) == (lo <= i < lo + 10 && bit(b, i - lo + 10 * q)),
        count_bits(w, lo) == 0,
    ensures
        count_bits(w, lo + c) == board_row_count(b, q, c),
    decreases c,
{
    if c > 0 {
        lemma_row_popcount_upto(b, w, q, lo, c - 1);
        assert(bit(w, lo + c - 1) == cell(b, c - 1, q));
    }
}

/// Counting the bits of two words without a common bit adds their counts.
pub proof fn lemma_count_bits_or(a: u64, b: u64, n: int)
    requires
        0 <= n <= 64,
        forall|i: int| 0 <= i < n ==> !(#[trigger] bit(a, i) && bit(b, i)),
    ensures
        count_bits(a | b, n) == count_bits(a, n) + count_bits(b, n),
    decreases n,
{
    if n > 0 {
        lemma_count_bits_or(a, b, n - 1);
        lemma_bit_ops(a, b, n - 1);
        assert(!(bit(a, n - 1) && bit(b, n - 1)));
    }
}

/// Moving a word up by `s` bits keeps its count when no set bit is pushed out.
pub proof fn lemma_count_bits_shl(b: u64, s: int, n: int)
    requires
        0 <= s < 64,
        0 <= n <= 64 - s,
    ensures
        count_bits(b << s as u64, n + s) == count_bits(b, n),
    decreases n,
{
    if n > 0 {
        lemma_count_bits_shl(b, s, n - 1);
        lemma_bit_shl(b, s as u64, n - 1 + s);
    } else {
        assert forall|i: int| 0 <= i < s implies !#[trigger] bit(b << s as u64, i) by {
            lemma_bit_shl(b, s as u64, i);
        }
        lemma_count_bits_skip(b << s as u64, 0, s);
    }
}

/// A word moved up by `s` bits has as many set bits as the word, when its top `s` bits are clear.
pub proof fn lemma_popcount_shl(b: u64, s: int)
    requires
        0 <= s < 64,
        forall|i: int| 64 - s <= i < 64 ==> !#[trigger] bit(b, i),
    ensures
        popcount(b << s as u64) == popcount(b),
{
    lemma_count_bits_shl(b, s, 64 - s);
    lemma_count_bits_skip(b, 64 - s, 64);
}

} // verus!
