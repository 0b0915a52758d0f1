//! Keys: one bit per row of a field, used to name sets of rows.
//!
//! A "delete key" (or "bit key") flags row `y` (`0 <= y < 24`) at bit `(y % 6) * 10 + y / 6`,
//! so the key of board `k` sits in column `k` of each board row. A "column key" flags row
//! `y` at bit `y`.

use vstd::prelude::*;
use super::bits::{
    bit, below, group_bits, lemma_bit_ext, lemma_no_bits_zero, lemma_bit_consts, lemma_bit_fixed, lemma_bit_ops,
    lemma_bit_not, lemma_bit_shl, lemma_bit_shr, lemma_shift_zero, lemma_row_patterns,
    lemma_fold_step, lemma_test_bit,
};
use super::bit_operators::{
    repeat_rows, cell, get_lowest_y, lowest_bit, lemma_lowest_highest, get_x_mask,
};

verus! {

broadcast use group_bits;

/// Bit position of the key flag of row `y`.
pub open spec fn key_index(y: int) -> int {
    (y % 6) * 10 + y / 6
}

/// Row named by key bit `i` (for `i < 60` with `i % 10 < 4`).
pub open spec fn key_row(i: int) -> int {
    (i % 10) * 6 + i / 10
}

/// Whether bit `i` of a word is one of the 24 key positions.
pub open spec fn is_key_bit(i: int) -> bool {
    0 <= i < 60 && i % 10 < 4
}

/// All 10 cells of row `y` of a board hold blocks.
pub open spec fn row_filled(board: u64, y: int) -> bool {
    &&& cell(board, 0, y)
    &&& cell(board, 1, y)
    &&& cell(board, 2, y)
    &&& cell(board, 3, y)
    &&& cell(board, 4, y)
    &&& cell(board, 5, y)
    &&& cell(board, 6, y)
    &&& cell(board, 7, y)
    &&& cell(board, 8, y)
    &&& cell(board, 9, y)
}

/// Some cell of row `y` of a board holds a block.
pub open spec fn row_used(board: u64, y: int) -> bool {
    ||| cell(board, 0, y)
    ||| cell(board, 1, y)
    ||| cell(board, 2, y)
    ||| cell(board, 3, y)
    ||| cell(board, 4, y)
    ||| cell(board, 5, y)
    ||| cell(board, 6, y)
    ||| cell(board, 7, y)
    ||| cell(board, 8, y)
    ||| cell(board, 9, y)
}

/// Marks every filled row of a board: bit `10 * y` is set iff row `y` is filled.
pub fn get_delete_key(board: u64) -> (r: u64)
    ensures
        forall|i: int| 0 <= i < 64 ==> #[trigger] bit(r, i) == (i < 60 && i % 10 == 0 && row_filled(board, i / 10)),
{
    let m1 = repeat_rows(0b1010101010);
    let m2 = repeat_rows(0b0101010000);
    let m3 = repeat_rows(0b0000010100);
    let m4 = repeat_rows(0b0000000100);
    let b0101010101 = (board & m1) >> 1u64 & board;
    let b0000010101 = (b0101010101 & m2) >> 4u64 & b0101010101;
    let b0000000101 = (b0000010101 & m3) >> 2u64 & b0000010101;
    let r = (b0000000101 & m4) >> 2u64 & b0000000101;
    proof {
        let s1 = b0101010101;
        let s2 = b0000010101;
        let s3 = b0000000101;
        assert forall|i: int| 0 <= i < 64 implies #[trigger] bit(s1, i) == (i + 1 < 60 && (i + 1) % 10 % 2 == 1
            && bit(board, i) && bit(board, i + 1)) by {
            lemma_fold_step(board, m1, 1, i);
            if i + 1 < 64 {
                lemma_row_patterns((i + 1) % 10);
            }
        }
        assert forall|i: int| 0 <= i < 64 implies #[trigger] bit(s2, i) == (i + 4 < 60 && (i + 4) % 10 >= 4 && (i + 4) % 10 % 2 == 0
            && bit(s1, i + 4) && bit(s1, i)) by {
            lemma_fold_step(s1, m2, 4, i);
            if i + 4 < 64 {
                lemma_row_patterns((i + 4) % 10);
            }
        }
        assert forall|i: int| 0 <= i < 64 implies #[trigger] bit(s3, i) == (i + 2 < 60 && ((i + 2) % 10 == 2 || (i + 2) % 10 == 4)
            && bit(s2, i + 2) && bit(s2, i)) by {
            lemma_fold_step(s2, m3, 2, i);
            if i + 2 < 64 {
                lemma_row_patterns((i + 2) % 10);
            }
        }
        assert forall|i: int| 0 <= i < 64 implies #[trigger] bit(r, i) == (i < 60 && i % 10 == 0 && row_filled(board, i / 10)) by {
            lemma_fold_step(s3, m4, 2, i);
            if i + 2 < 64 {
                lemma_row_patterns((i + 2) % 10);
            }
            if i < 60 && i % 10 == 0 {
                assert(bit(s3, i) == (bit(s2, i + 2) && bit(s2, i)));
                assert(bit(s3, i + 2) == (bit(s2, i + 4) && bit(s2, i + 2)));
                assert(bit(s2, i) == (bit(s1, i + 4) && bit(s1, i)));
                assert(bit(s2, i + 2) == (bit(s1, i + 6) && bit(s1, i + 2)));
                assert(bit(s2, i + 4) == (bit(s1, i + 8) && bit(s1, i + 4)));
                assert(bit(s1, i) == (bit(board, i) && bit(board, i + 1)));
                assert(bit(s1, i + 2) == (bit(board, i + 2) && bit(board, i + 3)));
                assert(bit(s1, i + 4) == (bit(board, i + 4) && bit(board, i + 5)));
                assert(bit(s1, i + 6) == (bit(board, i + 6) && bit(board, i + 7)));
                assert(bit(s1, i + 8) == (bit(board, i + 8) && bit(board, i + 9)));
                assert(i + 10 * (i / 10) == i + i);
            }
        }
    }
    r
}

/// Marks every row of a board holding a block: bit `10 * y` is set iff row `y` is used.
pub fn get_using_key(board: u64) -> (r: u64)
    ensures
        forall|i: int| 0 <= i < 64 ==> #[trigger] bit(r, i) == (i < 60 && i % 10 == 0 && row_used(board, i / 10)),
{
    let m1 = repeat_rows(0b1010101010);
    let m2 = repeat_rows(0b0101010000);
    let m3 = repeat_rows(0b0000010100);
    let m4 = repeat_rows(0b0000000100);
    let m5 = repeat_rows(0b0000000001);
    let b0101010101 = (board & m1) >> 1u64 | board;
    let b0000010101 = (b0101010101 & m2) >> 4u64 | b0101010101;
    let b0000000101 = (b0000010101 & m3) >> 2u64 | b0000010101;
    let b0000000001 = (b0000000101 & m4) >> 2u64 | b0000000101;
    let r = b0000000001 & m5;
    proof {
        let s1 = b0101010101;
        let s2 = b0000010101;
        let s3 = b0000000101;
        let s4 = b0000000001;
        assert forall|i: int| 0 <= i < 64 implies #[trigger] bit(s1, i) == ((i + 1 < 60 && (i + 1) % 10 % 2 == 1
            && bit(board, i + 1)) || bit(board, i)) by {
            lemma_fold_step(board, m1, 1, i);
            if i + 1 < 64 {
                lemma_row_patterns((i + 1) % 10);
            }
        }
        assert forall|i: int| 0 <= i < 64 implies #[trigger] bit(s2, i) == ((i + 4 < 60 && (i + 4) % 10 >= 4 && (i + 4) % 10 % 2 == 0
            && bit(s1, i + 4)) || bit(s1, i)) by {
            lemma_fold_step(s1, m2, 4, i);
            if i + 4 < 64 {
                lemma_row_patterns((i + 4) % 10);
            }
        }
        assert forall|i: int| 0 <= i < 64 implies #[trigger] bit(s3, i) == ((i + 2 < 60 && ((i + 2) % 10 == 2 || (i + 2) % 10 == 4)
            && bit(s2, i + 2)) || bit(s2, i)) by {
            lemma_fold_step(s2, m3, 2, i);
            if i + 2 < 64 {
                lemma_row_patterns((i + 2) % 10);
            }
        }
        assert forall|i: int| 0 <= i < 64 implies #[trigger] bit(s4, i) == ((i + 2 < 60 && (i + 2) % 10 == 2
            && bit(s3, i + 2)) || bit(s3, i)) by {
            lemma_fold_step(s3, m4, 2, i);
            if i + 2 < 64 {
                lemma_row_patterns((i + 2) % 10);
            }
        }
        assert forall|i: int| 0 <= i < 64 implies #[trigger] bit(r, i) == (i < 60 && i % 10 == 0 && row_used(board, i / 10)) by {
            lemma_bit_ops(s4, m5, i);
            lemma_row_patterns(i % 10);
            if i < 60 && i % 10 == 0 {
                assert(bit(s4, i) == (bit(s3, i + 2) || bit(s3, i)));
                assert(bit(s3, i) == (bit(s2, i + 2) || bit(s2, i)));
                assert(bit(s3, i + 2) == (bit(s2, i + 4) || bit(s2, i + 2)));
                assert(bit(s2, i) == (bit(s1, i + 4) || bit(s1, i)));
                assert(bit(s2, i + 2) == (bit(s1, i + 6) || bit(s1, i + 2)));
                assert(bit(s2, i + 4) == (bit(s1, i + 8) || bit(s1, i + 4)));
                assert(bit(s1, i) == (bit(board, i) || bit(board, i + 1)));
                assert(bit(s1, i + 2) == (bit(board, i + 2) || bit(board, i + 3)));
                assert(bit(s1, i + 4) == (bit(board, i + 4) || bit(board, i + 5)));
                assert(bit(s1, i + 6) == (bit(board, i + 6) || bit(board, i + 7)));
                assert(bit(s1, i + 8) == (bit(board, i + 8) || bit(board, i + 9)));
                assert(i + 10 * (i / 10) == i + i);
            }
        }
    }
    r
}

/// Bits of `(w & m) >> s` and `(w & m) << s`.
proof fn lemma_masked_shift(w: u64, m: u64, s: u64, i: int)
    requires
        s < 64,
        0 <= i < 64,
    ensures
        bit((w & m) >> s, i) == (i + s < 64 && bit(m, i + s) && bit(w, i + s)),
        bit((w & m) << s, i) == (i >= s && bit(m, i - s) && bit(w, i - s)),
{
    lemma_bit_shr(w & m, s, i);
    lemma_bit_shl(w & m, s, i);
    if i + s < 64 {
        lemma_bit_ops(w, m, i + s);
    }
    if i >= s {
        lemma_bit_ops(w, m, i - s);
    }
}

/// The last step of `mirror`: each cell reaches its mirrored column through the three swaps.
#[verifier::rlimit(40)]
proof fn lemma_mirror_compose(field: u64, f1: u64, f2: u64, f3: u64, f4: u64, fixed: u64)
    requires
        forall|i: int| 0 <= i < 64 ==> #[trigger] bit(f1, i) == (i < 60 && (if i % 10 < 5 {
            bit(field, i + 5)
        } else {
            bit(field, i - 5)
        })),
        forall|i: int| 0 <= i < 64 ==> #[trigger] bit(f2, i) == (i < 60 && i % 10 != 2 && i % 10 != 7
            && bit(f1, i)),
        forall|i: int| 0 <= i < 64 ==> #[trigger] bit(fixed, i) == (i < 60 && (i % 10 == 2 || i % 10 == 7)
            && bit(f1, i)),
        forall|i: int| 0 <= i < 64 ==> #[trigger] bit(f3, i) == (i < 60 && (
            if i % 10 == 0 || i % 10 == 1 || i % 10 == 5 || i % 10 == 6 {
                bit(f2, i + 3)
            } else if i % 10 == 3 || i % 10 == 4 || i % 10 == 8 || i % 10 == 9 {
                bit(f2, i - 3)
            } else {
                false
            })),
        forall|i: int| 0 <= i < 64 ==> #[trigger] bit(f4, i) == (i < 60 && (
            if i % 10 == 0 || i % 10 == 3 || i % 10 == 5 || i % 10 == 8 {
                bit(f3, i + 1)
            } else if i % 10 == 1 || i % 10 == 4 || i % 10 == 6 || i % 10 == 9 {
                bit(f3, i - 1)
            } else {
                false
            })),
    ensures
        forall|i: int| 0 <= i < 64 ==> #[trigger] bit(f4 | fixed, i) == (i < 60 && cell(field, 9 - i % 10, i / 10)),
{
    assert forall|i: int| 0 <= i < 64 implies #[trigger] bit(f4 | fixed, i) == (i < 60 && cell(field, 9 - i % 10, i / 10)) by {
        lemma_bit_ops(f4, fixed, i);
        let c = i % 10;
        let base = i - c;
        assert(cell(field, 9 - c, i / 10) == bit(field, base + 9 - c));
        if i < 60 {
            if c == 0 {
                assert(bit(f4, i) == bit(f3, i + 1));
                assert(bit(f3, i + 1) == bit(f2, i + 4));
                assert(bit(f2, i + 4) == bit(f1, i + 4));
                assert(bit(f1, i + 4) == bit(field, i + 9));
            } else if c == 1 {
                assert(bit(f4, i) == bit(f3, i - 1));
                assert(bit(f3, i - 1) == bit(f2, i + 2));
                assert(bit(f2, i + 2) == bit(f1, i + 2));
                assert(bit(f1, i + 2) == bit(field, i + 7));
            } else if c == 2 {
                assert(bit(fixed, i) == bit(f1, i));
                assert(bit(f1, i) == bit(field, i + 5));
            } else if c == 3 {
                assert(bit(f4, i) == bit(f3, i + 1));
                assert(bit(f3, i + 1) == bit(f2, i - 2));
                assert(bit(f2, i - 2) == bit(f1, i - 2));
                assert(bit(f1, i - 2) == bit(field, i + 3));
            } else if c == 4 {
                assert(bit(f4, i) == bit(f3, i - 1));
                assert(bit(f3, i - 1) == bit(f2, i - 4));
                assert(bit(f2, i - 4) == bit(f1, i - 4));
                assert(bit(f1, i - 4) == bit(field, i + 1));
            } else if c == 5 {
                assert(bit(f4, i) == bit(f3, i + 1));
                assert(bit(f3, i + 1) == bit(f2, i + 4));
                assert(bit(f2, i + 4) == bit(f1, i + 4));
                assert(bit(f1, i + 4) == bit(field, i - 1));
            } else if c == 6 {
                assert(bit(f4, i) == bit(f3, i - 1));
                assert(bit(f3, i - 1) == bit(f2, i + 2));
                assert(bit(f2, i + 2) == bit(f1, i + 2));
                assert(bit(f1, i + 2) == bit(field, i - 3));
            } else if c == 7 {
                assert(bit(fixed, i) == bit(f1, i));
                assert(bit(f1, i) == bit(field, i - 5));
            } else if c == 8 {
                assert(bit(f4, i) == bit(f3, i + 1));
                assert(bit(f3, i + 1) == bit(f2, i - 2));
                assert(bit(f2, i - 2) == bit(f1, i - 2));
                assert(bit(f1, i - 2) == bit(field, i - 7));
            } else {
                assert(bit(f4, i) == bit(f3, i - 1));
                assert(bit(f3, i - 1) == bit(f2, i - 4));
                assert(bit(f2, i - 4) == bit(f1, i - 4));
                assert(bit(f1, i - 4) == bit(field, i - 9));
            }
        }
    }
}

/// Flips every row of a board left to right: cell `(x, y)` moves to `(9 - x, y)`.
#[verifier::rlimit(80)]
pub fn mirror(field: u64) -> (r: u64)
    ensures
        forall|i: int| 0 <= i < 64 ==> #[trigger] bit(r, i) == (i < 60 && cell(field, 9 - i % 10, i / 10)),
{
    let m_hi5 = repeat_rows(0b1111100000);
    let m_lo5 = repeat_rows(0b0000011111);
    let m_fixed = repeat_rows(0b0010000100);
    let m_moved = repeat_rows(0b1101111011);
    let m_hi3 = repeat_rows(0b1100011000);
    let m_lo3 = repeat_rows(0b0001100011);
    let m_hi1 = repeat_rows(0b1001010010);
    let m_lo1 = repeat_rows(0b0100101001);
    let f1 = (field & m_hi5) >> 5u64 | (field & m_lo5) << 5u64;
    let fixed = f1 & m_fixed;
    let f2 = f1 & m_moved;
    let f3 = (f2 & m_hi3) >> 3u64 | (f2 & m_lo3) << 3u64;
    let f4 = (f3 & m_hi1) >> 1u64 | (f3 & m_lo1) << 1u64;
    let r = f4 | fixed;
    proof {
        // f1 swaps the two halves of each row
        assert forall|i: int| 0 <= i < 64 implies #[trigger] bit(f1, i) == (i < 60 && (if i % 10 < 5 {
            bit(field, i + 5)
        } else {
            bit(field, i - 5)
        })) by {
            lemma_bit_ops((field & m_hi5) >> 5u64, (field & m_lo5) << 5u64, i);
            lemma_masked_shift(field, m_hi5, 5, i);
            lemma_masked_shift(field, m_lo5, 5, i);
            if i + 5 < 64 {
                lemma_row_patterns((i + 5) % 10);
            }
            if i >= 5 {
                lemma_row_patterns((i - 5) % 10);
            }
        }
        assert forall|i: int| 0 <= i < 64 implies #[trigger] bit(f2, i) == (i < 60 && i % 10 != 2 && i % 10 != 7
            && bit(f1, i)) by {
            lemma_bit_ops(f1, m_moved, i);
            lemma_row_patterns(i % 10);
        }
        assert forall|i: int| 0 <= i < 64 implies #[trigger] bit(fixed, i) == (i < 60 && (i % 10 == 2 || i % 10 == 7)
            && bit(f1, i)) by {
            lemma_bit_ops(f1, m_fixed, i);
            lemma_row_patterns(i % 10);
        }
        assert forall|i: int| 0 <= i < 64 implies #[trigger] bit(f3, i) == (i < 60 && (
            if i % 10 == 0 || i % 10 == 1 || i % 10 == 5 || i % 10 == 6 {
                bit(f2, i + 3)
            } else if i % 10 == 3 || i % 10 == 4 || i % 10 == 8 || i % 10 == 9 {
                bit(f2, i - 3)
            } else {
                false
            })) by {
            lemma_bit_ops((f2 & m_hi3) >> 3u64, (f2 & m_lo3) << 3u64, i);
            lemma_masked_shift(f2, m_hi3, 3, i);
            lemma_masked_shift(f2, m_lo3, 3, i);
            if i + 3 < 64 {
                lemma_row_patterns((i + 3) % 10);
            }
            if i >= 3 {
                lemma_row_patterns((i - 3) % 10);
            }
        }
        assert forall|i: int| 0 <= i < 64 implies #[trigger] bit(f4, i) == (i < 60 && (
            if i % 10 == 0 || i % 10 == 3 || i % 10 == 5 || i % 10 == 8 {
                bit(f3, i + 1)
            } else if i % 10 == 1 || i % 10 == 4 || i % 10 == 6 || i % 10 == 9 {
                bit(f3, i - 1)
            } else {
                false
            })) by {
            lemma_bit_ops((f3 & m_hi1) >> 1u64, (f3 & m_lo1) << 1u64, i);
            lemma_masked_shift(f3, m_hi1, 1, i);
            lemma_masked_shift(f3, m_lo1, 1, i);
            if i + 1 < 64 {
                lemma_row_patterns((i + 1) % 10);
            }
            if i >= 1 {
                lemma_row_patterns((i - 1) % 10);
            }
        }
        lemma_mirror_compose(field, f1, f2, f3, f4, fixed);
    }
    r
}

/// The key of the single row `y`.
pub fn get_bit_key(y: u8) -> (r: u64)
    requires
        y < 24,
    ensures
        r == 1u64 << key_index(y as int) as u64,
        forall|i: int| 0 <= i < 64 ==> #[trigger] bit(r, i) == (i == key_index(y as int)),
{
    let k: u64 = ((y % 6) as u64) * 10 + (y / 6) as u64;
    proof {
        assert forall|i: int| 0 <= i < 64 implies #[trigger] bit(1u64 << k, i) == (i == k) by {
            lemma_bit_consts(k, i);
        }
    }
    1u64 << k
}

/// The key of the single row `y`, as used to name deleted rows.
pub fn get_delete_bit_key(y: u8) -> (r: u64)
    requires
        y < 24,
    ensures
        r == 1u64 << key_index(y as int) as u64,
        forall|i: int| 0 <= i < 64 ==> #[trigger] bit(r, i) == (i == key_index(y as int)),
{
    get_bit_key(y)
}

/// Key positions and rows correspond one to one.
pub proof fn lemma_key_index_row(y: int, i: int)
    requires
        0 <= y < 24,
    ensures
        is_key_bit(key_index(y)),
        key_row(key_index(y)) == y,
        is_key_bit(i) ==> (key_index(key_row(i)) == i && 0 <= key_row(i) < 24),
        is_key_bit(i) ==> ((i == key_index(y)) == (key_row(i) == y)),
{
}

/// The keys of all rows below `y` (row `y` excluded).
pub fn get_mask_for_key_below_y(y: u8) -> (r: u64)
    requires
        y <= 24,
    ensures
        forall|i: int| 0 <= i < 64 ==> #[trigger] bit(r, i) == (is_key_bit(i) && key_row(i) < y),
{
    let mut mask: u64 = 0;
    proof {
        assert forall|i: int| 0 <= i < 64 implies !#[trigger] bit(0u64, i) by {
            lemma_bit_fixed(i);
        }
    }
    let mut t: u8 = 0;
    while t < y
        invariant
            t <= y <= 24,
            forall|i: int| 0 <= i < 64 ==> #[trigger] bit(mask, i) == (is_key_bit(i) && key_row(i) < t),
        decreases y - t,
    {
        let k = get_bit_key(t);
        proof {
            assert forall|i: int| 0 <= i < 64 implies #[trigger] bit(mask | k, i) == (is_key_bit(i) && key_row(i) < t + 1) by {
                lemma_bit_ops(mask, k, i);
                lemma_key_index_row(t as int, i);
            }
        }
        mask = mask | k;
        t = t + 1;
    }
    mask
}

/// The keys of all rows at or above `y`.
pub fn get_mask_for_key_above_y(y: u8) -> (r: u64)
    requires
        y <= 24,
    ensures
        forall|i: int| 0 <= i < 64 ==> #[trigger] bit(r, i) == (is_key_bit(i) && key_row(i) >= y),
{
    let all = repeat_rows(0b0000001111);
    let below_mask = get_mask_for_key_below_y(y);
    proof {
        assert forall|i: int| 0 <= i < 64 implies #[trigger] bit(all & !below_mask, i) == (is_key_bit(i) && key_row(i) >= y) by {
            lemma_bit_ops(all, !below_mask, i);
            lemma_bit_not(below_mask, i);
            lemma_row_patterns(i % 10);
        }
    }
    all & !below_mask
}

/// The key of the given rows.
pub fn get_bit_keys(ys: &[u8]) -> (r: u64)
    requires
        forall|j: int| 0 <= j < ys.len() ==> #[trigger] ys[j] < 24,
    ensures
        forall|i: int| 0 <= i < 64 ==> #[trigger] bit(r, i) == (exists|j: int| 0 <= j < ys.len() && i == key_index(#[trigger] ys[j] as int)),
{
    let mut key: u64 = 0;
    proof {
        assert forall|i: int| 0 <= i < 64 implies !#[trigger] bit(0u64, i) by {
            lemma_bit_fixed(i);
        }
    }
    let mut n: usize = 0;
    while n < ys.len()
        invariant
            n <= ys.len(),
            forall|j: int| 0 <= j < ys.len() ==> #[trigger] ys[j] < 24,
            forall|i: int| 0 <= i < 64 ==> #[trigger] bit(key, i) == (exists|j: int| 0 <= j < n && i == key_index(#[trigger] ys[j] as int)),
        decreases ys.len() - n,
    {
        let k = get_bit_key(ys[n]);
        proof {
            assert forall|i: int| 0 <= i < 64 implies #[trigger] bit(key | k, i) == (exists|j: int| 0 <= j < n + 1 && i == key_index(#[trigger] ys[j] as int)) by {
                lemma_bit_ops(key, k, i);
                if i == key_index(ys[n as int] as int) {
                    assert(0 <= n < n + 1 && i == key_index(ys[n as int] as int));
                }
                if exists|j: int| 0 <= j < n + 1 && i == key_index(#[trigger] ys[j] as int) {
                    let j = choose|j: int| 0 <= j < n + 1 && i == key_index(#[trigger] ys[j] as int);
                    if j < n {
                        assert(bit(key, i));
                    }
                }
            }
        }
        key = key | k;
        n = n + 1;
    }
    key
}

/// The single key bit of `key` among the 24 key positions is the one of row `y`.
pub open spec fn only_key(key: u64, y: int) -> bool {
    forall|i: int| is_key_bit(i) ==> (#[trigger] bit(key, i) == (i == key_index(y)))
}

/// The key bits of `key` restricted to the key column of board `col`.
proof fn lemma_key_column(key: u64, m: u64, col: int)
    requires
        0 <= col < 4,
        forall|i: int| 0 <= i < 64 ==> #[trigger] bit(m, i) == (i < 60 && i % 10 == col),
    ensures
        forall|i: int| 0 <= i < 64 ==> #[trigger] bit(key & m, i) == (i < 60 && i % 10 == col && bit(key, i)),
{
    assert forall|i: int| 0 <= i < 64 implies #[trigger] bit(key & m, i) == (i < 60 && i % 10 == col && bit(key, i)) by {
        lemma_bit_ops(key, m, i);
    }
}

/// The key column of board `col` as a mask.
fn key_column(col: u64) -> (r: u64)
    requires
        col < 4,
    ensures
        forall|i: int| 0 <= i < 64 ==> #[trigger] bit(r, i) == (i < 60 && i % 10 == col),
{
    let row: u64 = 1u64 << col;
    proof {
        lemma_bit_consts(col, 0);
        assert forall|j: int| 0 <= j < 64 implies #[trigger] bit(row, j) == (j == col) by {
            lemma_bit_consts(col, j);
        }
        assert(row < 1024) by {
            assert(row == 1 || row == 2 || row == 4 || row == 8) by {
                assert(1u64 << 0u64 == 1 && 1u64 << 1u64 == 2 && 1u64 << 2u64 == 4 && 1u64 << 3u64 == 8) by (bit_vector);
            }
        }
    }
    repeat_rows(row)
}

/// The key column of board `col` holds the single key bit of `key` iff that bit names a row
/// of board `col`; the bit, moved down by `col`, then sits at the row's first cell.
proof fn lemma_key_column_hit(key: u64, m: u64, col: int, y0: int)
    requires
        0 <= col < 4,
        0 <= y0 < 24,
        only_key(key, y0),
        forall|i: int| 0 <= i < 64 ==> #[trigger] bit(m, i) == (i < 60 && i % 10 == col),
    ensures
        ((key & m) != 0) == (y0 / 6 == col),
        (key & m) != 0 ==> lowest_bit((key & m) >> col as u64) == 10 * (y0 % 6),
{
    let w = key & m;
    lemma_key_column(key, m, col);
    lemma_key_index_row(y0, 0);
    let k = key_index(y0);
    assert forall|i: int| 0 <= i < 64 implies #[trigger] bit(w, i) == (i == k && y0 / 6 == col) by {
        if i < 60 && i % 10 == col {
            assert(is_key_bit(i));
        }
    }
    if y0 / 6 == col {
        assert(bit(w, k));
        lemma_bit_fixed(k);
        let v = w >> col as u64;
        assert forall|i: int| 0 <= i < 64 implies #[trigger] bit(v, i) == (i == 10 * (y0 % 6)) by {
            lemma_bit_shr(w, col as u64, i);
            if i + col < 64 {
                assert(bit(w, i + col) == (i + col == k));
            }
        }
        assert(v != 0) by {
            assert(bit(v, 10 * (y0 % 6)));
            lemma_bit_fixed(10 * (y0 % 6));
        }
        lemma_lowest_highest(v);
    } else {
        assert forall|i: int| 0 <= i < 64 implies !#[trigger] bit(w, i) by {}
        lemma_no_bits_zero(w);
    }
}

/// The row named by a key that flags exactly one row.
pub fn bit_to_y_from_key(key: u64) -> (r: u8)
    requires
        exists|y: int| 0 <= y < 24 && only_key(key, y),
    ensures
        r < 24,
        only_key(key, r as int),
{
    let ghost y0 = choose|y: int| 0 <= y < 24 && only_key(key, y);
    let m0 = key_column(0);
    let low = key & m0;
    proof {
        lemma_key_column_hit(key, m0, 0, y0);
        lemma_shift_zero(low);
    }
    if low != 0 {
        return get_lowest_y(low);
    }
    let m1 = key_column(1);
    let mid_low = key & m1;
    proof {
        lemma_key_column_hit(key, m1, 1, y0);
    }
    if mid_low != 0 {
        return get_lowest_y(mid_low >> 1u64) + 6;
    }
    let m2 = key_column(2);
    let mid_high = key & m2;
    proof {
        lemma_key_column_hit(key, m2, 2, y0);
    }
    if mid_high != 0 {
        return get_lowest_y(mid_high >> 2u64) + 12;
    }
    let m3 = key_column(3);
    let high = key & m3;
    proof {
        lemma_key_column_hit(key, m3, 3, y0);
    }
    get_lowest_y(high >> 3u64) + 18
}

/// The lowest set bit of `x` alone (zero for zero).
pub fn get_lowest_bit(x: u64) -> (r: u64)
    ensures
        x == 0 ==> r == 0,
        x != 0 ==> r == 1u64 << lowest_bit(x) as u64,
{
    if x == 0 {
        0
    } else {
        proof {
            lemma_lowest_highest(x);
        }
        1u64 << x.trailing_zeros()
    }
}

/// Row `y` is the lowest row flagged by `key`.
pub open spec fn lowest_key_row(key: u64, y: int) -> bool {
    &&& 0 <= y < 24
    &&& bit(key, key_index(y))
    &&& forall|z: int| 0 <= z < y ==> !#[trigger] bit(key, key_index(z))
}

/// The key bit of the lowest row flagged by `key`.
pub fn extract_lower_bit(key: u64) -> (r: u64)
    requires
        exists|y: int| 0 <= y < 24 && #[trigger] bit(key, key_index(y)),
    ensures
        exists|y: int| lowest_key_row(key, y) && r == 1u64 << key_index(y) as u64,
{
    let ghost w = choose|y: int| 0 <= y < 24 && #[trigger] bit(key, key_index(y));
    let m0 = key_column(0);
    let low = key & m0;
    proof {
        lemma_key_column(key, m0, 0);
    }
    if low != 0 {
        proof {
            lemma_lowest_highest(low);
            let lb = lowest_bit(low);
            let a = lb / 10;
            assert(key_index(a) == lb);
            assert forall|z: int| 0 <= z < a implies !#[trigger] bit(key, key_index(z)) by {
                assert(!bit(low, key_index(z)));
            }
            assert(lowest_key_row(key, a));
        }
        return get_lowest_bit(low);
    }
    proof {
        assert forall|z: int| 0 <= z < 6 implies !#[trigger] bit(key, key_index(z)) by {
            lemma_bit_fixed(key_index(z));
            assert(!bit(low, key_index(z)));
        }
    }
    let m1 = key_column(1);
    let mid_low = key & m1;
    proof {
        lemma_key_column(key, m1, 1);
    }
    if mid_low != 0 {
        proof {
            lemma_lowest_highest(mid_low);
            let lb = lowest_bit(mid_low);
            let a = 6 + lb / 10;
            assert(key_index(a) == lb);
            assert forall|z: int| 0 <= z < a implies !#[trigger] bit(key, key_index(z)) by {
                if z >= 6 {
                    assert(!bit(mid_low, key_index(z)));
                }
            }
            assert(lowest_key_row(key, a));
        }
        return get_lowest_bit(mid_low);
    }
    proof {
        assert forall|z: int| 0 <= z < 12 implies !#[trigger] bit(key, key_index(z)) by {
            if z >= 6 {
                lemma_bit_fixed(key_index(z));
                assert(!bit(mid_low, key_index(z)));
            }
        }
    }
    let m2 = key_column(2);
    let mid_high = key & m2;
    proof {
        lemma_key_column(key, m2, 2);
    }
    if mid_high != 0 {
        proof {
            lemma_lowest_highest(mid_high);
            let lb = lowest_bit(mid_high);
            let a = 12 + lb / 10;
            assert(key_index(a) == lb);
            assert forall|z: int| 0 <= z < a implies !#[trigger] bit(key, key_index(z)) by {
                if z >= 12 {
                    assert(!bit(mid_high, key_index(z)));
                }
            }
            assert(lowest_key_row(key, a));
        }
        return get_lowest_bit(mid_high);
    }
    proof {
        assert forall|z: int| 0 <= z < 18 implies !#[trigger] bit(key, key_index(z)) by {
            if z >= 12 {
                lemma_bit_fixed(key_index(z));
                assert(!bit(mid_high, key_index(z)));
            }
        }
    }
    let m3 = key_column(3);
    let high = key & m3;
    proof {
        lemma_key_column(key, m3, 3);
        assert(bit(key, key_index(w)));
        assert(w >= 18);
        assert(bit(high, key_index(w)));
        lemma_bit_fixed(key_index(w));
        lemma_lowest_highest(high);
        let lb = lowest_bit(high);
        let a = 18 + lb / 10;
        assert(key_index(a) == lb);
        assert forall|z: int| 0 <= z < a implies !#[trigger] bit(key, key_index(z)) by {
            if z >= 18 {
                assert(!bit(high, key_index(z)));
            }
        }
        assert(lowest_key_row(key, a));
    }
    get_lowest_bit(high)
}

/// The column-key bit of row `y`.
pub fn get_column_key(y: u8) -> (r: u64)
    requires
        y < 64,
    ensures
        r == 1u64 << y as u64,
        forall|i: int| 0 <= i < 64 ==> #[trigger] bit(r, i) == (i == y),
{
    proof {
        assert forall|i: int| 0 <= i < 64 implies #[trigger] bit(1u64 << y as u64, i) == (i == y) by {
            lemma_bit_consts(y as u64, i);
        }
    }
    1u64 << y as u64
}

/// Converts a key into a column key: bit `y` of the result flags row `y`.
pub fn to_column_key(bit_key: u64) -> (r: u64)
    ensures
        forall|i: int| 0 <= i < 64 ==> #[trigger] bit(r, i) == (i < 24 && bit(bit_key, key_index(i))),
{
    let mut result: u64 = 0;
    proof {
        assert forall|i: int| 0 <= i < 64 implies !#[trigger] bit(0u64, i) by {
            lemma_bit_fixed(i);
        }
    }
    let mut y: u8 = 0;
    while y < 24
        invariant
            y <= 24,
            forall|i: int| 0 <= i < 64 ==> #[trigger] bit(result, i) == (i < y && bit(bit_key, key_index(i))),
        decreases 24 - y,
    {
        let bk = get_bit_key(y);
        proof {
            lemma_test_bit(bit_key, key_index(y as int) as u64);
        }
        if bit_key & bk != 0 {
            let ck = get_column_key(y);
            proof {
                assert forall|i: int| 0 <= i < 64 implies #[trigger] bit(result | ck, i) == (i < y + 1 && bit(bit_key, key_index(i))) by {
                    lemma_bit_ops(result, ck, i);
                }
            }
            result = result | ck;
        }
        y = y + 1;
    }
    result
}

/// Converts a column key into a key: the key bit of row `y` is set iff bit `y` is.
pub fn to_bit_key(column_key: u64) -> (r: u64)
    ensures
        forall|i: int| 0 <= i < 64 ==> #[trigger] bit(r, i) == (is_key_bit(i) && bit(column_key, key_row(i))),
{
    let mut result: u64 = 0;
    proof {
        assert forall|i: int| 0 <= i < 64 implies !#[trigger] bit(0u64, i) by {
            lemma_bit_fixed(i);
        }
    }
    let mut y: u8 = 0;
    while y < 24
        invariant
            y <= 24,
            forall|i: int| 0 <= i < 64 ==> #[trigger] bit(result, i) == (is_key_bit(i) && key_row(i) < y && bit(column_key, key_row(i))),
        decreases 24 - y,
    {
        let ck = get_column_key(y);
        proof {
            lemma_test_bit(column_key, y as u64);
        }
        if column_key & ck != 0 {
            let bk = get_bit_key(y);
            proof {
                assert forall|i: int| 0 <= i < 64 implies #[trigger] bit(result | bk, i) == (is_key_bit(i) && key_row(i) < y + 1 && bit(column_key, key_row(i))) by {
                    lemma_bit_ops(result, bk, i);
                    lemma_key_index_row(y as int, i);
                }
            }
            result = result | bk;
        } else {
            proof {
                assert forall|i: int| 0 <= i < 64 implies #[trigger] bit(result, i) == (is_key_bit(i) && key_row(i) < y + 1 && bit(column_key, key_row(i))) by {
                    lemma_key_index_row(y as int, i);
                }
            }
        }
        y = y + 1;
    }
    result
}

/// Mirroring a board twice gives it back: `mirror` is an involution on boards with no bit above
/// the 60 cells.
pub proof fn lemma_mirror_involution(board: u64, once: u64, twice: u64)
    requires
        below(board, 60),
        forall|i: int| 0 <= i < 64 ==> #[trigger] bit(once, i) == (i < 60 && cell(board, 9 - i % 10, i / 10)),
        forall|i: int| 0 <= i < 64 ==> #[trigger] bit(twice, i) == (i < 60 && cell(once, 9 - i % 10, i / 10)),
    ensures
        twice == board,
{
    assert forall|i: int| 0 <= i < 64 implies #[trigger] bit(twice, i) == bit(board, i) by {
        if i < 60 {
            let j = (9 - i % 10) + 10 * (i / 10);
            assert(0 <= j < 60);
            assert(j % 10 == 9 - i % 10 && j / 10 == i / 10);
            assert(bit(once, j) == cell(board, i % 10, i / 10));
            assert(i % 10 + 10 * (i / 10) == i);
        }
    }
    lemma_bit_ext(twice, board);
}

/// Converting a key into a column key and back keeps exactly its key bits: a key made of key
/// bits only comes back unchanged.
pub proof fn lemma_column_key_roundtrip(key: u64, column_key: u64, back: u64)
    requires
        forall|i: int| 0 <= i < 64 ==> #[trigger] bit(column_key, i) == (i < 24 && bit(key, key_index(i))),
        forall|i: int| 0 <= i < 64 ==> #[trigger] bit(back, i) == (is_key_bit(i) && bit(column_key, key_row(i))),
    ensures
        forall|i: int| 0 <= i < 64 ==> #[trigger] bit(back, i) == (is_key_bit(i) && bit(key, i)),
        (forall|i: int| 0 <= i < 64 && #[trigger] bit(key, i) ==> is_key_bit(i)) ==> back == key,
{
    assert forall|i: int| 0 <= i < 64 implies #[trigger] bit(back, i) == (is_key_bit(i) && bit(key, i)) by {
        if is_key_bit(i) {
            lemma_key_index_row(key_row(i), i);
            assert(bit(column_key, key_row(i)) == bit(key, key_index(key_row(i))));
        }
    }
    if forall|i: int| 0 <= i < 64 && #[trigger] bit(key, i) ==> is_key_bit(i) {
        lemma_bit_ext(back, key);
    }
}

/// Converting a column key of the 24 rows into a key and back gives it back.
pub proof fn lemma_bit_key_roundtrip(column_key: u64, key: u64, back: u64)
    requires
        below(column_key, 24),
        forall|i: int| 0 <= i < 64 ==> #[trigger] bit(key, i) == (is_key_bit(i) && bit(column_key, key_row(i))),
        forall|i: int| 0 <= i < 64 ==> #[trigger] bit(back, i) == (i < 24 && bit(key, key_index(i))),
    ensures
        back == column_key,
{
    assert forall|i: int| 0 <= i < 64 implies #[trigger] bit(back, i) == bit(column_key, i) by {
        if i < 24 {
            lemma_key_index_row(i, i);
            assert(bit(key, key_index(i)) == bit(column_key, key_row(key_index(i))));
        }
    }
    lemma_bit_ext(back, column_key);
}

} // verus!
