//! Deleting and inserting whole rows of a single board.
//!
//! A row key for a single board flags row `r` (`0 <= r < 6`) at bit `10 * r`.

use vstd::prelude::*;
use super::bits::{bit, below, lemma_bit_ops, lemma_bit_fixed, lemma_bit_ext, lemma_test_bit};

verus! {

/// The 10 cells of row `q` of a board, as a value below 1024.
pub open spec fn row_of(b: u64, q: int) -> u64 {
    (b >> (10 * q) as u64) & 0x3ffu64
}

/// Whether a single-board row key flags row `q`.
pub open spec fn flagged(key: u64, q: int) -> bool {
    bit(key, 10 * q)
}

/// Number of rows below `p` that a single-board row key leaves in place.
pub open spec fn kept_before(key: u64, p: int) -> int
    decreases p,
{
    if p <= 0 {
        0
    } else {
        kept_before(key, p - 1) + if flagged(key, p - 1) { 0int } else { 1int }
    }
}

/// Number of rows below `p` that a single-board row key flags.
pub open spec fn flagged_before(key: u64, p: int) -> int {
    p - kept_before(key, p)
}

pub proof fn lemma_kept_before_bounds(key: u64, p: int)
    requires
        0 <= p,
    ensures
        0 <= kept_before(key, p) <= p,
    decreases p,
{
    if p > 0 {
        lemma_kept_before_bounds(key, p - 1);
    }
}

/// Kept rows keep their order: a kept row lies above every kept row below it.
pub proof fn lemma_kept_before_mono(key: u64, p: int, q: int)
    requires
        0 <= p <= q,
    ensures
        kept_before(key, p) <= kept_before(key, q),
        p < q && !flagged(key, p) ==> kept_before(key, p) < kept_before(key, q),
    decreases q - p,
{
    if p < q {
        lemma_kept_before_mono(key, p, q - 1);
        if !flagged(key, p) {
            lemma_kept_before_mono(key, p + 1, q);
        }
    }
}

proof fn lemma_row_bv(a: u64, b: u64, v: u64, s: u64, t: u64, c: u64)
    by (bit_vector)
    requires
        s < 64,
        t < 64,
        c < 10,
    ensures
        ((a | b) >> s) & 0x3ffu64 == ((a >> s) & 0x3ffu64) | ((b >> s) & 0x3ffu64),
        ((a & b) >> s) & 0x3ffu64 == ((a >> s) & 0x3ffu64) & ((b >> s) & 0x3ffu64),
        ((a >> s) & 0x3ffu64) <= 0x3ffu64,
        (0u64 >> s) & 0x3ffu64 == 0u64,
        s + 10 <= 60 ==> (0x0fff_ffff_ffff_ffffu64 >> s) & 0x3ffu64 == 0x3ffu64,
        a | 0u64 == a,
        0u64 | a == a,
{
}

proof fn lemma_row_bit_bv(a: u64, s: u64, c: u64)
    by (bit_vector)
    requires
        s < 64,
        c < 10,
    ensures
        (((a >> s) & 0x3ffu64) >> c) & 1u64 == 1u64 <==> (s + c < 64 && (a >> (s + c)) & 1u64 == 1u64),
{
}

proof fn lemma_row_placed_bv(v: u64, s: u64, t: u64)
    by (bit_vector)
    requires
        v < 1024,
        s <= 50,
        t <= 60,
        s == t || s + 10 <= t || t + 10 <= s,
    ensures
        ((v << s) >> t) & 0x3ffu64 == if s == t { v } else { 0u64 },
{
}

proof fn lemma_row_shr_bv(b: u64, s: u64, t: u64)
    by (bit_vector)
    requires
        s + t <= 60,
    ensures
        ((b >> s) >> t) & 0x3ffu64 == (b >> (s + t)) & 0x3ffu64,
{
}

proof fn lemma_row_shl_bv(b: u64, s: u64, t: u64)
    by (bit_vector)
    requires
        s <= t <= 50,
    ensures
        ((b << s) >> t) & 0x3ffu64 == (b >> ((t - s) as u64)) & 0x3ffu64,
{
}

proof fn lemma_row_low_mask_bv(s: u64, t: u64)
    by (bit_vector)
    requires
        s <= 60,
        t <= 60,
        s == t || s + 10 <= t || t + 10 <= s,
    ensures
        ((((1u64 << s) - 1u64) as u64) >> t) & 0x3ffu64 == if t < s { 0x3ffu64 } else { 0u64 },
        s < t + 10 && t < s ==> false,
{
}

/// Rows of a board moved down by `s` rows.
pub proof fn lemma_row_shr(b: u64, s: int, q: int)
    requires
        0 <= s <= 6,
        0 <= q,
        q + s <= 6,
    ensures
        row_of(b >> (10 * s) as u64, q) == row_of(b, q + s),
{
    lemma_row_shr_bv(b, (10 * s) as u64, (10 * q) as u64);
}

/// Rows of a board moved up by `s` rows.
pub proof fn lemma_row_shl(b: u64, s: int, q: int)
    requires
        0 <= s <= 6,
        0 <= q <= 5,
    ensures
        row_of(b << (10 * s) as u64, q) == if q >= s { row_of(b, q - s) } else { 0u64 },
{
    if q >= s {
        lemma_row_shl_bv(b, (10 * s) as u64, (10 * q) as u64);
    } else {
        assert forall|c: int| 0 <= c < 64 implies !#[trigger] bit(row_of(b << (10 * s) as u64, q), c) by {
            if c < 10 {
                lemma_row_bit(b << (10 * s) as u64, q, c);
                super::bits::lemma_bit_shl(b, (10 * s) as u64, 10 * q + c);
            } else {
                lemma_row_ops(b << (10 * s) as u64, 0, q);
                lemma_small_has_no_high_bit(row_of(b << (10 * s) as u64, q), c);
            }
        }
        super::bits::lemma_no_bits_zero(row_of(b << (10 * s) as u64, q));
    }
}

/// Rows of the mask of the lowest `s` rows.
pub proof fn lemma_row_low_mask(s: int, q: int)
    requires
        0 <= s <= 6,
        0 <= q <= 6,
    ensures
        row_of(((1u64 << (10 * s) as u64) - 1u64) as u64, q) == if q < s { 0x3ffu64 } else { 0u64 },
{
    lemma_row_low_mask_bv((10 * s) as u64, (10 * q) as u64);
}

/// Rows of `|` and `&` are taken row by row; a row is below 1024.
pub proof fn lemma_row_ops(a: u64, b: u64, q: int)
    requires
        0 <= q <= 6,
    ensures
        row_of(a | b, q) == row_of(a, q) | row_of(b, q),
        row_of(a & b, q) == row_of(a, q) & row_of(b, q),
        row_of(a, q) < 1024,
        row_of(0, q) == 0,
        row_of(a, q) | 0u64 == row_of(a, q),
        0u64 | row_of(a, q) == row_of(a, q),
        q < 6 ==> row_of(0x0fff_ffff_ffff_ffffu64, q) == 0x3ffu64,
{
    lemma_row_bv(a, b, 0, (10 * q) as u64, 0, 0);
    lemma_row_bv(row_of(a, q), b, 0, (10 * q) as u64, 0, 0);
}

/// A row value placed at row `k` occupies exactly that row.
pub proof fn lemma_row_placed(v: u64, k: int, q: int)
    requires
        v < 1024,
        0 <= k <= 5,
        0 <= q <= 6,
    ensures
        row_of(v << (10 * k) as u64, q) == if q == k { v } else { 0u64 },
{
    lemma_row_placed_bv(v, (10 * k) as u64, (10 * q) as u64);
}

/// Cell `c` of row `q` is bit `10 * q + c` of the board.
pub proof fn lemma_row_bit(b: u64, q: int, c: int)
    requires
        0 <= q <= 6,
        0 <= c < 10,
    ensures
        bit(row_of(b, q), c) == (10 * q + c < 64 && bit(b, 10 * q + c)),
{
    lemma_row_bit_bv(b, (10 * q) as u64, c as u64);
}

/// Boards without bits above the 6 rows are equal when all their rows are.
pub proof fn lemma_rows_ext(a: u64, b: u64)
    requires
        below(a, 60),
        below(b, 60),
        forall|q: int| 0 <= q < 6 ==> #[trigger] row_of(a, q) == row_of(b, q),
    ensures
        a == b,
{
    assert forall|i: int| 0 <= i < 64 implies #[trigger] bit(a, i) == bit(b, i) by {
        if i < 60 {
            let q = i / 10;
            let c = i % 10;
            lemma_row_bit(a, q, c);
            lemma_row_bit(b, q, c);
            assert(row_of(a, q) == row_of(b, q));
        }
    }
    lemma_bit_ext(a, b);
}

/// A board whose rows from `n` on are empty has no bit from `10 * n` on, if it has none above
/// its 6 rows.
pub proof fn lemma_rows_below(b: u64, n: int)
    requires
        0 <= n <= 6,
        below(b, 60),
        forall|q: int| n <= q < 6 ==> #[trigger] row_of(b, q) == 0,
    ensures
        below(b, 10 * n),
{
    assert forall|i: int| 10 * n <= i < 64 implies !#[trigger] bit(b, i) by {
        if i < 60 {
            let q = i / 10;
            lemma_row_bit(b, q, i % 10);
            lemma_bit_fixed(i % 10);
        }
    }
}

/// The rows of a board that has no bit from `10 * n` on are empty from row `n` on.
pub proof fn lemma_below_rows(b: u64, n: int, q: int)
    requires
        0 <= n <= q <= 6,
        below(b, 10 * n),
    ensures
        row_of(b, q) == 0,
{
    assert forall|c: int| 0 <= c < 64 implies !#[trigger] bit(row_of(b, q), c) by {
        if c < 10 {
            lemma_row_bit(b, q, c);
        } else {
            lemma_row_ops(b, b, q);
            lemma_row_bv(b, b, 0, (10 * q) as u64, 0, 0);
            assert(bit(row_of(b, q), c) ==> false) by {
                assert(row_of(b, q) <= 0x3ffu64);
                lemma_small_has_no_high_bit(row_of(b, q), c);
            }
        }
    }
    super::bits::lemma_no_bits_zero(row_of(b, q));
}

proof fn lemma_small_bv(w: u64, c: u64)
    by (bit_vector)
    requires
        w <= 0x3ffu64,
        10 <= c < 64,
    ensures
        (w >> c) & 1u64 != 1u64,
{
}

/// A row value has no bit above its 10 cells.
pub proof fn lemma_small_has_no_high_bit(w: u64, c: int)
    requires
        w <= 0x3ffu64,
        10 <= c < 64,
    ensures
        !bit(w, c),
{
    lemma_small_bv(w, c as u64);
}

/// Whether a single-board row key flags row `r`.
fn is_flagged(key: u64, r: u64) -> (f: bool)
    requires
        r < 6,
    ensures
        f == flagged(key, r as int),
{
    proof {
        lemma_test_bit(key, (10 * r) as u64);
    }
    key & (1u64 << (10 * r)) != 0
}

/// Row `r` of a board as a value below 1024.
fn row_value(board: u64, r: u64) -> (v: u64)
    requires
        r <= 6,
    ensures
        v == row_of(board, r as int),
        v < 1024,
{
    proof {
        lemma_row_ops(board, board, r as int);
    }
    (board >> (10 * r)) & 0x3ff
}

/// Removes the rows flagged by `key`; the rows above each removed row move down and empty
/// rows come in at the top.
pub fn delete_row(board: u64, key: u64) -> (r: u64)
    ensures
        below(r, 60),
        forall|p: int| 0 <= p < 6 && !flagged(key, p) ==> #[trigger] row_of(r, kept_before(key, p)) == row_of(board, p),
        forall|q: int| kept_before(key, 6) <= q < 6 ==> #[trigger] row_of(r, q) == 0,
{
    let mut result: u64 = 0;
    let mut out: u64 = 0;
    let mut q: u64 = 0;
    proof {
        assert forall|i: int| 0 <= i < 64 implies !#[trigger] bit(0u64, i) by {
            lemma_bit_fixed(i);
        }
    }
    while q < 6
        invariant
            q <= 6,
            out == kept_before(key, q as int),
            out <= q,
            below(result, 10 * out),
            forall|p: int| 0 <= p < q && !flagged(key, p) ==> #[trigger] row_of(result, kept_before(key, p)) == row_of(board, p),
        decreases 6 - q,
    {
        proof {
            lemma_kept_before_bounds(key, q as int);
        }
        if !is_flagged(key, q) {
            let v = row_value(board, q);
            let placed = v << (10 * out);
            proof {
                assert forall|p: int| 0 <= p < q + 1 && !flagged(key, p) implies #[trigger] row_of(result | placed, kept_before(key, p)) == row_of(board, p) by {
                    lemma_kept_before_bounds(key, p);
                    lemma_kept_before_mono(key, p, q as int);
                    lemma_row_ops(result, placed, kept_before(key, p));
                    lemma_row_ops(placed, placed, kept_before(key, p));
                    lemma_row_placed(v, out as int, kept_before(key, p));
                    if p < q {
                        assert(kept_before(key, p) < out);
                    } else {
                        lemma_below_rows(result, out as int, out as int);
                    }
                }
                assert forall|i: int| 10 * (out + 1) <= i < 64 implies !#[trigger] bit(result | placed, i) by {
                    lemma_bit_ops(result, placed, i);
                    super::bits::lemma_bit_shl(v, (10 * out) as u64, i);
                    lemma_small_has_no_high_bit(v, i - 10 * out);
                }
            }
            result = result | placed;
            out = out + 1;
        }
        q = q + 1;
    }
    proof {
        lemma_kept_before_bounds(key, 6);
        assert forall|q: int| kept_before(key, 6) <= q < 6 implies #[trigger] row_of(result, q) == 0 by {
            lemma_below_rows(result, out as int, q);
        }
        assert(below(result, 60)) by {
            assert forall|i: int| 60 <= i < 64 implies !#[trigger] bit(result, i) by {}
        }
    }
    result
}

/// Inserts a row at each row flagged by `key` (filled if `filled`, else empty); the rows of
/// `board` move up past the inserted rows, and rows pushed past the top are lost.
pub fn insert_row(board: u64, key: u64, filled: bool) -> (r: u64)
    ensures
        below(r, 60),
        forall|q: int| 0 <= q < 6 ==> #[trigger] row_of(r, q) == if flagged(key, q) {
            if filled { 0x3ffu64 } else { 0u64 }
        } else {
            row_of(board, kept_before(key, q))
        },
{
    let mut result: u64 = 0;
    let mut src: u64 = 0;
    let mut q: u64 = 0;
    let fill: u64 = if filled { 0x3ff } else { 0 };
    proof {
        assert forall|i: int| 0 <= i < 64 implies !#[trigger] bit(0u64, i) by {
            lemma_bit_fixed(i);
        }
    }
    while q < 6
        invariant
            q <= 6,
            src == kept_before(key, q as int),
            src <= q,
            fill == if filled { 0x3ffu64 } else { 0u64 },
            below(result, 10 * q),
            forall|t: int| 0 <= t < q ==> #[trigger] row_of(result, t) == if flagged(key, t) {
                fill
            } else {
                row_of(board, kept_before(key, t))
            },
        decreases 6 - q,
    {
        proof {
            lemma_kept_before_bounds(key, q as int);
        }
        let v = if is_flagged(key, q) {
            fill
        } else {
            row_value(board, src)
        };
        let placed = v << (10 * q);
        proof {
            assert forall|t: int| 0 <= t < q + 1 implies #[trigger] row_of(result | placed, t) == if flagged(key, t) {
                fill
            } else {
                row_of(board, kept_before(key, t))
            } by {
                lemma_row_ops(result, placed, t);
                lemma_row_ops(placed, placed, t);
                lemma_row_placed(v, q as int, t);
                if t == q {
                    lemma_below_rows(result, q as int, q as int);
                }
            }
            assert forall|i: int| 10 * (q + 1) <= i < 64 implies !#[trigger] bit(result | placed, i) by {
                lemma_bit_ops(result, placed, i);
                super::bits::lemma_bit_shl(v, (10 * q) as u64, i);
                lemma_small_has_no_high_bit(v, i - 10 * q);
            }
        }
        result = result | placed;
        if !is_flagged(key, q) {
            src = src + 1;
        }
        q = q + 1;
    }
    result
}

/// Inserts an empty row at each row flagged by `key`.
pub fn insert_blank_row(board: u64, key: u64) -> (r: u64)
    ensures
        below(r, 60),
        forall|q: int| 0 <= q < 6 ==> #[trigger] row_of(r, q) == if flagged(key, q) {
            0u64
        } else {
            row_of(board, kept_before(key, q))
        },
{
    insert_row(board, key, false)
}

/// Inserts a filled row at each row flagged by `key`.
pub fn insert_filled_row(board: u64, key: u64) -> (r: u64)
    ensures
        below(r, 60),
        forall|q: int| 0 <= q < 6 ==> #[trigger] row_of(r, q) == if flagged(key, q) {
            0x3ffu64
        } else {
            row_of(board, kept_before(key, q))
        },
{
    insert_row(board, key, true)
}

/// A single-board key only flags rows: it has no bit but at row positions `10 * q`, `q < 6`.
pub open spec fn is_board_key(key: u64) -> bool {
    forall|i: int| 0 <= i < 64 && #[trigger] bit(key, i) ==> i < 60 && i % 10 == 0
}

proof fn lemma_board_key_count_upto(key: u64, t: int)
    requires
        0 <= t <= 6,
        is_board_key(key),
    ensures
        super::bit_operators::count_bits(key, 10 * t) == t - kept_before(key, t),
    decreases t,
{
    if t > 0 {
        lemma_board_key_count_upto(key, t - 1);
        let base = 10 * (t - 1);
        assert forall|i: int| base + 1 <= i < base + 10 implies !#[trigger] bit(key, i) by {}
        super::bit_operators::lemma_count_bits_skip(key, base + 1, base + 10);
    }
}

/// The number of rows a single-board key flags.
pub proof fn lemma_board_key_popcount(key: u64)
    requires
        is_board_key(key),
    ensures
        super::bit_operators::popcount(key) == 6 - kept_before(key, 6),
        0 <= kept_before(key, 6) <= 6,
{
    lemma_board_key_count_upto(key, 6);
    assert forall|i: int| 60 <= i < 64 implies !#[trigger] bit(key, i) by {}
    super::bit_operators::lemma_count_bits_skip(key, 60, 64);
    lemma_kept_before_bounds(key, 6);
}

} // verus!
