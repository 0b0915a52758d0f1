//! Rows moving between the boards of a field: each board holds 6 rows of 10 cells in its low
//! 60 bits, and a field stacks its boards bottom to top.

use vstd::prelude::*;
use super::bits::{
    bit, below, lemma_bit_ops, lemma_bit_shl, lemma_bit_shr, lemma_bit_fixed, lemma_bit_ext,
    lemma_bit_consts,
};
use super::long_board_map::{row_of, lemma_row_bit, lemma_small_has_no_high_bit, lemma_row_ops};

verus! {

/// Two rows whose 10 cells agree are equal.
pub proof fn lemma_row_eq(a: u64, q: int, b: u64, p: int)
    requires
        0 <= q < 6,
        0 <= p < 6,
        forall|c: int| 0 <= c < 10 ==> #[trigger] bit(a, 10 * q + c) == bit(b, 10 * p + c),
    ensures
        row_of(a, q) == row_of(b, p),
{
    lemma_row_ops(a, a, q);
    lemma_row_ops(b, b, p);
    assert forall|c: int| 0 <= c < 64 implies #[trigger] bit(row_of(a, q), c) == bit(row_of(b, p), c) by {
        if c < 10 {
            lemma_row_bit(a, q, c);
            lemma_row_bit(b, p, c);
            assert(bit(a, 10 * q + c) == bit(b, 10 * p + c));
        } else {
            lemma_small_has_no_high_bit(row_of(a, q), c);
            lemma_small_has_no_high_bit(row_of(b, p), c);
        }
    }
    lemma_bit_ext(row_of(a, q), row_of(b, p));
}

/// A row none of whose 10 cells is set is empty.
pub proof fn lemma_row_zero(a: u64, q: int)
    requires
        0 <= q < 6,
        forall|c: int| 0 <= c < 10 ==> !#[trigger] bit(a, 10 * q + c),
    ensures
        row_of(a, q) == 0,
{
    assert forall|c: int| 0 <= c < 10 implies #[trigger] bit(a, 10 * q + c) == bit(0u64, 10 * 0 + c) by {
        lemma_bit_fixed(c);
    }
    lemma_row_eq(a, q, 0, 0);
    lemma_row_ops(0, 0, 0);
}

/// Masking with the valid range keeps the rows and clears the bits above them.
pub proof fn lemma_valid_rows(x: u64)
    ensures
        below(x & 0x0fff_ffff_ffff_ffffu64, 60),
        forall|q: int| 0 <= q < 6 ==> #[trigger] row_of(x & 0x0fff_ffff_ffff_ffffu64, q) == row_of(x, q),
{
    let v = x & 0x0fff_ffff_ffff_ffffu64;
    assert forall|i: int| 0 <= i < 64 implies #[trigger] bit(v, i) == (i < 60 && bit(x, i)) by {
        lemma_bit_ops(x, 0x0fff_ffff_ffff_ffffu64, i);
        lemma_bit_fixed(i);
    }
    assert forall|q: int| 0 <= q < 6 implies #[trigger] row_of(v, q) == row_of(x, q) by {
        assert forall|c: int| 0 <= c < 10 implies #[trigger] bit(v, 10 * q + c) == bit(x, 10 * q + c) by {}
        lemma_row_eq(v, q, x, q);
    }
}

/// Rows of a board moved down by `s` rows, for a board without bits above its rows.
pub proof fn lemma_board_down(b: u64, s: int)
    requires
        0 <= s <= 6,
        below(b, 60),
    ensures
        below(b >> (10 * s) as u64, 60),
        forall|q: int| 0 <= q < 6 ==> #[trigger] row_of(b >> (10 * s) as u64, q) == if q + s < 6 {
            row_of(b, q + s)
        } else {
            0u64
        },
{
    let r = b >> (10 * s) as u64;
    assert forall|i: int| 0 <= i < 64 implies #[trigger] bit(r, i) == (i + 10 * s < 60 && bit(b, i + 10 * s)) by {
        lemma_bit_shr(b, (10 * s) as u64, i);
    }
    assert forall|q: int| 0 <= q < 6 implies #[trigger] row_of(r, q) == if q + s < 6 {
        row_of(b, q + s)
    } else {
        0u64
    } by {
        if q + s < 6 {
            assert forall|c: int| 0 <= c < 10 implies #[trigger] bit(r, 10 * q + c) == bit(b, 10 * (q + s) + c) by {}
            lemma_row_eq(r, q, b, q + s);
        } else {
            assert forall|c: int| 0 <= c < 10 implies !#[trigger] bit(r, 10 * q + c) by {}
            lemma_row_zero(r, q);
        }
    }
}

/// Joining the low `n` rows of `lo` with `hi` moved up by `n` rows, cut to the valid range.
pub proof fn lemma_board_join(lo: u64, hi: u64, n: int)
    requires
        0 <= n <= 6,
        below(lo, 10 * n),
    ensures
        below((lo | (hi << (10 * n) as u64)) & 0x0fff_ffff_ffff_ffffu64, 60),
        forall|q: int| 0 <= q < 6 ==> #[trigger] row_of((lo | (hi << (10 * n) as u64)) & 0x0fff_ffff_ffff_ffffu64, q)
            == if q < n {
            row_of(lo, q)
        } else {
            row_of(hi, q - n)
        },
{
    let u = lo | (hi << (10 * n) as u64);
    let r = u & 0x0fff_ffff_ffff_ffffu64;
    assert forall|i: int| 0 <= i < 64 implies #[trigger] bit(r, i) == (i < 60 && (bit(lo, i) || (i >= 10 * n
        && bit(hi, i - 10 * n)))) by {
        lemma_bit_ops(u, 0x0fff_ffff_ffff_ffffu64, i);
        lemma_bit_ops(lo, hi << (10 * n) as u64, i);
        lemma_bit_shl(hi, (10 * n) as u64, i);
        lemma_bit_fixed(i);
    }
    assert forall|q: int| 0 <= q < 6 implies #[trigger] row_of(r, q) == if q < n {
        row_of(lo, q)
    } else {
        row_of(hi, q - n)
    } by {
        if q < n {
            assert forall|c: int| 0 <= c < 10 implies #[trigger] bit(r, 10 * q + c) == bit(lo, 10 * q + c) by {}
            lemma_row_eq(r, q, lo, q);
        } else {
            assert forall|c: int| 0 <= c < 10 implies #[trigger] bit(r, 10 * q + c) == bit(hi, 10 * (q - n) + c) by {}
            lemma_row_eq(r, q, hi, q - n);
        }
    }
}

/// The rows of `lo` above row `s - 1` moved down by `s` rows, topped with the low rows of
/// `hi`.
pub proof fn lemma_board_shift_pair(lo: u64, hi: u64, s: int)
    requires
        0 <= s <= 6,
        below(lo, 60),
    ensures
        below((lo >> (10 * s) as u64) | ((hi << (10 * (6 - s)) as u64) & 0x0fff_ffff_ffff_ffffu64), 60),
        forall|q: int| 0 <= q < 6 ==> #[trigger] row_of(
            (lo >> (10 * s) as u64) | ((hi << (10 * (6 - s)) as u64) & 0x0fff_ffff_ffff_ffffu64),
            q,
        ) == if q + s < 6 {
            row_of(lo, q + s)
        } else {
            row_of(hi, q + s - 6)
        },
{
    let a = lo >> (10 * s) as u64;
    let h = hi << (10 * (6 - s)) as u64;
    let m = h & 0x0fff_ffff_ffff_ffffu64;
    let r = a | m;
    assert forall|i: int| 0 <= i < 64 implies #[trigger] bit(r, i) == (i < 60 && ((i + 10 * s < 60 && bit(lo, i + 10 * s))
        || (i + 10 * s >= 60 && bit(hi, i + 10 * s - 60)))) by {
        lemma_bit_ops(a, m, i);
        lemma_bit_ops(h, 0x0fff_ffff_ffff_ffffu64, i);
        lemma_bit_shr(lo, (10 * s) as u64, i);
        lemma_bit_shl(hi, (10 * (6 - s)) as u64, i);
        lemma_bit_fixed(i);
    }
    assert forall|q: int| 0 <= q < 6 implies #[trigger] row_of(r, q) == if q + s < 6 {
        row_of(lo, q + s)
    } else {
        row_of(hi, q + s - 6)
    } by {
        if q + s < 6 {
            assert forall|c: int| 0 <= c < 10 implies #[trigger] bit(r, 10 * q + c) == bit(lo, 10 * (q + s) + c) by {}
            lemma_row_eq(r, q, lo, q + s);
        } else {
            assert forall|c: int| 0 <= c < 10 implies #[trigger] bit(r, 10 * q + c) == bit(hi, 10 * (q + s - 6) + c) by {}
            lemma_row_eq(r, q, hi, q + s - 6);
        }
    }
}

/// The board made of the top `d` rows of `lo` followed by the rows of `hi`.
pub proof fn lemma_board_upper(lo: u64, hi: u64, d: int)
    requires
        0 <= d <= 6,
    ensures
        forall|q: int| 0 <= q < 6 ==> #[trigger] row_of(
            (hi << (10 * d) as u64) | ((lo & 0x0fff_ffff_ffff_ffffu64) >> (10 * (6 - d)) as u64),
            q,
        ) == if q < d {
            row_of(lo, q + 6 - d)
        } else {
            row_of(hi, q - d)
        },
{
    let h = hi << (10 * d) as u64;
    let v = lo & 0x0fff_ffff_ffff_ffffu64;
    let l = v >> (10 * (6 - d)) as u64;
    let r = h | l;
    assert forall|i: int| 0 <= i < 64 implies #[trigger] bit(r, i) == ((i >= 10 * d && bit(hi, i - 10 * d)) || (i < 10 * d
        && bit(lo, i + 60 - 10 * d))) by {
        lemma_bit_ops(h, l, i);
        lemma_bit_shl(hi, (10 * d) as u64, i);
        lemma_bit_shr(v, (10 * (6 - d)) as u64, i);
        if i + 60 - 10 * d < 64 {
            lemma_bit_ops(lo, 0x0fff_ffff_ffff_ffffu64, i + 60 - 10 * d);
            lemma_bit_fixed(i + 60 - 10 * d);
        }
    }
    assert forall|q: int| 0 <= q < 6 implies #[trigger] row_of(r, q) == if q < d {
        row_of(lo, q + 6 - d)
    } else {
        row_of(hi, q - d)
    } by {
        if q < d {
            assert forall|c: int| 0 <= c < 10 implies #[trigger] bit(r, 10 * q + c) == bit(lo, 10 * (q + 6 - d) + c) by {}
            lemma_row_eq(r, q, lo, q + 6 - d);
        } else {
            assert forall|c: int| 0 <= c < 10 implies #[trigger] bit(r, 10 * q + c) == bit(hi, 10 * (q - d) + c) by {}
            lemma_row_eq(r, q, hi, q - d);
        }
    }
}

/// The rows of a board below row `n`, through a mask of the cells below row `n`.
pub proof fn lemma_board_lower(b: u64, m: u64, n: int)
    requires
        0 <= n <= 6,
        forall|i: int| 0 <= i < 64 ==> #[trigger] bit(m, i) == (i < 10 * n),
    ensures
        forall|q: int| 0 <= q < 6 ==> #[trigger] row_of(b & m, q) == if q < n {
            row_of(b, q)
        } else {
            0u64
        },
{
    assert forall|q: int| 0 <= q < 6 implies #[trigger] row_of(b & m, q) == if q < n {
        row_of(b, q)
    } else {
        0u64
    } by {
        if q < n {
            assert forall|c: int| 0 <= c < 10 implies #[trigger] bit(b & m, 10 * q + c) == bit(b, 10 * q + c) by {
                lemma_bit_ops(b, m, 10 * q + c);
            }
            lemma_row_eq(b & m, q, b, q);
        } else {
            assert forall|c: int| 0 <= c < 10 implies !#[trigger] bit(b & m, 10 * q + c) by {
                lemma_bit_ops(b, m, 10 * q + c);
            }
            lemma_row_zero(b & m, q);
        }
    }
}

/// The same move as `lemma_board_shift_pair`, with the mask taken over the whole union.
pub proof fn lemma_board_shift_pair_masked(lo: u64, hi: u64, s: int)
    requires
        0 <= s <= 6,
        below(lo, 60),
    ensures
        below(((lo >> (10 * s) as u64) | (hi << (10 * (6 - s)) as u64)) & 0x0fff_ffff_ffff_ffffu64, 60),
        forall|q: int| 0 <= q < 6 ==> #[trigger] row_of(
            ((lo >> (10 * s) as u64) | (hi << (10 * (6 - s)) as u64)) & 0x0fff_ffff_ffff_ffffu64,
            q,
        ) == if q + s < 6 {
            row_of(lo, q + s)
        } else {
            row_of(hi, q + s - 6)
        },
{
    let a = lo >> (10 * s) as u64;
    let h = hi << (10 * (6 - s)) as u64;
    let r = (a | h) & 0x0fff_ffff_ffff_ffffu64;
    assert forall|i: int| 0 <= i < 64 implies #[trigger] bit(r, i) == (i < 60 && ((i + 10 * s < 60 && bit(lo, i + 10 * s))
        || (i + 10 * s >= 60 && bit(hi, i + 10 * s - 60)))) by {
        lemma_bit_ops(a | h, 0x0fff_ffff_ffff_ffffu64, i);
        lemma_bit_ops(a, h, i);
        lemma_bit_shr(lo, (10 * s) as u64, i);
        lemma_bit_shl(hi, (10 * (6 - s)) as u64, i);
        lemma_bit_fixed(i);
    }
    assert forall|q: int| 0 <= q < 6 implies #[trigger] row_of(r, q) == if q + s < 6 {
        row_of(lo, q + s)
    } else {
        row_of(hi, q + s - 6)
    } by {
        if q + s < 6 {
            assert forall|c: int| 0 <= c < 10 implies #[trigger] bit(r, 10 * q + c) == bit(lo, 10 * (q + s) + c) by {}
            lemma_row_eq(r, q, lo, q + s);
        } else {
            assert forall|c: int| 0 <= c < 10 implies #[trigger] bit(r, 10 * q + c) == bit(hi, 10 * (q + s - 6) + c) by {}
            lemma_row_eq(r, q, hi, q + s - 6);
        }
    }
}

} // verus!
