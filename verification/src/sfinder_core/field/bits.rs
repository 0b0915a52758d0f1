//! Bit-level facts about `u64` words, stated over single bit positions.
//!
//! Every board of a field is a `u64` word, so reasoning about boards is reduced to
//! reasoning about the individual bits `0..64` of a word.

use vstd::prelude::*;
use vstd::std_specs::bits::{axiom_u64_trailing_zeros, u64_trailing_zeros};

verus! {

/// Whether bit `i` of `w` is set.
pub open spec fn bit(w: u64, i: int) -> bool {
    (w >> (i as u64)) & 1u64 == 1u64
}

/// `w` has no set bit at or above position `n`.
pub open spec fn below(w: u64, n: int) -> bool {
    forall|i: int| n <= i < 64 ==> !#[trigger] bit(w, i)
}

proof fn lemma_or_bv(a: u64, b: u64, i: u64)
    by (bit_vector)
    requires
        i < 64,
    ensures
        ((a | b) >> i) & 1u64 == 1u64 <==> ((a >> i) & 1u64 == 1u64 || (b >> i) & 1u64 == 1u64),
        ((a & b) >> i) & 1u64 == 1u64 <==> ((a >> i) & 1u64 == 1u64 && (b >> i) & 1u64 == 1u64),
        ((a ^ b) >> i) & 1u64 == 1u64 <==> ((a >> i) & 1u64 == 1u64) != ((b >> i) & 1u64 == 1u64),
        ((!a) >> i) & 1u64 == 1u64 <==> !((a >> i) & 1u64 == 1u64),
        a & b <= b,
        ((a >> i) & 1u64 != 0u64) <==> ((a >> i) & 1u64 == 1u64),
{
}

/// Bits of `|`, `&`, `^` and `!` are computed position by position.
pub broadcast proof fn lemma_bit_ops(a: u64, b: u64, i: int)
    requires
        0 <= i < 64,
    ensures
        #[trigger] bit(a | b, i) == (bit(a, i) || bit(b, i)),
        #[trigger] bit(a & b, i) == (bit(a, i) && bit(b, i)),
        #[trigger] bit(a ^ b, i) == (bit(a, i) != bit(b, i)),
        a & b <= b,
        bit(a, i) == ((a >> (i as u64)) & 1u64 != 0u64),
{
    lemma_or_bv(a, b, i as u64);
}

pub broadcast proof fn lemma_bit_not(a: u64, i: int)
    requires
        0 <= i < 64,
    ensures
        #[trigger] bit(!a, i) == !bit(a, i),
{
    lemma_or_bv(a, a, i as u64);
}

proof fn lemma_shift_bv(a: u64, s: u64, i: u64)
    by (bit_vector)
    requires
        i < 64,
        s < 64,
    ensures
        ((a << s) >> i) & 1u64 == 1u64 <==> (i >= s && (a >> (i - s) as u64) & 1u64 == 1u64),
        ((a >> s) >> i) & 1u64 == 1u64 <==> (i + s < 64 && (a >> (i + s) as u64) & 1u64 == 1u64),
{
}

/// Shifting left by `s` moves bit `i - s` to position `i`; the low `s` bits become zero.
pub broadcast proof fn lemma_bit_shl(a: u64, s: u64, i: int)
    requires
        0 <= i < 64,
        s < 64,
    ensures
        #[trigger] bit(a << s, i) == (i >= s && bit(a, i - s)),
{
    lemma_shift_bv(a, s, i as u64);
}

/// Shifting right by `s` moves bit `i + s` to position `i`; the top `s` bits become zero.
pub broadcast proof fn lemma_bit_shr(a: u64, s: u64, i: int)
    requires
        0 <= i < 64,
        s < 64,
    ensures
        #[trigger] bit(a >> s, i) == (i + s < 64 && bit(a, i + s)),
{
    lemma_shift_bv(a, s, i as u64);
}

proof fn lemma_const_bv(k: u64, i: u64)
    by (bit_vector)
    requires
        i < 64,
        k < 64,
    ensures
        ((1u64 << k) >> i) & 1u64 == 1u64 <==> i == k,
        (((1u64 << k) - 1u64) as u64 >> i) & 1u64 == 1u64 <==> i < k,
        (1u64 << k) >= 1u64,
{
}

/// The bits of `1 << k` and of `(1 << k) - 1`.
pub broadcast proof fn lemma_bit_consts(k: u64, i: int)
    requires
        0 <= i < 64,
        k < 64,
    ensures
        #[trigger] bit(1u64 << k, i) == (i == k),
        #[trigger] bit(((1u64 << k) - 1u64) as u64, i) == (i < k),
        (1u64 << k) >= 1u64,
{
    lemma_const_bv(k, i as u64);
}

proof fn lemma_fixed_bv(i: u64)
    by (bit_vector)
    requires
        i < 64,
    ensures
        (0u64 >> i) & 1u64 == 1u64 <==> false,
        (0xffff_ffff_ffff_ffffu64 >> i) & 1u64 == 1u64,
        (0x3ffu64 >> i) & 1u64 == 1u64 <==> i < 10,
        (0x0fff_ffff_ffff_ffffu64 >> i) & 1u64 == 1u64 <==> i < 60,
{
}

/// The bits of zero, of the all-ones word, of a full row and of a full board.
pub broadcast proof fn lemma_bit_fixed(i: int)
    requires
        0 <= i < 64,
    ensures
        !#[trigger] bit(0, i),
        #[trigger] bit(0xffff_ffff_ffff_ffffu64, i),
        #[trigger] bit(0x3ffu64, i) == (i < 10),
        #[trigger] bit(0x0fff_ffff_ffff_ffffu64, i) == (i < 60),
{
    lemma_fixed_bv(i as u64);
}

proof fn lemma_xor_zero_bv(a: u64, b: u64)
    by (bit_vector)
    requires
        a ^ b == 0,
    ensures
        a == b,
{
}

/// A word with no set bit is zero.
pub proof fn lemma_no_bits_zero(x: u64)
    requires
        forall|i: int| 0 <= i < 64 ==> !#[trigger] bit(x, i),
    ensures
        x == 0,
{
    axiom_u64_trailing_zeros(x);
    if x != 0 {
        let t = u64_trailing_zeros(x) as int;
        assert(bit(x, t));
    }
}

/// Two words with the same bits are equal.
pub proof fn lemma_bit_ext(a: u64, b: u64)
    requires
        forall|i: int| 0 <= i < 64 ==> #[trigger] bit(a, i) == bit(b, i),
    ensures
        a == b,
{
    assert forall|i: int| 0 <= i < 64 implies !#[trigger] bit(a ^ b, i) by {
        lemma_bit_ops(a, b, i);
        assert(bit(a, i) == bit(b, i));
    }
    lemma_no_bits_zero(a ^ b);
    lemma_xor_zero_bv(a, b);
}

/// Shifting by zero, or combining with zero or all ones, changes nothing.
pub proof fn lemma_shift_zero(a: u64)
    by (bit_vector)
    ensures
        a << 0u64 == a,
        a >> 0u64 == a,
        a | 0u64 == a,
        0u64 | a == a,
        a & 0xffff_ffff_ffff_ffffu64 == a,
        a & !0u64 == a,
        a & 0u64 == 0u64,
        !0u64 == 0xffff_ffff_ffff_ffffu64,
{
}

/// A word is all ones iff all of its bits are set.
pub proof fn lemma_all_ones(w: u64)
    ensures
        (w == 0xffff_ffff_ffff_ffffu64) == (forall|i: int| 0 <= i < 64 ==> #[trigger] bit(w, i)),
{
    if forall|i: int| 0 <= i < 64 ==> #[trigger] bit(w, i) {
        assert forall|i: int| 0 <= i < 64 implies #[trigger] bit(w, i) == bit(0xffff_ffff_ffff_ffffu64, i) by {
            lemma_bit_fixed(i);
        }
        lemma_bit_ext(w, 0xffff_ffff_ffff_ffffu64);
    }
    if w == 0xffff_ffff_ffff_ffffu64 {
        assert forall|i: int| 0 <= i < 64 implies #[trigger] bit(w, i) by {
            lemma_bit_fixed(i);
        }
    }
}

/// A word is zero iff none of its bits is set.
pub proof fn lemma_zero_bits(w: u64)
    ensures
        (w == 0) == (forall|i: int| 0 <= i < 64 ==> !#[trigger] bit(w, i)),
{
    if forall|i: int| 0 <= i < 64 ==> !#[trigger] bit(w, i) {
        lemma_no_bits_zero(w);
    }
    if w == 0 {
        assert forall|i: int| 0 <= i < 64 implies !#[trigger] bit(w, i) by {
            lemma_bit_fixed(i);
        }
    }
}

proof fn lemma_patterns_bv(c: u64)
    by (bit_vector)
    requires
        c < 10,
    ensures
        (0x2aau64 >> c) & 1u64 == 1u64 <==> (c == 1 || c == 3 || c == 5 || c == 7 || c == 9),
        (0x150u64 >> c) & 1u64 == 1u64 <==> (c == 4 || c == 6 || c == 8),
        (0x14u64 >> c) & 1u64 == 1u64 <==> (c == 2 || c == 4),
        (0x4u64 >> c) & 1u64 == 1u64 <==> c == 2,
        (0x1u64 >> c) & 1u64 == 1u64 <==> c == 0,
        (0x2u64 >> c) & 1u64 == 1u64 <==> c == 1,
        (0x8u64 >> c) & 1u64 == 1u64 <==> c == 3,
        (0xfu64 >> c) & 1u64 == 1u64 <==> c < 4,
        (0x3e0u64 >> c) & 1u64 == 1u64 <==> c >= 5,
        (0x1fu64 >> c) & 1u64 == 1u64 <==> c < 5,
        (0x84u64 >> c) & 1u64 == 1u64 <==> (c == 2 || c == 7),
        (0x37bu64 >> c) & 1u64 == 1u64 <==> (c != 2 && c != 7),
        (0x318u64 >> c) & 1u64 == 1u64 <==> (c == 3 || c == 4 || c == 8 || c == 9),
        (0x63u64 >> c) & 1u64 == 1u64 <==> (c == 0 || c == 1 || c == 5 || c == 6),
        (0x252u64 >> c) & 1u64 == 1u64 <==> (c == 1 || c == 4 || c == 6 || c == 9),
        (0x129u64 >> c) & 1u64 == 1u64 <==> (c == 0 || c == 3 || c == 5 || c == 8),
{
}

/// The cells selected by the fixed 10-cell row patterns used to fold and mirror rows.
pub proof fn lemma_row_patterns(c: int)
    requires
        0 <= c < 10,
    ensures
        bit(0x2aau64, c) == (c == 1 || c == 3 || c == 5 || c == 7 || c == 9),
        bit(0x150u64, c) == (c == 4 || c == 6 || c == 8),
        bit(0x14u64, c) == (c == 2 || c == 4),
        bit(0x4u64, c) == (c == 2),
        bit(0x1u64, c) == (c == 0),
        bit(0x2u64, c) == (c == 1),
        bit(0x8u64, c) == (c == 3),
        bit(0xfu64, c) == (c < 4),
        bit(0x3e0u64, c) == (c >= 5),
        bit(0x1fu64, c) == (c < 5),
        bit(0x84u64, c) == (c == 2 || c == 7),
        bit(0x37bu64, c) == (c != 2 && c != 7),
        bit(0x318u64, c) == (c == 3 || c == 4 || c == 8 || c == 9),
        bit(0x63u64, c) == (c == 0 || c == 1 || c == 5 || c == 6),
        bit(0x252u64, c) == (c == 1 || c == 4 || c == 6 || c == 9),
        bit(0x129u64, c) == (c == 0 || c == 3 || c == 5 || c == 8),
{
    lemma_patterns_bv(c as u64);
}

/// Combining a word with a masked, right-shifted copy of itself.
pub proof fn lemma_fold_step(w: u64, m: u64, s: u64, i: int)
    requires
        s < 64,
        0 <= i < 64,
    ensures
        bit(((w & m) >> s) & w, i) == (i + s < 64 && bit(m, i + s) && bit(w, i + s) && bit(w, i)),
        bit(((w & m) >> s) | w, i) == ((i + s < 64 && bit(m, i + s) && bit(w, i + s)) || bit(w, i)),
{
    lemma_bit_ops((w & m) >> s, w, i);
    lemma_bit_shr(w & m, s, i);
    if i + s < 64 {
        lemma_bit_ops(w, m, i + s);
    }
}

proof fn lemma_test_bit_bv(w: u64, k: u64)
    by (bit_vector)
    requires
        k < 64,
    ensures
        (w & (1u64 << k) != 0) == ((w >> k) & 1u64 == 1u64),
        (w & (1u64 << k) == 0) == ((w >> k) & 1u64 != 1u64),
{
}

/// Testing a word against the single-bit mask `1 << k` reads bit `k`.
pub proof fn lemma_test_bit(w: u64, k: u64)
    requires
        k < 64,
    ensures
        (w & (1u64 << k) != 0) == bit(w, k as int),
{
    lemma_test_bit_bv(w, k);
}

pub broadcast group group_bits {
    lemma_bit_ops,
    lemma_bit_not,
    lemma_bit_shl,
    lemma_bit_shr,
    lemma_bit_consts,
    lemma_bit_fixed,
}

} // verus!
