//! Random pieces, orientations, keys and characters, for exercising the library.
use vstd::prelude::*;
use rand::Rng;
use rand::rngs::ThreadRng;
use rand::seq::SliceRandom;
use crate::sfinder_core::field::any_field::AnyField;
use crate::sfinder_core::field::bits::bit;
use crate::sfinder_core::field::field::{Field, FieldBoards, block_at, lemma_fill_row_cells, lemma_remove_block_cells};
use crate::sfinder_core::field::field_factory::{create_field, field_of_height};
use crate::sfinder_core::field::key_operators::{get_delete_bit_key, key_index};
use crate::sfinder_core::mino::piece::Piece;
use crate::sfinder_core::srs::rotate::Rotate;

verus! {

#[verifier::external_type_specification]
#[verifier::external_body]
pub struct ExThreadRng(ThreadRng);

/// A random number below `end` (`Rng::gen_range` of rand over `0..end`, which panics on an
/// empty range). Which number comes is left to chance.
#[verifier::external_body]
fn gen_below(rngs: &mut ThreadRng, end: u8) -> (r: u8)
    requires
        0 < end,
    ensures
        r < end,
{
    rngs.gen_range(0..end)
}

/// Up to `amount` items of `items` picked at random, no index twice (`SliceRandom::choose_multiple`
/// of rand, which takes all items, shuffled, where `amount` exceeds their number). Which items
/// and in which order are left to chance.
#[verifier::external_body]
fn choose_pieces(items: &[Piece], rngs: &mut ThreadRng, amount: usize) -> (r: Vec<Piece>)
    ensures
        r@.len() == if amount < items@.len() {
            amount as int
        } else {
            items@.len() as int
        },
        forall|i: int| 0 <= i < r@.len() ==> items@.contains(#[trigger] r@[i]),
        items@.no_duplicates() ==> r@.no_duplicates(),
{
    items.choose_multiple(rngs, amount).copied().collect()
}

pub const STRINGS: [char; 153] = [
    'a', 'b', 'c', 'd', 'e', 'f', 'g', 'h', 'i', 'j', 'k', 'l', 'm', 'n', 'o', 'p', 'q', 'r', 's',
    't', 'u', 'v', 'w', 'x', 'y', 'z', ' ', 'A', 'B', 'C', 'D', 'E', 'F', 'G', 'H', 'I', 'J', 'K',
    'L', 'M', 'N', 'O', 'P', 'Q', 'R', 'S', 'T', 'U', 'V', 'W', 'X', 'Y', 'Z', '?', '/', '_', '-',
    '^', '¥', '=', '~', '|', '[', ']', '@', ':', '1', '2', '3', '4', '5', '6', '7', '8', '9', '0',
    '!', '\\', '"', '#', '$', '%', '&', '\'', '(', ')', '<', '>', 'あ', 'い', 'う', 'え', 'お',
    'か', 'き', 'く', 'け', 'こ', 'さ', 'し', 'す', 'せ', 'そ', 'タ', 'チ', 'ツ', 'テ', 'ト', 'ナ',
    'ニ', 'ヌ', 'ネ', 'ノ', 'ハ', 'ヒ', 'フ', 'ヘ', 'ホ', '朝', '午', '前', '後', '電', '話', '時',
    '計', '机', '携', '帯', '光', '空', '雨', '青', '赤', '車', '動', '力', '鉄', '　', '＿', '？',
    '：', '；', '：', '。', '＾', 'ー', '￥', '：', '＄', '”', '（', '）',
];

/// A random piece.
pub fn gen_piece(rngs: &mut ThreadRng) -> (r: Piece) {
    Piece::new(gen_below(rngs, 7))
}

/// `size` random pieces.
pub fn gen_pieces(rngs: &mut ThreadRng, size: usize) -> (r: Vec<Piece>)
    ensures
        r.len() == size,
{
    let mut pieces: Vec<Piece> = Vec::new();
    while pieces.len() < size
        invariant
            pieces.len() <= size,
        decreases size - pieces.len(),
    {
        pieces.push(gen_piece(rngs));
    }
    pieces
}

/// A random orientation.
pub fn gen_rotate(rngs: &mut ThreadRng) -> (r: Rotate) {
    Rotate::new(gen_below(rngs, 4))
}

/// A random delete key over the rows of one board: each of the 6 rows flagged or not.
pub fn gen_key(rngs: &mut ThreadRng) -> (r: u64)
    ensures
        forall|i: int| 0 <= i < 64 ==> #[trigger] bit(r, i) ==> exists|y: int| 0 <= y < 6 && i == key_index(y),
{
    let value = gen_below(rngs, 64);
    let mut key: u64 = 0;
    proof {
        crate::sfinder_core::field::bits::lemma_zero_bits(0u64);
    }
    let mut i: u8 = 0;
    while i < 6
        invariant
            i <= 6,
            forall|j: int| 0 <= j < 64 ==> #[trigger] bit(key, j) ==> exists|y: int| 0 <= y < 6 && j == key_index(y),
        decreases 6 - i,
    {
        if value & (1u8 << i) != 0 {
            let k = get_delete_bit_key(i);
            proof {
                assert forall|j: int| 0 <= j < 64 && #[trigger] bit(key | k, j) implies exists|y: int| 0 <= y < 6 && j
                    == key_index(y) by {
                    crate::sfinder_core::field::bits::lemma_bit_ops(key, k, j);
                    if bit(k, j) {
                        assert(j == key_index(i as int));
                    }
                }
            }
            key = key | k;
        }
        i = i + 1;
    }
    key
}

/// A random character of a fixed list of letters, digits, signs and Japanese characters; the
/// size is not used.
pub fn gen_char(rngs: &mut ThreadRng, _size: usize) -> (r: char)
    ensures
        STRINGS@.contains(r),
{
    let index = gen_below(rngs, 153) as usize;
    let c = STRINGS[index];
    proof {
        assert(STRINGS@[index as int] == c);
    }
    c
}

/// Sum of a list of counts.
pub open spec fn count_sum(counts: Seq<u8>) -> int
    decreases counts.len(),
{
    if counts.len() == 0 {
        0
    } else {
        count_sum(counts.drop_last()) + counts.last()
    }
}

/// How many pieces each bag of seven gives to the eleven pieces of cycle `cycle`: the first
/// cycle takes a whole bag and four of the next; a later cycle takes the last piece of a bag,
/// then `f` pieces, where `f` is what is left of the next bag, then the rest from the bags after.
pub open spec fn cycle_counts(cycle: u8) -> Seq<u8> {
    let f = (7 - (10 * (cycle % 7) + 1) % 7) as u8;
    if cycle == 0 {
        seq![7u8, 4u8]
    } else if f <= 2 {
        seq![1u8, f, 7u8, (3 - f) as u8]
    } else {
        seq![1u8, f, (10 - f) as u8]
    }
}

proof fn lemma_count_sum_nonneg(counts: Seq<u8>)
    ensures
        count_sum(counts) >= 0,
    decreases counts.len(),
{
    if counts.len() > 0 {
        lemma_count_sum_nonneg(counts.drop_last());
    }
}

/// Where segment `i` of a list cut by `counts` starts.
pub open spec fn segment_start(counts: Seq<u8>, i: int) -> int {
    count_sum(counts.take(i))
}

/// How many pieces each bag of seven gives to the eleven pieces of cycle `cycle`.
fn get_11_cycle_counts(cycle: u8) -> (r: Vec<u8>)
    ensures
        r@ == cycle_counts(cycle),
        forall|i: int| 0 <= i < r.len() ==> r@[i] <= 7,
        count_sum(r@) == 11,
{
    if cycle == 0 {
        let r = vec![7, 4];
        proof {
            reveal_with_fuel(count_sum, 3);
            assert(r@ =~= cycle_counts(cycle));
        }
        return r;
    }
    let c = cycle % 7;
    let prev_last_used = (10 * c + 1) % 7;
    let first_loop = 7 - prev_last_used;
    if first_loop <= 2 {
        let rest: u8 = 3 - first_loop;
        let r = vec![1, first_loop, 7, rest];
        proof {
            reveal_with_fuel(count_sum, 5);
            assert(r@ =~= cycle_counts(cycle));
        }
        r
    } else {
        let rest: u8 = 10 - first_loop;
        let r = vec![1, first_loop, rest];
        proof {
            reveal_with_fuel(count_sum, 4);
            assert(r@ =~= cycle_counts(cycle));
        }
        r
    }
}

/// Eleven pieces of cycle `cycle` drawn from bags of seven: the list is cut into segments of
/// the lengths `cycle_counts(cycle)`, and each segment holds distinct pieces in random order.
pub fn block_11_in_cycle(rngs: &mut ThreadRng, cycle: u8) -> (r: Vec<Piece>)
    ensures
        r.len() == 11,
        segment_start(cycle_counts(cycle), cycle_counts(cycle).len() as int) == 11,
        forall|i: int| 0 <= i < cycle_counts(cycle).len() ==> r@.subrange(
            segment_start(cycle_counts(cycle), i),
            #[trigger] segment_start(cycle_counts(cycle), i + 1),
        ).no_duplicates(),
{
    let counts = get_11_cycle_counts(cycle);
    let pieces = Piece::value_list();
    proof {
        assert forall|a: int, b: int| 0 <= a < 7 && 0 <= b < 7 && a != b implies pieces@[a] != pieces@[b] by {
            assert(pieces@[a].index() == a && pieces@[b].index() == b);
        }
    }
    let mut result: Vec<Piece> = Vec::new();
    let mut i: usize = 0;
    while i < counts.len()
        invariant
            i <= counts.len(),
            pieces@.len() == 7,
            forall|j: int| 0 <= j < counts.len() ==> counts@[j] <= 7,
            count_sum(counts@) == 11,
            result.len() == count_sum(counts@.take(i as int)),
            pieces@.no_duplicates(),
            forall|j: int| 0 <= j < i ==> result@.subrange(
                segment_start(counts@, j),
                #[trigger] segment_start(counts@, j + 1),
            ).no_duplicates(),
            forall|j: int| 0 <= j < i ==> segment_start(counts@, j) <= #[trigger] segment_start(counts@, j + 1)
                <= count_sum(counts@.take(i as int)),
        decreases counts.len() - i,
    {
        let ghost before = result@;
        let slice = pieces.as_slice();
        let mut chosen = choose_pieces(slice, rngs, counts[i] as usize);
        proof {
            assert(slice@ == pieces@);
            assert(counts@.take(i as int + 1).drop_last() =~= counts@.take(i as int));
        }
        let ghost got = chosen@;
        result.append(&mut chosen);
        proof {
            assert(result@ == before + got);
            assert forall|j: int| 0 <= j < i + 1 implies result@.subrange(
                segment_start(counts@, j),
                #[trigger] segment_start(counts@, j + 1),
            ).no_duplicates() by {
                if j < i {
                    lemma_count_sum_nonneg(counts@.take(j));
                    assert(segment_start(counts@, j) <= segment_start(counts@, j + 1) <= count_sum(counts@.take(i as int)));
                    assert(result@.subrange(segment_start(counts@, j), segment_start(counts@, j + 1)) =~= before.subrange(
                        segment_start(counts@, j),
                        segment_start(counts@, j + 1),
                    ));
                } else {
                    assert(counts@.take(j + 1).drop_last() =~= counts@.take(j));
                    assert(result@.subrange(segment_start(counts@, j), segment_start(counts@, j + 1)) =~= got);
                }
            }
            assert forall|j: int| 0 <= j < i + 1 implies segment_start(counts@, j) <= #[trigger] segment_start(
                counts@,
                j + 1,
            ) <= count_sum(counts@.take(i as int + 1)) by {
                if j == i {
                    assert(counts@.take(j + 1).drop_last() =~= counts@.take(j));
                }
            }
        }
        i = i + 1;
    }
    proof {
        assert(counts@.take(counts.len() as int) =~= counts@);
    }
    result
}

/// Whether row `y` of a field holds exactly `count` empty cells: all cells blocks for 0, no
/// block for 10, and otherwise one run of empty cells that ends before the last column.
pub open spec fn row_has_run(bs: Seq<u64>, y: int, count: int) -> bool {
    if count == 0 {
        forall|x: int| 0 <= x < 10 ==> #[trigger] block_at(bs, x, y)
    } else if count == 10 {
        forall|x: int| 0 <= x < 10 ==> !#[trigger] block_at(bs, x, y)
    } else {
        exists|s: int|
            0 <= s && s + count < 10 && #[trigger] run_at(bs, y, s, count)
    }
}

/// Row `y` is empty exactly on the cells `s` to `s + count - 1`.
pub open spec fn run_at(bs: Seq<u64>, y: int, s: int, count: int) -> bool {
    forall|x: int| 0 <= x < 10 ==> #[trigger] block_at(bs, x, y) == !(s <= x < s + count)
}

/// Whether a row count asks for a run that neither fills nor empties the row.
pub open spec fn partial_count(c: u8) -> bool {
    0 < c < 10
}

/// Whether row `y2` is the nearest row above row `y` with a partial count.
pub open spec fn nearest_partial_above(counts: Seq<u8>, y: int, y2: int) -> bool {
    &&& y < y2
    &&& partial_count(counts[y2])
    &&& forall|z: int| y < z < y2 ==> !partial_count(#[trigger] counts[z])
}

/// Whether the runs of rows `y` and `y2` overlap by at least one column.
pub open spec fn runs_overlap(bs: Seq<u64>, counts: Seq<u8>, y: int, y2: int) -> bool {
    exists|s: int, s2: int|
        #[trigger] run_at(bs, y, s, counts[y] as int) && #[trigger] run_at(bs, y2, s2, counts[y2] as int) && s <= s2
            + counts[y2] - 1 && s + counts[y] >= s2 + 1
}

proof fn lemma_run_at_same(a: Seq<u64>, b: Seq<u64>, y: int, s: int, count: int)
    requires
        forall|x: int| 0 <= x < 10 ==> #[trigger] block_at(a, x, y) == block_at(b, x, y),
        run_at(a, y, s, count),
    ensures
        run_at(b, y, s, count),
{
    assert forall|x: int| 0 <= x < 10 implies #[trigger] block_at(b, x, y) == !(s <= x < s + count) by {
        assert(block_at(a, x, y) == block_at(b, x, y));
    }
}

proof fn lemma_row_has_run_same(a: Seq<u64>, b: Seq<u64>, y: int, count: int)
    requires
        forall|x: int| 0 <= x < 10 ==> #[trigger] block_at(a, x, y) == block_at(b, x, y),
    ensures
        row_has_run(a, y, count) == row_has_run(b, y, count),
{
    if count == 0 {
        if row_has_run(a, y, count) {
            assert forall|x: int| 0 <= x < 10 implies #[trigger] block_at(b, x, y) by {
                assert(block_at(a, x, y));
            }
        }
        if row_has_run(b, y, count) {
            assert forall|x: int| 0 <= x < 10 implies #[trigger] block_at(a, x, y) by {
                assert(block_at(b, x, y));
            }
        }
    } else if count == 10 {
        if row_has_run(a, y, count) {
            assert forall|x: int| 0 <= x < 10 implies !#[trigger] block_at(b, x, y) by {
                assert(!block_at(a, x, y));
            }
        }
        if row_has_run(b, y, count) {
            assert forall|x: int| 0 <= x < 10 implies !#[trigger] block_at(a, x, y) by {
                assert(!block_at(b, x, y));
            }
        }
    } else {
        if row_has_run(a, y, count) {
            let s = choose|s: int| 0 <= s && s + count < 10 && #[trigger] run_at(a, y, s, count);
            assert forall|x: int| 0 <= x < 10 implies #[trigger] block_at(b, x, y) == !(s <= x < s + count) by {
                assert(block_at(a, x, y) == block_at(b, x, y));
            }
            assert(run_at(b, y, s, count));
        }
        if row_has_run(b, y, count) {
            let s = choose|s: int| 0 <= s && s + count < 10 && #[trigger] run_at(b, y, s, count);
            assert forall|x: int| 0 <= x < 10 implies #[trigger] block_at(a, x, y) == !(s <= x < s + count) by {
                assert(block_at(a, x, y) == block_at(b, x, y));
            }
            assert(run_at(a, y, s, count));
        }
    }
}

/// A field of `height` rows in which row `y` holds `counts[y]` empty cells in one run, built from
/// the top row down: each run starts at a random column chosen so that it overlaps the run of the
/// last row above that holds one.
pub fn build_field_from_counts(rngs: &mut ThreadRng, height: u8, counts: &Vec<u8>) -> (r: AnyField)
    requires
        height <= 24,
        counts.len() == height,
        forall|y: int| 0 <= y < height ==> #[trigger] counts@[y] <= 10,
    ensures
        r.boards().len() == field_of_height(height as int).boards().len(),
        forall|y: int| 0 <= y < height ==> row_has_run(r.boards(), y, #[trigger] counts@[y] as int),
        forall|x: int, y: int| height <= y ==> !#[trigger] block_at(r.boards(), x, y),
        forall|y: int, y2: int| 0 <= y && y2 < height && partial_count(counts@[y]) && #[trigger] nearest_partial_above(
            counts@,
            y,
            y2,
        ) ==> runs_overlap(r.boards(), counts@, y, y2),
{
    let mut field = create_field(height);
    proof {
        crate::sfinder_core::field::bits::lemma_zero_bits(0u64);
        assert forall|x: int, y: int| !#[trigger] block_at(field.boards(), x, y) by {
            if 0 <= x < 10 && 0 <= y < 6 * field.boards().len() {
                assert(field.boards()[y / 6] == 0);
            }
        }
    }
    let ghost len = field.boards().len();
    let mut prev_start: u8 = 0;
    let mut prev_end: u8 = 10;
    let ghost mut prev_row: int = height as int;
    let mut k: u8 = 0;
    while k < height
        invariant
            k <= height,
            height <= 24,
            counts.len() == height,
            forall|y: int| 0 <= y < height ==> #[trigger] counts@[y] <= 10,
            field.boards().len() == len,
            len == field_of_height(height as int).boards().len(),
            6 * len >= height,
            prev_start < prev_end <= 10,
            prev_start <= 8,
            forall|y: int| height - k <= y < height ==> row_has_run(field.boards(), y, #[trigger] counts@[y] as int),
            forall|x: int, y: int| (y < height - k || height <= y) ==> !#[trigger] block_at(field.boards(), x, y),
            height - k <= prev_row <= height,
            prev_row < height ==> partial_count(counts@[prev_row]) && prev_end == prev_start + counts@[prev_row] && run_at(
                field.boards(),
                prev_row,
                prev_start as int,
                counts@[prev_row] as int,
            ),
            prev_row == height ==> prev_start == 0 && prev_end == 10,
            forall|z: int| height - k <= z < prev_row ==> !partial_count(#[trigger] counts@[z]),
            forall|y: int, y2: int| height - k <= y && y2 < height && partial_count(counts@[y]) && #[trigger] nearest_partial_above(
                counts@,
                y,
                y2,
            ) ==> runs_overlap(field.boards(), counts@, y, y2),
        decreases height - k,
    {
        let y: u8 = height - 1 - k;
        let count = counts[y as usize];
        let ghost before = field.boards();
        let ghost old_prev = prev_row;
        if count == 0 {
            field.fill_row(y);
            proof {
                lemma_fill_row_cells(before, y as int);
            }
        } else if count < 10 {
            let min: u8 = if 1 + prev_start >= count {
                1 + prev_start - count
            } else {
                0
            };
            let max: u8 = if 10 - count < prev_end {
                10 - count
            } else {
                prev_end
            };
            let start = min + gen_below(rngs, max - min);
            let end = start + count;
            field.fill_row(y);
            proof {
                lemma_fill_row_cells(before, y as int);
            }
            let mut x = start;
            while x < end
                invariant
                    start <= x <= end,
                    end < 10,
                    y < height,
                    6 * len >= height,
                    field.boards().len() == len,
                    before.len() == len,
                    forall|cx: int, cy: int| #[trigger] block_at(field.boards(), cx, cy) == ((block_at(before, cx, cy) || (0
                        <= cx < 10 && cy == y)) && !(cy == y && start <= cx < x)),
                decreases end - x,
            {
                let ghost prior = field.boards();
                field.remove_block(x, y);
                proof {
                    lemma_remove_block_cells(prior, x as int, y as int);
                }
                x = x + 1;
            }
            proof {
                assert(run_at(field.boards(), y as int, start as int, count as int));
                if prev_row < height {
                    assert forall|x2: int| 0 <= x2 < 10 implies #[trigger] block_at(before, x2, prev_row) == block_at(
                        field.boards(),
                        x2,
                        prev_row,
                    ) by {}
                    lemma_run_at_same(before, field.boards(), prev_row, prev_start as int, counts@[prev_row] as int);
                    assert(runs_overlap(field.boards(), counts@, y as int, prev_row));
                }
            }
            prev_start = start;
            prev_end = end;
            proof {
                prev_row = y as int;
            }
        }
        proof {
            assert forall|y1: int, y2: int| height - (k + 1) <= y1 && y2 < height && partial_count(counts@[y1])
                && #[trigger] nearest_partial_above(counts@, y1, y2) implies runs_overlap(field.boards(), counts@, y1, y2) by {
                if y1 != y {
                    let (s1, s2) = choose|s1: int, s2: int|
                        #[trigger] run_at(before, y1, s1, counts@[y1] as int) && #[trigger] run_at(
                            before,
                            y2,
                            s2,
                            counts@[y2] as int,
                        ) && s1 <= s2 + counts@[y2] - 1 && s1 + counts@[y1] >= s2 + 1;
                    assert forall|x2: int| 0 <= x2 < 10 implies #[trigger] block_at(before, x2, y1) == block_at(
                        field.boards(),
                        x2,
                        y1,
                    ) by {}
                    assert forall|x2: int| 0 <= x2 < 10 implies #[trigger] block_at(before, x2, y2) == block_at(
                        field.boards(),
                        x2,
                        y2,
                    ) by {}
                    lemma_run_at_same(before, field.boards(), y1, s1, counts@[y1] as int);
                    lemma_run_at_same(before, field.boards(), y2, s2, counts@[y2] as int);
                } else {
                    if y2 != old_prev {
                        if y2 < old_prev {
                            assert(!partial_count(counts@[y2]));
                        } else {
                            assert(y1 < old_prev < y2);
                            assert(!partial_count(counts@[old_prev]));
                        }
                    }
                }
            }
            assert forall|y2: int| height - (k + 1) <= y2 < height implies row_has_run(
                field.boards(),
                y2,
                #[trigger] counts@[y2] as int,
            ) by {
                if y2 != y {
                    lemma_row_has_run_same(field.boards(), before, y2, counts@[y2] as int);
                }
            }
        }
        k = k + 1;
    }
    field
}

} // verus!
