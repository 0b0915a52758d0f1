use vstd::prelude::*;
use super::piece::{Piece, piece_cells};
use crate::common::datastore::coordinate::Coordinate;
use crate::sfinder_core::srs::rotate::Rotate;
use crate::sfinder_core::field::bits::{bit, group_bits, lemma_bit_consts, lemma_bit_ops, lemma_bit_shl, lemma_bit_shr};

verus! {

/// A cell of a piece after turning the piece to orientation `r`.
pub open spec fn rotate_cell(c: (int, int), r: Rotate) -> (int, int) {
    match r {
        Rotate::Spawn => c,
        Rotate::Right => (c.1, -c.0),
        Rotate::Reverse => (-c.0, -c.1),
        Rotate::Left => (-c.1, c.0),
    }
}

/// The four cells of piece `p` in orientation `r`, relative to its rotation center.
pub open spec fn mino_cells(p: Piece, r: Rotate) -> Seq<(int, int)> {
    piece_cells(p).map_values(|c: (int, int)| rotate_cell(c, r))
}

pub open spec fn mino_min_x(p: Piece, r: Rotate) -> int {
    match r {
        Rotate::Spawn => p.spec_min_x(),
        Rotate::Right => p.spec_min_y(),
        Rotate::Reverse => -p.spec_max_x(),
        Rotate::Left => -p.spec_max_y(),
    }
}

pub open spec fn mino_max_x(p: Piece, r: Rotate) -> int {
    match r {
        Rotate::Spawn => p.spec_max_x(),
        Rotate::Right => p.spec_max_y(),
        Rotate::Reverse => -p.spec_min_x(),
        Rotate::Left => -p.spec_min_y(),
    }
}

pub open spec fn mino_min_y(p: Piece, r: Rotate) -> int {
    match r {
        Rotate::Spawn => p.spec_min_y(),
        Rotate::Right => -p.spec_max_x(),
        Rotate::Reverse => -p.spec_max_y(),
        Rotate::Left => p.spec_min_x(),
    }
}

pub open spec fn mino_max_y(p: Piece, r: Rotate) -> int {
    match r {
        Rotate::Spawn => p.spec_max_y(),
        Rotate::Right => -p.spec_min_x(),
        Rotate::Reverse => -p.spec_min_y(),
        Rotate::Left => p.spec_max_x(),
    }
}

/// Bit of a cell in the 5x5-centered shape mask: the rotation center sits at column 4, row 2.
pub open spec fn shape_bit(c: (int, int)) -> u64 {
    1u64 << ((2 + c.1) * 10 + 4 + c.0) as u64
}

/// The shape mask of piece `p` in orientation `r`, with its rotation center on cell `(4, 2)`.
pub open spec fn mino_mask(p: Piece, r: Rotate) -> u64 {
    let c = mino_cells(p, r);
    shape_bit(c[0]) | shape_bit(c[1]) | shape_bit(c[2]) | shape_bit(c[3])
}

/// The shape mask moved so that the rotation center sits on cell `(x, y)` of a board.
pub open spec fn mask_at(p: Piece, r: Rotate, x: int, y: int) -> u64 {
    let slide = (x - 4) + (y - 2) * 10;
    if slide >= 0 {
        mino_mask(p, r) << (slide as u64)
    } else {
        mino_mask(p, r) >> ((-slide) as u64)
    }
}

/// Whether cell `(cx, cy)` is one of the cells of piece `p` in orientation `r` with its
/// rotation center on `(x, y)`.
pub open spec fn covers(p: Piece, r: Rotate, x: int, y: int, cx: int, cy: int) -> bool {
    exists|j: int| 0 <= j < 4 && cx == x + (#[trigger] mino_cells(p, r)[j]).0 && cy == y + mino_cells(p, r)[j].1
}

/// The bits of the shape mask are the shape's cells.
proof fn lemma_mino_mask_bits(p: Piece, r: Rotate, t: int)
    requires
        0 <= t < 64,
    ensures
        bit(mino_mask(p, r), t) == exists|j: int| 0 <= j < 4 && t == (2 + (#[trigger] mino_cells(p, r)[j]).1) * 10 + 4
            + mino_cells(p, r)[j].0,
{
    broadcast use group_bits;

    Mino::lemma_cells_in_bounds(p, r);
    let c = mino_cells(p, r);
    let k0 = ((2 + c[0].1) * 10 + 4 + c[0].0) as u64;
    let k1 = ((2 + c[1].1) * 10 + 4 + c[1].0) as u64;
    let k2 = ((2 + c[2].1) * 10 + 4 + c[2].0) as u64;
    let k3 = ((2 + c[3].1) * 10 + 4 + c[3].0) as u64;
    assert(shape_bit(c[0]) == 1u64 << k0);
    assert(shape_bit(c[1]) == 1u64 << k1);
    assert(shape_bit(c[2]) == 1u64 << k2);
    assert(shape_bit(c[3]) == 1u64 << k3);
    lemma_bit_consts(k0, t);
    lemma_bit_consts(k1, t);
    lemma_bit_consts(k2, t);
    lemma_bit_consts(k3, t);
    let s0 = shape_bit(c[0]);
    let s1 = shape_bit(c[1]);
    let s2 = shape_bit(c[2]);
    let s3 = shape_bit(c[3]);
    assert(mino_mask(p, r) == s0 | s1 | s2 | s3);
    lemma_bit_ops(s0 | s1 | s2, s3, t);
    lemma_bit_ops(s0 | s1, s2, t);
    lemma_bit_ops(s0, s1, t);
    assert(bit(mino_mask(p, r), t) == (bit(s0, t) || bit(s1, t) || bit(s2, t) || bit(s3, t)));
    if exists|j: int| 0 <= j < 4 && t == (2 + (#[trigger] mino_cells(p, r)[j]).1) * 10 + 4 + mino_cells(p, r)[j].0 {
        let j = choose|j: int| 0 <= j < 4 && t == (2 + (#[trigger] mino_cells(p, r)[j]).1) * 10 + 4 + mino_cells(p, r)[j].0;
        assert(j == 0 || j == 1 || j == 2 || j == 3);
    }
    if bit(mino_mask(p, r), t) {
        if t == k0 {
            assert(t == (2 + c[0].1) * 10 + 4 + c[0].0);
        } else if t == k1 {
            assert(t == (2 + c[1].1) * 10 + 4 + c[1].0);
        } else if t == k2 {
            assert(t == (2 + c[2].1) * 10 + 4 + c[2].0);
        } else {
            assert(t == (2 + c[3].1) * 10 + 4 + c[3].0);
        }
    }
}

/// The bits of the shape mask moved to `(x, y)` are the shape's cells there, for a center
/// between the walls.
pub proof fn lemma_mask_at_bits(p: Piece, r: Rotate, x: int, y: int, i: int)
    requires
        -mino_min_x(p, r) <= x < 10 - mino_max_x(p, r),
        -4 < y < 8,
        0 <= i < 64,
    ensures
        bit(mask_at(p, r, x, y), i) == exists|j: int| 0 <= j < 4 && i == (x + (#[trigger] mino_cells(p, r)[j]).0) + 10 * (y
            + mino_cells(p, r)[j].1),
{
    broadcast use group_bits;

    Mino::lemma_cells_in_bounds(p, r);
    let slide = (x - 4) + (y - 2) * 10;
    if slide >= 0 {
        lemma_bit_shl(mino_mask(p, r), slide as u64, i);
        if i >= slide {
            lemma_mino_mask_bits(p, r, i - slide);
        }
        if exists|j: int| 0 <= j < 4 && i == (x + (#[trigger] mino_cells(p, r)[j]).0) + 10 * (y + mino_cells(p, r)[j].1) {
            let j = choose|j: int| 0 <= j < 4 && i == (x + (#[trigger] mino_cells(p, r)[j]).0) + 10 * (y + mino_cells(p, r)[j].1);
            lemma_mino_mask_bits(p, r, i - slide);
            assert(i - slide == (2 + mino_cells(p, r)[j].1) * 10 + 4 + mino_cells(p, r)[j].0);
        }
    } else {
        lemma_bit_shr(mino_mask(p, r), (-slide) as u64, i);
        if i - slide < 64 {
            lemma_mino_mask_bits(p, r, i - slide);
        }
        if exists|j: int| 0 <= j < 4 && i == (x + (#[trigger] mino_cells(p, r)[j]).0) + 10 * (y + mino_cells(p, r)[j].1) {
            let j = choose|j: int| 0 <= j < 4 && i == (x + (#[trigger] mino_cells(p, r)[j]).0) + 10 * (y + mino_cells(p, r)[j].1);
            assert(i - slide == (2 + mino_cells(p, r)[j].1) * 10 + 4 + mino_cells(p, r)[j].0);
            lemma_mino_mask_bits(p, r, i - slide);
        }
    }
}

#[derive(Debug, Clone, Copy)]
struct MinMaxBounds {
    min_x: i8,
    max_x: i8,
    min_y: i8,
    max_y: i8,
}

/// The shape of a piece in one orientation: its cells, bounds and board mask.
#[derive(Debug)]
pub struct Mino {
    piece: Piece,
    rotate: Rotate,
    mask: u64,
    bounds: MinMaxBounds,
    positions: [Coordinate; 4],
}

impl Mino {
    #[verifier::type_invariant]
    spec fn inv(self) -> bool {
        &&& self.mask == mino_mask(self.piece, self.rotate)
        &&& self.bounds.min_x == mino_min_x(self.piece, self.rotate)
        &&& self.bounds.max_x == mino_max_x(self.piece, self.rotate)
        &&& self.bounds.min_y == mino_min_y(self.piece, self.rotate)
        &&& self.bounds.max_y == mino_max_y(self.piece, self.rotate)
        &&& forall|i: int| 0 <= i < 4 ==> (#[trigger] self.positions@[i]).x == mino_cells(self.piece, self.rotate)[i].0
            && self.positions@[i].y == mino_cells(self.piece, self.rotate)[i].1
    }

    /// The piece of this shape.
    pub closed spec fn piece_of(&self) -> Piece {
        self.piece
    }

    /// The orientation of this shape.
    pub closed spec fn rotate_of(&self) -> Rotate {
        self.rotate
    }

    fn calc_bounds(piece: Piece, rotate: Rotate) -> (r: MinMaxBounds)
        ensures
            r.min_x == mino_min_x(piece, rotate),
            r.max_x == mino_max_x(piece, rotate),
            r.min_y == mino_min_y(piece, rotate),
            r.max_y == mino_max_y(piece, rotate),
    {
        match rotate {
            Rotate::Spawn => MinMaxBounds {
                min_x: piece.min_x(),
                max_x: piece.max_x(),
                min_y: piece.min_y(),
                max_y: piece.max_y(),
            },
            Rotate::Right => MinMaxBounds {
                min_x: piece.min_y(),
                max_x: piece.max_y(),
                min_y: -piece.max_x(),
                max_y: -piece.min_x(),
            },
            Rotate::Reverse => MinMaxBounds {
                min_x: -piece.max_x(),
                max_x: -piece.min_x(),
                min_y: -piece.max_y(),
                max_y: -piece.min_y(),
            },
            Rotate::Left => MinMaxBounds {
                min_x: -piece.max_y(),
                max_x: -piece.min_y(),
                min_y: piece.min_x(),
                max_y: piece.max_x(),
            },
        }
    }

    /// The cells of every shape lie within its bounds, and each bound is reached by a cell.
    pub proof fn lemma_cells_in_bounds(p: Piece, r: Rotate)
        ensures
            forall|i: int| 0 <= i < 4 ==> mino_min_x(p, r) <= (#[trigger] mino_cells(p, r)[i]).0 <= mino_max_x(p, r)
                && mino_min_y(p, r) <= mino_cells(p, r)[i].1 <= mino_max_y(p, r),
            -2 <= mino_min_x(p, r) <= 0 <= mino_max_x(p, r) <= 2,
            -2 <= mino_min_y(p, r) <= 0 <= mino_max_y(p, r) <= 2,
            mino_cells(p, r).len() == 4,
    {
        p.lemma_bounds();
        assert forall|i: int| 0 <= i < 4 implies mino_min_x(p, r) <= (#[trigger] mino_cells(p, r)[i]).0 <= mino_max_x(p, r)
            && mino_min_y(p, r) <= mino_cells(p, r)[i].1 <= mino_max_y(p, r) by {
            assert(mino_cells(p, r)[i] == rotate_cell(piece_cells(p)[i], r));
        }
    }

    /// The shape of piece `piece` in orientation `rotate`.
    pub fn new(piece: Piece, rotate: Rotate) -> (r: Self)
        ensures
            r.piece_of() == piece,
            r.rotate_of() == rotate,
    {
        proof {
            Self::lemma_cells_in_bounds(piece, rotate);
        }
        let positions = Self::calc_positions(piece, rotate);
        let mask = Self::calc_mask(&positions);
        Mino { piece, rotate, mask, bounds: Self::calc_bounds(piece, rotate), positions }
    }

    /// The cells turned a quarter turn clockwise.
    fn rotate_cw(positions: &[Coordinate; 4]) -> (r: [Coordinate; 4])
        requires
            forall|i: int| 0 <= i < 4 ==> -3 <= (#[trigger] positions@[i]).x <= 3 && -3 <= positions@[i].y <= 3,
        ensures
            forall|i: int| 0 <= i < 4 ==> (#[trigger] r@[i]).x == positions@[i].y && r@[i].y == -positions@[i].x,
    {
        [
            Coordinate::new(positions[0].y, -positions[0].x),
            Coordinate::new(positions[1].y, -positions[1].x),
            Coordinate::new(positions[2].y, -positions[2].x),
            Coordinate::new(positions[3].y, -positions[3].x),
        ]
    }

    /// The cells turned a quarter turn counterclockwise.
    fn rotate_ccw(positions: &[Coordinate; 4]) -> (r: [Coordinate; 4])
        requires
            forall|i: int| 0 <= i < 4 ==> -3 <= (#[trigger] positions@[i]).x <= 3 && -3 <= positions@[i].y <= 3,
        ensures
            forall|i: int| 0 <= i < 4 ==> (#[trigger] r@[i]).x == -positions@[i].y && r@[i].y == positions@[i].x,
    {
        [
            Coordinate::new(-positions[0].y, positions[0].x),
            Coordinate::new(-positions[1].y, positions[1].x),
            Coordinate::new(-positions[2].y, positions[2].x),
            Coordinate::new(-positions[3].y, positions[3].x),
        ]
    }

    /// The cells turned half a turn.
    fn rotate_180(positions: &[Coordinate; 4]) -> (r: [Coordinate; 4])
        requires
            forall|i: int| 0 <= i < 4 ==> -3 <= (#[trigger] positions@[i]).x <= 3 && -3 <= positions@[i].y <= 3,
        ensures
            forall|i: int| 0 <= i < 4 ==> (#[trigger] r@[i]).x == -positions@[i].x && r@[i].y == -positions@[i].y,
    {
        [
            Coordinate::new(-positions[0].x, -positions[0].y),
            Coordinate::new(-positions[1].x, -positions[1].y),
            Coordinate::new(-positions[2].x, -positions[2].y),
            Coordinate::new(-positions[3].x, -positions[3].y),
        ]
    }

    /// The cells of piece `piece` in orientation `rotate`.
    fn calc_positions(piece: Piece, rotate: Rotate) -> (r: [Coordinate; 4])
        ensures
            forall|i: int| 0 <= i < 4 ==> (#[trigger] r@[i]).x == mino_cells(piece, rotate)[i].0 && r@[i].y == mino_cells(
                piece,
                rotate,
            )[i].1,
    {
        let positions = piece.get_positions();
        proof {
            piece.lemma_bounds();
            assert forall|i: int| 0 <= i < 4 implies #[trigger] mino_cells(piece, rotate)[i] == rotate_cell(
                piece_cells(piece)[i],
                rotate,
            ) by {}
        }
        match rotate {
            Rotate::Spawn => positions,
            Rotate::Right => Self::rotate_cw(&positions),
            Rotate::Reverse => Self::rotate_180(&positions),
            Rotate::Left => Self::rotate_ccw(&positions),
        }
    }

    fn calc_mask(positions: &[Coordinate; 4]) -> (r: u64)
        requires
            forall|i: int| 0 <= i < 4 ==> -2 <= (#[trigger] positions@[i]).x <= 2 && -2 <= positions@[i].y <= 2,
        ensures
            r == shape_bit((positions@[0].x as int, positions@[0].y as int)) | shape_bit(
                (positions@[1].x as int, positions@[1].y as int),
            ) | shape_bit((positions@[2].x as int, positions@[2].y as int)) | shape_bit(
                (positions@[3].x as int, positions@[3].y as int),
            ),
    {
        let b0 = Self::cell_bit(positions[0]);
        let b1 = Self::cell_bit(positions[1]);
        let b2 = Self::cell_bit(positions[2]);
        let b3 = Self::cell_bit(positions[3]);
        b0 | b1 | b2 | b3
    }

    fn cell_bit(c: Coordinate) -> (r: u64)
        requires
            -2 <= c.x <= 2,
            -2 <= c.y <= 2,
        ensures
            r == shape_bit((c.x as int, c.y as int)),
    {
        let shift = ((2 + c.y) as u64) * 10 + (4 + c.x) as u64;
        1u64 << shift
    }

    /// The index of a shape's piece and orientation are within their ranges.
    pub proof fn lemma_index_bounds(&self)
        ensures
            0 <= self.piece_of().index() < 7,
            0 <= self.rotate_of().index() < 4,
    {
    }

    pub fn get_piece(&self) -> (r: Piece)
        ensures
            r == self.piece_of(),
    {
        self.piece
    }

    pub fn get_rotate(&self) -> (r: Rotate)
        ensures
            r == self.rotate_of(),
    {
        self.rotate
    }

    pub fn get_min_x(&self) -> (r: i8)
        ensures
            r == mino_min_x(self.piece_of(), self.rotate_of()),
    {
        proof {
            use_type_invariant(self);
        }
        self.bounds.min_x
    }

    pub fn get_max_x(&self) -> (r: i8)
        ensures
            r == mino_max_x(self.piece_of(), self.rotate_of()),
    {
        proof {
            use_type_invariant(self);
        }
        self.bounds.max_x
    }

    pub fn get_min_y(&self) -> (r: i8)
        ensures
            r == mino_min_y(self.piece_of(), self.rotate_of()),
    {
        proof {
            use_type_invariant(self);
        }
        self.bounds.min_y
    }

    pub fn get_max_y(&self) -> (r: i8)
        ensures
            r == mino_max_y(self.piece_of(), self.rotate_of()),
    {
        proof {
            use_type_invariant(self);
        }
        self.bounds.max_y
    }

    /// A number that summarizes the shape: the number of its piece combined bit by bit with
    /// that of its orientation.
    pub fn hash_code(&self) -> (r: u8)
        ensures
            r == (self.piece_of().index() as u8) ^ (self.rotate_of().index() as u8),
    {
        self.piece.hash_code() ^ self.rotate.number()
    }

    /// The four cells of the shape relative to its rotation center.
    pub fn get_positions(&self) -> (r: [Coordinate; 4])
        ensures
            forall|i: int| 0 <= i < 4 ==> (#[trigger] r@[i]).x == mino_cells(self.piece_of(), self.rotate_of())[i].0
                && r@[i].y == mino_cells(self.piece_of(), self.rotate_of())[i].1,
    {
        proof {
            use_type_invariant(self);
        }
        self.positions
    }

    /// The board mask of the shape with its rotation center on cell `(x, y)`.
    pub fn get_mask(&self, x: u8, y: i8) -> (r: u64)
        requires
            x < 10,
            -4 < y < 8,
        ensures
            r == mask_at(self.piece_of(), self.rotate_of(), x as int, y as int),
    {
        proof {
            use_type_invariant(self);
        }
        let slide: i8 = (x as i8 - 4) + (y - 2) * 10;
        if slide >= 0 {
            self.mask << (slide as u64)
        } else {
            self.mask >> ((-slide) as u64)
        }
    }
}

impl PartialEq for Mino {
    fn eq(&self, other: &Self) -> (r: bool) {
        self.piece == other.piece && self.rotate == other.rotate
    }
}

impl vstd::std_specs::cmp::PartialEqSpecImpl for Mino {
    open spec fn obeys_eq_spec() -> bool {
        true
    }

    open spec fn eq_spec(&self, other: &Self) -> bool {
        self.piece_of() == other.piece_of() && self.rotate_of() == other.rotate_of()
    }
}

impl Eq for Mino {
}

} // verus!
