//! A shape placed at a position, with the fields it occupies and it sweeps when dropped.

use vstd::prelude::*;
use crate::sfinder_core::field::any_field::AnyField;
use crate::sfinder_core::field::field::{Field, FieldBoards, block_at, lemma_remove_block_cells};
use crate::sfinder_core::field::bit_operators::cell;
use crate::sfinder_core::field::bits::{bit, lemma_zero_bits};
use crate::sfinder_core::field::field_factory;
use crate::sfinder_core::field::field_constants::FIELD_WIDTH;
use crate::sfinder_core::mino::mino::{Mino, covers, mino_min_x, mino_max_x, mino_min_y, mino_max_y};
use crate::sfinder_core::mino::mino_factory::MinoFactory;
use crate::sfinder_core::mino::piece::Piece;
use crate::sfinder_core::srs::rotate::Rotate;

verus! {

/// A shape `mino` with its rotation center on `(x, y)` of a field of `field_height` rows.
pub struct OriginalPiece<'a> {
    mino: &'a Mino,
    x: u8,
    y: u8,
    harddrop_collider: AnyField,
    mino_field: AnyField,
}

/// Number of rows a field needs to hold a shape with its rotation center on row `y`.
pub open spec fn mino_field_height(mino: &Mino, y: int) -> int {
    y + mino_max_y(mino.piece_of(), mino.rotate_of()) + 1
}

/// Whether the center column `x` keeps the shape of `p` in orientation `r` between the walls.
pub open spec fn between_walls(p: Piece, r: Rotate, x: int) -> bool {
    -mino_min_x(p, r) <= x < 10 - mino_max_x(p, r)
}

/// Whether the shape of `p` in orientation `r`, dropped from the top of a field of
/// `field_height` rows down to `(x, y)`, passes over cell `(cx, cy)` of the field.
pub open spec fn swept_by_drop(p: Piece, r: Rotate, x: int, y: int, field_height: int, cx: int, cy: int) -> bool {
    &&& 0 <= cx < 10
    &&& 0 <= cy < field_height
    &&& exists|yy: int| y <= yy < field_height - mino_min_y(p, r) && #[trigger] covers(p, r, x, yy, cx, cy)
}

/// An empty field holds no block.
proof fn lemma_empty_cells(bs: Seq<u64>)
    requires
        forall|k: int| 0 <= k < bs.len() ==> #[trigger] bs[k] == 0,
    ensures
        forall|cx: int, cy: int| !#[trigger] block_at(bs, cx, cy),
{
    lemma_zero_bits(0u64);
    assert forall|cx: int, cy: int| !#[trigger] block_at(bs, cx, cy) by {
        if 0 <= cx < 10 && 0 <= cy < 6 * bs.len() {
            assert(bs[cy / 6] == 0);
            if 0 <= cx + 10 * (cy % 6) < 64 {
                assert(!bit(0u64, cx + 10 * (cy % 6)));
            }
        }
    }
}

impl<'a> OriginalPiece<'a> {
    pub closed spec fn mino(&self) -> &'a Mino {
        self.mino
    }

    pub closed spec fn x(&self) -> u8 {
        self.x
    }

    pub closed spec fn y(&self) -> u8 {
        self.y
    }

    pub closed spec fn mino_field(&self) -> AnyField {
        self.mino_field
    }

    pub closed spec fn harddrop_collider(&self) -> AnyField {
        self.harddrop_collider
    }

    /// A field just tall enough for the shape, holding the shape.
    fn create_mino_field(mino: &Mino, x: u8, y: u8) -> (r: AnyField)
        requires
            x < 10,
            mino_field_height(mino, y as int) <= 24,
        ensures
            r.boards() == field_factory::field_of_height(mino_field_height(mino, y as int)).put_spec(
                mino.piece_of(),
                mino.rotate_of(),
                x as int,
                y as int,
            ),
            between_walls(mino.piece_of(), mino.rotate_of(), x as int) ==> forall|cx: int, cy: int| #[trigger] block_at(
                r.boards(),
                cx,
                cy,
            ) == (0 <= cx < 10 && 0 <= cy < 6 * r.boards().len() && covers(
                mino.piece_of(),
                mino.rotate_of(),
                x as int,
                y as int,
                cx,
                cy,
            )),
    {
        proof {
            Mino::lemma_cells_in_bounds(mino.piece_of(), mino.rotate_of());
        }
        let mut field = field_factory::create_field((y as i8 + mino.get_max_y() + 1) as u8);
        let ghost empty = field;
        proof {
            assert(field == field_factory::field_of_height(mino_field_height(mino, y as int)));
            lemma_empty_cells(empty.boards());
        }
        field.put(mino, x, y);
        proof {
            if between_walls(mino.piece_of(), mino.rotate_of(), x as int) {
                assert forall|cx: int, cy: int| #[trigger] block_at(field.boards(), cx, cy) == (0 <= cx < 10 && 0 <= cy < 6
                    * field.boards().len() && covers(mino.piece_of(), mino.rotate_of(), x as int, y as int, cx, cy)) by {
                    empty.lemma_put_cells(mino.piece_of(), mino.rotate_of(), x as int, y as int, cx, cy);
                }
            }
        }
        field
    }

    /// A field of `field_height` rows holding the shape at every row from `y` up, with the rows
    /// from `field_height` up cleared.
    fn create_harddrop_collider(mino: &Mino, x: u8, y: u8, field_height: u8) -> (r: AnyField)
        requires
            x < 10,
            field_height <= 24,
        ensures
            r.boards().len() == field_factory::field_of_height(field_height as int).boards().len(),
            between_walls(mino.piece_of(), mino.rotate_of(), x as int) ==> forall|cx: int, cy: int| #[trigger] block_at(
                r.boards(),
                cx,
                cy,
            ) == swept_by_drop(mino.piece_of(), mino.rotate_of(), x as int, y as int, field_height as int, cx, cy),
    {
        proof {
            Mino::lemma_cells_in_bounds(mino.piece_of(), mino.rotate_of());
        }
        let ghost p = mino.piece_of();
        let ghost q = mino.rotate_of();
        let ghost walls = between_walls(p, q, x as int);
        let mut field = field_factory::create_field(field_height);
        proof {
            lemma_empty_cells(field.boards());
        }
        let top = field_height + (-mino.get_min_y()) as u8;
        let mut y_index = y;
        while y_index < top
            invariant
                x < 10,
                field_height <= 24,
                top == field_height - mino_min_y(p, q),
                top <= field_height + 2,
                y <= y_index,
                p == mino.piece_of(),
                q == mino.rotate_of(),
                walls == between_walls(p, q, x as int),
                field.boards().len() == field_factory::field_of_height(field_height as int).boards().len(),
                6 * field.boards().len() >= field_height,
                walls ==> forall|cx: int, cy: int| #[trigger] block_at(field.boards(), cx, cy) == (0 <= cx < 10 && 0 <= cy
                    < 6 * field.boards().len() && exists|yy: int| y <= yy < y_index && #[trigger] covers(p, q, x as int, yy, cx, cy)),
            decreases top - y_index,
        {
            let ghost before = field;
            field.put(mino, x, y_index);
            proof {
                if walls {
                    assert forall|cx: int, cy: int| #[trigger] block_at(field.boards(), cx, cy) == (0 <= cx < 10 && 0 <= cy
                        < 6 * field.boards().len() && exists|yy: int| y <= yy < y_index + 1 && #[trigger] covers(p, q, x as int, yy, cx, cy)) by {
                        before.lemma_put_cells(p, q, x as int, y_index as int, cx, cy);
                        if exists|yy: int| y <= yy < y_index + 1 && #[trigger] covers(p, q, x as int, yy, cx, cy) {
                            let yy = choose|yy: int| y <= yy < y_index + 1 && #[trigger] covers(p, q, x as int, yy, cx, cy);
                            if yy < y_index {
                                assert(exists|yz: int| y <= yz < y_index && #[trigger] covers(p, q, x as int, yz, cx, cy));
                            }
                        }
                    }
                }
            }
            y_index = y_index + 1;
        }
        let ghost swept = field.boards();
        let max_height = field.get_max_field_height();
        let mut row = field_height;
        while row < max_height
            invariant
                max_height == 6 * field.boards().len(),
                field.boards().len() == field_factory::field_of_height(field_height as int).boards().len(),
                field.boards().len() == swept.len(),
                field_height <= row,
                forall|cx: int, cy: int| #[trigger] block_at(field.boards(), cx, cy) == (block_at(swept, cx, cy) && !(
                field_height <= cy < row)),
            decreases max_height - row,
        {
            let mut x_index: u8 = 0;
            while x_index < 10
                invariant
                    row < max_height,
                    field_height <= row,
                    max_height == 6 * field.boards().len(),
                    field.boards().len() == field_factory::field_of_height(field_height as int).boards().len(),
                    field.boards().len() == swept.len(),
                    x_index <= 10,
                    forall|cx: int, cy: int| #[trigger] block_at(field.boards(), cx, cy) == (block_at(swept, cx, cy) && !(
                    field_height <= cy < row) && !(cy == row && cx < x_index)),
                decreases 10 - x_index,
            {
                let ghost before = field.boards();
                field.remove_block(x_index, row);
                proof {
                    lemma_remove_block_cells(before, x_index as int, row as int);
                }
                x_index = x_index + 1;
            }
            row = row + 1;
        }
        proof {
            if walls {
                assert forall|cx: int, cy: int| #[trigger] block_at(field.boards(), cx, cy) == swept_by_drop(
                    p,
                    q,
                    x as int,
                    y as int,
                    field_height as int,
                    cx,
                    cy,
                ) by {
                    if block_at(field.boards(), cx, cy) {
                        assert(block_at(swept, cx, cy));
                        let yy = choose|yy: int| y <= yy < top && #[trigger] covers(p, q, x as int, yy, cx, cy);
                    }
                    if swept_by_drop(p, q, x as int, y as int, field_height as int, cx, cy) {
                        let yy = choose|yy: int| y <= yy < field_height - mino_min_y(p, q) && #[trigger] covers(
                            p,
                            q,
                            x as int,
                            yy,
                            cx,
                            cy,
                        );
                        assert(block_at(swept, cx, cy));
                    }
                }
            }
        }
        field
    }

    pub fn new(mino: &'a Mino, x: u8, y: u8, field_height: u8) -> (r: Self)
        requires
            x < 10,
            field_height <= 24,
            mino_field_height(mino, y as int) <= 24,
        ensures
            r.mino() == mino,
            r.x() == x,
            r.y() == y,
            r.mino_field().boards() == field_factory::field_of_height(mino_field_height(mino, y as int)).put_spec(
                mino.piece_of(),
                mino.rotate_of(),
                x as int,
                y as int,
            ),
            between_walls(mino.piece_of(), mino.rotate_of(), x as int) ==> forall|cx: int, cy: int| #[trigger] block_at(
                r.mino_field().boards(),
                cx,
                cy,
            ) == (0 <= cx < 10 && 0 <= cy < 6 * r.mino_field().boards().len() && covers(
                mino.piece_of(),
                mino.rotate_of(),
                x as int,
                y as int,
                cx,
                cy,
            )),
            r.harddrop_collider().boards().len() == field_factory::field_of_height(field_height as int).boards().len(),
            between_walls(mino.piece_of(), mino.rotate_of(), x as int) ==> forall|cx: int, cy: int| #[trigger] block_at(
                r.harddrop_collider().boards(),
                cx,
                cy,
            ) == swept_by_drop(mino.piece_of(), mino.rotate_of(), x as int, y as int, field_height as int, cx, cy),
    {
        OriginalPiece {
            mino,
            x,
            y,
            mino_field: Self::create_mino_field(mino, x, y),
            harddrop_collider: Self::create_harddrop_collider(mino, x, y, field_height),
        }
    }

    pub fn get_mino_field(&self) -> (r: &AnyField)
        ensures
            *r == self.mino_field(),
    {
        &self.mino_field
    }

    pub fn get_harddrop_collider(&self) -> (r: &AnyField)
        ensures
            *r == self.harddrop_collider(),
    {
        &self.harddrop_collider
    }

    pub fn get_mino(&self) -> (r: &'a Mino)
        ensures
            r == self.mino(),
    {
        self.mino
    }

    pub fn get_x(&self) -> (r: u8)
        ensures
            r == self.x(),
    {
        self.x
    }

    pub fn get_y(&self) -> (r: u8)
        ensures
            r == self.y(),
    {
        self.y
    }

    pub fn get_rotate(&self) -> (r: Rotate)
        ensures
            r == self.mino().rotate_of(),
    {
        self.mino.get_rotate()
    }

    pub fn get_piece(&self) -> (r: Piece)
        ensures
            r == self.mino().piece_of(),
    {
        self.mino.get_piece()
    }
}

/// Whether placement `(x, y)` of piece `p` in orientation `r` lies within a field of
/// `field_height` rows: between the walls, above the floor and below the top.
pub open spec fn fits_height(p: Piece, r: Rotate, x: int, y: int, field_height: int) -> bool {
    &&& -mino_min_x(p, r) <= x < 10 - mino_max_x(p, r)
    &&& -mino_min_y(p, r) <= y
    &&& y + mino_max_y(p, r) < field_height
}

/// Whether `pieces` holds the placement `(x, y)` of piece `p` in orientation `r`.
pub open spec fn lists_placement(pieces: Seq<OriginalPiece>, p: Piece, r: Rotate, x: int, y: int) -> bool {
    exists|i: int|
        0 <= i < pieces.len() && (#[trigger] pieces[i]).mino().piece_of() == p && pieces[i].mino().rotate_of() == r
            && pieces[i].x() == x && pieces[i].y() == y
}

/// Whether placement `(q, s, x, y)` comes before the placement being listed, in the order of
/// pieces, then orientations, then rows, then columns.
spec fn listed_before(pi: int, ri: int, yc: int, xc: int, q: Piece, s: Rotate, x: int, y: int) -> bool {
    ||| q.index() < pi
    ||| q.index() == pi && s.index() < ri
    ||| q.index() == pi && s.index() == ri && y < yc
    ||| q.index() == pi && s.index() == ri && y == yc && x < xc
}

/// Every shape of every piece at every position where it lies within a field of `field_height`
/// rows, piece by piece, then orientation by orientation, row by row and column by column.
pub fn create_all_pieces<'a>(mino_factory: &'a MinoFactory, field_height: u8) -> (r: Vec<OriginalPiece<'a>>)
    requires
        field_height <= 24,
    ensures
        forall|i: int| 0 <= i < r@.len() ==> fits_height(
            (#[trigger] r@[i]).mino().piece_of(),
            r@[i].mino().rotate_of(),
            r@[i].x() as int,
            r@[i].y() as int,
            field_height as int,
        ),
        forall|q: Piece, s: Rotate, x: int, y: int| #[trigger] fits_height(q, s, x, y, field_height as int) ==> lists_placement(
            r@,
            q,
            s,
            x,
            y,
        ),
{
    let mut pieces: Vec<OriginalPiece<'a>> = Vec::new();
    let piece_list = Piece::value_list();
    let rotate_list = Rotate::value_list();
    let mut pi: usize = 0;
    while pi < piece_list.len()
        invariant
            field_height <= 24,
            piece_list@.len() == 7,
            rotate_list@.len() == 4,
            forall|k: int| 0 <= k < 7 ==> (#[trigger] piece_list@[k]).index() == k,
            forall|k: int| 0 <= k < 4 ==> (#[trigger] rotate_list@[k]).index() == k,
            pi <= 7,
            forall|i: int| 0 <= i < pieces@.len() ==> fits_height(
                (#[trigger] pieces@[i]).mino().piece_of(),
                pieces@[i].mino().rotate_of(),
                pieces@[i].x() as int,
                pieces@[i].y() as int,
                field_height as int,
            ),
            forall|q: Piece, s: Rotate, x: int, y: int| #[trigger] fits_height(q, s, x, y, field_height as int)
                && q.index() < pi ==> lists_placement(pieces@, q, s, x, y),
        decreases piece_list@.len() - pi,
    {
        let mut ri: usize = 0;
        while ri < rotate_list.len()
            invariant
                field_height <= 24,
                pi < 7,
                piece_list@.len() == 7,
                rotate_list@.len() == 4,
                forall|k: int| 0 <= k < 7 ==> (#[trigger] piece_list@[k]).index() == k,
                forall|k: int| 0 <= k < 4 ==> (#[trigger] rotate_list@[k]).index() == k,
                ri <= 4,
                forall|i: int| 0 <= i < pieces@.len() ==> fits_height(
                    (#[trigger] pieces@[i]).mino().piece_of(),
                    pieces@[i].mino().rotate_of(),
                    pieces@[i].x() as int,
                    pieces@[i].y() as int,
                    field_height as int,
                ),
                forall|q: Piece, s: Rotate, x: int, y: int| #[trigger] fits_height(q, s, x, y, field_height as int)
                    && listed_before(pi as int, ri as int, 0, 0, q, s, x, y) && (q.index() < pi || s.index() < ri)
                    ==> lists_placement(pieces@, q, s, x, y),
            decreases rotate_list@.len() - ri,
        {
            let mino = mino_factory.get(piece_list[pi], rotate_list[ri]);
            let ghost mp = mino.piece_of();
            let ghost mr = mino.rotate_of();
            proof {
                Mino::lemma_cells_in_bounds(mp, mr);
            }
            let min_y = (-mino.get_min_y()) as u8;
            let mut y: u8 = min_y;
            while (y as i8) + mino.get_max_y() < field_height as i8
                invariant
                    field_height <= 24,
                    pi < 7,
                    ri < 4,
                    mp == mino.piece_of(),
                    mr == mino.rotate_of(),
                    mp.index() == pi,
                    mr.index() == ri,
                    min_y == -mino_min_y(mp, mr),
                    min_y <= y <= 26,
                    -2 <= mino_min_x(mp, mr) <= 0 <= mino_max_x(mp, mr) <= 2,
                    -2 <= mino_min_y(mp, mr) <= 0 <= mino_max_y(mp, mr) <= 2,
                    forall|i: int| 0 <= i < pieces@.len() ==> fits_height(
                        (#[trigger] pieces@[i]).mino().piece_of(),
                        pieces@[i].mino().rotate_of(),
                        pieces@[i].x() as int,
                        pieces@[i].y() as int,
                        field_height as int,
                    ),
                    forall|q: Piece, s: Rotate, x: int, y2: int| #[trigger] fits_height(q, s, x, y2, field_height as int)
                        && listed_before(pi as int, ri as int, y as int, 0, q, s, x, y2) ==> lists_placement(
                        pieces@,
                        q,
                        s,
                        x,
                        y2,
                    ),
                decreases 26 - y,
            {
                let mut x: u8 = (-mino.get_min_x()) as u8;
                while (x as i8) < FIELD_WIDTH as i8 - mino.get_max_x()
                    invariant
                        field_height <= 24,
                        mp == mino.piece_of(),
                        mr == mino.rotate_of(),
                        mp.index() == pi,
                        mr.index() == ri,
                        min_y <= y,
                        min_y == -mino_min_y(mp, mr),
                        y + mino_max_y(mp, mr) < field_height,
                        -mino_min_x(mp, mr) <= x <= 10,
                        -2 <= mino_min_x(mp, mr) <= 0 <= mino_max_x(mp, mr) <= 2,
                        -2 <= mino_min_y(mp, mr) <= 0 <= mino_max_y(mp, mr) <= 2,
                        forall|i: int| 0 <= i < pieces@.len() ==> fits_height(
                            (#[trigger] pieces@[i]).mino().piece_of(),
                            pieces@[i].mino().rotate_of(),
                            pieces@[i].x() as int,
                            pieces@[i].y() as int,
                            field_height as int,
                        ),
                        forall|q: Piece, s: Rotate, x2: int, y2: int| #[trigger] fits_height(q, s, x2, y2, field_height as int)
                            && listed_before(pi as int, ri as int, y as int, x as int, q, s, x2, y2) ==> lists_placement(
                            pieces@,
                            q,
                            s,
                            x2,
                            y2,
                        ),
                    decreases 10 - x,
                {
                    let ghost before = pieces@;
                    let piece = OriginalPiece::new(mino, x, y, field_height);
                    pieces.push(piece);
                    proof {
                        let n = before.len() as int;
                        assert(pieces@[n] == piece);
                        assert forall|q: Piece, s: Rotate, x2: int, y2: int| #[trigger] fits_height(
                            q,
                            s,
                            x2,
                            y2,
                            field_height as int,
                        ) && listed_before(pi as int, ri as int, y as int, x + 1, q, s, x2, y2) implies lists_placement(
                            pieces@,
                            q,
                            s,
                            x2,
                            y2,
                        ) by {
                            if listed_before(pi as int, ri as int, y as int, x as int, q, s, x2, y2) {
                                let i = choose|i: int|
                                    0 <= i < before.len() && (#[trigger] before[i]).mino().piece_of() == q
                                        && before[i].mino().rotate_of() == s && before[i].x() == x2 && before[i].y() == y2;
                                assert(pieces@[i] == before[i]);
                            } else {
                                assert(Piece::from_index(q.index()) == q);
                                assert(Piece::from_index(mp.index()) == mp);
                                assert(Rotate::from_index(s.index()) == s);
                                assert(Rotate::from_index(mr.index()) == mr);
                                assert(pieces@[n].mino().piece_of() == q);
                            }
                        }
                        assert forall|i: int| 0 <= i < pieces@.len() implies fits_height(
                            (#[trigger] pieces@[i]).mino().piece_of(),
                            pieces@[i].mino().rotate_of(),
                            pieces@[i].x() as int,
                            pieces@[i].y() as int,
                            field_height as int,
                        ) by {
                            if i < n {
                                assert(pieces@[i] == before[i]);
                            }
                        }
                    }
                    x = x + 1;
                }
                proof {
                    assert forall|q: Piece, s: Rotate, x2: int, y2: int| #[trigger] fits_height(q, s, x2, y2, field_height as int)
                        && listed_before(pi as int, ri as int, y + 1, 0, q, s, x2, y2) implies lists_placement(
                        pieces@,
                        q,
                        s,
                        x2,
                        y2,
                    ) by {
                        if !listed_before(pi as int, ri as int, y as int, 0, q, s, x2, y2) {
                            assert(listed_before(pi as int, ri as int, y as int, x as int, q, s, x2, y2));
                        }
                    }
                }
                y = y + 1;
            }
            proof {
                assert forall|q: Piece, s: Rotate, x2: int, y2: int| #[trigger] fits_height(q, s, x2, y2, field_height as int)
                    && listed_before(pi as int, ri as int + 1, 0, 0, q, s, x2, y2) && (q.index() < pi || s.index() < ri + 1)
                    implies lists_placement(pieces@, q, s, x2, y2) by {
                    if q.index() == pi && s.index() == ri {
                        assert(listed_before(pi as int, ri as int, y as int, 0, q, s, x2, y2));
                    }
                }
            }
            ri = ri + 1;
        }
        proof {
            assert forall|q: Piece, s: Rotate, x2: int, y2: int| #[trigger] fits_height(q, s, x2, y2, field_height as int)
                && q.index() < pi + 1 implies lists_placement(pieces@, q, s, x2, y2) by {
                assert(listed_before(pi as int, 4, 0, 0, q, s, x2, y2));
            }
        }
        pi = pi + 1;
    }
    pieces
}

} // verus!
