//! Two placements of a piece are congruent when they cover the same cells. One placement of
//! each such group is taken as canonical, and the others are sent to it.
use vstd::prelude::*;
use super::mino::mino_cells;
use super::mino_transform::{MinoTransform, signed_byte};
use super::piece::Piece;
use crate::common::datastore::action::minimal_action::MinimalAction;
use crate::common::datastore::coordinate::Coordinate;
use crate::sfinder_core::srs::rotate::Rotate;

verus! {

/// The orientation taken as canonical for the cells that piece `p` covers in orientation `r`.
pub open spec fn canonical_rotate(p: Piece, r: Rotate) -> Rotate {
    match (p, r) {
        (Piece::I, Rotate::Right) => Rotate::Left,
        (Piece::I, Rotate::Reverse) => Rotate::Spawn,
        (Piece::S, Rotate::Right) => Rotate::Left,
        (Piece::S, Rotate::Reverse) => Rotate::Spawn,
        (Piece::Z, Rotate::Left) => Rotate::Right,
        (Piece::Z, Rotate::Reverse) => Rotate::Spawn,
        (Piece::O, _) => Rotate::Spawn,
        _ => r,
    }
}

/// How far the rotation center moves when piece `p` in orientation `r` is replaced by its
/// canonical orientation.
pub open spec fn canonical_offset(p: Piece, r: Rotate) -> Coordinate {
    match (p, r) {
        (Piece::I, Rotate::Right) => Coordinate { x: 0, y: -1i8 },
        (Piece::I, Rotate::Reverse) => Coordinate { x: -1i8, y: 0 },
        (Piece::S, Rotate::Right) => Coordinate { x: 1, y: 0 },
        (Piece::S, Rotate::Reverse) => Coordinate { x: 0, y: -1i8 },
        (Piece::Z, Rotate::Left) => Coordinate { x: -1i8, y: 0 },
        (Piece::Z, Rotate::Reverse) => Coordinate { x: 0, y: -1i8 },
        (Piece::O, Rotate::Right) => Coordinate { x: 0, y: -1i8 },
        (Piece::O, Rotate::Reverse) => Coordinate { x: -1i8, y: -1i8 },
        (Piece::O, Rotate::Left) => Coordinate { x: -1i8, y: 0 },
        _ => Coordinate { x: 0, y: 0 },
    }
}

/// The cells covered by piece `p` in orientation `r` with its rotation center on `(x, y)`.
pub open spec fn placed_cells(p: Piece, r: Rotate, x: int, y: int) -> Set<(int, int)> {
    Set::new(|c: (int, int)| exists|i: int| 0 <= i < 4 && c == (x + (#[trigger] mino_cells(p, r)[i]).0, y + mino_cells(p, r)[i].1))
}

/// Whether `a` is a placement of piece `p` other than `(x, y, r)` with the same canonical
/// placement.
pub open spec fn other_congruent(p: Piece, r: Rotate, x: u8, y: u8, a: MinimalAction) -> bool {
    &&& a.rotate != r
    &&& canonical_rotate(p, a.rotate) == canonical_rotate(p, r)
    &&& a.x == signed_byte(x) + canonical_offset(p, r).x - canonical_offset(p, a.rotate).x
    &&& a.y == signed_byte(y) + canonical_offset(p, r).y - canonical_offset(p, a.rotate).y
}

/// A piece placed in an orientation covers the same cells as the piece placed in the canonical
/// orientation with the rotation center moved by the canonical offset.
pub proof fn lemma_canonical_same_cells(p: Piece, r: Rotate, x: int, y: int)
    ensures
        placed_cells(p, r, x, y) == placed_cells(
            p,
            canonical_rotate(p, r),
            x + canonical_offset(p, r).x,
            y + canonical_offset(p, r).y,
        ),
{
    let q = canonical_rotate(p, r);
    let o = canonical_offset(p, r);
    let a = mino_cells(p, r);
    let b = mino_cells(p, q);
    assert(a =~= seq![a[0], a[1], a[2], a[3]]);
    assert(b =~= seq![b[0], b[1], b[2], b[3]]);
    assert forall|c: (int, int)| #[trigger] placed_cells(p, r, x, y).contains(c) implies placed_cells(
        p,
        q,
        x + o.x,
        y + o.y,
    ).contains(c) by {
        let i = choose|i: int| 0 <= i < 4 && c == (x + (#[trigger] a[i]).0, y + a[i].1);
        assert(c == (x + o.x + b[0].0, y + o.y + b[0].1) || c == (x + o.x + b[1].0, y + o.y + b[1].1) || c == (x + o.x
            + b[2].0, y + o.y + b[2].1) || c == (x + o.x + b[3].0, y + o.y + b[3].1));
    }
    assert forall|c: (int, int)| #[trigger] placed_cells(p, q, x + o.x, y + o.y).contains(c) implies placed_cells(
        p,
        r,
        x,
        y,
    ).contains(c) by {
        let j = choose|j: int| 0 <= j < 4 && c == (x + o.x + (#[trigger] b[j]).0, y + o.y + b[j].1);
        assert(c == (x + a[0].0, y + a[0].1) || c == (x + a[1].0, y + a[1].1) || c == (x + a[2].0, y + a[2].1) || c == (x
            + a[3].0, y + a[3].1));
    }
    assert(placed_cells(p, r, x, y) =~= placed_cells(p, q, x + o.x, y + o.y));
}

/// Two placements with the same canonical placement cover the same cells.
pub proof fn lemma_congruent_same_cells(p: Piece, r: Rotate, q: Rotate, x: int, y: int)
    requires
        canonical_rotate(p, q) == canonical_rotate(p, r),
    ensures
        placed_cells(p, q, x + canonical_offset(p, r).x - canonical_offset(p, q).x, y + canonical_offset(p, r).y
            - canonical_offset(p, q).y) == placed_cells(p, r, x, y),
{
    lemma_canonical_same_cells(p, r, x, y);
    lemma_canonical_same_cells(
        p,
        q,
        x + canonical_offset(p, r).x - canonical_offset(p, q).x,
        y + canonical_offset(p, r).y - canonical_offset(p, q).y,
    );
}

/// Being congruent is an equivalence: the placements congruent with a congruent placement are
/// those congruent with the first one.
pub proof fn lemma_congruent_equivalence(p: Piece, r: Rotate, x: u8, y: u8, a: MinimalAction, b: MinimalAction)
    requires
        x < 126,
        y < 126,
        other_congruent(p, r, x, y, a),
    ensures
        a.x < 128 && a.y < 128,
        (b == (MinimalAction { x, y, rotate: r }) || other_congruent(p, r, x, y, b)) == (b == a || other_congruent(
            p,
            a.rotate,
            a.x,
            a.y,
            b,
        )),
{
    assert(signed_byte(x) == x && signed_byte(y) == y);
    assert(-1 <= canonical_offset(p, r).x <= 1 && -1 <= canonical_offset(p, a.rotate).x <= 1);
    assert(-1 <= canonical_offset(p, r).y <= 1 && -1 <= canonical_offset(p, a.rotate).y <= 1);
    assert(signed_byte(a.x) == a.x && signed_byte(a.y) == a.y);
}

/// A canonical placement is its own canonical placement: sending the result of
/// `create_canonical_action` through it again gives the same placement.
pub proof fn lemma_canonical_action_fixed(p: Piece, r: Rotate, x: u8, y: u8, a: MinimalAction)
    requires
        0 <= signed_byte(x) + canonical_offset(p, r).x <= 127,
        0 <= signed_byte(y) + canonical_offset(p, r).y <= 127,
        a.x == signed_byte(x) + canonical_offset(p, r).x,
        a.y == signed_byte(y) + canonical_offset(p, r).y,
        a.rotate == canonical_rotate(p, r),
    ensures
        0 <= signed_byte(a.x) + canonical_offset(p, a.rotate).x <= 127,
        0 <= signed_byte(a.y) + canonical_offset(p, a.rotate).y <= 127,
        a.x == signed_byte(a.x) + canonical_offset(p, a.rotate).x,
        a.y == signed_byte(a.y) + canonical_offset(p, a.rotate).y,
        a.rotate == canonical_rotate(p, a.rotate),
{
    lemma_canonical_idempotent(p, r);
}

/// The canonical orientation of a canonical orientation is itself.
pub proof fn lemma_canonical_idempotent(p: Piece, r: Rotate)
    ensures
        canonical_rotate(p, canonical_rotate(p, r)) == canonical_rotate(p, r),
        canonical_offset(p, canonical_rotate(p, r)) == (Coordinate { x: 0, y: 0 }),
{
}

/// Whether every placement congruent with `(x, y, r)` of piece `p` has its center within a
/// byte, so that the shifter can list them.
pub open spec fn congruents_fit(p: Piece, r: Rotate, x: u8, y: u8) -> bool {
    &&& -128 <= signed_byte(x) + canonical_offset(p, r).x <= 127
    &&& -128 <= signed_byte(y) + canonical_offset(p, r).y <= 127
    &&& forall|q: Rotate| q != r && #[trigger] canonical_rotate(p, q) == canonical_rotate(p, r) ==> 0 <= signed_byte(x)
        + canonical_offset(p, r).x - canonical_offset(p, q).x <= 127 && 0 <= signed_byte(y) + canonical_offset(p, r).y
        - canonical_offset(p, q).y <= 127
}

/// Sends placements of pieces to their canonical placements.
pub trait IMinoShifter: Sized {
    spec fn shifter_wf(&self) -> bool;

    /// The canonical orientation of piece `p` in orientation `r`.
    spec fn spec_canonical_rotate(&self, p: Piece, r: Rotate) -> Rotate;

    /// The move of the rotation center to the canonical orientation.
    spec fn spec_canonical_offset(&self, p: Piece, r: Rotate) -> Coordinate;

    /// The canonical orientation of `rotate`.
    fn create_canonical_rotate(&self, piece: Piece, rotate: Rotate) -> (r: Rotate)
        requires
            self.shifter_wf(),
        ensures
            r == self.spec_canonical_rotate(piece, rotate),
    ;

    /// The canonical placement of `piece` in orientation `rotate` centered on `(x, y)`.
    fn create_canonical_action(&self, piece: Piece, rotate: Rotate, x: u8, y: u8) -> (r: MinimalAction)
        requires
            self.shifter_wf(),
            0 <= signed_byte(x) + self.spec_canonical_offset(piece, rotate).x <= 127,
            0 <= signed_byte(y) + self.spec_canonical_offset(piece, rotate).y <= 127,
        ensures
            r.x == signed_byte(x) + self.spec_canonical_offset(piece, rotate).x,
            r.y == signed_byte(y) + self.spec_canonical_offset(piece, rotate).y,
            r.rotate == self.spec_canonical_rotate(piece, rotate),
    ;

    /// The given placement followed by every other placement of `piece` that has the same
    /// canonical placement, each once.
    fn congruent_actions(&self, piece: Piece, rotate: Rotate, x: u8, y: u8) -> (r: Vec<MinimalAction>)
        requires
            self.shifter_wf(),
            -128 <= signed_byte(x) + self.spec_canonical_offset(piece, rotate).x <= 127,
            -128 <= signed_byte(y) + self.spec_canonical_offset(piece, rotate).y <= 127,
            forall|q: Rotate| q != rotate && #[trigger] self.spec_canonical_rotate(piece, q) == self.spec_canonical_rotate(piece, rotate)
                ==> 0 <= signed_byte(x) + self.spec_canonical_offset(piece, rotate).x - self.spec_canonical_offset(piece, q).x <= 127
                && 0 <= signed_byte(y) + self.spec_canonical_offset(piece, rotate).y - self.spec_canonical_offset(piece, q).y <= 127,
        ensures
            r.len() >= 1,
            r@[0] == (MinimalAction { x, y, rotate }),
            r@.no_duplicates(),
            forall|a: MinimalAction| #[trigger] r@.contains(a) <==> (a == (MinimalAction { x, y, rotate }) || (a.rotate
                != rotate && self.spec_canonical_rotate(piece, a.rotate) == self.spec_canonical_rotate(piece, rotate)
                && a.x == signed_byte(x) + self.spec_canonical_offset(piece, rotate).x - self.spec_canonical_offset(
                piece,
                a.rotate,
            ).x && a.y == signed_byte(y) + self.spec_canonical_offset(piece, rotate).y - self.spec_canonical_offset(
                piece,
                a.rotate,
            ).y)),
    ;

    /// The canonical orientations of `piece`, each once, in quarter-turn order.
    fn get_unique_rotates(&self, piece: Piece) -> (r: Vec<Rotate>)
        requires
            self.shifter_wf(),
        ensures
            forall|i: int, j: int| 0 <= i < j < r.len() ==> (#[trigger] r@[i]).index() < (#[trigger] r@[j]).index(),
            forall|q: Rotate| #[trigger] r@.contains(q) <==> exists|s: Rotate| #[trigger] self.spec_canonical_rotate(piece, s) == q,
    ;
}

/// The shifter of the standard pieces: I, S and Z have two canonical orientations, O has one,
/// and the others four.
pub struct MinoShifter {
    transformers: Vec<MinoTransform>,
}

impl MinoShifter {
    pub fn new() -> (r: Self)
        ensures
            r.shifter_wf(),
    {
        let t = MinoTransform::new();
        let i = MinoTransform::set_with(&[(Rotate::Right, 0, -1, Rotate::Left), (Rotate::Reverse, -1, 0, Rotate::Spawn)]);
        let l = MinoTransform::new();
        let j = MinoTransform::new();
        let s = MinoTransform::set_with(&[(Rotate::Right, 1, 0, Rotate::Left), (Rotate::Reverse, 0, -1, Rotate::Spawn)]);
        let z = MinoTransform::set_with(&[(Rotate::Left, -1, 0, Rotate::Right), (Rotate::Reverse, 0, -1, Rotate::Spawn)]);
        let o = MinoTransform::set_with(
            &[(Rotate::Right, 0, -1, Rotate::Spawn), (Rotate::Reverse, -1, -1, Rotate::Spawn), (Rotate::Left, -1, 0, Rotate::Spawn)],
        );
        proof {
            reveal_with_fuel(crate::sfinder_core::mino::mino_transform::entry_target, 4);
            reveal_with_fuel(crate::sfinder_core::mino::mino_transform::entry_offset, 4);
            assert forall|q: Rotate| #[trigger] i.target_of(q) == canonical_rotate(Piece::I, q)
                && i.offset_of(q) == canonical_offset(Piece::I, q) by {}
            assert forall|q: Rotate| #[trigger] s.target_of(q) == canonical_rotate(Piece::S, q)
                && s.offset_of(q) == canonical_offset(Piece::S, q) by {}
            assert forall|q: Rotate| #[trigger] z.target_of(q) == canonical_rotate(Piece::Z, q)
                && z.offset_of(q) == canonical_offset(Piece::Z, q) by {}
            assert forall|q: Rotate| #[trigger] o.target_of(q) == canonical_rotate(Piece::O, q)
                && o.offset_of(q) == canonical_offset(Piece::O, q) by {}
        }
        let r = MinoShifter { transformers: vec![t, i, l, j, s, z, o] };
        proof {
            assert forall|p: Piece, q: Rotate| #[trigger] r.transformers@[p.index()].target_of(q) == canonical_rotate(p, q)
                && r.transformers@[p.index()].offset_of(q) == canonical_offset(p, q) by {
                assert(i.target_of(q) == canonical_rotate(Piece::I, q));
                assert(s.target_of(q) == canonical_rotate(Piece::S, q));
                assert(z.target_of(q) == canonical_rotate(Piece::Z, q));
                assert(o.target_of(q) == canonical_rotate(Piece::O, q));
            }
        }
        r
    }
}

impl IMinoShifter for MinoShifter {
    closed spec fn shifter_wf(&self) -> bool {
        &&& self.transformers.len() == 7
        &&& forall|p: Piece| #[trigger] self.transformers@[p.index()].wf()
        &&& forall|p: Piece, q: Rotate| #[trigger] self.transformers@[p.index()].offset_of(q) == canonical_offset(p, q)
        &&& forall|p: Piece, q: Rotate| #[trigger] self.transformers@[p.index()].target_of(q) == canonical_rotate(p, q)
    }

    open spec fn spec_canonical_rotate(&self, p: Piece, r: Rotate) -> Rotate {
        canonical_rotate(p, r)
    }

    open spec fn spec_canonical_offset(&self, p: Piece, r: Rotate) -> Coordinate {
        canonical_offset(p, r)
    }

    fn create_canonical_rotate(&self, piece: Piece, rotate: Rotate) -> (r: Rotate) {
        self.transformers[piece.number() as usize].transform_rotate(rotate)
    }

    fn create_canonical_action(&self, piece: Piece, rotate: Rotate, x: u8, y: u8) -> (r: MinimalAction) {
        self.transformers[piece.number() as usize].transform(x, y, rotate)
    }

    fn congruent_actions(&self, piece: Piece, rotate: Rotate, x: u8, y: u8) -> (r: Vec<MinimalAction>) {
        let t = &self.transformers[piece.number() as usize];
        proof {
            assert(t.wf());
            assert forall|q: Rotate| #[trigger] t.target_of(q) == canonical_rotate(piece, q)
                && t.offset_of(q) == canonical_offset(piece, q) by {}
            assert(t.is_canonicalizing());
            t.lemma_others(rotate);
            assert forall|i: int| 0 <= i < t.others_of(rotate).len() implies {
                let q = #[trigger] t.others_of(rotate)[i];
                &&& q != rotate
                &&& canonical_rotate(piece, q) == canonical_rotate(piece, rotate)
            } by {
                assert(t.others_of(rotate).contains(t.others_of(rotate)[i]));
            }
            assert forall|i: int| 0 <= i < t.others_of(rotate).len() implies 0 <= signed_byte(x) + t.offset_of(rotate).x
                - t.offset_of(#[trigger] t.others_of(rotate)[i]).x <= 127 && 0 <= signed_byte(y) + t.offset_of(rotate).y
                - t.offset_of(t.others_of(rotate)[i]).y <= 127 by {
                let q = t.others_of(rotate)[i];
                assert(t.others_of(rotate).contains(q));
                assert(self.spec_canonical_rotate(piece, q) == self.spec_canonical_rotate(piece, rotate));
            }
        }
        let r = t.congruent_actions(x, y, rotate);
        proof {
            let others = t.others_of(rotate);
            assert forall|a: MinimalAction| #[trigger] r@.contains(a) <==> (a == (MinimalAction { x, y, rotate })
                || other_congruent(piece, rotate, x, y, a)) by {
                if r@.contains(a) && a != (MinimalAction { x, y, rotate }) {
                    let i = choose|i: int| 0 <= i < r.len() && r@[i] == a;
                    assert(i >= 1);
                    assert(others[i - 1] == a.rotate);
                }
                if a != (MinimalAction { x, y, rotate }) && other_congruent(piece, rotate, x, y, a) {
                    assert(others.contains(a.rotate));
                    let i = choose|i: int| 0 <= i < others.len() && others[i] == a.rotate;
                    assert(r@[i + 1] == a);
                }
                if a == (MinimalAction { x, y, rotate }) {
                    assert(r@[0] == a);
                }
            }
            assert forall|i: int, j: int| 0 <= i < r.len() && 0 <= j < r.len() && i != j implies r@[i] != r@[j] by {
                if i > 0 && j > 0 {
                    assert(others[i - 1] != others[j - 1]);
                }
                if i == 0 {
                    assert(others[j - 1] != rotate);
                }
                if j == 0 {
                    assert(others[i - 1] != rotate);
                }
            }
        }
        r
    }

    fn get_unique_rotates(&self, piece: Piece) -> (r: Vec<Rotate>) {
        let t = &self.transformers[piece.number() as usize];
        proof {
            assert forall|q: Rotate| #[trigger] t.target_of(q) == canonical_rotate(piece, q) by {}
        }
        let r = t.get_unique_rotates();
        proof {
            assert forall|q: Rotate| #[trigger] r@.contains(q) <==> exists|s: Rotate| #[trigger] self.spec_canonical_rotate(piece, s) == q by {
                if r@.contains(q) {
                    let s = choose|s: Rotate| #[trigger] t.target_of(s) == q;
                    assert(self.spec_canonical_rotate(piece, s) == q);
                }
                if exists|s: Rotate| #[trigger] self.spec_canonical_rotate(piece, s) == q {
                    let s = choose|s: Rotate| #[trigger] self.spec_canonical_rotate(piece, s) == q;
                    assert(t.target_of(s) == q);
                }
            }
        }
        r
    }
}

} // verus!
