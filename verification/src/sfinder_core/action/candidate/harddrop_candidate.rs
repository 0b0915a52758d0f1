use vstd::prelude::*;
use super::candidate::Candidate;
use nohash::IntSet;
use crate::common::datastore::action::action_set::{insert_key, new_key_set};
use crate::common::datastore::action::minimal_action::MinimalAction;
use crate::sfinder_core::action::reachable::harddrop_reachable::{lands_at, lemma_lands_at_unique};
use crate::sfinder_core::field::field::{Field, FieldBoards};
use crate::sfinder_core::mino::mino::{Mino, mino_max_x, mino_max_y, mino_min_x, mino_min_y};
use crate::sfinder_core::mino::mino_factory::MinoFactory;
use crate::sfinder_core::mino::mino_shifter::{IMinoShifter, MinoShifter, canonical_rotate, lemma_canonical_idempotent};
use crate::sfinder_core::mino::piece::Piece;
use crate::sfinder_core::srs::rotate::Rotate;
use crate::sfinder_lib::coordinate_walker::get_ranges;

verus! {

/// Whether `a` is where piece `p`, in a canonical orientation and dropped from row
/// `valid_height`, comes to rest with its top below row `valid_height`.
pub open spec fn harddrop_lands<F: Field>(field: &F, p: Piece, valid_height: int, a: MinimalAction) -> bool {
    &&& canonical_rotate(p, a.rotate) == a.rotate
    &&& -mino_min_x(p, a.rotate) <= a.x < 10 - mino_max_x(p, a.rotate)
    &&& lands_at(field, p, a.rotate, a.x as int, valid_height - mino_min_y(p, a.rotate), a.y as int)
    &&& a.y < valid_height - mino_max_y(p, a.rotate)
}

/// What a drop search needs: rows few enough to count in signed bytes; room, for every
/// canonical shape, for its top twice below row `valid_height` (the columns are walked with the
/// ranges of a field cut at `valid_height` less the shape's top, and those ranges are counted in
/// bytes from that lower height); and on a field of four boards a start at most at row 26.
pub open spec fn harddrop_admits<F: Field>(field: &F, p: Piece, valid_height: int) -> bool {
    &&& valid_height < 126
    &&& forall|r: Rotate| canonical_rotate(p, r) == r ==> 2 * #[trigger] mino_max_y(p, r) <= valid_height
    &&& field.boards().len() == 4 ==> valid_height + 2 <= 26
}

/// Lists the placements a piece reaches by a straight drop.
pub struct HarddropCandidate<'a> {
    mino_factory: &'a MinoFactory,
    mino_shifter: &'a MinoShifter,
}

impl<'a> HarddropCandidate<'a> {
    pub closed spec fn wf(&self) -> bool {
        self.mino_shifter.shifter_wf()
    }

    pub fn new(mino_factory: &'a MinoFactory, mino_shifter: &'a MinoShifter) -> (r: Self)
        requires
            mino_shifter.shifter_wf(),
        ensures
            r.wf(),
    {
        HarddropCandidate { mino_factory, mino_shifter }
    }

    /// The keys of the placements where `piece`, in each canonical orientation and each column,
    /// comes to rest when dropped from row `valid_height`, keeping those whose top stays below
    /// that row.
    pub fn search<F: Field>(&mut self, field: &F, piece: Piece, valid_height: u8) -> (r: IntSet<u32>)
        requires
            old(self).wf(),
            harddrop_admits(field, piece, valid_height as int),
        ensures
            *final(self) == *old(self),
            forall|k: u32| #[trigger] r@.contains(k) <==> exists|a: MinimalAction| #[trigger] harddrop_lands(
                field,
                piece,
                valid_height as int,
                a,
            ) && a.spec_key() == k,
    {
        let mut actions = new_key_set();
        let rotates = self.mino_shifter.get_unique_rotates(piece);
        proof {
            assert forall|q: Rotate| #[trigger] rotates@.contains(q) <==> exists|s: Rotate| #[trigger] canonical_rotate(piece, s) == q by {
                if rotates@.contains(q) {
                    let s = choose|s: Rotate| #[trigger] self.mino_shifter.spec_canonical_rotate(piece, s) == q;
                    assert(canonical_rotate(piece, s) == q);
                }
                if exists|s: Rotate| #[trigger] canonical_rotate(piece, s) == q {
                    let s = choose|s: Rotate| #[trigger] canonical_rotate(piece, s) == q;
                    assert(self.mino_shifter.spec_canonical_rotate(piece, s) == q);
                }
            }
            assert forall|a: MinimalAction| #[trigger] harddrop_lands(field, piece, valid_height as int, a) implies rotates@.contains(a.rotate) by {
                assert(canonical_rotate(piece, a.rotate) == a.rotate);
            }
            assert(actions@ =~= Set::<u32>::empty());
        }
        let mut i: usize = 0;
        while i < rotates.len()
            invariant
                i <= rotates@.len(),
                harddrop_admits(field, piece, valid_height as int),
                forall|q: Rotate| #[trigger] rotates@.contains(q) <==> exists|s: Rotate| #[trigger] canonical_rotate(piece, s) == q,
                forall|a: MinimalAction| #[trigger] harddrop_lands(field, piece, valid_height as int, a) ==> rotates@.contains(a.rotate),
                forall|k: u32| #[trigger] actions@.contains(k) <==> exists|a: MinimalAction| #[trigger] harddrop_lands(
                    field,
                    piece,
                    valid_height as int,
                    a,
                ) && a.spec_key() == k && rotates@.take(i as int).contains(a.rotate),
            decreases rotates@.len() - i,
        {
            let rotate = rotates[i];
            let mino = self.mino_factory.get(piece, rotate);
            proof {
                assert(rotates@.contains(rotate));
                let s = choose|s: Rotate| #[trigger] canonical_rotate(piece, s) == rotate;
                lemma_canonical_idempotent(piece, s);
                Mino::lemma_cells_in_bounds(piece, rotate);
            }
            let y = valid_height + (-mino.get_min_y()) as u8;
            let max_y = valid_height - mino.get_max_y() as u8;
            let ranges = get_ranges(mino, max_y);
            let x_range = ranges.0;
            let mut x = x_range.start;
            while x < x_range.end
                invariant
                    i < rotates@.len(),
                    rotate == rotates@[i as int],
                    mino.piece_of() == piece,
                    mino.rotate_of() == rotate,
                    canonical_rotate(piece, rotate) == rotate,
                    harddrop_admits(field, piece, valid_height as int),
                    y == valid_height - mino_min_y(piece, rotate),
                    max_y == valid_height - mino_max_y(piece, rotate),
                    x_range.start == -mino_min_x(piece, rotate),
                    x_range.end == 10 - mino_max_x(piece, rotate),
                    x_range.start <= x <= x_range.end,
                    x_range.end <= 10,
                    forall|k: u32| #[trigger] actions@.contains(k) <==> exists|a: MinimalAction| #[trigger] harddrop_lands(
                        field,
                        piece,
                        valid_height as int,
                        a,
                    ) && a.spec_key() == k && (rotates@.take(i as int).contains(a.rotate) || (a.rotate == rotate && a.x
                        < x)),
                decreases x_range.end - x,
            {
                let harddrop_y = field.get_y_on_harddrop(mino, x, y);
                let ghost before = actions@;
                if harddrop_y < max_y {
                    insert_key(&mut actions, MinimalAction::new(x, harddrop_y, rotate).key());
                }
                proof {
                    let b = MinimalAction { x, y: harddrop_y, rotate };
                    assert(lands_at(field, piece, rotate, x as int, y as int, harddrop_y as int));
                    assert forall|k: u32| #[trigger] actions@.contains(k) <==> exists|a: MinimalAction| #[trigger] harddrop_lands(
                        field,
                        piece,
                        valid_height as int,
                        a,
                    ) && a.spec_key() == k && (rotates@.take(i as int).contains(a.rotate) || (a.rotate == rotate && a.x
                        < x + 1)) by {
                        if exists|a: MinimalAction| #[trigger] harddrop_lands(field, piece, valid_height as int, a)
                            && a.spec_key() == k && (rotates@.take(i as int).contains(a.rotate) || (a.rotate == rotate
                            && a.x < x + 1)) {
                            let a = choose|a: MinimalAction| #[trigger] harddrop_lands(field, piece, valid_height as int, a)
                                && a.spec_key() == k && (rotates@.take(i as int).contains(a.rotate) || (a.rotate == rotate
                                && a.x < x + 1));
                            if !(rotates@.take(i as int).contains(a.rotate) || (a.rotate == rotate && a.x < x)) {
                                assert(a.x == x && a.rotate == rotate);
                                lemma_lands_at_unique(field, piece, rotate, x as int, y as int, a.y as int, harddrop_y as int);
                                assert(a == b);
                            }
                        }
                        if k == b.spec_key() && harddrop_y < max_y {
                            assert(harddrop_lands(field, piece, valid_height as int, b));
                        }
                    }
                }
                x = x + 1;
            }
            proof {
                assert forall|k: u32| #[trigger] actions@.contains(k) <==> exists|a: MinimalAction| #[trigger] harddrop_lands(
                    field,
                    piece,
                    valid_height as int,
                    a,
                ) && a.spec_key() == k && rotates@.take(i as int + 1).contains(a.rotate) by {
                    assert(rotates@.take(i as int + 1) =~= rotates@.take(i as int).push(rotate));
                    if exists|a: MinimalAction| #[trigger] harddrop_lands(field, piece, valid_height as int, a)
                        && a.spec_key() == k && rotates@.take(i as int + 1).contains(a.rotate) {
                        let a = choose|a: MinimalAction| #[trigger] harddrop_lands(field, piece, valid_height as int, a)
                            && a.spec_key() == k && rotates@.take(i as int + 1).contains(a.rotate);
                        if a.rotate == rotate {
                            assert(a.x < x);
                        } else {
                            let j = choose|j: int| 0 <= j < i + 1 && #[trigger] rotates@.take(i as int + 1)[j] == a.rotate;
                            assert(j < i);
                            assert(rotates@.take(i as int)[j] == a.rotate);
                        }
                    }
                    if actions@.contains(k) {
                        let a = choose|a: MinimalAction| #[trigger] harddrop_lands(field, piece, valid_height as int, a)
                            && a.spec_key() == k && (rotates@.take(i as int).contains(a.rotate) || (a.rotate == rotate
                            && a.x < x));
                        if a.rotate == rotate {
                            assert(rotates@.take(i as int + 1)[i as int] == rotate);
                        } else {
                            let j = choose|j: int| 0 <= j < i && #[trigger] rotates@.take(i as int)[j] == a.rotate;
                            assert(rotates@.take(i as int + 1)[j] == a.rotate);
                        }
                        assert(rotates@.take(i as int + 1).contains(a.rotate));
                    }
                }
            }
            i = i + 1;
        }
        proof {
            assert(rotates@.take(rotates@.len() as int) =~= rotates@);
        }
        actions
    }
}

impl<'a, F: Field> Candidate<F> for HarddropCandidate<'a> {
    open spec fn candidate_wf(&self) -> bool {
        self.wf()
    }

    open spec fn admits_search(&self, field: &F, piece: Piece, valid_height: int) -> bool {
        harddrop_admits(field, piece, valid_height)
    }

    open spec fn spec_search(&self, field: &F, piece: Piece, valid_height: int, key: u32) -> bool {
        exists|a: MinimalAction| #[trigger] harddrop_lands(field, piece, valid_height, a) && a.spec_key() == key
    }

    fn search(&mut self, field: &F, piece: Piece, valid_height: u8) -> (r: IntSet<u32>) {
        HarddropCandidate::search(self, field, piece, valid_height)
    }
}

} // verus!
