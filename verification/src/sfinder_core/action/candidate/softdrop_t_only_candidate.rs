use vstd::prelude::*;
use nohash::IntSet;
use super::candidate::{Candidate, ILockedCandidate};
use super::harddrop_candidate::{HarddropCandidate, harddrop_admits, harddrop_lands};
use crate::common::datastore::action::minimal_action::MinimalAction;
use crate::sfinder_core::field::field::Field;
use crate::sfinder_core::mino::piece::Piece;

verus! {

/// Lists the placements of T pieces with a search by moves and rotations, and those of the
/// other pieces by straight drops.
pub struct SoftdropTOnlyCandidate<'a, C> {
    harddrop_candidate: HarddropCandidate<'a>,
    locked_candidate: C,
}

impl<'a, C> SoftdropTOnlyCandidate<'a, C> {
    /// The drop search.
    pub closed spec fn harddrop(&self) -> HarddropCandidate<'a> {
        self.harddrop_candidate
    }

    /// The search for T pieces.
    pub closed spec fn locked(&self) -> C {
        self.locked_candidate
    }

    pub fn new(harddrop_candidate: HarddropCandidate<'a>, locked_candidate: C) -> (r: Self)
        ensures
            r.harddrop() == harddrop_candidate,
            r.locked() == locked_candidate,
    {
        SoftdropTOnlyCandidate { harddrop_candidate, locked_candidate }
    }
}

impl<'a, F: Field, C: ILockedCandidate<F>> Candidate<F> for SoftdropTOnlyCandidate<'a, C> {
    open spec fn candidate_wf(&self) -> bool {
        self.harddrop().wf() && self.locked().candidate_wf()
    }

    open spec fn admits_search(&self, field: &F, piece: Piece, valid_height: int) -> bool {
        if piece == Piece::T {
            self.locked().admits_search(field, piece, valid_height)
        } else {
            harddrop_admits(field, piece, valid_height)
        }
    }

    /// For a T piece, what the search by moves and rotations lists; for the others, where
    /// straight drops end.
    open spec fn spec_search(&self, field: &F, piece: Piece, valid_height: int, key: u32) -> bool {
        if piece == Piece::T {
            self.locked().spec_search(field, piece, valid_height, key)
        } else {
            exists|a: MinimalAction| #[trigger] harddrop_lands(field, piece, valid_height, a) && a.spec_key() == key
        }
    }

    fn search(&mut self, field: &F, piece: Piece, valid_height: u8) -> (r: IntSet<u32>) {
        if piece == Piece::T {
            self.locked_candidate.search(field, piece, valid_height)
        } else {
            self.harddrop_candidate.search(field, piece, valid_height)
        }
    }
}

} // verus!
