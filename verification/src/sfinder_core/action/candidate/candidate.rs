//! Searches that list the placements a piece can reach.
use vstd::prelude::*;
use nohash::IntSet;
use crate::sfinder_core::field::field::Field;
use crate::sfinder_core::mino::piece::Piece;

verus! {

/// A search that lists, by their keys, the placements a piece can reach.
pub trait Candidate<F: Field>: Sized {
    /// The search is ready to be asked.
    spec fn candidate_wf(&self) -> bool;

    /// What `search` needs of its inputs.
    spec fn admits_search(&self, field: &F, piece: Piece, valid_height: int) -> bool;

    /// Whether `search` lists the placement with key `key`.
    spec fn spec_search(&self, field: &F, piece: Piece, valid_height: int, key: u32) -> bool;

    /// The keys of the placements of `piece` that the search finds below row `valid_height`.
    fn search(&mut self, field: &F, piece: Piece, valid_height: u8) -> (r: IntSet<u32>)
        requires
            old(self).candidate_wf(),
            old(self).admits_search(field, piece, valid_height as int),
        ensures
            final(self).candidate_wf(),
            forall|k: u32| #[trigger] r@.contains(k) == old(self).spec_search(field, piece, valid_height as int, k),
    ;
}

/// A search with moves and rotations.
pub trait ILockedCandidate<F: Field>: Candidate<F> {
}

} // verus!
