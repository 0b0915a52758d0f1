use vstd::prelude::*;
use crate::common::datastore::coordinate::Coordinate;

verus! {

/// The rotation tests of one rotation: for each test, the move to try and whether a spin
/// found by that test counts as a full spin even where it would otherwise be a mini one.
#[derive(Debug, Clone)]
pub struct Pattern {
    checks: Vec<(Coordinate, bool)>,
}

impl View for Pattern {
    type V = Seq<(Coordinate, bool)>;

    closed spec fn view(&self) -> Seq<(Coordinate, bool)> {
        self.checks@
    }
}

impl Pattern {
    /// Tests with the given moves, none of them raising a spin.
    pub fn with_no_privilege_spins(offsets: Vec<Coordinate>) -> (r: Self)
        ensures
            r@.len() == offsets@.len(),
            forall|i: int| 0 <= i < offsets@.len() ==> #[trigger] r@[i] == (offsets@[i], false),
    {
        let mut checks: Vec<(Coordinate, bool)> = Vec::new();
        let mut i: usize = 0;
        while i < offsets.len()
            invariant
                i <= offsets@.len(),
                checks@.len() == i,
                forall|j: int| 0 <= j < i ==> #[trigger] checks@[j] == (offsets@[j], false),
            decreases offsets@.len() - i,
        {
            checks.push((offsets[i], false));
            i = i + 1;
        }
        Pattern { checks }
    }

    pub fn new(checks: Vec<(Coordinate, bool)>) -> (r: Self)
        ensures
            r@ == checks@,
    {
        Pattern { checks }
    }

    pub fn get_checks(&self) -> (r: &[(Coordinate, bool)])
        ensures
            r@ == self@,
    {
        self.checks.as_slice()
    }

    /// The moves of the tests, in order.
    pub fn get_offsets(&self) -> (r: Vec<Coordinate>)
        ensures
            r@.len() == self@.len(),
            forall|i: int| 0 <= i < self@.len() ==> #[trigger] r@[i] == self@[i].0,
    {
        let mut offsets: Vec<Coordinate> = Vec::new();
        let mut i: usize = 0;
        while i < self.checks.len()
            invariant
                i <= self@.len(),
                self@ == self.checks@,
                offsets@.len() == i,
                forall|j: int| 0 <= j < i ==> #[trigger] offsets@[j] == self@[j].0,
            decreases self@.len() - i,
        {
            offsets.push(self.checks[i].0);
            i = i + 1;
        }
        offsets
    }

    pub fn is_privilege_spins_at(&self, index: u8) -> (r: bool)
        requires
            index < self@.len(),
        ensures
            r == self@[index as int].1,
    {
        self.checks[index as usize].1
    }
}

} // verus!
