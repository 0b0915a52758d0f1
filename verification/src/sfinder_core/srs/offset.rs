use vstd::prelude::*;
use super::pattern::Pattern;
use crate::common::datastore::coordinate::Coordinate;

verus! {

/// The offsets of one orientation, one per rotation test.
pub struct Offset {
    offsets: Vec<Coordinate>,
}

impl View for Offset {
    type V = Seq<Coordinate>;

    closed spec fn view(&self) -> Seq<Coordinate> {
        self.offsets@
    }
}

/// The move of a test between two orientations: the offset of the first minus that of the
/// second.
pub open spec fn offset_difference(a: Coordinate, b: Coordinate) -> Coordinate {
    Coordinate { x: (a.x - b.x) as i8, y: (a.y - b.y) as i8 }
}

/// Two offset lists whose differences fit in a coordinate, test by test.
pub open spec fn differences_fit(a: Seq<Coordinate>, b: Seq<Coordinate>) -> bool {
    forall|i: int| 0 <= i < a.len() && i < b.len() ==> -128 <= #[trigger] a[i].x - b[i].x <= 127 && -128
        <= a[i].y - b[i].y <= 127
}

/// The number of tests paired between two offset lists.
pub open spec fn paired_len(a: Seq<Coordinate>, b: Seq<Coordinate>) -> int {
    if a.len() < b.len() {
        a.len() as int
    } else {
        b.len() as int
    }
}

impl Offset {
    pub fn new(offsets: Vec<Coordinate>) -> (r: Self)
        ensures
            r@ == offsets@,
    {
        Offset { offsets }
    }

    /// The tests of a rotation from this orientation to `other`, none raising a spin.
    pub fn to_pattern(&self, other: &Self) -> (r: Pattern)
        requires
            differences_fit(self@, other@),
        ensures
            r@.len() == paired_len(self@, other@),
            forall|i: int| 0 <= i < paired_len(self@, other@) ==> #[trigger] r@[i] == (offset_difference(self@[i], other@[i]), false),
    {
        Pattern::with_no_privilege_spins(self.create_pattern_array(other))
    }

    /// The tests of a rotation from this orientation to `other`; the test at
    /// `privilege_spin_index` raises a spin.
    pub fn to_pattern_with_privilege_spin(&self, other: &Self, privilege_spin_index: u8) -> (r: Pattern)
        requires
            differences_fit(self@, other@),
        ensures
            r@.len() == paired_len(self@, other@),
            forall|i: int| 0 <= i < paired_len(self@, other@) ==> #[trigger] r@[i] == (offset_difference(self@[i], other@[i]), i
                == privilege_spin_index),
    {
        let offsets = self.create_pattern_array(other);
        let len = offsets.len();
        let mut checks: Vec<(Coordinate, bool)> = Vec::new();
        let mut i: usize = 0;
        while i < len
            invariant
                i <= len,
                len == offsets@.len(),
                checks@.len() == i,
                forall|j: int| 0 <= j < i ==> #[trigger] checks@[j] == (offsets@[j], j == privilege_spin_index),
            decreases len - i,
        {
            checks.push((offsets[i], i == privilege_spin_index as usize));
            i = i + 1;
        }
        Pattern::new(checks)
    }

    fn create_pattern_array(&self, other: &Self) -> (r: Vec<Coordinate>)
        requires
            differences_fit(self@, other@),
        ensures
            r@.len() == paired_len(self@, other@),
            forall|i: int| 0 <= i < paired_len(self@, other@) ==> #[trigger] r@[i] == offset_difference(self@[i], other@[i]),
    {
        let mut result: Vec<Coordinate> = Vec::new();
        let mut i: usize = 0;
        while i < self.offsets.len() && i < other.offsets.len()
            invariant
                i <= self@.len(),
                i <= other@.len(),
                self@ == self.offsets@,
                other@ == other.offsets@,
                differences_fit(self@, other@),
                result@.len() == i,
                forall|j: int| 0 <= j < i ==> #[trigger] result@[j] == offset_difference(self@[j], other@[j]),
            decreases self@.len() - i,
        {
            let a = self.offsets[i];
            let b = other.offsets[i];
            result.push(Coordinate::new(a.x - b.x, a.y - b.y));
            i = i + 1;
        }
        result
    }
}

} // verus!
