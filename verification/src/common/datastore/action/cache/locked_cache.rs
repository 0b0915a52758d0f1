use vstd::prelude::*;
use crate::sfinder_core::srs::rotate::Rotate;

verus! {

/// Number of `false` entries of `s`.
pub open spec fn count_false(s: Seq<bool>) -> nat
    decreases s.len(),
{
    if s.len() == 0 {
        0
    } else {
        count_false(s.drop_last()) + if s.last() {
            0nat
        } else {
            1nat
        }
    }
}

/// Setting an entry to `true` lowers the number of `false` entries by one where it was
/// `false`, and leaves it unchanged otherwise.
pub proof fn lemma_count_false_set(s: Seq<bool>, i: int)
    requires
        0 <= i < s.len(),
    ensures
        count_false(s.update(i, true)) == count_false(s) - if s[i] {
            0int
        } else {
            1int
        },
    decreases s.len(),
{
    let t = s.update(i, true);
    if i == s.len() - 1 {
        assert(t.drop_last() =~= s.drop_last());
    } else {
        assert(t.drop_last() =~= s.drop_last().update(i, true));
        lemma_count_false_set(s.drop_last(), i);
    }
}

/// Index of placement `(x, y, rotate)` in a table of `height` rows.
pub open spec fn cache_index(height: int, x: int, y: int, rotate: Rotate) -> int {
    (rotate.index() * height + y) * 10 + x
}

/// Builds a table of `len` entries, all `false`.
fn falses(len: usize) -> (r: Vec<bool>)
    ensures
        r.len() == len,
        forall|i: int| 0 <= i < len ==> !(#[trigger] r@[i]),
{
    let mut r: Vec<bool> = Vec::new();
    while r.len() < len
        invariant
            r.len() <= len,
            forall|i: int| 0 <= i < r.len() ==> !(#[trigger] r@[i]),
        decreases len - r.len(),
    {
        r.push(false);
    }
    r
}

/// Clears every entry of a table.
fn clear_table(t: &mut Vec<bool>)
    ensures
        final(t).len() == old(t).len(),
        forall|i: int| 0 <= i < final(t).len() ==> !(#[trigger] final(t)@[i]),
{
    let mut i: usize = 0;
    while i < t.len()
        invariant
            i <= t.len(),
            t.len() == old(t).len(),
            forall|j: int| 0 <= j < i ==> !(#[trigger] t@[j]),
        decreases t.len() - i,
    {
        t.set(i, false);
        i = i + 1;
    }
}

/// Which placements of a piece a search has visited, and at which it found a way in, for the
/// rows below a height.
pub struct LockedCache {
    height: u8,
    visited: Vec<bool>,
    found: Vec<bool>,
}

impl LockedCache {
    pub closed spec fn wf(&self) -> bool {
        &&& self.visited.len() == 40 * self.height
        &&& self.found.len() == 40 * self.height
    }

    /// Number of rows the cache covers.
    pub closed spec fn height(&self) -> int {
        self.height as int
    }

    /// Whether placement `(x, y, r)` is marked visited.
    pub closed spec fn visited_at(&self, x: int, y: int, r: Rotate) -> bool {
        0 <= x < 10 && 0 <= y < self.height && self.visited@[cache_index(self.height as int, x, y, r)]
    }

    /// Whether placement `(x, y, r)` is marked found.
    pub closed spec fn found_at(&self, x: int, y: int, r: Rotate) -> bool {
        0 <= x < 10 && 0 <= y < self.height && self.found@[cache_index(self.height as int, x, y, r)]
    }

    /// Number of placements not yet visited.
    pub closed spec fn unvisited(&self) -> nat {
        count_false(self.visited@)
    }

    proof fn lemma_index(height: int, x: int, y: int, r: Rotate)
        requires
            0 <= x < 10,
            0 <= y < height,
        ensures
            0 <= cache_index(height, x, y, r) < 40 * height,
            forall|x2: int, y2: int, r2: Rotate| 0 <= x2 < 10 && 0 <= y2 < height && cache_index(height, x2, y2, r2)
                == #[trigger] cache_index(height, x, y, r) ==> x2 == x && y2 == y && r2 == r,
    {
        assert forall|x2: int, y2: int, r2: Rotate| 0 <= x2 < 10 && 0 <= y2 < height && cache_index(height, x2, y2, r2)
            == #[trigger] cache_index(height, x, y, r) implies x2 == x && y2 == y && r2 == r by {
            assert((r2.index() * height + y2) * 10 + x2 == (r.index() * height + y) * 10 + x);
            assert(r2.index() * height + y2 == r.index() * height + y) by (nonlinear_arith)
                requires
                    (r2.index() * height + y2) * 10 + x2 == (r.index() * height + y) * 10 + x,
                    0 <= x < 10,
                    0 <= x2 < 10,
            ;
            assert(r2.index() == r.index()) by (nonlinear_arith)
                requires
                    r2.index() * height + y2 == r.index() * height + y,
                    0 <= y < height,
                    0 <= y2 < height,
            ;
            assert(Rotate::from_index(r.index()) == r);
            assert(Rotate::from_index(r2.index()) == r2);
        }
        assert(0 <= cache_index(height, x, y, r) < 40 * height) by (nonlinear_arith)
            requires
                0 <= x < 10,
                0 <= y < height,
                0 <= r.index() < 4,
        ;
    }

    /// An empty cache for the rows below `max_y`.
    pub fn new(max_y: u8) -> (r: Self)
        ensures
            r.wf(),
            r.height() == max_y,
            forall|x: int, y: int, q: Rotate| !(#[trigger] r.visited_at(x, y, q)),
            forall|x: int, y: int, q: Rotate| !(#[trigger] r.found_at(x, y, q)),
    {
        let n: usize = 40 * max_y as usize;
        LockedCache { height: max_y, visited: falses(n), found: falses(n) }
    }

    /// Forgets every visit and every find.
    pub fn clear(&mut self)
        requires
            old(self).wf(),
        ensures
            final(self).wf(),
            final(self).height() == old(self).height(),
            forall|x: int, y: int, q: Rotate| !(#[trigger] final(self).visited_at(x, y, q)),
            forall|x: int, y: int, q: Rotate| !(#[trigger] final(self).found_at(x, y, q)),
    {
        clear_table(&mut self.visited);
        clear_table(&mut self.found);
    }

    /// Forgets every visit, keeping the finds.
    pub fn reset_trail(&mut self)
        requires
            old(self).wf(),
        ensures
            final(self).wf(),
            final(self).height() == old(self).height(),
            forall|x: int, y: int, q: Rotate| !(#[trigger] final(self).visited_at(x, y, q)),
            forall|x: int, y: int, q: Rotate| #[trigger] final(self).found_at(x, y, q) == old(self).found_at(x, y, q),
    {
        clear_table(&mut self.visited);
    }

    pub fn is_visited(&self, x: u8, y: u8, rotate: Rotate) -> (r: bool)
        requires
            self.wf(),
            x < 10,
            y < self.height(),
        ensures
            r == self.visited_at(x as int, y as int, rotate),
    {
        proof {
            Self::lemma_index(self.height as int, x as int, y as int, rotate);
        }
        self.visited[Self::index(self.height, x, y, rotate)]
    }

    /// Marks placement `(x, y, rotate)` visited.
    pub fn visit(&mut self, x: u8, y: u8, rotate: Rotate)
        requires
            old(self).wf(),
            x < 10,
            y < old(self).height(),
        ensures
            final(self).wf(),
            final(self).height() == old(self).height(),
            forall|x2: int, y2: int, q: Rotate| #[trigger] final(self).visited_at(x2, y2, q) == (old(self).visited_at(
                x2,
                y2,
                q,
            ) || (x2 == x && y2 == y && q == rotate)),
            forall|x2: int, y2: int, q: Rotate| #[trigger] final(self).found_at(x2, y2, q) == old(self).found_at(x2, y2, q),
            final(self).unvisited() == old(self).unvisited() - if old(self).visited_at(x as int, y as int, rotate) {
                0int
            } else {
                1int
            },
    {
        proof {
            Self::lemma_index(self.height as int, x as int, y as int, rotate);
            lemma_count_false_set(self.visited@, cache_index(self.height as int, x as int, y as int, rotate));
        }
        let i = Self::index(self.height, x, y, rotate);
        self.visited.set(i, true);
        proof {
            assert forall|x2: int, y2: int, q: Rotate| #[trigger] self.visited_at(x2, y2, q) == (old(self).visited_at(
                x2,
                y2,
                q,
            ) || (x2 == x && y2 == y && q == rotate)) by {
                if 0 <= x2 < 10 && 0 <= y2 < self.height {
                    Self::lemma_index(self.height as int, x2, y2, q);
                }
            }
        }
    }

    pub fn is_found(&self, x: u8, y: u8, rotate: Rotate) -> (r: bool)
        requires
            self.wf(),
            x < 10,
            y < self.height(),
        ensures
            r == self.found_at(x as int, y as int, rotate),
    {
        proof {
            Self::lemma_index(self.height as int, x as int, y as int, rotate);
        }
        self.found[Self::index(self.height, x, y, rotate)]
    }

    /// Marks placement `(x, y, rotate)` found.
    pub fn found(&mut self, x: u8, y: u8, rotate: Rotate)
        requires
            old(self).wf(),
            x < 10,
            y < old(self).height(),
        ensures
            final(self).wf(),
            final(self).height() == old(self).height(),
            forall|x2: int, y2: int, q: Rotate| #[trigger] final(self).found_at(x2, y2, q) == (old(self).found_at(
                x2,
                y2,
                q,
            ) || (x2 == x && y2 == y && q == rotate)),
            forall|x2: int, y2: int, q: Rotate| #[trigger] final(self).visited_at(x2, y2, q) == old(self).visited_at(
                x2,
                y2,
                q,
            ),
            final(self).unvisited() == old(self).unvisited(),
    {
        proof {
            Self::lemma_index(self.height as int, x as int, y as int, rotate);
        }
        let i = Self::index(self.height, x, y, rotate);
        self.found.set(i, true);
        proof {
            assert forall|x2: int, y2: int, q: Rotate| #[trigger] self.found_at(x2, y2, q) == (old(self).found_at(
                x2,
                y2,
                q,
            ) || (x2 == x && y2 == y && q == rotate)) by {
                if 0 <= x2 < 10 && 0 <= y2 < self.height {
                    Self::lemma_index(self.height as int, x2, y2, q);
                }
            }
        }
    }

    fn index(height: u8, x: u8, y: u8, rotate: Rotate) -> (r: usize)
        requires
            x < 10,
            y < height,
        ensures
            r == cache_index(height as int, x as int, y as int, rotate),
    {
        proof {
            Self::lemma_index(height as int, x as int, y as int, rotate);
        }
        (rotate.number() as usize * height as usize + y as usize) * 10 + x as usize
    }
}

} // verus!
