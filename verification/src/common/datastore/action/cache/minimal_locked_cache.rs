use vstd::prelude::*;
use super::locked_cache::LockedCache;
use crate::sfinder_core::srs::rotate::Rotate;

verus! {

/// Which placements of a piece a search has visited, for the rows below a height.
pub struct MinimalLockedCache {
    cache: LockedCache,
}

impl MinimalLockedCache {
    pub closed spec fn wf(&self) -> bool {
        self.cache.wf()
    }

    /// Number of rows the cache covers.
    pub closed spec fn height(&self) -> int {
        self.cache.height()
    }

    /// Whether placement `(x, y, r)` is marked visited.
    pub closed spec fn visited_at(&self, x: int, y: int, r: Rotate) -> bool {
        self.cache.visited_at(x, y, r)
    }

    /// Number of placements not yet visited.
    pub closed spec fn unvisited(&self) -> nat {
        self.cache.unvisited()
    }

    /// An empty cache for the rows below `max_y`.
    pub fn new(max_y: u8) -> (r: Self)
        ensures
            r.wf(),
            r.height() == max_y,
            forall|x: int, y: int, q: Rotate| !(#[trigger] r.visited_at(x, y, q)),
    {
        MinimalLockedCache { cache: LockedCache::new(max_y) }
    }

    /// Forgets every visit.
    pub fn clear(&mut self)
        requires
            old(self).wf(),
        ensures
            final(self).wf(),
            final(self).height() == old(self).height(),
            forall|x: int, y: int, q: Rotate| !(#[trigger] final(self).visited_at(x, y, q)),
    {
        self.cache.clear();
    }

    pub fn is_visited(&self, x: u8, y: u8, rotate: Rotate) -> (r: bool)
        requires
            self.wf(),
            x < 10,
            y < self.height(),
        ensures
            r == self.visited_at(x as int, y as int, rotate),
    {
        self.cache.is_visited(x, y, rotate)
    }

    /// Marks placement `(x, y, rotate)` visited.
    pub fn visit(&mut self, x: u8, y: u8, rotate: Rotate)
        requires
            old(self).wf(),
            x < 10,
            y < old(self).height(),
        ensures
            final(self).wf(),
            final(self).height() == old(self).height(),
            forall|x2: int, y2: int, q: Rotate| #[trigger] final(self).visited_at(x2, y2, q) == (old(self).visited_at(
                x2,
                y2,
                q,
            ) || (x2 == x && y2 == y && q == rotate)),
            final(self).unvisited() == old(self).unvisited() - if old(self).visited_at(x as int, y as int, rotate) {
                0int
            } else {
                1int
            },
    {
        self.cache.visit(x, y, rotate)
    }
}

} // verus!
