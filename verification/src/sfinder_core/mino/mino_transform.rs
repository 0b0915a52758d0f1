use vstd::prelude::*;
use crate::common::datastore::action::minimal_action::MinimalAction;
use crate::common::datastore::coordinate::Coordinate;
use crate::sfinder_core::srs::rotate::Rotate;

verus! {

/// The value of a byte read as a two's complement signed byte.
pub open spec fn signed_byte(x: u8) -> int {
    if x < 128 {
        x as int
    } else {
        x as int - 256
    }
}

/// Every orientation is sent to one that is sent to itself.
pub open spec fn canonicalizing(rotates: Seq<Rotate>) -> bool {
    forall|r: Rotate| #[trigger] rotates[rotates[r.index()].index()] == rotates[r.index()]
}

/// The offset given to orientation `r` by a list of entries: that of the last entry for `r`, or
/// no offset if there is none.
pub open spec fn entry_offset(entries: Seq<(Rotate, i8, i8, Rotate)>, r: Rotate) -> Coordinate
    decreases entries.len(),
{
    if entries.len() == 0 {
        Coordinate { x: 0, y: 0 }
    } else if entries.last().0 == r {
        Coordinate { x: entries.last().1, y: entries.last().2 }
    } else {
        entry_offset(entries.drop_last(), r)
    }
}

/// The orientation that a list of entries sends `r` to: that of the last entry for `r`, or `r`
/// itself if there is none.
pub open spec fn entry_target(entries: Seq<(Rotate, i8, i8, Rotate)>, r: Rotate) -> Rotate
    decreases entries.len(),
{
    if entries.len() == 0 {
        r
    } else if entries.last().0 == r {
        entries.last().3
    } else {
        entry_target(entries.drop_last(), r)
    }
}

/// Orientations whose number is below `k`, and those sent to themselves.
spec fn visible(rotates: Seq<Rotate>, k: int, b: Rotate) -> bool {
    b.index() < k || rotates[b.index()] == b
}

/// Each list of `rm` names exactly the visible orientations other than its own that are sent
/// where its own is sent, each once.
spec fn reverse_map_upto(rm: Seq<Vec<Rotate>>, rotates: Seq<Rotate>, k: int) -> bool {
    forall|a: Rotate| {
        &&& (#[trigger] rm[a.index()])@.no_duplicates()
        &&& forall|b: Rotate| #[trigger] rm[a.index()]@.contains(b) <==> (b != a && rotates[b.index()]
            == rotates[a.index()] && visible(rotates, k, a) && visible(rotates, k, b))
    }
}

/// One step of building the lists of others: orientation `r` (number `k`), sent to `n`, is
/// linked with `n` and with each orientation `xs` already linked with `n`.
proof fn lemma_reverse_step(
    before: Seq<Vec<Rotate>>,
    after: Seq<Vec<Rotate>>,
    rotates: Seq<Rotate>,
    k: int,
    xs: Seq<Rotate>,
)
    requires
        rotates.len() == 4,
        before.len() == 4,
        after.len() == 4,
        canonicalizing(rotates),
        0 <= k < 4,
        reverse_map_upto(before, rotates, k),
        Rotate::from_index(k) != rotates[k],
        xs == before[rotates[k].index()]@,
        forall|a: Rotate| a != Rotate::from_index(k) && a != rotates[k] && !xs.contains(a)
            ==> #[trigger] after[a.index()]@ == before[a.index()]@,
        forall|a: Rotate| xs.contains(a) ==> #[trigger] after[a.index()]@ == before[a.index()]@.push(
            Rotate::from_index(k),
        ),
        after[rotates[k].index()]@ == before[rotates[k].index()]@.push(Rotate::from_index(k)),
        after[k]@ == xs.push(rotates[k]),
    ensures
        reverse_map_upto(after, rotates, k + 1),
{
    let r = Rotate::from_index(k);
    let n = rotates[k];
    assert(r.index() == k);
    assert(rotates[n.index()] == n) by {
        assert(rotates[rotates[r.index()].index()] == rotates[r.index()]);
    }
    assert(before[r.index()]@.len() == 0) by {
        if before[r.index()]@.len() > 0 {
            assert(before[r.index()]@.contains(before[r.index()]@[0]));
        }
    }
    assert forall|a: Rotate| {
        &&& (#[trigger] after[a.index()])@.no_duplicates()
        &&& forall|b: Rotate| #[trigger] after[a.index()]@.contains(b) <==> (b != a
            && rotates[b.index()] == rotates[a.index()] && visible(rotates, k + 1, a) && visible(
            rotates,
            k + 1,
            b,
        ))
    } by {
        assert(before[a.index()]@.no_duplicates());
        if a == r {
            assert(!xs.contains(n));
            assert forall|b: Rotate| #[trigger] after[a.index()]@.contains(b) <==> (b != a
                && rotates[b.index()] == rotates[a.index()] && visible(rotates, k + 1, a) && visible(
                rotates,
                k + 1,
                b,
            )) by {
                if after[a.index()]@.contains(b) && b != n {
                    let i = choose|i: int| 0 <= i < after[a.index()]@.len() && after[a.index()]@[i] == b;
                    assert(xs[i] == b);
                    assert(xs.contains(b));
                }
                if b != a && rotates[b.index()] == rotates[a.index()] && visible(rotates, k + 1, b) && b != n {
                    assert(before[n.index()]@.contains(b));
                    let i = choose|i: int| 0 <= i < xs.len() && xs[i] == b;
                    assert(after[a.index()]@[i] == b);
                }
                if b == n {
                    assert(after[a.index()]@[xs.len() as int] == n);
                }
            }
        } else if a == n || xs.contains(a) {
            assert(!before[a.index()]@.contains(r));
            assert forall|b: Rotate| #[trigger] after[a.index()]@.contains(b) <==> (b != a
                && rotates[b.index()] == rotates[a.index()] && visible(rotates, k + 1, a) && visible(
                rotates,
                k + 1,
                b,
            )) by {
                assert(Rotate::from_index(b.index()) == b);
                assert(Rotate::from_index(a.index()) == a);
                assert(visible(rotates, k, a));
                if after[a.index()]@.contains(b) && b != r {
                    let i = choose|i: int| 0 <= i < after[a.index()]@.len() && after[a.index()]@[i] == b;
                    assert(before[a.index()]@[i] == b);
                    assert(before[a.index()]@.contains(b));
                }
                if b != a && rotates[b.index()] == rotates[a.index()] && visible(rotates, k + 1, b) && b != r {
                    assert(before[a.index()]@.contains(b));
                    let i = choose|i: int| 0 <= i < before[a.index()]@.len() && before[a.index()]@[i] == b;
                    assert(after[a.index()]@[i] == b);
                    assert(after[a.index()]@.contains(b));
                }
                if b == r {
                    assert(after[a.index()]@[before[a.index()]@.len() as int] == r);
                }
            }
        } else {
            assert forall|b: Rotate| #[trigger] after[a.index()]@.contains(b) <==> (b != a
                && rotates[b.index()] == rotates[a.index()] && visible(rotates, k + 1, a) && visible(
                rotates,
                k + 1,
                b,
            )) by {
                assert(a.index() != k) by {
                    assert(Rotate::from_index(a.index()) == a);
                }
                assert(Rotate::from_index(b.index()) == b);
                if b == r && rotates[b.index()] == rotates[a.index()] && visible(rotates, k + 1, a) {
                    assert(visible(rotates, k, a));
                    assert(before[n.index()]@.contains(a));
                }
            }
        }
    }
}

/// How the orientations of a piece map onto the orientations taken as canonical for the same
/// cells, with the offset that moves the rotation center.
pub struct MinoTransform {
    offsets: Vec<Coordinate>,
    rotates: Vec<Rotate>,
    reverse_map: Vec<Vec<Rotate>>,
}

impl MinoTransform {
    /// The tables hold one entry per orientation, and where the transform is canonicalizing the
    /// lists of others are exact.
    pub closed spec fn wf(&self) -> bool {
        &&& self.offsets.len() == 4
        &&& self.rotates.len() == 4
        &&& self.reverse_map.len() == 4
        &&& canonicalizing(self.rotates@) ==> forall|a: Rotate| {
            &&& (#[trigger] self.reverse_map@[a.index()])@.no_duplicates()
            &&& forall|b: Rotate| #[trigger] self.reverse_map@[a.index()]@.contains(b) <==> (b != a
                && self.rotates@[b.index()] == self.rotates@[a.index()])
        }
    }

    /// The offset added to the position of orientation `r`.
    pub closed spec fn offset_of(&self, r: Rotate) -> Coordinate {
        self.offsets@[r.index()]
    }

    /// The orientation that `r` is sent to.
    pub closed spec fn target_of(&self, r: Rotate) -> Rotate {
        self.rotates@[r.index()]
    }

    /// The other orientations sent where `r` is sent, in the order they are listed.
    pub closed spec fn others_of(&self, r: Rotate) -> Seq<Rotate> {
        self.reverse_map@[r.index()]@
    }

    /// Whether every orientation is sent to one that is sent to itself.
    pub open spec fn is_canonicalizing(&self) -> bool {
        forall|r: Rotate| #[trigger] self.target_of(self.target_of(r)) == self.target_of(r)
    }

    /// Where the transform is canonicalizing, the others of `r` are exactly the orientations
    /// other than `r` sent where `r` is sent, each listed once.
    pub proof fn lemma_others(&self, r: Rotate)
        requires
            self.wf(),
            self.is_canonicalizing(),
        ensures
            self.others_of(r).no_duplicates(),
            forall|b: Rotate| #[trigger] self.others_of(r).contains(b) <==> (b != r && self.target_of(b)
                == self.target_of(r)),
    {
        assert forall|q: Rotate| #[trigger] self.rotates@[self.rotates@[q.index()].index()] == self.rotates@[q.index()] by {
            assert(self.target_of(self.target_of(q)) == self.target_of(q));
        }
        assert(self.reverse_map@[r.index()]@.no_duplicates());
    }

    /// The identity: every orientation is its own canonical orientation.
    pub fn new() -> (r: Self)
        ensures
            r.wf(),
            forall|q: Rotate| #[trigger] r.offset_of(q) == (Coordinate { x: 0, y: 0 }),
            forall|q: Rotate| #[trigger] r.target_of(q) == q,
            forall|q: Rotate| #[trigger] r.others_of(q).len() == 0,
    {
        let offsets = vec![Coordinate::new(0, 0), Coordinate::new(0, 0), Coordinate::new(0, 0), Coordinate::new(0, 0)];
        let rotates = Rotate::value_list();
        let reverse_map: Vec<Vec<Rotate>> = vec![Vec::new(), Vec::new(), Vec::new(), Vec::new()];
        proof {
            assert forall|q: Rotate| #[trigger] reverse_map@[q.index()]@ == Seq::<Rotate>::empty() by {
                assert(reverse_map@[q.index()]@ =~= Seq::<Rotate>::empty());
            }
        }
        MinoTransform { offsets, rotates, reverse_map }
    }

    /// A transform built from entries `(rotate, offset_x, offset_y, new_rotate)`: each sends
    /// `rotate` to `new_rotate`, moving the rotation center by the offset. Where two entries
    /// name one orientation, the later one counts; orientations that no entry names stay as
    /// they are.
    pub fn set_with(entries: &[(Rotate, i8, i8, Rotate)]) -> (r: Self)
        ensures
            r.wf(),
            forall|q: Rotate| #[trigger] r.offset_of(q) == entry_offset(entries@, q),
            forall|q: Rotate| #[trigger] r.target_of(q) == entry_target(entries@, q),
    {
        let mut offsets = vec![Coordinate::new(0, 0), Coordinate::new(0, 0), Coordinate::new(0, 0), Coordinate::new(0, 0)];
        let mut rotates = Rotate::value_list();
        proof {
            assert(entries@.take(0) =~= Seq::<(Rotate, i8, i8, Rotate)>::empty());
        }
        let mut i: usize = 0;
        while i < entries.len()
            invariant
                i <= entries@.len(),
                offsets.len() == 4,
                rotates.len() == 4,
                forall|q: Rotate| #[trigger] offsets@[q.index()] == entry_offset(entries@.take(i as int), q),
                forall|q: Rotate| #[trigger] rotates@[q.index()] == entry_target(entries@.take(i as int), q),
            decreases entries@.len() - i,
        {
            let (rotate, offset_x, offset_y, new_rotate) = entries[i];
            let index = rotate.number() as usize;
            offsets.set(index, Coordinate::new(offset_x, offset_y));
            rotates.set(index, new_rotate);
            proof {
                let t = entries@.take(i as int + 1);
                assert(t.drop_last() =~= entries@.take(i as int));
                assert(t.last() == entries@[i as int]);
                assert forall|q: Rotate| #[trigger] offsets@[q.index()] == entry_offset(t, q) by {
                    assert(Rotate::from_index(q.index()) == q);
                    assert(Rotate::from_index(rotate.index()) == rotate);
                }
                assert forall|q: Rotate| #[trigger] rotates@[q.index()] == entry_target(t, q) by {
                    assert(Rotate::from_index(q.index()) == q);
                    assert(Rotate::from_index(rotate.index()) == rotate);
                }
            }
            i = i + 1;
        }
        proof {
            assert(entries@.take(entries@.len() as int) =~= entries@);
        }
        let reverse_map = create_reverse_map(&rotates);
        MinoTransform { offsets, rotates, reverse_map }
    }

    /// The canonical placement of the shape in orientation `rotate` centered on `(x, y)`.
    pub fn transform(&self, x: u8, y: u8, rotate: Rotate) -> (r: MinimalAction)
        requires
            self.wf(),
            0 <= signed_byte(x) + self.offset_of(rotate).x <= 127,
            0 <= signed_byte(y) + self.offset_of(rotate).y <= 127,
        ensures
            r.x == signed_byte(x) + self.offset_of(rotate).x,
            r.y == signed_byte(y) + self.offset_of(rotate).y,
            r.rotate == self.target_of(rotate),
    {
        let index = rotate.number() as usize;
        let offset = self.offsets[index];
        let new_x = to_signed(x) as i16 + offset.x as i16;
        let new_y = to_signed(y) as i16 + offset.y as i16;
        MinimalAction::new(new_x as u8, new_y as u8, self.rotates[index])
    }

    /// The placements other than the given one that cover the same cells: for each other
    /// orientation sent where `rotate` is sent, the placement with the same canonical one.
    pub fn enumerate_others(&self, x: u8, y: u8, rotate: Rotate) -> (r: Vec<MinimalAction>)
        requires
            self.wf(),
            -128 <= signed_byte(x) + self.offset_of(rotate).x <= 127,
            -128 <= signed_byte(y) + self.offset_of(rotate).y <= 127,
            forall|i: int| 0 <= i < self.others_of(rotate).len() ==> 0 <= signed_byte(x) + self.offset_of(rotate).x
                - self.offset_of(#[trigger] self.others_of(rotate)[i]).x <= 127,
            forall|i: int| 0 <= i < self.others_of(rotate).len() ==> 0 <= signed_byte(y) + self.offset_of(rotate).y
                - self.offset_of(#[trigger] self.others_of(rotate)[i]).y <= 127,
        ensures
            r.len() == self.others_of(rotate).len(),
            forall|i: int| 0 <= i < r.len() ==> (#[trigger] r@[i]).rotate == self.others_of(rotate)[i],
            forall|i: int| 0 <= i < r.len() ==> (#[trigger] r@[i]).x == signed_byte(x) + self.offset_of(rotate).x
                - self.offset_of(self.others_of(rotate)[i]).x,
            forall|i: int| 0 <= i < r.len() ==> (#[trigger] r@[i]).y == signed_byte(y) + self.offset_of(rotate).y
                - self.offset_of(self.others_of(rotate)[i]).y,
            forall|i: int| 0 <= i < r.len() ==> signed_byte((#[trigger] r@[i]).x) + self.offset_of(r@[i].rotate).x
                == signed_byte(x) + self.offset_of(rotate).x && signed_byte(r@[i].y) + self.offset_of(r@[i].rotate).y
                == signed_byte(y) + self.offset_of(rotate).y,
            self.is_canonicalizing() ==> forall|i: int, j: int| 0 <= i < r.len() && 0 <= j < r.len() && i != j
                ==> (#[trigger] r@[i]).rotate != (#[trigger] r@[j]).rotate,
            self.is_canonicalizing() ==> forall|q: Rotate| (q != rotate && #[trigger] self.target_of(q) == self.target_of(
                rotate,
            )) <==> exists|i: int| 0 <= i < r.len() && (#[trigger] r@[i]).rotate == q,
    {
        let index = rotate.number() as usize;
        let new_x: i8 = (to_signed(x) as i16 + self.offsets[index].x as i16) as i8;
        let new_y: i8 = (to_signed(y) as i16 + self.offsets[index].y as i16) as i8;
        let prevs = &self.reverse_map[index];
        let mut r: Vec<MinimalAction> = Vec::new();
        let mut i: usize = 0;
        while i < prevs.len()
            invariant
                i <= prevs@.len(),
                self.wf(),
                prevs@ == self.others_of(rotate),
                new_x == signed_byte(x) + self.offset_of(rotate).x,
                new_y == signed_byte(y) + self.offset_of(rotate).y,
                forall|j: int| 0 <= j < prevs@.len() ==> 0 <= new_x - self.offset_of(#[trigger] prevs@[j]).x <= 127,
                forall|j: int| 0 <= j < prevs@.len() ==> 0 <= new_y - self.offset_of(#[trigger] prevs@[j]).y <= 127,
                r.len() == i,
                forall|j: int| 0 <= j < i ==> (#[trigger] r@[j]).rotate == prevs@[j],
                forall|j: int| 0 <= j < i ==> (#[trigger] r@[j]).x == new_x - self.offset_of(prevs@[j]).x,
                forall|j: int| 0 <= j < i ==> (#[trigger] r@[j]).y == new_y - self.offset_of(prevs@[j]).y,
            decreases prevs@.len() - i,
        {
            let prev_rotate = prevs[i];
            let prev_index = prev_rotate.number() as usize;
            let offset = self.offsets[prev_index];
            proof {
                assert(self.offset_of(prevs@[i as int]).x == offset.x);
            }
            let px = new_x as i16 - offset.x as i16;
            let py = new_y as i16 - offset.y as i16;
            r.push(MinimalAction::new(px as u8, py as u8, prev_rotate));
            i = i + 1;
        }
        proof {
            if self.is_canonicalizing() {
                self.lemma_others(rotate);
                let others = self.others_of(rotate);
                assert forall|q: Rotate| (q != rotate && #[trigger] self.target_of(q) == self.target_of(rotate)) <==> exists|
                    i: int,
                | 0 <= i < r.len() && (#[trigger] r@[i]).rotate == q by {
                    if q != rotate && self.target_of(q) == self.target_of(rotate) {
                        assert(others.contains(q));
                        let i = choose|i: int| 0 <= i < others.len() && others[i] == q;
                        assert(r@[i].rotate == q);
                    }
                    if exists|i: int| 0 <= i < r.len() && (#[trigger] r@[i]).rotate == q {
                        let i = choose|i: int| 0 <= i < r.len() && (#[trigger] r@[i]).rotate == q;
                        assert(others.contains(others[i]));
                    }
                }
            }
        }
        r
    }

    /// The given placement followed by the others that cover the same cells.
    pub fn congruent_actions(&self, x: u8, y: u8, rotate: Rotate) -> (r: Vec<MinimalAction>)
        requires
            self.wf(),
            -128 <= signed_byte(x) + self.offset_of(rotate).x <= 127,
            -128 <= signed_byte(y) + self.offset_of(rotate).y <= 127,
            forall|i: int| 0 <= i < self.others_of(rotate).len() ==> 0 <= signed_byte(x) + self.offset_of(rotate).x
                - self.offset_of(#[trigger] self.others_of(rotate)[i]).x <= 127,
            forall|i: int| 0 <= i < self.others_of(rotate).len() ==> 0 <= signed_byte(y) + self.offset_of(rotate).y
                - self.offset_of(#[trigger] self.others_of(rotate)[i]).y <= 127,
        ensures
            r.len() == self.others_of(rotate).len() + 1,
            r@[0] == (MinimalAction { x, y, rotate }),
            forall|i: int| 1 <= i < r.len() ==> (#[trigger] r@[i]).rotate == self.others_of(rotate)[i - 1],
            forall|i: int| 1 <= i < r.len() ==> (#[trigger] r@[i]).x == signed_byte(x) + self.offset_of(rotate).x
                - self.offset_of(self.others_of(rotate)[i - 1]).x,
            forall|i: int| 1 <= i < r.len() ==> (#[trigger] r@[i]).y == signed_byte(y) + self.offset_of(rotate).y
                - self.offset_of(self.others_of(rotate)[i - 1]).y,
    {
        let mut others = self.enumerate_others(x, y, rotate);
        let mut r = vec![MinimalAction::new(x, y, rotate)];
        r.append(&mut others);
        r
    }

    /// The orientation that `rotate` is sent to.
    pub fn transform_rotate(&self, rotate: Rotate) -> (r: Rotate)
        requires
            self.wf(),
        ensures
            r == self.target_of(rotate),
    {
        self.rotates[rotate.number() as usize]
    }

    /// The orientations that some orientation is sent to, each once, in quarter-turn order.
    pub fn get_unique_rotates(&self) -> (r: Vec<Rotate>)
        requires
            self.wf(),
        ensures
            forall|i: int, j: int| 0 <= i < j < r.len() ==> (#[trigger] r@[i]).index() < (#[trigger] r@[j]).index(),
            forall|q: Rotate| #[trigger] r@.contains(q) <==> exists|s: Rotate| #[trigger] self.target_of(s) == q,
    {
        let values = Rotate::value_list();
        let mut r: Vec<Rotate> = Vec::new();
        let mut k: usize = 0;
        while k < 4
            invariant
                k <= 4,
                self.wf(),
                values.len() == 4,
                forall|i: int| 0 <= i < 4 ==> (#[trigger] values@[i]).index() == i,
                forall|i: int, j: int| 0 <= i < j < r.len() ==> (#[trigger] r@[i]).index() < (#[trigger] r@[j]).index(),
                forall|i: int| 0 <= i < r.len() ==> (#[trigger] r@[i]).index() < k,
                forall|q: Rotate| #[trigger] r@.contains(q) <==> (q.index() < k && self.rotates@.contains(q)),
            decreases 4 - k,
        {
            let q = values[k];
            let ghost old_r = r@;
            let found = contains_rotate(&self.rotates, q);
            if found {
                r.push(q);
            }
            proof {
                assert forall|p: Rotate| #[trigger] r@.contains(p) <==> (p.index() < k + 1 && self.rotates@.contains(p)) by {
                    assert(Rotate::from_index(p.index()) == p);
                    assert(Rotate::from_index(q.index()) == q);
                    if found {
                        assert(r@ == old_r.push(q));
                        if r@.contains(p) && p != q {
                            let i = choose|i: int| 0 <= i < r.len() && r@[i] == p;
                            assert(old_r[i] == p);
                            assert(old_r.contains(p));
                        }
                        if old_r.contains(p) {
                            let i = choose|i: int| 0 <= i < old_r.len() && old_r[i] == p;
                            assert(r@[i] == p);
                        }
                        if p == q {
                            assert(r@[r.len() - 1] == p);
                        }
                    }
                }
            }
            k = k + 1;
        }
        proof {
            assert forall|q: Rotate| #[trigger] r@.contains(q) <==> exists|s: Rotate| #[trigger] self.target_of(s) == q by {
                if self.rotates@.contains(q) {
                    let i = choose|i: int| 0 <= i < 4 && self.rotates@[i] == q;
                    assert(self.target_of(Rotate::from_index(i)) == q);
                }
                if exists|s: Rotate| #[trigger] self.target_of(s) == q {
                    let s = choose|s: Rotate| #[trigger] self.target_of(s) == q;
                    assert(self.rotates@[s.index()] == q);
                }
            }
        }
        r
    }
}


fn copy_rotates(v: &Vec<Rotate>) -> (r: Vec<Rotate>)
    ensures
        r@ == v@,
{
    let mut r: Vec<Rotate> = Vec::new();
    let mut i: usize = 0;
    while i < v.len()
        invariant
            i <= v.len(),
            r@ == v@.take(i as int),
        decreases v.len() - i,
    {
        r.push(v[i]);
        proof {
            assert(v@.take(i as int + 1) =~= v@.take(i as int).push(v@[i as int]));
        }
        i = i + 1;
    }
    proof {
        assert(v@.take(v.len() as int) =~= v@);
    }
    r
}

/// Links each orientation with the others sent to the same orientation.
fn create_reverse_map(rotates: &Vec<Rotate>) -> (rm: Vec<Vec<Rotate>>)
    requires
        rotates.len() == 4,
    ensures
        rm.len() == 4,
        canonicalizing(rotates@) ==> reverse_map_upto(rm@, rotates@, 4),
{
    let mut rm: Vec<Vec<Rotate>> = vec![Vec::new(), Vec::new(), Vec::new(), Vec::new()];
    let values = Rotate::value_list();
    proof {
        if canonicalizing(rotates@) {
            assert forall|a: Rotate| {
                &&& (#[trigger] rm@[a.index()])@.no_duplicates()
                &&& forall|b: Rotate| #[trigger] rm@[a.index()]@.contains(b) <==> (b != a
                    && rotates@[b.index()] == rotates@[a.index()] && visible(rotates@, 0, a) && visible(
                    rotates@,
                    0,
                    b,
                ))
            } by {
                assert(rm@[a.index()]@ =~= Seq::<Rotate>::empty());
                assert forall|b: Rotate| #[trigger] rm@[a.index()]@.contains(b) <==> (b != a
                    && rotates@[b.index()] == rotates@[a.index()] && visible(rotates@, 0, a) && visible(
                    rotates@,
                    0,
                    b,
                )) by {
                    if b != a && rotates@[b.index()] == rotates@[a.index()] && visible(rotates@, 0, a) {
                        assert(rotates@[rotates@[b.index()].index()] == rotates@[b.index()]);
                    }
                }
            }
        }
    }
    let mut k: usize = 0;
    while k < 4
        invariant
            k <= 4,
            rm.len() == 4,
            rotates.len() == 4,
            forall|i: int| 0 <= i < 4 ==> (#[trigger] values@[i]).index() == i,
            values.len() == 4,
            canonicalizing(rotates@) ==> reverse_map_upto(rm@, rotates@, k as int),
        decreases 4 - k,
    {
        let rotate = values[k];
        let new_rotate = rotates[k];
        proof {
            assert(Rotate::from_index(rotate.index()) == rotate);
        }
        if rotate != new_rotate {
            let ni = new_rotate.number() as usize;
            let xs = copy_rotates(&rm[ni]);
            let ghost before = rm@;
            proof {
                if canonicalizing(rotates@) {
                    assert(rotates@[rotates@[rotate.index()].index()] == rotates@[rotate.index()]);
                    assert(before[rotate.index()]@.len() == 0) by {
                        if before[rotate.index()]@.len() > 0 {
                            assert(before[rotate.index()]@.contains(before[rotate.index()]@[0]));
                        }
                    }
                    assert(xs@.no_duplicates());
                    assert(!xs@.contains(rotate));
                    assert(!xs@.contains(new_rotate));
                }
            }
            let mut j: usize = 0;
            while j < xs.len()
                invariant
                    j <= xs.len(),
                    rm.len() == 4,
                    before.len() == 4,
                    rotate.index() == k,
                    k < 4,
                    rotates.len() == 4,
                    new_rotate == rotates@[k as int],
                    rotate != new_rotate,
                    canonicalizing(rotates@) ==> {
                        &&& xs@ == before[new_rotate.index()]@
                        &&& xs@.no_duplicates()
                        &&& !xs@.contains(rotate)
                        &&& !xs@.contains(new_rotate)
                        &&& before[rotate.index()]@.len() == 0
                        &&& forall|a: Rotate| a != rotate && !xs@.take(j as int).contains(a)
                            ==> #[trigger] rm@[a.index()]@ == before[a.index()]@
                        &&& forall|i: int| 0 <= i < j ==> #[trigger] rm@[xs@[i].index()]@
                            == before[xs@[i].index()]@.push(rotate)
                        &&& rm@[rotate.index()]@ == xs@.take(j as int)
                    },
                decreases xs.len() - j,
            {
                let x = xs[j];
                let xi = x.number() as usize;
                let ri = rotate.number() as usize;
                rm[xi].push(rotate);
                rm[ri].push(x);
                proof {
                    if canonicalizing(rotates@) {
                        assert(xs@.take(j as int + 1) =~= xs@.take(j as int).push(x));
                        assert(x != rotate);
                        assert forall|i: int| 0 <= i < j implies xs@[i] != x by {
                            assert(xs@[i] != xs@[j as int]);
                        }
                        assert(!xs@.take(j as int).contains(x)) by {
                            if xs@.take(j as int).contains(x) {
                                let i = choose|i: int| 0 <= i < j && xs@.take(j as int)[i] == x;
                                assert(xs@[i] == xs@[j as int]);
                            }
                        }
                        assert forall|i: int| 0 <= i < j + 1 implies #[trigger] rm@[xs@[i].index()]@
                            == before[xs@[i].index()]@.push(rotate) by {
                            if i < j {
                                assert(xs@[i] != xs@[j as int]);
                                assert(xs@[i] != rotate);
                                assert(Rotate::from_index(xs@[i].index()) == xs@[i]);
                            }
                        }
                        assert forall|a: Rotate| a != rotate && !xs@.take(j as int + 1).contains(a)
                            implies #[trigger] rm@[a.index()]@ == before[a.index()]@ by {
                            assert(xs@.take(j as int + 1)[j as int] == x);
                            assert(a != x);
                            assert(Rotate::from_index(a.index()) == a);
                        }
                    }
                }
                j = j + 1;
            }
            let ri = rotate.number() as usize;
            rm[ni].push(rotate);
            rm[ri].push(new_rotate);
            proof {
                if canonicalizing(rotates@) {
                    assert(xs@.take(xs.len() as int) =~= xs@);
                    assert forall|a: Rotate| xs@.contains(a) implies #[trigger] rm@[a.index()]@
                        == before[a.index()]@.push(rotate) by {
                        let i = choose|i: int| 0 <= i < xs.len() && xs@[i] == a;
                        assert(rm@[xs@[i].index()]@ == before[xs@[i].index()]@.push(rotate));
                    }
                    lemma_reverse_step(before, rm@, rotates@, k as int, xs@);
                }
            }
        } else {
            proof {
                if canonicalizing(rotates@) {
                    assert forall|a: Rotate| {
                        &&& (#[trigger] rm@[a.index()])@.no_duplicates()
                        &&& forall|b: Rotate| #[trigger] rm@[a.index()]@.contains(b) <==> (b != a
                            && rotates@[b.index()] == rotates@[a.index()] && visible(rotates@, k + 1, a)
                            && visible(rotates@, k + 1, b))
                    } by {
                        assert(Rotate::from_index(a.index()) == a);
                        assert forall|b: Rotate| visible(rotates@, k + 1, b) == visible(rotates@, k as int, b) by {
                            assert(Rotate::from_index(b.index()) == b);
                        }
                    }
                }
            }
        }
        k = k + 1;
    }
    rm
}

/// The byte read as a two's complement signed byte.
fn to_signed(x: u8) -> (r: i8)
    ensures
        r == signed_byte(x),
{
    if x < 128 {
        x as i8
    } else {
        (x - 128) as i8 - 127 - 1
    }
}

fn contains_rotate(v: &Vec<Rotate>, q: Rotate) -> (r: bool)
    ensures
        r == v@.contains(q),
{
    let mut i: usize = 0;
    while i < v.len()
        invariant
            i <= v.len(),
            forall|j: int| 0 <= j < i ==> v@[j] != q,
        decreases v.len() - i,
    {
        if v[i] == q {
            return true;
        }
        i = i + 1;
    }
    false
}

} // verus!
