use vstd::prelude::*;
use super::candidate::{Candidate, ILockedCandidate};
use nohash::IntSet;
use crate::common::datastore::action::action_set::{insert_key, new_key_set};
use crate::sfinder_lib::coordinate_walker::get_ranges;
use crate::common::datastore::action::cache::locked_cache::LockedCache;
use crate::common::datastore::action::minimal_action::MinimalAction;
use crate::sfinder_core::action::common::{FromDirection, can_put_mino_in_field, in_walls, lemma_congruent_in_walls};
use crate::sfinder_core::action::locked_moves::{
    lemma_closed_unreachable, lemma_first_fit_in_range, lemma_goal_reachable, lemma_step_reachable, locked_goal,
    locked_reachable, locked_step, rotate_before, rotation_step, search_admits,
};
use crate::sfinder_core::field::field::{Field, FieldBoards};
use crate::sfinder_core::field::field_constants::FIELD_WIDTH;
use crate::sfinder_core::mino::mino::{Mino, mino_max_x, mino_max_y, mino_min_x, mino_min_y};
use crate::sfinder_core::mino::mino_factory::MinoFactory;
use crate::sfinder_core::mino::mino_shifter::{
    IMinoShifter, MinoShifter, canonical_offset, canonical_rotate, lemma_canonical_idempotent, lemma_canonical_same_cells,
    placed_cells,
};
use crate::sfinder_core::mino::piece::Piece;
use crate::sfinder_core::srs::mino_rotation::{MinoRotation, first_fit, kick_tried, small_offsets};
use crate::sfinder_core::mino::mino_transform::signed_byte;
use crate::sfinder_core::srs::rotate::Rotate;
use crate::sfinder_core::srs::rotate_direction::RotateDirection;

verus! {

/// Whether `s` is a placement of piece `p` within the walls and below row `vh` (by its top)
/// where the piece overlaps no block, rests on the floor or on a block, and can be brought
/// from the top of the field with quarter and half turns.
pub open spec fn locked_candidate_at<F: Field, R: MinoRotation>(
    field: &F,
    rot: &R,
    p: Piece,
    vh: int,
    s: (Rotate, int, int),
) -> bool {
    &&& in_walls(p, s.0, s.1, s.2)
    &&& s.2 < vh - mino_max_y(p, s.0)
    &&& field.can_put_spec(p, s.0, s.1, s.2)
    &&& (s.2 <= -mino_min_y(p, s.0) || !field.can_put_spec(p, s.0, s.1, s.2 - 1))
    &&& locked_reachable(field, rot, p, vh, true, s)
}

/// The key of the canonical placement of piece `p` at placement `s`.
pub open spec fn canonical_key(p: Piece, s: (Rotate, int, int)) -> int {
    (s.1 + canonical_offset(p, s.0).x) + 256 * (s.2 + canonical_offset(p, s.0).y) + 65536 * canonical_rotate(p, s.0).index()
}

/// Each key the candidate search lists is that of a canonical placement covering the cells of a
/// placement the piece can reach: listing one placement per group of placements with the same
/// cells.
pub proof fn lemma_candidate_key_canonical<F: Field, R: MinoRotation>(
    field: &F,
    rot: &R,
    p: Piece,
    vh: int,
    s: (Rotate, int, int),
)
    requires
        locked_candidate_at(field, rot, p, vh, s),
        vh < 128,
    ensures
        exists|a: MinimalAction| a.spec_key() == canonical_key(p, s) && canonical_rotate(p, a.rotate) == a.rotate
            && #[trigger] placed_cells(p, a.rotate, a.x as int, a.y as int) == placed_cells(p, s.0, s.1, s.2),
{
    let q = canonical_rotate(p, s.0);
    let o = canonical_offset(p, s.0);
    Mino::lemma_cells_in_bounds(p, s.0);
    lemma_congruent_in_walls(p, s.0, q, s.1, s.2);
    lemma_canonical_idempotent(p, s.0);
    Mino::lemma_cells_in_bounds(p, q);
    let ax = s.1 + o.x;
    let ay = s.2 + o.y;
    assert(0 <= ax < 10);
    assert(0 <= ay < 128);
    let a = MinimalAction { x: ax as u8, y: ay as u8, rotate: q };
    assert(a.x == ax && a.y == ay);
    lemma_canonical_same_cells(p, s.0, s.1, s.2);
    assert(placed_cells(p, a.rotate, a.x as int, a.y as int) == placed_cells(p, s.0, s.1, s.2));
}

/// Lists the placements on the ground that a piece can be brought to by moves and by
/// quarter-turn and half-turn rotations, remembering the placements found reachable.
pub struct Locked180Candidate<'a, R: MinoRotation> {
    mino_factory: &'a MinoFactory,
    mino_shifter: &'a MinoShifter,
    mino_rotation: &'a R,
    locked_cache: LockedCache,
    appear_y: u8,
}

impl<'a, R: MinoRotation> Locked180Candidate<'a, R> {
    pub closed spec fn wf(&self) -> bool {
        &&& self.locked_cache.wf()
        &&& self.mino_shifter.shifter_wf()
        &&& self.mino_rotation.spec_supports_180()
    }

    /// The rotation system of the search.
    pub closed spec fn rotation(&self) -> &'a R {
        self.mino_rotation
    }

    /// Number of rows the search can cover.
    pub closed spec fn max_y(&self) -> int {
        self.locked_cache.height()
    }

    spec fn visited(&self, v: (Rotate, int, int)) -> bool {
        self.locked_cache.visited_at(v.1, v.2, v.0)
    }

    spec fn same_setup(&self, other: &Self) -> bool {
        &&& self.mino_factory == other.mino_factory
        &&& self.mino_shifter == other.mino_shifter
        &&& self.mino_rotation == other.mino_rotation
        &&& self.appear_y == other.appear_y
        &&& self.locked_cache.height() == other.locked_cache.height()
    }

    /// No visited placement is a goal, and every step from a visited placement that is not
    /// on `stack` leads to a visited placement.
    spec fn search_inv<F: Field>(&self, field: &F, p: Piece, stack: Set<(Rotate, int, int)>) -> bool {
        &&& forall|v: (Rotate, int, int)| #[trigger] self.visited(v) ==> !locked_goal(field, p, self.appear_y as int, v)
        &&& forall|v: (Rotate, int, int), t: (Rotate, int, int)| self.visited(v) && !stack.contains(v) && #[trigger] locked_step(
            field,
            self.mino_rotation,
            p,
            self.appear_y as int,
            true,
            v,
            t,
        ) ==> self.visited(t)
    }

    /// Every placement marked found is reachable.
    spec fn found_sound<F: Field>(&self, field: &F, p: Piece) -> bool {
        forall|v: (Rotate, int, int)| #[trigger] self.locked_cache.found_at(v.1, v.2, v.0) ==> locked_reachable(
            field,
            self.mino_rotation,
            p,
            self.appear_y as int,
            true,
            v,
        )
    }

    pub fn new(mino_factory: &'a MinoFactory, mino_shifter: &'a MinoShifter, mino_rotation: &'a R, max_y: u8) -> (r: Self)
        requires
            mino_shifter.shifter_wf(),
            mino_rotation.spec_supports_180(),
        ensures
            r.wf(),
            r.rotation() == mino_rotation,
            r.max_y() == max_y,
    {
        Locked180Candidate { mino_factory, mino_shifter, mino_rotation, locked_cache: LockedCache::new(max_y), appear_y: 0 }
    }

    fn mark_found<F: Field>(&mut self, field: &F, Ghost(p): Ghost<Piece>, x: u8, y: u8, rotate: Rotate)
        requires
            old(self).wf(),
            x < 10,
            y < old(self).locked_cache.height(),
            old(self).found_sound(field, p),
            locked_reachable(field, old(self).mino_rotation, p, old(self).appear_y as int, true, (rotate, x as int, y as int)),
        ensures
            final(self).wf(),
            final(self).same_setup(old(self)),
            forall|v: (Rotate, int, int)| #[trigger] final(self).visited(v) == old(self).visited(v),
            final(self).locked_cache.unvisited() == old(self).locked_cache.unvisited(),
            final(self).found_sound(field, p),
            forall|x2: int, y2: int, q: Rotate| #[trigger] final(self).locked_cache.found_at(x2, y2, q) == (old(
                self,
            ).locked_cache.found_at(x2, y2, q) || (x2 == x && y2 == y && q == rotate)),
    {
        self.locked_cache.found(x, y, rotate);
    }

    fn check<F: Field>(
        &mut self,
        field: &F,
        mino: &Mino,
        x: u8,
        y: u8,
        direction: FromDirection,
        Ghost(stack): Ghost<Set<(Rotate, int, int)>>,
        Ghost(n): Ghost<nat>,
    ) -> (r: bool)
        requires
            old(self).wf(),
            search_admits(field, old(self).mino_rotation, true, old(self).appear_y as int, old(self).locked_cache.height()),
            x < 10,
            n == old(self).locked_cache.unvisited(),
            old(self).search_inv(field, mino.piece_of(), stack),
            old(self).found_sound(field, mino.piece_of()),
            direction == FromDirection::Right ==> old(self).visited((mino.rotate_of(), x + 1, y as int)),
            direction == FromDirection::Left ==> old(self).visited((mino.rotate_of(), x - 1, y as int)),
        ensures
            final(self).wf(),
            final(self).same_setup(old(self)),
            forall|v: (Rotate, int, int)| old(self).visited(v) ==> #[trigger] final(self).visited(v),
            final(self).locked_cache.unvisited() <= old(self).locked_cache.unvisited(),
            final(self).found_sound(field, mino.piece_of()),
            forall|x2: int, y2: int, q: Rotate| old(self).locked_cache.found_at(x2, y2, q) ==> #[trigger] final(self).locked_cache.found_at(x2, y2, q),
            old(self).appear_y <= y ==> r,
            r && y < old(self).appear_y ==> final(self).locked_cache.found_at(x as int, y as int, mino.rotate_of())
                && final(self).visited((mino.rotate_of(), x as int, y as int)),
            old(self).visited((mino.rotate_of(), x as int, y as int)) && old(self).locked_cache.found_at(x as int, y as int, mino.rotate_of()) ==> r,
            r ==> locked_reachable(
                field,
                old(self).mino_rotation,
                mino.piece_of(),
                old(self).appear_y as int,
                true,
                (mino.rotate_of(), x as int, y as int),
            ),
            !r ==> final(self).search_inv(field, mino.piece_of(), stack) && final(self).visited(
                (mino.rotate_of(), x as int, y as int),
            ),
        decreases n, 0nat,
    {
        let ghost p = mino.piece_of();
        let ghost rot = self.mino_rotation;
        let ghost ay = self.appear_y as int;
        let ghost s = (mino.rotate_of(), x as int, y as int);
        if self.appear_y <= y {
            proof {
                lemma_goal_reachable(field, rot, p, ay, true, s);
            }
            return true;
        }
        let rotate = mino.get_rotate();
        if self.locked_cache.is_visited(x, y, rotate) {
            let found = self.locked_cache.is_found(x, y, rotate);
            proof {
                assert(self.locked_cache.found_at(s.1, s.2, s.0) == found);
            }
            return found;
        }
        let ghost before_visit = *self;
        self.locked_cache.visit(x, y, rotate);
        if field.can_reach_on_harddrop(mino, x, y) {
            proof {
                lemma_goal_reachable(field, rot, p, ay, true, s);
            }
            self.mark_found(field, Ghost(p), x, y, rotate);
            return true;
        }
        proof {
            Mino::lemma_cells_in_bounds(mino.piece_of(), mino.rotate_of());
            field.lemma_board_count();
            let yy = choose|yy: int| y + 1 <= yy < 6 * field.boards().len() - mino_min_y(mino.piece_of(), mino.rotate_of())
                && !#[trigger] field.can_put_spec(mino.piece_of(), mino.rotate_of(), x as int, yy);
        }
        let ghost stack1 = stack.insert(s);
        proof {
            assert forall|v: (Rotate, int, int), t: (Rotate, int, int)| self.visited(v) && !stack1.contains(v)
                && #[trigger] locked_step(field, rot, p, ay, true, v, t) implies self.visited(t) by {
                assert(before_visit.visited(v));
            }
            assert forall|v: (Rotate, int, int)| #[trigger] self.visited(v) implies !locked_goal(field, p, ay, v) by {
                if v != s {
                    assert(before_visit.visited(v));
                }
            }
        }
        // one row up
        let up_y = y + 1;
        if up_y < self.appear_y && field.can_put(mino, x, up_y) {
            let ghost budget = self.locked_cache.unvisited();
            if self.check(field, mino, x, up_y, FromDirection::Neither, Ghost(stack1), Ghost(budget)) {
                proof {
                    lemma_step_reachable(field, rot, p, ay, true, s, (s.0, s.1, s.2 + 1));
                }
                self.mark_found(field, Ghost(p), x, y, rotate);
                return true;
            }
        }
        let ghost after_up = *self;
        // one column left
        if x >= 1 {
            let left_x = x - 1;
            if direction != FromDirection::Left && -mino.get_min_x() <= left_x as i8 && field.can_put(mino, left_x, y) {
                let ghost budget = self.locked_cache.unvisited();
                if self.check(field, mino, left_x, y, FromDirection::Right, Ghost(stack1), Ghost(budget)) {
                    proof {
                        lemma_step_reachable(field, rot, p, ay, true, s, (s.0, s.1 - 1, s.2));
                    }
                    self.mark_found(field, Ghost(p), x, y, rotate);
                    return true;
                }
            }
        }
        let ghost after_left = *self;
        // one column right
        let right_x = x + 1;
        if direction != FromDirection::Right && (right_x as i8) < FIELD_WIDTH as i8 - mino.get_max_x() && field.can_put(
            mino,
            right_x,
            y,
        ) {
            let ghost budget = self.locked_cache.unvisited();
            if self.check(field, mino, right_x, y, FromDirection::Left, Ghost(stack1), Ghost(budget)) {
                proof {
                    lemma_step_reachable(field, rot, p, ay, true, s, (s.0, s.1 + 1, s.2));
                }
                self.mark_found(field, Ghost(p), x, y, rotate);
                return true;
            }
        }
        let ghost after_right = *self;
        let ghost budget = self.locked_cache.unvisited();
        if self.check_rotation(field, mino, x, y, RotateDirection::Clockwise, Ghost(stack1), Ghost(budget)) {
            proof {
                let t = choose|t: (Rotate, int, int)| rotation_step(field, rot, p, RotateDirection::Clockwise, s, t)
                    && locked_reachable(field, rot, p, ay, true, t);
                lemma_step_reachable(field, rot, p, ay, true, s, t);
            }
            self.mark_found(field, Ghost(p), x, y, rotate);
            return true;
        }
        let ghost after_cw = *self;
        let ghost budget = self.locked_cache.unvisited();
        if self.check_rotation(field, mino, x, y, RotateDirection::CounterClockwise, Ghost(stack1), Ghost(budget)) {
            proof {
                let t = choose|t: (Rotate, int, int)| rotation_step(field, rot, p, RotateDirection::CounterClockwise, s, t)
                    && locked_reachable(field, rot, p, ay, true, t);
                lemma_step_reachable(field, rot, p, ay, true, s, t);
            }
            self.mark_found(field, Ghost(p), x, y, rotate);
            return true;
        }
        let ghost after_ccw = *self;
        let ghost budget = self.locked_cache.unvisited();
        if self.check_rotation(field, mino, x, y, RotateDirection::Rotate180, Ghost(stack1), Ghost(budget)) {
            proof {
                let t = choose|t: (Rotate, int, int)| rotation_step(field, rot, p, RotateDirection::Rotate180, s, t)
                    && locked_reachable(field, rot, p, ay, true, t);
                lemma_step_reachable(field, rot, p, ay, true, s, t);
            }
            self.mark_found(field, Ghost(p), x, y, rotate);
            return true;
        }
        proof {
            assert forall|v: (Rotate, int, int), t: (Rotate, int, int)| self.visited(v) && !stack.contains(v)
                && #[trigger] locked_step(field, rot, p, ay, true, v, t) implies self.visited(t) by {
                if v == s {
                    if rotation_step(field, rot, p, RotateDirection::Clockwise, s, t) {
                        assert(after_cw.visited(t));
                    } else if rotation_step(field, rot, p, RotateDirection::CounterClockwise, s, t) {
                        assert(after_ccw.visited(t));
                    } else if rotation_step(field, rot, p, RotateDirection::Rotate180, s, t) {
                    } else if t == (s.0, s.1, s.2 + 1) {
                        assert(after_up.visited(t));
                        assert(after_left.visited(t));
                        assert(after_right.visited(t));
                        assert(after_cw.visited(t));
                        assert(after_ccw.visited(t));
                    } else if t == (s.0, s.1 - 1, s.2) {
                        assert(after_left.visited(t));
                        assert(after_right.visited(t));
                        assert(after_cw.visited(t));
                        assert(after_ccw.visited(t));
                    } else {
                        assert(t == (s.0, s.1 + 1, s.2));
                        assert(after_right.visited(t));
                        assert(after_cw.visited(t));
                        assert(after_ccw.visited(t));
                    }
                }
            }
        }
        false
    }

    fn check_rotation<F: Field>(
        &mut self,
        field: &F,
        mino: &Mino,
        x: u8,
        y: u8,
        direction: RotateDirection,
        Ghost(stack): Ghost<Set<(Rotate, int, int)>>,
        Ghost(n): Ghost<nat>,
    ) -> (r: bool)
        requires
            old(self).wf(),
            search_admits(field, old(self).mino_rotation, true, old(self).appear_y as int, old(self).locked_cache.height()),
            x < 10,
            y < old(self).appear_y,
            y <= 6 * field.boards().len(),
            n == old(self).locked_cache.unvisited(),
            old(self).search_inv(field, mino.piece_of(), stack),
            old(self).found_sound(field, mino.piece_of()),
        ensures
            final(self).wf(),
            final(self).same_setup(old(self)),
            forall|v: (Rotate, int, int)| old(self).visited(v) ==> #[trigger] final(self).visited(v),
            final(self).locked_cache.unvisited() <= old(self).locked_cache.unvisited(),
            final(self).found_sound(field, mino.piece_of()),
            forall|x2: int, y2: int, q: Rotate| old(self).locked_cache.found_at(x2, y2, q) ==> #[trigger] final(self).locked_cache.found_at(x2, y2, q),
            r ==> exists|t: (Rotate, int, int)| rotation_step(
                field,
                old(self).mino_rotation,
                mino.piece_of(),
                direction,
                (mino.rotate_of(), x as int, y as int),
                t,
            ) && locked_reachable(field, old(self).mino_rotation, mino.piece_of(), old(self).appear_y as int, true, t),
            !r ==> final(self).search_inv(field, mino.piece_of(), stack),
            !r ==> forall|t: (Rotate, int, int)| rotation_step(
                field,
                old(self).mino_rotation,
                mino.piece_of(),
                direction,
                (mino.rotate_of(), x as int, y as int),
                t,
            ) ==> final(self).visited(t),
        decreases n, 1nat,
    {
        let ghost p = mino.piece_of();
        let ghost rot = self.mino_rotation;
        let ghost ay = self.appear_y as int;
        let ghost s = (mino.rotate_of(), x as int, y as int);
        let ghost start = *self;
        proof {
            field.lemma_board_count();
        }
        let current_rotate = mino.get_rotate();
        let before_rotate = current_rotate.apply(direction.reverse());
        let factory = self.mino_factory;
        let mino_before = factory.get(mino.get_piece(), before_rotate);
        let rotation = self.mino_rotation;
        let pattern = rotation.get_patterns_from(mino_before, direction);
        let offsets = pattern.get_offsets();
        let ghost checks = pattern@;
        proof {
            assert(checks == rot.pattern_at(direction, p.index() * 4 + before_rotate.index()));
        }
        let mut j: usize = 0;
        while j < offsets.len()
            invariant
                self.wf(),
                start == *old(self),
                self.same_setup(&start),
                self.mino_rotation == rot,
                rotation == rot,
                ay == self.appear_y,
                forall|v: (Rotate, int, int)| start.visited(v) ==> #[trigger] self.visited(v),
                forall|x2: int, y2: int, q: Rotate| start.locked_cache.found_at(x2, y2, q) ==> #[trigger] self.locked_cache.found_at(x2, y2, q),
                self.locked_cache.unvisited() <= n,
                n == start.locked_cache.unvisited(),
                self.search_inv(field, p, stack),
                self.found_sound(field, p),
                current_rotate == s.0,
                search_admits(field, rot, true, ay, self.locked_cache.height()),
                p == mino.piece_of(),
                mino_before.piece_of() == p,
                mino_before.rotate_of() == before_rotate,
                before_rotate == rotate_before(s.0, direction),
                s == (mino.rotate_of(), x as int, y as int),
                x < 10,
                y < ay,
                y <= 6 * field.boards().len(),
                field.boards().len() <= 4,
                    checks == rot.pattern_at(direction, p.index() * 4 + before_rotate.index()),
                small_offsets(checks),
                offsets@.len() == checks.len(),
                forall|k: int| 0 <= k < checks.len() ==> #[trigger] offsets@[k] == checks[k].0,
                j <= offsets@.len(),
                forall|k: int| 0 <= k < j ==> rotation_step(
                    field,
                    rot,
                    p,
                    direction,
                    s,
                    (before_rotate, x - (#[trigger] offsets@[k]).x, y - offsets@[k].y),
                ) ==> self.visited((before_rotate, x - offsets@[k].x, y - offsets@[k].y)),
            decreases offsets@.len() - j,
        {
            let o = offsets[j];
            let ghost tj = (before_rotate, x - o.x, y - o.y);
            let ghost before_step = *self;
            let fx: i8 = x as i8 - o.x;
            let fy: i8 = y as i8 - o.y;
            if fx >= 0 && fy >= 0 {
                let from_x = fx as u8;
                let from_y = fy as u8;
                if can_put_mino_in_field(field, mino_before, from_x, from_y) {
                    proof {
                        assert forall|k: int| #[trigger] kick_tried(
                            field,
                            p,
                            s.0,
                            signed_byte(from_x),
                            signed_byte(from_y),
                            checks,
                            k,
                        ) implies {
                            let to_x = signed_byte(from_x) + checks[k].0.x;
                            let to_y = signed_byte(from_y) + checks[k].0.y;
                            &&& -128 <= to_x <= 127
                            &&& -128 <= to_y <= 127
                            &&& field.boards().len() == 4 && -mino_min_x(p, s.0) <= to_x < 10 - mino_max_x(p, s.0)
                                && -mino_min_y(p, s.0) <= to_y ==> to_y < 26
                        } by {
                            assert(checks[k].0 == offsets@[k]);
                            if field.boards().len() == 4 {
                                assert(ay - 1 - checks[j as int].0.y + checks[k].0.y < 26);
                            }
                        }
                    }
                    let kick = rotation.get_kicks(field, mino_before, mino, from_x, from_y, direction);
                    let same = match kick {
                        Some(k) => k.x == o.x && k.y == o.y,
                        None => false,
                    };
                    if same {
                        let ghost budget = self.locked_cache.unvisited();
                        if self.check(
                            field,
                            mino_before,
                            from_x,
                            from_y,
                            FromDirection::Neither,
                            Ghost(stack),
                            Ghost(budget),
                        ) {
                            proof {
                                assert(rotation_step(field, rot, p, direction, s, tj));
                                lemma_step_reachable(field, rot, p, ay, true, s, tj);
                            }
                            self.mark_found(field, Ghost(p), x, y, current_rotate);
                            return true;
                        }
                    }
                }
            }
            proof {
                assert forall|k: int| 0 <= k < j + 1 implies rotation_step(
                    field,
                    rot,
                    p,
                    direction,
                    s,
                    (before_rotate, x - (#[trigger] offsets@[k]).x, y - offsets@[k].y),
                ) ==> self.visited((before_rotate, x - offsets@[k].x, y - offsets@[k].y)) by {
                    if k < j {
                        if rotation_step(field, rot, p, direction, s, (before_rotate, x - offsets@[k].x, y - offsets@[k].y)) {
                            assert(before_step.visited((before_rotate, x - offsets@[k].x, y - offsets@[k].y)));
                        }
                    }
                }
            }
            j = j + 1;
        }
        proof {
            assert forall|t: (Rotate, int, int)| rotation_step(field, rot, p, direction, s, t) implies self.visited(t) by {
                lemma_first_fit_in_range(field, p, s.0, t.1, t.2, checks, 0);
                let i = first_fit(field, p, s.0, t.1, t.2, checks, 0)->Some_0;
                assert(t == (before_rotate, x - offsets@[i].x, y - offsets@[i].y));
            }
        }
        false
    }

    /// The keys of the canonical placements of `piece` that rest on the ground below row
    /// `valid_height` and that the piece can be brought to from the top.
    pub fn search<F: Field>(&mut self, field: &F, piece: Piece, valid_height: u8) -> (r: IntSet<u32>)
        requires
            old(self).wf(),
            search_admits(field, old(self).rotation(), true, valid_height as int, old(self).max_y()),
            valid_height < 128,
            forall|q: Rotate| #[trigger] mino_max_y(piece, q) <= valid_height,
        ensures
            final(self).wf(),
            final(self).rotation() == old(self).rotation(),
            final(self).max_y() == old(self).max_y(),
            forall|k: u32| #[trigger] r@.contains(k) <==> exists|s: (Rotate, int, int)| #[trigger] locked_candidate_at(
                field,
                old(self).rotation(),
                piece,
                valid_height as int,
                s,
            ) && canonical_key(piece, s) == k,
            forall|k: u32| #[trigger] r@.contains(k) ==> exists|a: MinimalAction, s: (Rotate, int, int)|
                #[trigger] locked_candidate_at(field, old(self).rotation(), piece, valid_height as int, s) && a.spec_key()
                    == k && canonical_rotate(piece, a.rotate) == a.rotate && #[trigger] placed_cells(piece, a.rotate, a.x as int, a.y as int)
                    == placed_cells(piece, s.0, s.1, s.2),
    {
        let ghost rot = self.mino_rotation;
        let ghost vh = valid_height as int;
        self.appear_y = valid_height;
        self.locked_cache.clear();
        let mut actions = new_key_set();
        let values = Rotate::value_list();
        proof {
            assert(actions@ =~= Set::<u32>::empty());
        }
        let mut ri: usize = 0;
        while ri < 4
            invariant
                ri <= 4,
                values@ == seq![Rotate::Spawn, Rotate::Right, Rotate::Reverse, Rotate::Left],
                forall|i: int| 0 <= i < 4 ==> (#[trigger] values@[i]).index() == i,
                self.wf(),
                self.mino_rotation == rot,
                rot == old(self).mino_rotation,
                self.appear_y == valid_height,
                vh == valid_height,
                valid_height < 128,
                self.locked_cache.height() == old(self).max_y(),
                search_admits(field, rot, true, vh, self.locked_cache.height()),
                forall|q: Rotate| #[trigger] mino_max_y(piece, q) <= valid_height,
                self.found_sound(field, piece),
                forall|v: (Rotate, int, int)| !#[trigger] self.visited(v),
                forall|k: u32| #[trigger] actions@.contains(k) <==> exists|s: (Rotate, int, int)| #[trigger] locked_candidate_at(
                    field,
                    rot,
                    piece,
                    vh,
                    s,
                ) && canonical_key(piece, s) == k && s.0.index() < ri,
            decreases 4 - ri,
        {
            let rotate = values[ri];
            let factory = self.mino_factory;
            let mino = factory.get(piece, rotate);
            let ranges = get_ranges(mino, valid_height);
            let x_range = ranges.0;
            let y_range = ranges.1;
            proof {
                Mino::lemma_cells_in_bounds(piece, rotate);
            }
            let mut x = x_range.start;
            while x < x_range.end
                invariant
                    ri < 4,
                    rotate.index() == ri,
                    mino.piece_of() == piece,
                    mino.rotate_of() == rotate,
                    x_range.start == -mino_min_x(piece, rotate),
                    x_range.end == 10 - mino_max_x(piece, rotate),
                    y_range.start == -mino_min_y(piece, rotate),
                    y_range.end == vh - mino_max_y(piece, rotate),
                    x_range.start <= x <= x_range.end,
                    x_range.end <= 10,
                    self.wf(),
                    self.mino_rotation == rot,
                    self.appear_y == valid_height,
                    vh == valid_height,
                    valid_height < 128,
                    self.locked_cache.height() == old(self).max_y(),
                    search_admits(field, rot, true, vh, self.locked_cache.height()),
                    self.found_sound(field, piece),
                    forall|v: (Rotate, int, int)| !#[trigger] self.visited(v),
                    forall|k: u32| #[trigger] actions@.contains(k) <==> exists|s: (Rotate, int, int)| #[trigger] locked_candidate_at(
                        field,
                        rot,
                        piece,
                        vh,
                        s,
                    ) && canonical_key(piece, s) == k && (s.0.index() < ri || (s.0 == rotate && s.1 < x)),
                decreases x_range.end - x,
            {
                let mut yy = y_range.end;
                while yy > y_range.start
                    invariant
                        ri < 4,
                        rotate.index() == ri,
                        mino.piece_of() == piece,
                        mino.rotate_of() == rotate,
                        x_range.start == -mino_min_x(piece, rotate),
                        x_range.end == 10 - mino_max_x(piece, rotate),
                        y_range.start == -mino_min_y(piece, rotate),
                        y_range.end == vh - mino_max_y(piece, rotate),
                        x_range.start <= x < x_range.end,
                        x_range.end <= 10,
                        yy <= y_range.end,
                        y_range.start <= yy || yy == y_range.end,
                        self.wf(),
                        self.mino_rotation == rot,
                        self.appear_y == valid_height,
                        vh == valid_height,
                        valid_height < 128,
                        self.locked_cache.height() == old(self).max_y(),
                        search_admits(field, rot, true, vh, self.locked_cache.height()),
                        self.found_sound(field, piece),
                        forall|v: (Rotate, int, int)| !#[trigger] self.visited(v),
                        forall|k: u32| #[trigger] actions@.contains(k) <==> exists|s: (Rotate, int, int)| #[trigger] locked_candidate_at(
                            field,
                            rot,
                            piece,
                            vh,
                            s,
                        ) && canonical_key(piece, s) == k && (s.0.index() < ri || (s.0 == rotate && s.1 < x) || (s.0
                            == rotate && s.1 == x && s.2 >= yy)),
                    decreases yy,
                {
                    let y = yy - 1;
                    let ghost st = (rotate, x as int, y as int);
                    let ghost before = actions@;
                    let ghost added = false;
                    if field.can_put(mino, x, y) && field.is_on_ground(mino, x, y) {
                        let ghost budget = self.locked_cache.unvisited();
                        let found = self.check(field, mino, x, y, FromDirection::Neither, Ghost(Set::empty()), Ghost(budget));
                        proof {
                            if !found {
                                let ghost me = *self;
                                lemma_closed_unreachable(
                                    field,
                                    rot,
                                    piece,
                                    vh,
                                    true,
                                    |v: (Rotate, int, int)| me.visited(v),
                                    st,
                                );
                            }
                        }
                        if found {
                            proof {
                                lemma_congruent_in_walls(piece, rotate, canonical_rotate(piece, rotate), x as int, y as int);
                                lemma_canonical_idempotent(piece, rotate);
                                Mino::lemma_cells_in_bounds(piece, canonical_rotate(piece, rotate));
                            }
                            let a = self.mino_shifter.create_canonical_action(piece, rotate, x, y);
                            insert_key(&mut actions, a.key());
                            proof {
                                added = true;
                                assert(a.spec_key() == canonical_key(piece, st));
                            }
                        }
                        self.locked_cache.reset_trail();
                    }
                    proof {
                        assert forall|k: u32| #[trigger] actions@.contains(k) <==> exists|s: (Rotate, int, int)| #[trigger] locked_candidate_at(
                            field,
                            rot,
                            piece,
                            vh,
                            s,
                        ) && canonical_key(piece, s) == k && (s.0.index() < ri || (s.0 == rotate && s.1 < x) || (s.0
                            == rotate && s.1 == x && s.2 >= y)) by {
                            if exists|s: (Rotate, int, int)| #[trigger] locked_candidate_at(field, rot, piece, vh, s)
                                && canonical_key(piece, s) == k && (s.0.index() < ri || (s.0 == rotate && s.1 < x) || (
                                s.0 == rotate && s.1 == x && s.2 >= y)) {
                                let s = choose|s: (Rotate, int, int)| #[trigger] locked_candidate_at(field, rot, piece, vh, s)
                                    && canonical_key(piece, s) == k && (s.0.index() < ri || (s.0 == rotate && s.1 < x) || (
                                    s.0 == rotate && s.1 == x && s.2 >= y));
                                if s == st {
                                    assert(added);
                                } else {
                                    assert(s.0.index() < ri || (s.0 == rotate && s.1 < x) || (s.0 == rotate && s.1 == x
                                        && s.2 >= yy));
                                    assert(before.contains(k));
                                }
                            }
                            if actions@.contains(k) && !before.contains(k) {
                                assert(locked_candidate_at(field, rot, piece, vh, st));
                            }
                        }
                    }
                    yy = yy - 1;
                }
                proof {
                    assert forall|k: u32| #[trigger] actions@.contains(k) <==> exists|s: (Rotate, int, int)| #[trigger] locked_candidate_at(
                        field,
                        rot,
                        piece,
                        vh,
                        s,
                    ) && canonical_key(piece, s) == k && (s.0.index() < ri || (s.0 == rotate && s.1 < x + 1)) by {
                        if exists|s: (Rotate, int, int)| #[trigger] locked_candidate_at(field, rot, piece, vh, s)
                            && canonical_key(piece, s) == k && (s.0.index() < ri || (s.0 == rotate && s.1 < x + 1)) {
                            let s = choose|s: (Rotate, int, int)| #[trigger] locked_candidate_at(field, rot, piece, vh, s)
                                && canonical_key(piece, s) == k && (s.0.index() < ri || (s.0 == rotate && s.1 < x + 1));
                            if s.0 == rotate && s.1 == x {
                                assert(s.2 >= yy);
                            }
                        }
                    }
                }
                x = x + 1;
            }
            proof {
                assert forall|k: u32| #[trigger] actions@.contains(k) <==> exists|s: (Rotate, int, int)| #[trigger] locked_candidate_at(
                    field,
                    rot,
                    piece,
                    vh,
                    s,
                ) && canonical_key(piece, s) == k && s.0.index() < ri + 1 by {
                    if exists|s: (Rotate, int, int)| #[trigger] locked_candidate_at(field, rot, piece, vh, s)
                        && canonical_key(piece, s) == k && s.0.index() < ri + 1 {
                        let s = choose|s: (Rotate, int, int)| #[trigger] locked_candidate_at(field, rot, piece, vh, s)
                            && canonical_key(piece, s) == k && s.0.index() < ri + 1;
                        if s.0.index() == ri {
                            assert(Rotate::from_index(s.0.index()) == s.0);
                            assert(Rotate::from_index(rotate.index()) == rotate);
                            assert(s.0 == rotate);
                        }
                    }
                }
            }
            ri = ri + 1;
        }
        proof {
            assert forall|k: u32| #[trigger] actions@.contains(k) implies exists|a: MinimalAction, s: (Rotate, int, int)|
                #[trigger] locked_candidate_at(field, rot, piece, vh, s) && a.spec_key() == k && canonical_rotate(
                piece,
                a.rotate,
            ) == a.rotate && #[trigger] placed_cells(piece, a.rotate, a.x as int, a.y as int) == placed_cells(piece, s.0, s.1, s.2) by {
                let s = choose|s: (Rotate, int, int)| #[trigger] locked_candidate_at(field, rot, piece, vh, s) && canonical_key(
                    piece,
                    s,
                ) == k;
                lemma_candidate_key_canonical(field, rot, piece, vh, s);
                let a = choose|a: MinimalAction| a.spec_key() == canonical_key(piece, s) && canonical_rotate(piece, a.rotate)
                    == a.rotate && #[trigger] placed_cells(piece, a.rotate, a.x as int, a.y as int) == placed_cells(
                    piece,
                    s.0,
                    s.1,
                    s.2,
                );
                assert(locked_candidate_at(field, rot, piece, vh, s) && a.spec_key() == k);
            }
        }
        actions
    }

}

impl<'a, F: Field, R: MinoRotation> Candidate<F> for Locked180Candidate<'a, R> {
    open spec fn candidate_wf(&self) -> bool {
        self.wf()
    }

    open spec fn admits_search(&self, field: &F, piece: Piece, valid_height: int) -> bool {
        &&& search_admits(field, self.rotation(), true, valid_height, self.max_y())
        &&& valid_height < 128
        &&& forall|q: Rotate| #[trigger] mino_max_y(piece, q) <= valid_height
    }

    open spec fn spec_search(&self, field: &F, piece: Piece, valid_height: int, key: u32) -> bool {
        exists|s: (Rotate, int, int)| #[trigger] locked_candidate_at(field, self.rotation(), piece, valid_height, s)
            && canonical_key(piece, s) == key
    }

    fn search(&mut self, field: &F, piece: Piece, valid_height: u8) -> (r: IntSet<u32>) {
        Locked180Candidate::search(self, field, piece, valid_height)
    }
}

impl<'a, F: Field, R: MinoRotation> ILockedCandidate<F> for Locked180Candidate<'a, R> {
}

} // verus!
