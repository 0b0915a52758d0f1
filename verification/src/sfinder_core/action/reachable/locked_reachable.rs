use vstd::prelude::*;
use super::reachable::{ILockedReachable, Reachable};
use crate::common::datastore::action::cache::locked_cache::LockedCache;
use crate::common::datastore::action::minimal_action::MinimalAction;
use crate::sfinder_core::action::common::{FromDirection, can_put_mino_in_field, in_walls, lemma_congruent_in_walls};
use crate::sfinder_core::action::locked_moves::{
    lemma_closed_unreachable, lemma_first_fit_in_range, lemma_goal_reachable, lemma_step_reachable, locked_goal,
    locked_reachable, locked_step, rotate_before, rotation_step, search_admits,
};
use crate::sfinder_core::field::field::{Field, FieldBoards};
use crate::sfinder_core::field::field_constants::FIELD_WIDTH;
use crate::sfinder_core::mino::mino::{Mino, mino_max_x, mino_min_x, mino_min_y};
use crate::sfinder_core::mino::mino_factory::MinoFactory;
use crate::sfinder_core::mino::mino_shifter::{
    IMinoShifter, MinoShifter, congruents_fit, lemma_congruent_equivalence, other_congruent,
};
use crate::sfinder_core::mino::piece::Piece;
use crate::sfinder_core::srs::mino_rotation::{MinoRotation, first_fit, kick_tried, small_offsets};
use crate::sfinder_core::mino::mino_transform::signed_byte;
use crate::sfinder_core::srs::rotate::Rotate;
use crate::sfinder_core::srs::rotate_direction::RotateDirection;

verus! {

/// Whether `a` is the placement `(x, y, r)` of piece `p` or one congruent with it.
pub open spec fn congruent_or_same(p: Piece, r: Rotate, x: u8, y: u8, a: MinimalAction) -> bool {
    a == (MinimalAction { x, y, rotate: r }) || other_congruent(p, r, x, y, a)
}

/// The answer of a search over congruent placements is the same for every placement of the
/// group: asking for a placement or for one congruent with it gives one answer.
pub proof fn lemma_checks_congruent<F: Field, R: MinoRotation>(
    field: &F,
    rot: &R,
    p: Piece,
    r: Rotate,
    x: u8,
    y: u8,
    valid_height: int,
    with_180: bool,
    a: MinimalAction,
)
    requires
        x < 126,
        y < 126,
        other_congruent(p, r, x, y, a),
    ensures
        (exists|c: MinimalAction| #[trigger] congruent_or_same(p, r, x, y, c) && locked_reachable(
            field,
            rot,
            p,
            valid_height,
            with_180,
            (c.rotate, c.x as int, c.y as int),
        )) == (exists|c: MinimalAction| #[trigger] congruent_or_same(p, a.rotate, a.x, a.y, c) && locked_reachable(
            field,
            rot,
            p,
            valid_height,
            with_180,
            (c.rotate, c.x as int, c.y as int),
        )),
{
    if exists|c: MinimalAction| #[trigger] congruent_or_same(p, r, x, y, c) && locked_reachable(
        field,
        rot,
        p,
        valid_height,
        with_180,
        (c.rotate, c.x as int, c.y as int),
    ) {
        let c = choose|c: MinimalAction| #[trigger] congruent_or_same(p, r, x, y, c) && locked_reachable(
            field,
            rot,
            p,
            valid_height,
            with_180,
            (c.rotate, c.x as int, c.y as int),
        );
        lemma_congruent_equivalence(p, r, x, y, a, c);
        assert(congruent_or_same(p, a.rotate, a.x, a.y, c));
    }
    if exists|c: MinimalAction| #[trigger] congruent_or_same(p, a.rotate, a.x, a.y, c) && locked_reachable(
        field,
        rot,
        p,
        valid_height,
        with_180,
        (c.rotate, c.x as int, c.y as int),
    ) {
        let c = choose|c: MinimalAction| #[trigger] congruent_or_same(p, a.rotate, a.x, a.y, c) && locked_reachable(
            field,
            rot,
            p,
            valid_height,
            with_180,
            (c.rotate, c.x as int, c.y as int),
        );
        lemma_congruent_equivalence(p, r, x, y, a, c);
        assert(congruent_or_same(p, r, x, y, c));
    }
}

/// Decides whether a piece can be brought to a placement by moves and quarter-turn rotations,
/// walking back from the placement to the top of the field.
pub struct LockedReachable<'a, R: MinoRotation> {
    mino_factory: &'a MinoFactory,
    mino_shifter: &'a MinoShifter,
    mino_rotation: &'a R,
    locked_cache: LockedCache,
    appear_y: u8,
}

impl<'a, R: MinoRotation> LockedReachable<'a, R> {
    pub closed spec fn wf(&self) -> bool {
        &&& self.locked_cache.wf()
        &&& self.mino_shifter.shifter_wf()
    }

    /// The rotation system of the search.
    pub closed spec fn rotation(&self) -> &'a R {
        self.mino_rotation
    }

    /// Number of rows the search can cover.
    pub closed spec fn max_y(&self) -> int {
        self.locked_cache.height()
    }

    spec fn visited(&self, v: (Rotate, int, int)) -> bool {
        self.locked_cache.visited_at(v.1, v.2, v.0)
    }

    spec fn same_setup(&self, other: &Self) -> bool {
        &&& self.mino_factory == other.mino_factory
        &&& self.mino_shifter == other.mino_shifter
        &&& self.mino_rotation == other.mino_rotation
        &&& self.appear_y == other.appear_y
        &&& self.locked_cache.height() == other.locked_cache.height()
    }

    /// No visited placement is a goal, and every step from a visited placement that is not
    /// on `stack` leads to a visited placement.
    spec fn search_inv<F: Field>(&self, field: &F, p: Piece, stack: Set<(Rotate, int, int)>) -> bool {
        &&& forall|v: (Rotate, int, int)| #[trigger] self.visited(v) ==> !locked_goal(field, p, self.appear_y as int, v)
        &&& forall|v: (Rotate, int, int), t: (Rotate, int, int)| self.visited(v) && !stack.contains(v) && #[trigger] locked_step(
            field,
            self.mino_rotation,
            p,
            self.appear_y as int,
            false,
            v,
            t,
        ) ==> self.visited(t)
    }

    pub fn new(mino_factory: &'a MinoFactory, mino_shifter: &'a MinoShifter, mino_rotation: &'a R, max_y: u8) -> (r: Self)
        requires
            mino_shifter.shifter_wf(),
        ensures
            r.wf(),
            r.rotation() == mino_rotation,
            r.max_y() == max_y,
    {
        LockedReachable { mino_factory, mino_shifter, mino_rotation, locked_cache: LockedCache::new(max_y), appear_y: 0 }
    }

    fn check_inner<F: Field>(
        &mut self,
        field: &F,
        mino: &Mino,
        x: u8,
        y: u8,
        direction: FromDirection,
        Ghost(stack): Ghost<Set<(Rotate, int, int)>>,
        Ghost(n): Ghost<nat>,
    ) -> (r: bool)
        requires
            old(self).wf(),
            search_admits(field, old(self).mino_rotation, false, old(self).appear_y as int, old(self).locked_cache.height()),
            x < 10,
            n == old(self).locked_cache.unvisited(),
            old(self).search_inv(field, mino.piece_of(), stack),
            direction == FromDirection::Right ==> old(self).visited((mino.rotate_of(), x + 1, y as int)),
            direction == FromDirection::Left ==> old(self).visited((mino.rotate_of(), x - 1, y as int)),
        ensures
            final(self).wf(),
            final(self).same_setup(old(self)),
            forall|v: (Rotate, int, int)| old(self).visited(v) ==> #[trigger] final(self).visited(v),
            final(self).locked_cache.unvisited() <= old(self).locked_cache.unvisited(),
            r ==> locked_reachable(
                field,
                old(self).mino_rotation,
                mino.piece_of(),
                old(self).appear_y as int,
                false,
                (mino.rotate_of(), x as int, y as int),
            ),
            !r ==> final(self).search_inv(field, mino.piece_of(), stack) && final(self).visited(
                (mino.rotate_of(), x as int, y as int),
            ),
        decreases n, 0nat,
    {
        let ghost p = mino.piece_of();
        let ghost rot = self.mino_rotation;
        let ghost ay = self.appear_y as int;
        let ghost s = (mino.rotate_of(), x as int, y as int);
        if self.appear_y <= y {
            proof {
                lemma_goal_reachable(field, rot, p, ay, false, s);
            }
            return true;
        }
        let rotate = mino.get_rotate();
        if self.locked_cache.is_visited(x, y, rotate) {
            return false;
        }
        let ghost before_visit = *self;
        self.locked_cache.visit(x, y, rotate);
        if field.can_reach_on_harddrop(mino, x, y) {
            proof {
                lemma_goal_reachable(field, rot, p, ay, false, s);
            }
            return true;
        }
        proof {
            Mino::lemma_cells_in_bounds(mino.piece_of(), mino.rotate_of());
            field.lemma_board_count();
            let yy = choose|yy: int| y + 1 <= yy < 6 * field.boards().len() - mino_min_y(mino.piece_of(), mino.rotate_of())
                && !#[trigger] field.can_put_spec(mino.piece_of(), mino.rotate_of(), x as int, yy);
        }
        let ghost stack1 = stack.insert(s);
        proof {
            assert forall|v: (Rotate, int, int), t: (Rotate, int, int)| self.visited(v) && !stack1.contains(v)
                && #[trigger] locked_step(field, rot, p, ay, false, v, t) implies self.visited(t) by {
                assert(before_visit.visited(v));
            }
            assert forall|v: (Rotate, int, int)| #[trigger] self.visited(v) implies !locked_goal(field, p, ay, v) by {
                if v != s {
                    assert(before_visit.visited(v));
                }
            }
        }
        // one row up
        let up_y = y + 1;
        if up_y < self.appear_y && field.can_put(mino, x, up_y) {
            let ghost budget = self.locked_cache.unvisited();
            if self.check_inner(field, mino, x, up_y, FromDirection::Neither, Ghost(stack1), Ghost(budget)) {
                proof {
                    lemma_step_reachable(field, rot, p, ay, false, s, (s.0, s.1, s.2 + 1));
                }
                return true;
            }
        }
        let ghost after_up = *self;
        // one column left
        if x >= 1 {
            let left_x = x - 1;
            if direction != FromDirection::Left && -mino.get_min_x() <= left_x as i8 && field.can_put(mino, left_x, y) {
                let ghost budget = self.locked_cache.unvisited();
                if self.check_inner(field, mino, left_x, y, FromDirection::Right, Ghost(stack1), Ghost(budget)) {
                    proof {
                        lemma_step_reachable(field, rot, p, ay, false, s, (s.0, s.1 - 1, s.2));
                    }
                    return true;
                }
            }
        }
        let ghost after_left = *self;
        // one column right
        let right_x = x + 1;
        if direction != FromDirection::Right && (right_x as i8) < FIELD_WIDTH as i8 - mino.get_max_x() && field.can_put(
            mino,
            right_x,
            y,
        ) {
            let ghost budget = self.locked_cache.unvisited();
            if self.check_inner(field, mino, right_x, y, FromDirection::Left, Ghost(stack1), Ghost(budget)) {
                proof {
                    lemma_step_reachable(field, rot, p, ay, false, s, (s.0, s.1 + 1, s.2));
                }
                return true;
            }
        }
        let ghost after_right = *self;
        let ghost budget = self.locked_cache.unvisited();
        if self.check_rotation(field, mino, x, y, RotateDirection::Clockwise, Ghost(stack1), Ghost(budget)) {
            proof {
                let t = choose|t: (Rotate, int, int)| rotation_step(field, rot, p, RotateDirection::Clockwise, s, t)
                    && locked_reachable(field, rot, p, ay, false, t);
                lemma_step_reachable(field, rot, p, ay, false, s, t);
            }
            return true;
        }
        let ghost after_cw = *self;
        let ghost budget = self.locked_cache.unvisited();
        if self.check_rotation(field, mino, x, y, RotateDirection::CounterClockwise, Ghost(stack1), Ghost(budget)) {
            proof {
                let t = choose|t: (Rotate, int, int)| rotation_step(field, rot, p, RotateDirection::CounterClockwise, s, t)
                    && locked_reachable(field, rot, p, ay, false, t);
                lemma_step_reachable(field, rot, p, ay, false, s, t);
            }
            return true;
        }
        proof {
            assert forall|v: (Rotate, int, int), t: (Rotate, int, int)| self.visited(v) && !stack.contains(v)
                && #[trigger] locked_step(field, rot, p, ay, false, v, t) implies self.visited(t) by {
                if v == s {
                    if rotation_step(field, rot, p, RotateDirection::Clockwise, s, t) {
                        assert(after_cw.visited(t));
                    } else if rotation_step(field, rot, p, RotateDirection::CounterClockwise, s, t) {
                    } else if t == (s.0, s.1, s.2 + 1) {
                        assert(after_up.visited(t));
                        assert(after_left.visited(t));
                        assert(after_right.visited(t));
                        assert(after_cw.visited(t));
                    } else if t == (s.0, s.1 - 1, s.2) {
                        assert(after_left.visited(t));
                        assert(after_right.visited(t));
                        assert(after_cw.visited(t));
                    } else {
                        assert(t == (s.0, s.1 + 1, s.2));
                        assert(after_right.visited(t));
                        assert(after_cw.visited(t));
                    }
                }
            }
        }
        false
    }

    fn check_rotation<F: Field>(
        &mut self,
        field: &F,
        mino: &Mino,
        x: u8,
        y: u8,
        direction: RotateDirection,
        Ghost(stack): Ghost<Set<(Rotate, int, int)>>,
        Ghost(n): Ghost<nat>,
    ) -> (r: bool)
        requires
            old(self).wf(),
            search_admits(field, old(self).mino_rotation, false, old(self).appear_y as int, old(self).locked_cache.height()),
            x < 10,
            y < old(self).appear_y,
            y <= 6 * field.boards().len(),
            direction != RotateDirection::Rotate180,
            n == old(self).locked_cache.unvisited(),
            old(self).search_inv(field, mino.piece_of(), stack),
        ensures
            final(self).wf(),
            final(self).same_setup(old(self)),
            forall|v: (Rotate, int, int)| old(self).visited(v) ==> #[trigger] final(self).visited(v),
            final(self).locked_cache.unvisited() <= old(self).locked_cache.unvisited(),
            r ==> exists|t: (Rotate, int, int)| rotation_step(
                field,
                old(self).mino_rotation,
                mino.piece_of(),
                direction,
                (mino.rotate_of(), x as int, y as int),
                t,
            ) && locked_reachable(field, old(self).mino_rotation, mino.piece_of(), old(self).appear_y as int, false, t),
            !r ==> final(self).search_inv(field, mino.piece_of(), stack),
            !r ==> forall|t: (Rotate, int, int)| rotation_step(
                field,
                old(self).mino_rotation,
                mino.piece_of(),
                direction,
                (mino.rotate_of(), x as int, y as int),
                t,
            ) ==> final(self).visited(t),
        decreases n, 1nat,
    {
        let ghost p = mino.piece_of();
        let ghost rot = self.mino_rotation;
        let ghost ay = self.appear_y as int;
        let ghost s = (mino.rotate_of(), x as int, y as int);
        let ghost start = *self;
        proof {
            field.lemma_board_count();
        }
        let current_rotate = mino.get_rotate();
        let before_rotate = current_rotate.apply(direction.reverse());
        let factory = self.mino_factory;
        let mino_before = factory.get(mino.get_piece(), before_rotate);
        let rotation = self.mino_rotation;
        let pattern = rotation.get_patterns_from(mino_before, direction);
        let offsets = pattern.get_offsets();
        let ghost checks = pattern@;
        proof {
            assert(checks == rot.pattern_at(direction, p.index() * 4 + before_rotate.index()));
        }
        let mut j: usize = 0;
        while j < offsets.len()
            invariant
                self.wf(),
                start == *old(self),
                self.same_setup(&start),
                self.mino_rotation == rot,
                rotation == rot,
                ay == self.appear_y,
                forall|v: (Rotate, int, int)| start.visited(v) ==> #[trigger] self.visited(v),
                self.locked_cache.unvisited() <= n,
                n == start.locked_cache.unvisited(),
                self.search_inv(field, p, stack),
                search_admits(field, rot, false, ay, self.locked_cache.height()),
                p == mino.piece_of(),
                mino_before.piece_of() == p,
                mino_before.rotate_of() == before_rotate,
                before_rotate == rotate_before(s.0, direction),
                s == (mino.rotate_of(), x as int, y as int),
                x < 10,
                y < ay,
                y <= 6 * field.boards().len(),
                field.boards().len() <= 4,
                direction != RotateDirection::Rotate180,
                checks == rot.pattern_at(direction, p.index() * 4 + before_rotate.index()),
                small_offsets(checks),
                offsets@.len() == checks.len(),
                forall|k: int| 0 <= k < checks.len() ==> #[trigger] offsets@[k] == checks[k].0,
                j <= offsets@.len(),
                forall|k: int| 0 <= k < j ==> rotation_step(
                    field,
                    rot,
                    p,
                    direction,
                    s,
                    (before_rotate, x - (#[trigger] offsets@[k]).x, y - offsets@[k].y),
                ) ==> self.visited((before_rotate, x - offsets@[k].x, y - offsets@[k].y)),
            decreases offsets@.len() - j,
        {
            let o = offsets[j];
            let ghost tj = (before_rotate, x - o.x, y - o.y);
            let ghost before_step = *self;
            let fx: i8 = x as i8 - o.x;
            let fy: i8 = y as i8 - o.y;
            if fx >= 0 && fy >= 0 {
                let from_x = fx as u8;
                let from_y = fy as u8;
                if can_put_mino_in_field(field, mino_before, from_x, from_y) {
                    proof {
                        assert forall|k: int| #[trigger] kick_tried(
                            field,
                            p,
                            s.0,
                            signed_byte(from_x),
                            signed_byte(from_y),
                            checks,
                            k,
                        ) implies {
                            let to_x = signed_byte(from_x) + checks[k].0.x;
                            let to_y = signed_byte(from_y) + checks[k].0.y;
                            &&& -128 <= to_x <= 127
                            &&& -128 <= to_y <= 127
                            &&& field.boards().len() == 4 && -mino_min_x(p, s.0) <= to_x < 10 - mino_max_x(p, s.0)
                                && -mino_min_y(p, s.0) <= to_y ==> to_y < 26
                        } by {
                            assert(checks[k].0 == offsets@[k]);
                            if field.boards().len() == 4 {
                                assert(ay - 1 - checks[j as int].0.y + checks[k].0.y < 26);
                            }
                        }
                    }
                    let kick = rotation.get_kicks(field, mino_before, mino, from_x, from_y, direction);
                    let same = match kick {
                        Some(k) => k.x == o.x && k.y == o.y,
                        None => false,
                    };
                    if same {
                        let ghost budget = self.locked_cache.unvisited();
                        if self.check_inner(
                            field,
                            mino_before,
                            from_x,
                            from_y,
                            FromDirection::Neither,
                            Ghost(stack),
                            Ghost(budget),
                        ) {
                            proof {
                                assert(rotation_step(field, rot, p, direction, s, tj));
                            }
                            return true;
                        }
                    }
                }
            }
            proof {
                assert forall|k: int| 0 <= k < j + 1 implies rotation_step(
                    field,
                    rot,
                    p,
                    direction,
                    s,
                    (before_rotate, x - (#[trigger] offsets@[k]).x, y - offsets@[k].y),
                ) ==> self.visited((before_rotate, x - offsets@[k].x, y - offsets@[k].y)) by {
                    if k < j {
                        if rotation_step(field, rot, p, direction, s, (before_rotate, x - offsets@[k].x, y - offsets@[k].y)) {
                            assert(before_step.visited((before_rotate, x - offsets@[k].x, y - offsets@[k].y)));
                        }
                    }
                }
            }
            j = j + 1;
        }
        proof {
            assert forall|t: (Rotate, int, int)| rotation_step(field, rot, p, direction, s, t) implies self.visited(t) by {
                lemma_first_fit_in_range(field, p, s.0, t.1, t.2, checks, 0);
                let i = first_fit(field, p, s.0, t.1, t.2, checks, 0)->Some_0;
                assert(t == (before_rotate, x - offsets@[i].x, y - offsets@[i].y));
            }
        }
        false
    }

    /// Whether the piece of `mino` can be brought to `(x, y)` in the orientation of `mino`, or
    /// to a placement congruent with it, searching below row `valid_height`.
    pub fn checks<F: Field>(&mut self, field: &F, mino: &Mino, x: u8, y: u8, valid_height: u8) -> (r: bool)
        requires
            old(self).wf(),
            search_admits(field, old(self).rotation(), false, valid_height as int, old(self).max_y()),
            in_walls(mino.piece_of(), mino.rotate_of(), x as int, y as int),
            congruents_fit(mino.piece_of(), mino.rotate_of(), x, y),
            y < 26 || field.boards().len() != 4,
            field.can_put_spec(mino.piece_of(), mino.rotate_of(), x as int, y as int),
        ensures
            final(self).wf(),
            final(self).rotation() == old(self).rotation(),
            final(self).max_y() == old(self).max_y(),
            r == exists|a: MinimalAction| #[trigger] congruent_or_same(mino.piece_of(), mino.rotate_of(), x, y, a)
                && locked_reachable(
                field,
                old(self).rotation(),
                mino.piece_of(),
                valid_height as int,
                false,
                (a.rotate, a.x as int, a.y as int),
            ),
    {
        let ghost p = mino.piece_of();
        let ghost rot = self.mino_rotation;
        let ghost vh = valid_height as int;
        let piece = mino.get_piece();
        let rotate = mino.get_rotate();
        proof {
            assert forall|a: MinimalAction| #[trigger] congruent_or_same(p, rotate, x, y, a) implies a.x < 10 by {
                if a != (MinimalAction { x, y, rotate }) {
                    lemma_congruent_in_walls(p, rotate, a.rotate, x as int, y as int);
                    Mino::lemma_cells_in_bounds(p, a.rotate);
                }
            }
        }
        self.appear_y = valid_height;
        self.locked_cache.clear();
        let actions = self.mino_shifter.congruent_actions(piece, rotate, x, y);
        let mut i: usize = 0;
        while i < actions.len()
            invariant
                self.wf(),
                self.mino_rotation == rot,
                rot == old(self).mino_rotation,
                self.appear_y == valid_height,
                vh == valid_height,
                p == mino.piece_of(),
                piece == p,
                rotate == mino.rotate_of(),
                search_admits(field, rot, false, vh, self.locked_cache.height()),
                self.locked_cache.height() == old(self).max_y(),
                self.search_inv(field, p, Set::empty()),
                i <= actions@.len(),
                forall|a: MinimalAction| #[trigger] actions@.contains(a) <==> congruent_or_same(p, rotate, x, y, a),
                forall|a: MinimalAction| #[trigger] congruent_or_same(p, rotate, x, y, a) ==> a.x < 10,
                forall|k: int| 0 <= k < i ==> !locked_reachable(
                    field,
                    rot,
                    p,
                    vh,
                    false,
                    ((#[trigger] actions@[k]).rotate, actions@[k].x as int, actions@[k].y as int),
                ),
            decreases actions@.len() - i,
        {
            let a = actions[i];
            let factory = self.mino_factory;
            let m = factory.get(piece, a.rotate);
            proof {
                assert(actions@.contains(a));
            }
            let ghost budget = self.locked_cache.unvisited();
            if self.check_inner(field, m, a.x, a.y, FromDirection::Neither, Ghost(Set::empty()), Ghost(budget)) {
                proof {
                    assert(actions@.contains(a));
                }
                return true;
            }
            proof {
                let ghost me = *self;
                lemma_closed_unreachable(
                    field,
                    rot,
                    p,
                    vh,
                    false,
                    |v: (Rotate, int, int)| me.visited(v),
                    (a.rotate, a.x as int, a.y as int),
                );
            }
            i = i + 1;
        }
        proof {
            assert forall|a: MinimalAction| #[trigger] congruent_or_same(p, rotate, x, y, a) implies !locked_reachable(
                field,
                rot,
                p,
                vh,
                false,
                (a.rotate, a.x as int, a.y as int),
            ) by {
                assert(actions@.contains(a));
                let k = choose|k: int| 0 <= k < actions@.len() && actions@[k] == a;
                assert(!locked_reachable(field, rot, p, vh, false, (actions@[k].rotate, actions@[k].x as int, actions@[k].y as int)));
            }
        }
        false
    }

    /// Whether the piece of `mino` can be brought to `(x, y)` in the orientation of `mino`,
    /// searching below row `valid_height`.
    pub fn check<F: Field>(&mut self, field: &F, mino: &Mino, x: u8, y: u8, valid_height: u8) -> (r: bool)
        requires
            old(self).wf(),
            search_admits(field, old(self).rotation(), false, valid_height as int, old(self).max_y()),
            x < 10,
        ensures
            final(self).wf(),
            final(self).rotation() == old(self).rotation(),
            final(self).max_y() == old(self).max_y(),
            r == locked_reachable(
                field,
                old(self).rotation(),
                mino.piece_of(),
                valid_height as int,
                false,
                (mino.rotate_of(), x as int, y as int),
            ),
    {
        self.appear_y = valid_height;
        self.locked_cache.clear();
        let ghost budget = self.locked_cache.unvisited();
        let r = self.check_inner(field, mino, x, y, FromDirection::Neither, Ghost(Set::empty()), Ghost(budget));
        proof {
            if !r {
                let ghost me = *self;
                lemma_closed_unreachable(
                    field,
                    self.mino_rotation,
                    mino.piece_of(),
                    valid_height as int,
                    false,
                    |v: (Rotate, int, int)| me.visited(v),
                    (mino.rotate_of(), x as int, y as int),
                );
            }
        }
        r
    }
}

impl<'a, F: Field, R: MinoRotation> Reachable<F> for LockedReachable<'a, R> {
    open spec fn reachable_wf(&self) -> bool {
        self.wf()
    }

    open spec fn admits_checks(&self, field: &F, mino: &Mino, x: int, y: int, valid_height: int) -> bool {
        &&& search_admits(field, self.rotation(), false, valid_height, self.max_y())
        &&& in_walls(mino.piece_of(), mino.rotate_of(), x, y)
        &&& congruents_fit(mino.piece_of(), mino.rotate_of(), x as u8, y as u8)
        &&& y < 26 || field.boards().len() != 4
        &&& field.can_put_spec(mino.piece_of(), mino.rotate_of(), x, y)
    }

    open spec fn admits_check(&self, field: &F, mino: &Mino, x: int, y: int, valid_height: int) -> bool {
        &&& search_admits(field, self.rotation(), false, valid_height, self.max_y())
        &&& x < 10
    }

    open spec fn spec_checks(&self, field: &F, mino: &Mino, x: int, y: int, valid_height: int) -> bool {
        exists|a: MinimalAction| #[trigger] congruent_or_same(mino.piece_of(), mino.rotate_of(), x as u8, y as u8, a)
            && locked_reachable(
            field,
            self.rotation(),
            mino.piece_of(),
            valid_height,
            false,
            (a.rotate, a.x as int, a.y as int),
        )
    }

    open spec fn spec_check(&self, field: &F, mino: &Mino, x: int, y: int, valid_height: int) -> bool {
        locked_reachable(field, self.rotation(), mino.piece_of(), valid_height, false, (mino.rotate_of(), x, y))
    }

    fn checks(&mut self, field: &F, mino: &Mino, x: u8, y: u8, valid_height: u8) -> (r: bool) {
        LockedReachable::checks(self, field, mino, x, y, valid_height)
    }

    fn check(&mut self, field: &F, mino: &Mino, x: u8, y: u8, valid_height: u8) -> (r: bool) {
        LockedReachable::check(self, field, mino, x, y, valid_height)
    }
}

impl<'a, F: Field, R: MinoRotation> ILockedReachable<F> for LockedReachable<'a, R> {
}

} // verus!
