//! The moves by which the locked searches walk back from a placement to the top of the field.
//!
//! A search state is a placement `(orientation, x, y)` of one piece. From a state the search
//! steps to the placements the piece could have come from: one row up, one column left or
//! right, or the placement from which a rotation brings the piece here. A state is a goal when
//! it is at or above the row where pieces appear, or when the piece can fall straight down to
//! it from the top of the field.
use vstd::prelude::*;
use super::common::in_walls;
use crate::common::datastore::coordinate::Coordinate;
use crate::sfinder_core::field::field::{Field, FieldBoards};
use crate::sfinder_core::mino::mino::{mino_max_x, mino_min_x, mino_min_y};
use crate::sfinder_core::mino::piece::Piece;
use crate::sfinder_core::srs::mino_rotation::{MinoRotation, first_fit, small_offsets};
use crate::sfinder_core::srs::rotate::Rotate;
use crate::sfinder_core::srs::rotate_direction::RotateDirection;

verus! {

/// Whether piece `p` in orientation `r` fits at `(x, y)` and at every row above it up to the
/// top of the field.
pub open spec fn drops_from_top<F: Field>(field: &F, p: Piece, r: Rotate, x: int, y: int) -> bool {
    forall|yy: int| y + 1 <= yy < 6 * field.boards().len() - mino_min_y(p, r) ==> #[trigger] field.can_put_spec(
        p,
        r,
        x,
        yy,
    )
}

/// The move of the first of the tests `checks` at which piece `p` in orientation `r`, rotated
/// from `(x, y)`, fits the field.
pub open spec fn kick_of<F: Field>(
    field: &F,
    p: Piece,
    r: Rotate,
    x: int,
    y: int,
    checks: Seq<(Coordinate, bool)>,
) -> Option<Coordinate> {
    match first_fit(field, p, r, x, y, checks, 0) {
        Some(i) => Some(checks[i].0),
        None => None,
    }
}

/// The orientation a rotation in `d` starts from to end in `r`.
pub open spec fn rotate_before(r: Rotate, d: RotateDirection) -> Rotate {
    r.spec_apply(d.spec_reverse())
}

/// Whether `t` is a placement from which a rotation in `d` brings piece `p` to `s`: the shape
/// at `t` lies within the field and overlaps no block, and the rotation's first fitting test
/// moves the center from `t` to `s`.
pub open spec fn rotation_step<F: Field, R: MinoRotation>(
    field: &F,
    rot: &R,
    p: Piece,
    d: RotateDirection,
    s: (Rotate, int, int),
    t: (Rotate, int, int),
) -> bool {
    let b = rotate_before(s.0, d);
    let checks = rot.pattern_at(d, p.index() * 4 + b.index());
    &&& t.0 == b
    &&& in_walls(p, b, t.1, t.2)
    &&& field.can_put_spec(p, b, t.1, t.2)
    &&& kick_of(field, p, s.0, t.1, t.2, checks) matches Some(o) && o.x == s.1 - t.1 && o.y == s.2 - t.2
}

/// Whether the search steps from `s` to `t`: one row up below the appearing row, one column
/// left or right within the walls, or back over a rotation; each to a placement where the
/// piece overlaps no block.
pub open spec fn locked_step<F: Field, R: MinoRotation>(
    field: &F,
    rot: &R,
    p: Piece,
    appear_y: int,
    with_180: bool,
    s: (Rotate, int, int),
    t: (Rotate, int, int),
) -> bool {
    ||| t == (s.0, s.1, s.2 + 1) && s.2 + 1 < appear_y && field.can_put_spec(p, s.0, s.1, s.2 + 1)
    ||| t == (s.0, s.1 - 1, s.2) && 1 <= s.1 && -mino_min_x(p, s.0) <= s.1 - 1 && field.can_put_spec(
        p,
        s.0,
        s.1 - 1,
        s.2,
    )
    ||| t == (s.0, s.1 + 1, s.2) && s.1 + 1 < 10 - mino_max_x(p, s.0) && field.can_put_spec(p, s.0, s.1 + 1, s.2)
    ||| rotation_step(field, rot, p, RotateDirection::Clockwise, s, t)
    ||| rotation_step(field, rot, p, RotateDirection::CounterClockwise, s, t)
    ||| with_180 && rotation_step(field, rot, p, RotateDirection::Rotate180, s, t)
}

/// Whether the search stops with success at `s`.
pub open spec fn locked_goal<F: Field>(field: &F, p: Piece, appear_y: int, s: (Rotate, int, int)) -> bool {
    s.2 >= appear_y || drops_from_top(field, p, s.0, s.1, s.2)
}

/// A walk of the search that ends at a goal.
pub open spec fn is_locked_path<F: Field, R: MinoRotation>(
    field: &F,
    rot: &R,
    p: Piece,
    appear_y: int,
    with_180: bool,
    path: Seq<(Rotate, int, int)>,
) -> bool {
    &&& path.len() >= 1
    &&& locked_goal(field, p, appear_y, path.last())
    &&& forall|i: int| 0 <= i < path.len() - 1 ==> locked_step(field, rot, p, appear_y, with_180, #[trigger] path[i], path[i + 1])
}

/// Whether piece `p` can be brought from the top of the field to placement `s` by the moves of
/// the search: some walk from `s` ends at a goal.
pub open spec fn locked_reachable<F: Field, R: MinoRotation>(
    field: &F,
    rot: &R,
    p: Piece,
    appear_y: int,
    with_180: bool,
    s: (Rotate, int, int),
) -> bool {
    exists|path: Seq<(Rotate, int, int)>| #[trigger] is_locked_path(field, rot, p, appear_y, with_180, path) && path[0] == s
}

/// A goal is reachable.
pub proof fn lemma_goal_reachable<F: Field, R: MinoRotation>(
    field: &F,
    rot: &R,
    p: Piece,
    appear_y: int,
    with_180: bool,
    s: (Rotate, int, int),
)
    requires
        locked_goal(field, p, appear_y, s),
    ensures
        locked_reachable(field, rot, p, appear_y, with_180, s),
{
    let path = seq![s];
    assert(is_locked_path(field, rot, p, appear_y, with_180, path));
}

/// A step to a reachable placement makes the placement stepped from reachable.
pub proof fn lemma_step_reachable<F: Field, R: MinoRotation>(
    field: &F,
    rot: &R,
    p: Piece,
    appear_y: int,
    with_180: bool,
    s: (Rotate, int, int),
    t: (Rotate, int, int),
)
    requires
        locked_step(field, rot, p, appear_y, with_180, s, t),
        locked_reachable(field, rot, p, appear_y, with_180, t),
    ensures
        locked_reachable(field, rot, p, appear_y, with_180, s),
{
    let path = choose|path: Seq<(Rotate, int, int)>| #[trigger] is_locked_path(field, rot, p, appear_y, with_180, path) && path[0] == t;
    let longer = seq![s] + path;
    assert forall|i: int| 0 <= i < longer.len() - 1 implies locked_step(
        field,
        rot,
        p,
        appear_y,
        with_180,
        #[trigger] longer[i],
        longer[i + 1],
    ) by {
        if i > 0 {
            assert(longer[i] == path[i - 1]);
            assert(longer[i + 1] == path[i]);
        }
    }
    assert(longer.last() == path.last());
    assert(is_locked_path(field, rot, p, appear_y, with_180, longer));
}

/// A set of placements that holds no goal and holds every step from each of its placements
/// holds no reachable placement.
pub proof fn lemma_closed_unreachable<F: Field, R: MinoRotation>(
    field: &F,
    rot: &R,
    p: Piece,
    appear_y: int,
    with_180: bool,
    visited: spec_fn((Rotate, int, int)) -> bool,
    s: (Rotate, int, int),
)
    requires
        forall|v: (Rotate, int, int)| #[trigger] visited(v) ==> !locked_goal(field, p, appear_y, v),
        forall|v: (Rotate, int, int), t: (Rotate, int, int)| visited(v) && #[trigger] locked_step(
            field,
            rot,
            p,
            appear_y,
            with_180,
            v,
            t,
        ) ==> visited(t),
        visited(s),
    ensures
        !locked_reachable(field, rot, p, appear_y, with_180, s),
{
    if locked_reachable(field, rot, p, appear_y, with_180, s) {
        let path = choose|path: Seq<(Rotate, int, int)>| #[trigger] is_locked_path(field, rot, p, appear_y, with_180, path) && path[0] == s;
        lemma_path_stays(field, rot, p, appear_y, with_180, visited, path, 0);
        assert(visited(path.last()));
    }
}

proof fn lemma_path_stays<F: Field, R: MinoRotation>(
    field: &F,
    rot: &R,
    p: Piece,
    appear_y: int,
    with_180: bool,
    visited: spec_fn((Rotate, int, int)) -> bool,
    path: Seq<(Rotate, int, int)>,
    i: int,
)
    requires
        forall|v: (Rotate, int, int), t: (Rotate, int, int)| visited(v) && #[trigger] locked_step(
            field,
            rot,
            p,
            appear_y,
            with_180,
            v,
            t,
        ) ==> visited(t),
        is_locked_path(field, rot, p, appear_y, with_180, path),
        0 <= i < path.len(),
        visited(path[i]),
    ensures
        visited(path.last()),
    decreases path.len() - i,
{
    if i < path.len() - 1 {
        assert(locked_step(field, rot, p, appear_y, with_180, path[i], path[i + 1]));
        lemma_path_stays(field, rot, p, appear_y, with_180, visited, path, i + 1);
    }
}

/// The first fitting test, where there is one, is a test of the list.
pub proof fn lemma_first_fit_in_range<F: Field>(
    field: &F,
    p: Piece,
    r: Rotate,
    x: int,
    y: int,
    checks: Seq<(Coordinate, bool)>,
    from: int,
)
    requires
        0 <= from,
    ensures
        first_fit(field, p, r, x, y, checks, from) matches Some(i) ==> from <= i < checks.len(),
    decreases checks.len() - from,
{
    if from < checks.len() {
        lemma_first_fit_in_range(field, p, r, x, y, checks, from + 1);
    }
}

/// Tests that keep every placement reached by a rotation from below row `appear_y` under row
/// 26: no test moves down by `27 - appear_y` rows or more, and any two tests of a rotation
/// differ by less than that.
pub open spec fn kicks_stay_below<R: MinoRotation>(rot: &R, with_180: bool, appear_y: int) -> bool {
    forall|d: RotateDirection, i: int, j: int, k: int|
        (d != RotateDirection::Rotate180 || with_180) && 0 <= i < 28 && 0 <= j < rot.pattern_at(d, i).len() && 0 <= k
            < rot.pattern_at(d, i).len() ==> appear_y - 1 - #[trigger] rot.pattern_at(d, i)[j].0.y
            + #[trigger] rot.pattern_at(d, i)[k].0.y < 26 && appear_y - 1 - rot.pattern_at(d, i)[j].0.y < 26
}

/// What a locked search needs of its field and rotation system to search below row
/// `appear_y` with a cache of `cache_height` rows: the cache covers those rows, and on a field
/// of four boards no test looks past the rows the field can check.
pub open spec fn search_admits<F: Field, R: MinoRotation>(
    field: &F,
    rot: &R,
    with_180: bool,
    appear_y: int,
    cache_height: int,
) -> bool {
    &&& appear_y <= cache_height
    &&& field.boards().len() == 4 ==> appear_y <= 26 && kicks_stay_below(rot, with_180, appear_y)
}

} // verus!
