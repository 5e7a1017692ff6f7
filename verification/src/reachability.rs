//! Reachability over the grid: paths of unblocked cells, the reachable
//! set of a start cell, and the counting lemmas shared by the flood fill
//! and shortest-path engines.
use vstd::prelude::*;
use crate::game::Coord;
use crate::game::adjacent;
use crate::game::in_bounds_spec;
use crate::game::dims_ok;
use crate::game::cell_index_spec;
use crate::game::is_step;
use vstd::set_lib::set_int_range;
use vstd::set_lib::lemma_int_range;
use vstd::set_lib::lemma_map_size;
use vstd::set_lib::lemma_len_subset;
use vstd::arithmetic::div_mod::lemma_fundamental_div_mod;
use vstd::arithmetic::div_mod::lemma_fundamental_div_mod_converse;
use vstd::arithmetic::div_mod::lemma_mod_bound;

verus! {

/// `p` is a walk from `a` to `b`: every cell is in bounds and unblocked,
/// and consecutive cells are 4-connected.
pub open spec fn is_path(
    p: Seq<Coord>,
    a: Coord,
    b: Coord,
    blocked: Set<Coord>,
    w: int,
    h: int,
) -> bool {
    &&& p.len() >= 1
    &&& p[0] == a
    &&& p[p.len() - 1] == b
    &&& forall|i: int|
        0 <= i < p.len() ==> in_bounds_spec(#[trigger] p[i], w, h) && !blocked.contains(p[i])
    &&& forall|i: int| 0 <= i < p.len() - 1 ==> adjacent(#[trigger] p[i], p[i + 1])
}

/// `b` can be reached from `a` without touching a blocked cell or
/// leaving the board.
pub open spec fn reachable(a: Coord, b: Coord, blocked: Set<Coord>, w: int, h: int) -> bool {
    exists|p: Seq<Coord>| is_path(p, a, b, blocked, w, h)
}

/// Every cell reachable from `a`.
pub open spec fn reach_set(a: Coord, blocked: Set<Coord>, w: int, h: int) -> Set<Coord> {
    Set::new(|c: Coord| reachable(a, c, blocked, w, h))
}

/// Every cell of the `w` by `h` board.
pub open spec fn grid_set(w: int, h: int) -> Set<Coord> {
    Set::new(|c: Coord| in_bounds_spec(c, w, h))
}

/// `s` absorbs every step leaving one of its unblocked members.
pub open spec fn step_closed(s: Set<Coord>, blocked: Set<Coord>, w: int, h: int) -> bool {
    forall|a: Coord, b: Coord|
        #![trigger s.contains(a), adjacent(a, b)]
        s.contains(a) && !blocked.contains(a) && adjacent(a, b) && in_bounds_spec(b, w, h)
            && !blocked.contains(b) ==> s.contains(b)
}

/// An unblocked in-bounds cell reaches itself.
pub proof fn lemma_reach_refl(a: Coord, blocked: Set<Coord>, w: int, h: int)
    requires
        in_bounds_spec(a, w, h),
        !blocked.contains(a),
    ensures
        reachable(a, a, blocked, w, h),
{
    let p: Seq<Coord> = seq![a];
    assert(is_path(p, a, a, blocked, w, h));
}

/// A reachable cell is in bounds and unblocked.
pub proof fn lemma_reachable_props(a: Coord, b: Coord, blocked: Set<Coord>, w: int, h: int)
    requires
        reachable(a, b, blocked, w, h),
    ensures
        in_bounds_spec(a, w, h),
        in_bounds_spec(b, w, h),
        !blocked.contains(a),
        !blocked.contains(b),
{
    let p = choose|p: Seq<Coord>| is_path(p, a, b, blocked, w, h);
    assert(in_bounds_spec(p[0], w, h) && !blocked.contains(p[0]));
    assert(in_bounds_spec(p[p.len() - 1], w, h) && !blocked.contains(p[p.len() - 1]));
}

/// Reachability extends along one unblocked in-bounds step.
pub proof fn lemma_reach_extend(
    a: Coord,
    b: Coord,
    c: Coord,
    blocked: Set<Coord>,
    w: int,
    h: int,
)
    requires
        reachable(a, b, blocked, w, h),
        adjacent(b, c),
        in_bounds_spec(c, w, h),
        !blocked.contains(c),
    ensures
        reachable(a, c, blocked, w, h),
{
    let p = choose|p: Seq<Coord>| is_path(p, a, b, blocked, w, h);
    let q = p.push(c);
    assert forall|i: int| 0 <= i < q.len() - 1 implies adjacent(#[trigger] q[i], q[i + 1]) by {
        if i < p.len() - 1 {
            assert(adjacent(p[i], p[i + 1]));
        } else {
            assert(q[i] == b && q[i + 1] == c);
        }
    }
    assert(is_path(q, a, c, blocked, w, h));
}

/// Every cell on a path lands in a step-closed set that holds the
/// path's start.
proof fn lemma_path_in_closed_set(
    s: Set<Coord>,
    a: Coord,
    blocked: Set<Coord>,
    w: int,
    h: int,
    p: Seq<Coord>,
)
    requires
        s.contains(a),
        step_closed(s, blocked, w, h),
        is_path(p, a, p[p.len() - 1], blocked, w, h),
    ensures
        s.contains(p[p.len() - 1]),
    decreases p.len(),
{
    if p.len() == 1 {
        assert(p[0] == a);
    } else {
        let q = p.drop_last();
        assert(q[q.len() - 1] == p[p.len() - 2]);
        assert forall|i: int|
            0 <= i < q.len() implies in_bounds_spec(#[trigger] q[i], w, h)
                && !blocked.contains(q[i]) by {
            assert(q[i] == p[i]);
            assert(in_bounds_spec(p[i], w, h) && !blocked.contains(p[i]));
        }
        assert forall|i: int| 0 <= i < q.len() - 1 implies adjacent(#[trigger] q[i], q[i + 1]) by {
            assert(adjacent(p[i], p[i + 1]));
        }
        assert(is_path(q, a, q[q.len() - 1], blocked, w, h));
        lemma_path_in_closed_set(s, a, blocked, w, h, q);
        assert(adjacent(p[p.len() - 2], p[p.len() - 1]));
        assert(s.contains(p[p.len() - 2]) && !blocked.contains(p[p.len() - 2]));
        assert(in_bounds_spec(p[p.len() - 1], w, h) && !blocked.contains(p[p.len() - 1]));
    }
}

/// A step-closed set holding `a` covers everything reachable from `a`.
pub proof fn lemma_closed_set_covers_reachable(
    s: Set<Coord>,
    a: Coord,
    blocked: Set<Coord>,
    w: int,
    h: int,
)
    requires
        s.contains(a),
        step_closed(s, blocked, w, h),
    ensures
        forall|c: Coord| reachable(a, c, blocked, w, h) ==> s.contains(c),
{
    assert forall|c: Coord| reachable(a, c, blocked, w, h) implies s.contains(c) by {
        let p = choose|p: Seq<Coord>| is_path(p, a, c, blocked, w, h);
        lemma_path_in_closed_set(s, a, blocked, w, h, p);
    }
}

/// Row-major indexing splits back into row and column.
proof fn lemma_unflatten_bounds(i: int, w: int, h: int)
    requires
        1 <= w,
        1 <= h,
        0 <= i < w * h,
    ensures
        0 <= i % w < w,
        0 <= i / w < h,
        (i / w) * w + (i % w) == i,
{
    lemma_fundamental_div_mod(i, w);
    lemma_mod_bound(i, w);
    assert(0 <= i / w < h && (i / w) * w + (i % w) == i) by (nonlinear_arith)
        requires
            1 <= w,
            1 <= h,
            0 <= i < w * h,
            i == w * (i / w) + (i % w),
            0 <= i % w < w,
    ;
}

/// The board holds exactly `w * h` cells.
pub proof fn lemma_grid_finite(w: int, h: int)
    requires
        dims_ok(w, h),
    ensures
        grid_set(w, h).finite(),
        grid_set(w, h).len() == w * h,
{
    let idxs = set_int_range(0, w * h);
    let f = |i: int| Coord { x: (i % w) as i32, y: (i / w) as i32 };
    lemma_int_range(0, w * h);
    assert(vstd::relations::injective_on(f, idxs)) by {
        assert forall|i1: int, i2: int|
            idxs.contains(i1) && idxs.contains(i2) && #[trigger] f(i1) == #[trigger] f(i2)
                implies i1 == i2 by {
            lemma_unflatten_bounds(i1, w, h);
            lemma_unflatten_bounds(i2, w, h);
            assert(i1 % w == i2 % w && i1 / w == i2 / w);
        }
    }
    assert(idxs.map(f) =~= grid_set(w, h)) by {
        assert forall|c: Coord| #[trigger] idxs.map(f).contains(c)
            implies grid_set(w, h).contains(c) by {
            let i = choose|i: int| idxs.contains(i) && c == f(i);
            lemma_unflatten_bounds(i, w, h);
        }
        assert forall|c: Coord| #[trigger] grid_set(w, h).contains(c)
            implies idxs.map(f).contains(c) by {
            let i = cell_index_spec(c, w);
            crate::game::lemma_cell_index_bound(c, w, h);
            lemma_fundamental_div_mod_converse(i, w, c.y as int, c.x as int);
            assert(idxs.contains(i) && c == f(i));
        }
    }
    lemma_map_size(idxs, grid_set(w, h), f);
}

/// The reachable set is finite and no larger than the board.
pub proof fn lemma_reach_set_bounded(a: Coord, blocked: Set<Coord>, w: int, h: int)
    requires
        dims_ok(w, h),
    ensures
        reach_set(a, blocked, w, h).finite(),
        reach_set(a, blocked, w, h).len() <= w * h,
        reach_set(a, blocked, w, h).subset_of(grid_set(w, h)),
{
    lemma_grid_finite(w, h);
    assert forall|c: Coord| #[trigger] reach_set(a, blocked, w, h).contains(c)
        implies grid_set(w, h).contains(c) by {
        lemma_reachable_props(a, c, blocked, w, h);
    }
    lemma_len_subset(reach_set(a, blocked, w, h), grid_set(w, h));
}

/// A start cell inside the obstacle set reaches nothing at all.
pub proof fn lemma_blocked_start_unreachable(a: Coord, blocked: Set<Coord>, w: int, h: int)
    requires
        blocked.contains(a),
    ensures
        reach_set(a, blocked, w, h) =~= Set::<Coord>::empty(),
{
    assert forall|c: Coord| !(#[trigger] reach_set(a, blocked, w, h).contains(c)) by {
        if reachable(a, c, blocked, w, h) {
            lemma_reachable_props(a, c, blocked, w, h);
        }
    }
}

/// Enlarging the obstacle set never enlarges the reachable set: every
/// walk that avoids the larger set avoids the smaller one.
pub proof fn lemma_blocked_monotone(
    a: Coord,
    blocked1: Set<Coord>,
    blocked2: Set<Coord>,
    w: int,
    h: int,
)
    requires
        dims_ok(w, h),
        blocked1.subset_of(blocked2),
    ensures
        reach_set(a, blocked2, w, h).subset_of(reach_set(a, blocked1, w, h)),
        reach_set(a, blocked2, w, h).len() <= reach_set(a, blocked1, w, h).len(),
{
    assert forall|c: Coord| #[trigger] reach_set(a, blocked2, w, h).contains(c)
        implies reach_set(a, blocked1, w, h).contains(c) by {
        let p = choose|p: Seq<Coord>| is_path(p, a, c, blocked2, w, h);
        assert forall|i: int|
            0 <= i < p.len() implies in_bounds_spec(#[trigger] p[i], w, h)
                && !blocked1.contains(p[i]) by {
            assert(in_bounds_spec(p[i], w, h) && !blocked2.contains(p[i]));
        }
        assert(is_path(p, a, c, blocked1, w, h));
    }
    lemma_reach_set_bounded(a, blocked1, w, h);
    lemma_grid_finite(w, h);
    lemma_len_subset(reach_set(a, blocked2, w, h), reach_set(a, blocked1, w, h));
}

/// On an empty board the bottom-left corner reaches the whole grid.
proof fn lemma_origin_reaches(c: Coord, w: int, h: int)
    requires
        dims_ok(w, h),
        in_bounds_spec(c, w, h),
    ensures
        reachable(Coord { x: 0, y: 0 }, c, Set::<Coord>::empty(), w, h),
    decreases c.x + c.y,
{
    let origin = Coord { x: 0, y: 0 };
    let empty = Set::<Coord>::empty();
    if c.x == 0 && c.y == 0 {
        lemma_reach_refl(origin, empty, w, h);
    } else if c.x > 0 {
        let b = Coord { x: (c.x - 1) as i32, y: c.y };
        lemma_origin_reaches(b, w, h);
        assert(is_step(b, c, crate::game::Direction::Right));
        lemma_reach_extend(origin, b, c, empty, w, h);
    } else {
        let b = Coord { x: c.x, y: (c.y - 1) as i32 };
        lemma_origin_reaches(b, w, h);
        assert(is_step(b, c, crate::game::Direction::Up));
        lemma_reach_extend(origin, b, c, empty, w, h);
    }
}

/// With no obstacles, the fill from the bottom-left corner covers the
/// whole board: exactly `w * h` cells.
pub proof fn lemma_full_board_fill(w: int, h: int)
    requires
        dims_ok(w, h),
    ensures
        reach_set(Coord { x: 0, y: 0 }, Set::<Coord>::empty(), w, h) =~= grid_set(w, h),
        reach_set(Coord { x: 0, y: 0 }, Set::<Coord>::empty(), w, h).len() == w * h,
{
    let origin = Coord { x: 0, y: 0 };
    let empty = Set::<Coord>::empty();
    assert forall|c: Coord| #[trigger] grid_set(w, h).contains(c)
        implies reach_set(origin, empty, w, h).contains(c) by {
        lemma_origin_reaches(c, w, h);
    }
    assert forall|c: Coord| #[trigger] reach_set(origin, empty, w, h).contains(c)
        implies grid_set(w, h).contains(c) by {
        lemma_reachable_props(origin, c, empty, w, h);
    }
    lemma_grid_finite(w, h);
    assert(reach_set(origin, empty, w, h) =~= grid_set(w, h));
}

} // verus!
