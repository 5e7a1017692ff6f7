//! Breadth-first flood fill: every cell reachable from a start cell
//! without crossing obstacles or leaving the board.
use vstd::prelude::*;
use crate::game::Coord;
use crate::game::Direction;
use crate::game::adjacent;
use crate::game::cell_index;
use crate::game::cell_index_spec;
use crate::game::coords_contains;
use crate::game::dims_ok;
use crate::game::in_bounds_spec;
use crate::game::lemma_cell_index_bound;
use crate::game::lemma_cell_index_injective;
use crate::game::lemma_in_bounds_can_step;
use crate::game::lemma_is_step_stepped;
use crate::game::stepped;
use crate::reachability::grid_set;
use crate::reachability::lemma_blocked_monotone;
use crate::reachability::lemma_blocked_start_unreachable;
use crate::reachability::lemma_closed_set_covers_reachable;
use crate::reachability::lemma_grid_finite;
use crate::reachability::lemma_reach_extend;
use crate::reachability::lemma_reach_refl;
use crate::reachability::reach_set;
use crate::reachability::reachable;
use crate::reachability::step_closed;
use vstd::set_lib::lemma_len_subset;

verus! {

broadcast use {vstd::seq_lib::lemma_seq_contains_after_push, Seq::lemma_index_contains};

/// The frontier/visited bookkeeping of one fill, in step.
spec fn fill_state_ok(
    queue: Seq<Coord>,
    visited: Seq<bool>,
    start: Coord,
    bset: Set<Coord>,
    w: int,
    h: int,
) -> bool {
    &&& visited.len() == w * h
    &&& queue.no_duplicates()
    &&& queue.len() >= 1 && queue[0] == start
    &&& forall|i: int|
        0 <= i < queue.len() ==> in_bounds_spec(#[trigger] queue[i], w, h) && !bset.contains(
            queue[i],
        ) && reachable(start, queue[i], bset, w, h)
    &&& forall|c: Coord|
        in_bounds_spec(c, w, h) ==> (visited[cell_index_spec(c, w)] <==> queue.contains(c))
}

/// Mark and enqueue `nb` when it is a new, in-bounds, unblocked cell.
fn visit_neighbor(
    nb: Coord,
    visited: &mut Vec<bool>,
    queue: &mut Vec<Coord>,
    blocked_coords: &Vec<Coord>,
    w: i32,
    h: i32,
    Ghost(start): Ghost<Coord>,
)
    requires
        dims_ok(w as int, h as int),
        fill_state_ok(
            old(queue)@,
            old(visited)@,
            start,
            blocked_coords@.to_set(),
            w as int,
            h as int,
        ),
        in_bounds_spec(nb, w as int, h as int) && !blocked_coords@.to_set().contains(nb)
            ==> reachable(start, nb, blocked_coords@.to_set(), w as int, h as int),
    ensures
        fill_state_ok(final(queue)@, final(visited)@, start, blocked_coords@.to_set(), w as int, h as int),
        in_bounds_spec(nb, w as int, h as int) && !blocked_coords@.to_set().contains(nb)
            ==> final(queue)@.contains(nb),
        final(queue)@ == old(queue)@ || final(queue)@ == old(queue)@.push(nb),
        forall|c: Coord| old(queue)@.contains(c) ==> final(queue)@.contains(c),
        final(queue)@.len() >= old(queue)@.len(),
{
    let ghost bset = blocked_coords@.to_set();
    let ghost old_queue = queue@;
    if 0 <= nb.x && 0 <= nb.y && nb.x < w && nb.y < h {
        if !coords_contains(blocked_coords, nb) {
            let ni = cell_index(nb, w, h);
            if !visited[ni] {
                visited[ni] = true;
                queue.push(nb);
                proof {
                    assert(!old_queue.contains(nb));
                    assert(queue@[queue@.len() - 1] == nb);
                    assert(queue@.contains(nb));
                    assert forall|c: Coord| old_queue.contains(c) implies queue@.contains(c) by {
                        let j = choose|j: int| 0 <= j < old_queue.len() && old_queue[j] == c;
                        assert(queue@[j] == c);
                    }
                    assert forall|c: Coord| in_bounds_spec(c, w as int, h as int) implies (
                    visited@[cell_index_spec(c, w as int)] <==> queue@.contains(c)) by {
                        lemma_cell_index_bound(c, w as int, h as int);
                        if c == nb {
                            assert(visited@[cell_index_spec(c, w as int)]);
                        } else {
                            lemma_cell_index_injective(c, nb, w as int, h as int);
                            assert(cell_index_spec(c, w as int) != cell_index_spec(
                                nb,
                                w as int,
                            ));
                            assert(visited@[cell_index_spec(c, w as int)] == old(
                                visited,
                            )@[cell_index_spec(c, w as int)]);
                            assert(queue@.contains(c) <==> old_queue.contains(c)) by {
                                if queue@.contains(c) {
                                    let j = choose|j: int|
                                        0 <= j < queue@.len() && queue@[j] == c;
                                    assert(j < old_queue.len());
                                    assert(old_queue[j] == c);
                                }
                                if old_queue.contains(c) {
                                    let j = choose|j: int|
                                        0 <= j < old_queue.len() && old_queue[j] == c;
                                    assert(queue@[j] == c);
                                }
                            }
                        }
                    }
                    assert(queue@.no_duplicates()) by {
                        assert(forall|i: int|
                            0 <= i < old_queue.len() ==> queue@[i] == old_queue[i]);
                    }
                }
            } else {
                proof {
                    assert(visited@[cell_index_spec(nb, w as int)]);
                    assert(queue@.contains(nb));
                }
            }
        }
    }
}

/// Every cell reachable from `start` on a `board_width` by
/// `board_height` board whose cells in `blocked_coords` are obstacles.
/// If `start` is itself blocked the result is empty; otherwise the
/// result holds each reachable cell exactly once, `start` included.
pub fn flood_fill(
    start: Coord,
    blocked_coords: &Vec<Coord>,
    board_width: i32,
    board_height: i32,
) -> (r: Vec<Coord>)
    requires
        dims_ok(board_width as int, board_height as int),
        in_bounds_spec(start, board_width as int, board_height as int),
    ensures
        r@.to_set() == reach_set(
            start,
            blocked_coords@.to_set(),
            board_width as int,
            board_height as int,
        ),
        r@.no_duplicates(),
        r@.len() == reach_set(
            start,
            blocked_coords@.to_set(),
            board_width as int,
            board_height as int,
        ).len(),
{
    let w = board_width;
    let h = board_height;
    let ghost bset = blocked_coords@.to_set();
    if coords_contains(blocked_coords, start) {
        let r: Vec<Coord> = Vec::new();
        proof {
            lemma_blocked_start_unreachable(start, bset, w as int, h as int);
            assert(r@.to_set() =~= reach_set(start, bset, w as int, h as int));
            r@.unique_seq_to_set();
        }
        return r;
    }
    let n_cells: usize = (w as usize) * (h as usize);
    let mut visited: Vec<bool> = Vec::new();
    while visited.len() < n_cells
        invariant
            visited@.len() <= n_cells,
            forall|i: int| 0 <= i < visited@.len() ==> !(#[trigger] visited@[i]),
        decreases n_cells - visited@.len(),
    {
        visited.push(false);
    }
    let mut queue: Vec<Coord> = Vec::new();
    let mut qhead: usize = 0;
    let mut result: Vec<Coord> = Vec::new();
    let si = cell_index(start, w, h);
    visited[si] = true;
    queue.push(start);
    proof {
        lemma_reach_refl(start, bset, w as int, h as int);
        lemma_grid_finite(w as int, h as int);
        assert forall|c: Coord| in_bounds_spec(c, w as int, h as int) implies (
        visited@[cell_index_spec(c, w as int)] <==> queue@.contains(c)) by {
            lemma_cell_index_bound(c, w as int, h as int);
            if c == start {
                assert(queue@[0] == start);
            } else {
                lemma_cell_index_injective(c, start, w as int, h as int);
                if queue@.contains(c) {
                    let j = choose|j: int| 0 <= j < queue@.len() && queue@[j] == c;
                }
            }
        }
        assert(fill_state_ok(queue@, visited@, start, bset, w as int, h as int));
    }
    while qhead < queue.len()
        invariant
            dims_ok(w as int, h as int),
            in_bounds_spec(start, w as int, h as int),
            bset == blocked_coords@.to_set(),
            !bset.contains(start),
            qhead <= queue@.len(),
            queue@.len() <= w * h,
            fill_state_ok(queue@, visited@, start, bset, w as int, h as int),
            result@ == queue@.take(qhead as int),
            forall|i: int, b: Coord|
                0 <= i < qhead && #[trigger] adjacent(queue@[i], b) && in_bounds_spec(
                    b,
                    w as int,
                    h as int,
                ) && !bset.contains(b) ==> queue@.contains(b),
        decreases w * h - qhead,
    {
        let current = queue[qhead];
        let ghost pre_queue = queue@;
        qhead += 1;
        result.push(current);
        proof {
            assert(result@ =~= queue@.take(qhead as int));
            lemma_in_bounds_can_step(current, w as int, h as int);
        }
        proof {
            assert(current == queue@[qhead as int - 1]);
            assert(reachable(start, current, bset, w as int, h as int));
        }
        let nb_left = current.next_coord_in_dir(&Direction::Left);
        proof {
            if in_bounds_spec(nb_left, w as int, h as int) && !bset.contains(nb_left) {
                lemma_reach_extend(start, current, nb_left, bset, w as int, h as int);
            }
        }
        visit_neighbor(nb_left, &mut visited, &mut queue, blocked_coords, w, h, Ghost(start));
        let nb_right = current.next_coord_in_dir(&Direction::Right);
        proof {
            if in_bounds_spec(nb_right, w as int, h as int) && !bset.contains(nb_right) {
                lemma_reach_extend(start, current, nb_right, bset, w as int, h as int);
            }
        }
        visit_neighbor(nb_right, &mut visited, &mut queue, blocked_coords, w, h, Ghost(start));
        let nb_up = current.next_coord_in_dir(&Direction::Up);
        proof {
            if in_bounds_spec(nb_up, w as int, h as int) && !bset.contains(nb_up) {
                lemma_reach_extend(start, current, nb_up, bset, w as int, h as int);
            }
        }
        visit_neighbor(nb_up, &mut visited, &mut queue, blocked_coords, w, h, Ghost(start));
        let nb_down = current.next_coord_in_dir(&Direction::Down);
        proof {
            if in_bounds_spec(nb_down, w as int, h as int) && !bset.contains(nb_down) {
                lemma_reach_extend(start, current, nb_down, bset, w as int, h as int);
            }
        }
        visit_neighbor(nb_down, &mut visited, &mut queue, blocked_coords, w, h, Ghost(start));
        proof {
            assert forall|i: int| 0 <= i < pre_queue.len() implies queue@[i] == pre_queue[i] by {}
            assert(result@ =~= queue@.take(qhead as int));
            assert forall|i: int, b: Coord|
                0 <= i < qhead && #[trigger] adjacent(queue@[i], b) && in_bounds_spec(
                    b,
                    w as int,
                    h as int,
                ) && !bset.contains(b) implies queue@.contains(b) by {
                if i < qhead - 1 {
                    assert(pre_queue[i] == queue@[i]);
                    assert(pre_queue.contains(b) ==> queue@.contains(b));
                } else {
                    assert(queue@[i] == current);
                    let d = choose|d: Direction| crate::game::is_step(current, b, d);
                    lemma_is_step_stepped(current, b, d);
                    assert(b == stepped(current, d));
                    match d {
                        Direction::Left => assert(b == nb_left),
                        Direction::Right => assert(b == nb_right),
                        Direction::Up => assert(b == nb_up),
                        Direction::Down => assert(b == nb_down),
                    }
                    assert(reachable(start, current, bset, w as int, h as int));
                    lemma_reach_extend(start, current, b, bset, w as int, h as int);
                }
            }
            assert(queue@.len() <= w * h) by {
                queue@.unique_seq_to_set();
                assert(queue@.to_set().subset_of(grid_set(w as int, h as int))) by {
                    assert forall|c: Coord| #[trigger] queue@.to_set().contains(c)
                        implies grid_set(w as int, h as int).contains(c) by {
                        let j = choose|j: int| 0 <= j < queue@.len() && queue@[j] == c;
                    }
                }
                lemma_grid_finite(w as int, h as int);
                lemma_len_subset(queue@.to_set(), grid_set(w as int, h as int));
            }
        }
    }
    proof {
        assert(result@ =~= queue@);
        assert(queue@.to_set() == reach_set(start, bset, w as int, h as int)) by {
            assert forall|c: Coord| #[trigger] queue@.to_set().contains(c)
                implies reach_set(start, bset, w as int, h as int).contains(c) by {
                let j = choose|j: int| 0 <= j < queue@.len() && queue@[j] == c;
                assert(reachable(start, queue@[j], bset, w as int, h as int));
            }
            assert(step_closed(queue@.to_set(), bset, w as int, h as int)) by {
                assert forall|a: Coord, b: Coord|
                    queue@.to_set().contains(a) && !bset.contains(a) && #[trigger] adjacent(a, b)
                        && in_bounds_spec(b, w as int, h as int) && !bset.contains(b)
                    implies #[trigger] queue@.to_set().contains(b) by {
                    let j = choose|j: int| 0 <= j < queue@.len() && queue@[j] == a;
                    assert(adjacent(queue@[j], b));
                }
            }
            assert(queue@.to_set().contains(start)) by {
                assert(queue@[0] == start);
            }
            lemma_closed_set_covers_reachable(queue@.to_set(), start, bset, w as int, h as int);
            assert(queue@.to_set() =~= reach_set(start, bset, w as int, h as int));
        }
        result@.unique_seq_to_set();
    }
    result
}

/// The fill is a function of its inputs alone: any two results over the
/// same start, obstacles and extents hold the same set of cells.
pub proof fn lemma_flood_fill_deterministic(
    r1: Seq<Coord>,
    r2: Seq<Coord>,
    start: Coord,
    blocked: Set<Coord>,
    w: int,
    h: int,
)
    requires
        r1.to_set() == reach_set(start, blocked, w, h),
        r2.to_set() == reach_set(start, blocked, w, h),
    ensures
        r1.to_set() == r2.to_set(),
{
}

/// Adding one obstacle never enlarges the reachable area.
pub proof fn lemma_flood_fill_add_obstacle(
    start: Coord,
    blocked: Set<Coord>,
    extra: Coord,
    w: int,
    h: int,
)
    requires
        dims_ok(w, h),
    ensures
        reach_set(start, blocked.insert(extra), w, h).subset_of(reach_set(start, blocked, w, h)),
        reach_set(start, blocked.insert(extra), w, h).len() <= reach_set(
            start,
            blocked,
            w,
            h,
        ).len(),
{
    lemma_blocked_monotone(start, blocked, blocked.insert(extra), w, h);
}

} // verus!
