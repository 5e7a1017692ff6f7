//! Single-source shortest paths over the grid: Dijkstra with unit edge
//! weights, a lazily-deleted frontier, distance lookup, path
//! reconstruction and nearest-goal direction extraction.
use vstd::prelude::*;
use crate::game::Coord;
use crate::game::Direction;
use crate::game::adjacent;
use crate::game::all_directions;
use crate::game::can_step;
use crate::game::cell_index;
use crate::game::cell_index_spec;
use crate::game::coords_contains;
use crate::game::dims_ok;
use crate::game::direction_between;
use crate::game::get_direction_from_to;
use crate::game::in_bounds_spec;
use crate::game::is_step;
use crate::game::lemma_cell_index_bound;
use crate::game::lemma_cell_index_injective;
use crate::game::lemma_in_bounds_can_step;
use crate::game::lemma_is_step_stepped;
use crate::game::stepped;
use crate::reachability::grid_set;
use crate::reachability::is_path;
use crate::reachability::lemma_closed_set_covers_reachable;
use crate::reachability::lemma_grid_finite;
use crate::reachability::lemma_reach_extend;
use crate::reachability::lemma_reach_refl;
use crate::reachability::lemma_reachable_props;
use crate::reachability::reachable;
use vstd::math::abs;
use vstd::set_lib::lemma_len_subset;

verus! {

broadcast use {vstd::seq_lib::lemma_seq_contains_after_push, Seq::lemma_index_contains};

/// One pending frontier entry; stale duplicates are allowed and
/// discarded when popped.
struct DijkQueueItem {
    estimated_cost: u32,
    position: Coord,
}

/// The outcome of one Dijkstra run: for every cell its least hop count
/// from `start` (`u32::MAX` when unreached) and its predecessor on a
/// shortest path.
#[derive(Debug, Clone)]
pub struct DijkResult {
    start: Coord,
    width: i32,
    height: i32,
    distances: Vec<u32>,
    predecessors: Vec<Option<Coord>>,
}

/// Distance recorded for `c` in the flat row-major table `dd`.
spec fn dist_at(dd: Seq<u32>, c: Coord, w: int, h: int) -> u32 {
    if in_bounds_spec(c, w, h) {
        dd[cell_index_spec(c, w)]
    } else {
        u32::MAX
    }
}

/// Predecessor recorded for `c` in the flat row-major table `pp`.
spec fn pred_at(pp: Seq<Option<Coord>>, c: Coord, w: int, h: int) -> Option<Coord> {
    if in_bounds_spec(c, w, h) {
        pp[cell_index_spec(c, w)]
    } else {
        None
    }
}

/// The cells whose recorded distance is finite.
spec fn finite_cells(dd: Seq<u32>, w: int, h: int) -> Set<Coord> {
    Set::new(|c: Coord| in_bounds_spec(c, w, h) && dist_at(dd, c, w, h) < u32::MAX)
}

/// Some pending entry names position `p`.
spec fn qhas(q: Seq<DijkQueueItem>, p: Coord) -> bool {
    exists|k: int| 0 <= k < q.len() && q[k].position == p
}

/// The duties of a cell with no pending entry: its neighbors have been
/// offered a relaxation, and every cell it is recorded as preceding sits
/// exactly one hop further.
spec fn settled_ok(dd: Seq<u32>, pp: Seq<Option<Coord>>, a: Coord, w: int, h: int) -> bool {
    &&& forall|b: Coord| #![trigger adjacent(a, b)]
        adjacent(a, b) && in_bounds_spec(b, w, h) ==> dist_at(dd, b, w, h) <= dist_at(
            dd,
            a,
            w,
            h,
        ) + 1
    &&& forall|c: Coord| #![trigger pred_at(pp, c, w, h)]
        pred_at(pp, c, w, h) == Some(a) ==> dist_at(dd, c, w, h) == dist_at(dd, a, w, h) + 1
}

/// Every unblocked finite cell except `ex` either has a pending entry
/// or has discharged its duties.
spec fn duties_except(
    dd: Seq<u32>,
    pp: Seq<Option<Coord>>,
    q: Seq<DijkQueueItem>,
    ex: Coord,
    bset: Set<Coord>,
    w: int,
    h: int,
) -> bool {
    forall|a: Coord| #![trigger dist_at(dd, a, w, h)]
        in_bounds_spec(a, w, h) && !bset.contains(a) && dist_at(dd, a, w, h) < u32::MAX && !qhas(
            q,
            a,
        ) && a != ex ==> settled_ok(dd, pp, a, w, h)
}

/// Every unblocked finite cell either has a pending entry or has
/// discharged its duties.
spec fn duty_inv(
    dd: Seq<u32>,
    pp: Seq<Option<Coord>>,
    q: Seq<DijkQueueItem>,
    bset: Set<Coord>,
    w: int,
    h: int,
) -> bool {
    forall|a: Coord| #![trigger dist_at(dd, a, w, h)]
        in_bounds_spec(a, w, h) && !bset.contains(a) && dist_at(dd, a, w, h) < u32::MAX && !qhas(
            q,
            a,
        ) ==> settled_ok(dd, pp, a, w, h)
}

/// What a recorded predecessor means: `c` is a non-start cell one hop
/// past an unblocked finite neighbor.
spec fn pred_ok(
    dd: Seq<u32>,
    pp: Seq<Option<Coord>>,
    c: Coord,
    start: Coord,
    bset: Set<Coord>,
    w: int,
    h: int,
) -> bool {
    pred_at(pp, c, w, h) matches Some(p) ==> {
        &&& c != start
        &&& in_bounds_spec(c, w, h)
        &&& dist_at(dd, c, w, h) < u32::MAX
        &&& in_bounds_spec(p, w, h)
        &&& !bset.contains(p)
        &&& adjacent(p, c)
        &&& dist_at(dd, p, w, h) < u32::MAX
        &&& dist_at(dd, c, w, h) >= dist_at(dd, p, w, h) + 1
    }
}

/// The running state of one search: table sizes, the start anchored at
/// distance zero, the finite-cell count, and the predecessor structure.
spec fn core_inv(
    dd: Seq<u32>,
    pp: Seq<Option<Coord>>,
    q: Seq<DijkQueueItem>,
    num: int,
    start: Coord,
    bset: Set<Coord>,
    w: int,
    h: int,
) -> bool {
    &&& dims_ok(w, h)
    &&& in_bounds_spec(start, w, h)
    &&& dd.len() == w * h
    &&& pp.len() == w * h
    &&& dist_at(dd, start, w, h) == 0
    &&& pred_at(pp, start, w, h) is None
    &&& 1 <= num <= w * h
    &&& finite_cells(dd, w, h).finite()
    &&& finite_cells(dd, w, h).len() == num
    &&& forall|c: Coord| #![trigger dist_at(dd, c, w, h)]
        dist_at(dd, c, w, h) < u32::MAX ==> dist_at(dd, c, w, h) < num
    &&& forall|c: Coord| #![trigger pred_at(pp, c, w, h)] pred_ok(dd, pp, c, start, bset, w, h)
    &&& forall|c: Coord| #![trigger dist_at(dd, c, w, h)]
        in_bounds_spec(c, w, h) && c != start && dist_at(dd, c, w, h) < u32::MAX ==> pred_at(
            pp,
            c,
            w,
            h,
        ) is Some
    &&& forall|k: int|
        0 <= k < q.len() ==> in_bounds_spec((#[trigger] q[k]).position, w, h) && dist_at(
            dd,
            q[k].position,
            w,
            h,
        ) < u32::MAX
}

/// `v` capped at `cap`, used by the termination measure.
spec fn capped(v: u32, cap: int) -> int {
    if v as int > cap {
        cap
    } else {
        v as int
    }
}

/// Sum of all capped table entries: strictly shrinks on every
/// successful relaxation.
spec fn capped_sum(dd: Seq<u32>, cap: int) -> int
    decreases dd.len(),
{
    if dd.len() == 0 {
        0
    } else {
        capped_sum(dd.drop_last(), cap) + capped(dd.last(), cap)
    }
}

proof fn lemma_capped_sum_nonneg(dd: Seq<u32>, cap: int)
    requires
        cap >= 0,
    ensures
        capped_sum(dd, cap) >= 0,
    decreases dd.len(),
{
    if dd.len() > 0 {
        lemma_capped_sum_nonneg(dd.drop_last(), cap);
    }
}

proof fn lemma_capped_sum_update(dd: Seq<u32>, i: int, v: u32, cap: int)
    requires
        0 <= i < dd.len(),
    ensures
        capped_sum(dd.update(i, v), cap) == capped_sum(dd, cap) - capped(dd[i], cap) + capped(
            v,
            cap,
        ),
    decreases dd.len(),
{
    let du = dd.update(i, v);
    if i == dd.len() - 1 {
        assert(du.drop_last() =~= dd.drop_last());
        assert(du.last() == v);
    } else {
        assert(du.drop_last() =~= dd.drop_last().update(i, v));
        assert(du.last() == dd.last());
        lemma_capped_sum_update(dd.drop_last(), i, v, cap);
        assert(dd.drop_last()[i] == dd[i]);
    }
}

/// How `dist_at` reads after one table update.
proof fn lemma_dist_at_update(dd: Seq<u32>, nb: Coord, v: u32, w: int, h: int)
    requires
        dims_ok(w, h),
        dd.len() == w * h,
        in_bounds_spec(nb, w, h),
    ensures
        forall|c: Coord| #![trigger dist_at(dd.update(cell_index_spec(nb, w), v), c, w, h)]
            dist_at(dd.update(cell_index_spec(nb, w), v), c, w, h) == if c == nb {
                v
            } else {
                dist_at(dd, c, w, h)
            },
{
    lemma_cell_index_bound(nb, w, h);
    assert forall|c: Coord|
        dist_at(dd.update(cell_index_spec(nb, w), v), c, w, h) == (if c == nb {
            v
        } else {
            dist_at(dd, c, w, h)
        }) by {
        if in_bounds_spec(c, w, h) {
            lemma_cell_index_bound(c, w, h);
            if c != nb {
                lemma_cell_index_injective(c, nb, w, h);
            }
        }
    }
}

/// How `pred_at` reads after one table update.
proof fn lemma_pred_at_update(pp: Seq<Option<Coord>>, nb: Coord, v: Option<Coord>, w: int, h: int)
    requires
        dims_ok(w, h),
        pp.len() == w * h,
        in_bounds_spec(nb, w, h),
    ensures
        forall|c: Coord| #![trigger pred_at(pp.update(cell_index_spec(nb, w), v), c, w, h)]
            pred_at(pp.update(cell_index_spec(nb, w), v), c, w, h) == if c == nb {
                v
            } else {
                pred_at(pp, c, w, h)
            },
{
    lemma_cell_index_bound(nb, w, h);
    assert forall|c: Coord|
        pred_at(pp.update(cell_index_spec(nb, w), v), c, w, h) == (if c == nb {
            v
        } else {
            pred_at(pp, c, w, h)
        }) by {
        if in_bounds_spec(c, w, h) {
            lemma_cell_index_bound(c, w, h);
            if c != nb {
                lemma_cell_index_injective(c, nb, w, h);
            }
        }
    }
}

/// A pending entry survives the removal of a differently-placed entry.
proof fn lemma_qhas_remove(q: Seq<DijkQueueItem>, mi: int, a: Coord)
    requires
        0 <= mi < q.len(),
        qhas(q, a),
        q[mi].position != a,
    ensures
        qhas(q.remove(mi), a),
{
    let k = choose|k: int| 0 <= k < q.len() && q[k].position == a;
    if k < mi {
        assert(q.remove(mi)[k].position == a);
    } else {
        assert(q.remove(mi)[k - 1].position == a);
    }
}

/// Neighbors are never the cell itself.
proof fn lemma_adjacent_irrefl(a: Coord, b: Coord)
    requires
        adjacent(a, b),
    ensures
        a != b,
{
    let d = choose|d: Direction| is_step(a, b, d);
    assert(b.x != a.x || b.y != a.y);
}

/// One relaxation attempt of `nb` through `from`, whose current
/// distance plus one is `alt`.
#[verifier::rlimit(100)]
#[verifier::spinoff_prover]
fn relax(
    nb: Coord,
    from: Coord,
    alt: u32,
    distances: &mut Vec<u32>,
    predecessors: &mut Vec<Option<Coord>>,
    unvisited: &mut Vec<DijkQueueItem>,
    num_finite: &mut usize,
    w: i32,
    h: i32,
    Ghost(start): Ghost<Coord>,
    Ghost(bset): Ghost<Set<Coord>>,
)
    requires
        core_inv(
            old(distances)@,
            old(predecessors)@,
            old(unvisited)@,
            *old(num_finite) as int,
            start,
            bset,
            w as int,
            h as int,
        ),
        duties_except(
            old(distances)@,
            old(predecessors)@,
            old(unvisited)@,
            from,
            bset,
            w as int,
            h as int,
        ),
        in_bounds_spec(nb, w as int, h as int),
        in_bounds_spec(from, w as int, h as int),
        !bset.contains(from),
        adjacent(from, nb),
        dist_at(old(distances)@, from, w as int, h as int) < u32::MAX,
        alt == dist_at(old(distances)@, from, w as int, h as int) + 1,
    ensures
        core_inv(
            final(distances)@,
            final(predecessors)@,
            final(unvisited)@,
            *final(num_finite) as int,
            start,
            bset,
            w as int,
            h as int,
        ),
        duties_except(final(distances)@, final(predecessors)@, final(unvisited)@, from, bset, w as int, h as int),
        dist_at(final(distances)@, nb, w as int, h as int) <= alt,
        *final(num_finite) >= *old(num_finite),
        if alt < dist_at(old(distances)@, nb, w as int, h as int) {
            &&& final(distances)@ == old(distances)@.update(cell_index_spec(nb, w as int), alt)
            &&& final(predecessors)@ == old(predecessors)@.update(
                cell_index_spec(nb, w as int),
                Some(from),
            )
            &&& final(unvisited)@ == old(unvisited)@.push(
                (DijkQueueItem { estimated_cost: alt, position: nb }),
            )
            &&& dist_at(final(distances)@, nb, w as int, h as int) == alt
            &&& pred_at(final(predecessors)@, nb, w as int, h as int) == Some(from)
        } else {
            &&& final(distances)@ == old(distances)@
            &&& final(predecessors)@ == old(predecessors)@
            &&& final(unvisited)@ == old(unvisited)@
            &&& *final(num_finite) == *old(num_finite)
        },
{
    let ghost wi = w as int;
    let ghost hi = h as int;
    let ghost d0 = distances@;
    let ghost p0 = predecessors@;
    let ghost q0 = unvisited@;
    let ghost num0 = *num_finite as int;
    let ni = cell_index(nb, w, h);
    let cur = distances[ni];
    proof {
        assert(cur == dist_at(d0, nb, wi, hi));
        lemma_adjacent_irrefl(from, nb);
    }
    if alt < cur {
        distances[ni] = alt;
        predecessors[ni] = Some(from);
        unvisited.push(DijkQueueItem { estimated_cost: alt, position: nb });
        proof {
            lemma_dist_at_update(d0, nb, alt, wi, hi);
            lemma_pred_at_update(p0, nb, Some(from), wi, hi);
            assert(distances@ == d0.update(cell_index_spec(nb, wi), alt));
            assert(predecessors@ == p0.update(cell_index_spec(nb, wi), Some(from)));
            assert(dist_at(distances@, nb, wi, hi) == alt);
            assert(pred_at(predecessors@, nb, wi, hi) == Some(from));
            assert(nb != start) by {
                if nb == start {
                    assert(dist_at(d0, nb, wi, hi) == 0);
                }
            }
            assert(from != nb);
        }
        if cur == u32::MAX {
            proof {
                lemma_grid_finite(wi, hi);
                assert(finite_cells(d0, wi, hi).subset_of(grid_set(wi, hi).remove(nb))) by {
                    assert forall|c: Coord| #[trigger] finite_cells(d0, wi, hi).contains(c)
                        implies grid_set(wi, hi).remove(nb).contains(c) by {
                        assert(c != nb);
                    }
                }
                assert(grid_set(wi, hi).contains(nb));
                assert(grid_set(wi, hi).remove(nb).len() == wi * hi - 1);
                lemma_len_subset(finite_cells(d0, wi, hi), grid_set(wi, hi).remove(nb));
                assert(num0 <= wi * hi - 1);
            }
            *num_finite += 1;
            proof {
                assert(finite_cells(distances@, wi, hi) =~= finite_cells(d0, wi, hi).insert(nb));
                assert(!finite_cells(d0, wi, hi).contains(nb));
            }
        } else {
            proof {
                assert(finite_cells(distances@, wi, hi) =~= finite_cells(d0, wi, hi));
            }
        }
        proof {
            let d1 = distances@;
            let p1 = predecessors@;
            let q1 = unvisited@;
            let num1 = *num_finite as int;
            // the fresh cell's distance still sits below the finite count
            assert(alt < num1) by {
                if cur == u32::MAX {
                    assert(dist_at(d0, from, wi, hi) < num0);
                } else {
                    assert(cur < num0);
                }
            }
            assert forall|c: Coord| #![trigger dist_at(d1, c, wi, hi)]
                dist_at(d1, c, wi, hi) < u32::MAX implies dist_at(d1, c, wi, hi) < num1 by {
                if c != nb {
                    assert(dist_at(d1, c, wi, hi) == dist_at(d0, c, wi, hi));
                }
            }
            assert forall|c: Coord| #![trigger pred_at(p1, c, wi, hi)]
                pred_ok(d1, p1, c, start, bset, wi, hi) by {
                match pred_at(p1, c, wi, hi) {
                    Some(p) => {
                        if c == nb {
                            assert(p == from);
                            assert(dist_at(d1, from, wi, hi) == dist_at(d0, from, wi, hi));
                        } else {
                            assert(pred_at(p0, c, wi, hi) == Some(p));
                            assert(pred_ok(d0, p0, c, start, bset, wi, hi));
                            assert(dist_at(d1, c, wi, hi) == dist_at(d0, c, wi, hi));
                            if p == nb {
                                assert(dist_at(d0, c, wi, hi) >= dist_at(d0, nb, wi, hi) + 1);
                                assert(dist_at(d1, p, wi, hi) == alt);
                                assert(alt < dist_at(d0, nb, wi, hi));
                            } else {
                                assert(dist_at(d1, p, wi, hi) == dist_at(d0, p, wi, hi));
                            }
                        }
                    },
                    None => {},
                }
            }
            assert forall|c: Coord| #![trigger dist_at(d1, c, wi, hi)]
                in_bounds_spec(c, wi, hi) && c != start && dist_at(d1, c, wi, hi) < u32::MAX
                implies pred_at(p1, c, wi, hi) is Some by {
                if c != nb {
                    assert(dist_at(d1, c, wi, hi) == dist_at(d0, c, wi, hi));
                    assert(pred_at(p1, c, wi, hi) == pred_at(p0, c, wi, hi));
                }
            }
            assert forall|k: int| 0 <= k < q1.len() implies in_bounds_spec(
                (#[trigger] q1[k]).position,
                wi,
                hi,
            ) && dist_at(d1, q1[k].position, wi, hi) < u32::MAX by {
                if k < q0.len() {
                    assert(q1[k] == q0[k]);
                    if q0[k].position != nb {
                        assert(dist_at(d1, q0[k].position, wi, hi) == dist_at(
                            d0,
                            q0[k].position,
                            wi,
                            hi,
                        ));
                    }
                } else {
                    assert(q1[k].position == nb);
                }
            }
            assert(dist_at(d1, start, wi, hi) == 0);
            assert(pred_at(p1, start, wi, hi) is None);
            assert(core_inv(d1, p1, q1, num1, start, bset, wi, hi));
            // duties: queue membership only grew, and the one touched cell
            // now carries a pending entry
            assert(qhas(q1, nb)) by {
                assert(q1[q1.len() - 1].position == nb);
            }
            assert forall|a: Coord| #![trigger dist_at(d1, a, wi, hi)]
                in_bounds_spec(a, wi, hi) && !bset.contains(a) && dist_at(d1, a, wi, hi)
                    < u32::MAX && !qhas(q1, a) && a != from
                implies settled_ok(d1, p1, a, wi, hi) by {
                assert(a != nb);
                assert(!qhas(q0, a)) by {
                    if qhas(q0, a) {
                        let k = choose|k: int| 0 <= k < q0.len() && q0[k].position == a;
                        assert(q1[k].position == a);
                    }
                }
                assert(dist_at(d1, a, wi, hi) == dist_at(d0, a, wi, hi));
                assert(settled_ok(d0, p0, a, wi, hi));
                assert forall|b: Coord| #![trigger adjacent(a, b)]
                    adjacent(a, b) && in_bounds_spec(b, wi, hi) implies dist_at(d1, b, wi, hi)
                    <= dist_at(d1, a, wi, hi) + 1 by {
                    assert(dist_at(d0, b, wi, hi) <= dist_at(d0, a, wi, hi) + 1);
                    if b == nb {
                        assert(dist_at(d1, b, wi, hi) == alt);
                        assert(alt < dist_at(d0, nb, wi, hi));
                    } else {
                        assert(dist_at(d1, b, wi, hi) == dist_at(d0, b, wi, hi));
                    }
                }
                assert forall|c: Coord| #![trigger pred_at(p1, c, wi, hi)]
                    pred_at(p1, c, wi, hi) == Some(a) implies dist_at(d1, c, wi, hi) == dist_at(
                    d1,
                    a,
                    wi,
                    hi,
                ) + 1 by {
                    if c == nb {
                        assert(pred_at(p1, nb, wi, hi) == Some(from));
                        assert(a == from);
                        assert(false);
                    } else {
                        assert(pred_at(p0, c, wi, hi) == Some(a));
                        assert(dist_at(d0, c, wi, hi) == dist_at(d0, a, wi, hi) + 1);
                        assert(dist_at(d1, c, wi, hi) == dist_at(d0, c, wi, hi));
                    }
                }
            }
        }
    } else {
        proof {
            assert(dist_at(distances@, nb, wi, hi) <= alt);
        }
    }
}

/// Pop-side expansion of the unblocked cell `cpos`: offer each
/// in-bounds neighbor a relaxation, discharging the cell's duties.
#[verifier::rlimit(100)]
#[verifier::spinoff_prover]
fn expand(
    cpos: Coord,
    cd: u32,
    distances: &mut Vec<u32>,
    predecessors: &mut Vec<Option<Coord>>,
    unvisited: &mut Vec<DijkQueueItem>,
    num_finite: &mut usize,
    w: i32,
    h: i32,
    Ghost(start): Ghost<Coord>,
    Ghost(bset): Ghost<Set<Coord>>,
)
    requires
        core_inv(
            old(distances)@,
            old(predecessors)@,
            old(unvisited)@,
            *old(num_finite) as int,
            start,
            bset,
            w as int,
            h as int,
        ),
        duties_except(
            old(distances)@,
            old(predecessors)@,
            old(unvisited)@,
            cpos,
            bset,
            w as int,
            h as int,
        ),
        in_bounds_spec(cpos, w as int, h as int),
        !bset.contains(cpos),
        cd == dist_at(old(distances)@, cpos, w as int, h as int),
        cd < u32::MAX,
    ensures
        core_inv(
            final(distances)@,
            final(predecessors)@,
            final(unvisited)@,
            *final(num_finite) as int,
            start,
            bset,
            w as int,
            h as int,
        ),
        duty_inv(
            final(distances)@,
            final(predecessors)@,
            final(unvisited)@,
            bset,
            w as int,
            h as int,
        ),
        (final(distances)@ == old(distances)@ && final(unvisited)@ == old(unvisited)@)
            || capped_sum(final(distances)@, (w as int) * (h as int) + 1) < capped_sum(
            old(distances)@,
            (w as int) * (h as int) + 1,
        ),
{
    let ghost wi = w as int;
    let ghost hi = h as int;
    let ghost d0 = distances@;
    let ghost q0 = unvisited@;
    let ghost cap = wi * hi + 1;
    proof {
        lemma_in_bounds_can_step(cpos, wi, hi);
        assert(cd < *num_finite as int);
    }
    let alt = cd + 1;
    let dirs = all_directions();
    let mut k: usize = 0;
    while k < 4
        invariant
            dirs@ =~= seq![
                Direction::Left,
                Direction::Right,
                Direction::Up,
                Direction::Down,
            ],
            0 <= k <= 4,
            dims_ok(wi, hi),
            wi == w as int,
            hi == h as int,
            cap == wi * hi + 1,
            in_bounds_spec(cpos, wi, hi),
            !bset.contains(cpos),
            forall|d: Direction| can_step(cpos, d),
            core_inv(distances@, predecessors@, unvisited@, *num_finite as int, start, bset, wi, hi),
            duties_except(distances@, predecessors@, unvisited@, cpos, bset, wi, hi),
            dist_at(distances@, cpos, wi, hi) == cd,
            alt == cd + 1,
            alt <= wi * hi,
            forall|j: int|
                0 <= j < k && in_bounds_spec(#[trigger] stepped(cpos, dirs@[j]), wi, hi)
                    ==> dist_at(distances@, stepped(cpos, dirs@[j]), wi, hi) <= alt,
            forall|j: int|
                0 <= j < k && pred_at(predecessors@, #[trigger] stepped(cpos, dirs@[j]), wi, hi)
                    == Some(cpos) ==> dist_at(distances@, stepped(cpos, dirs@[j]), wi, hi) == alt,
            (distances@ == d0 && unvisited@ == q0) || capped_sum(distances@, cap) < capped_sum(
                d0,
                cap,
            ),
        decreases 4 - k,
    {
        let d = dirs[k];
        let ghost dprev = distances@;
        let ghost pprev = predecessors@;
        let nb = cpos.next_coord_in_dir(&d);
        let ghost relaxed = in_bounds_spec(nb, wi, hi) && alt < dist_at(dprev, nb, wi, hi);
        if 0 <= nb.x && 0 <= nb.y && nb.x < w && nb.y < h {
            relax(
                nb,
                cpos,
                alt,
                distances,
                predecessors,
                unvisited,
                num_finite,
                w,
                h,
                Ghost(start),
                Ghost(bset),
            );
            proof {
                if relaxed {
                    lemma_cell_index_bound(nb, wi, hi);
                    lemma_capped_sum_update(dprev, cell_index_spec(nb, wi), alt, cap);
                    assert(dprev[cell_index_spec(nb, wi)] == dist_at(dprev, nb, wi, hi));
                    assert(capped(alt, cap) == alt as int);
                    assert(capped(dist_at(dprev, nb, wi, hi), cap) > alt as int);
                    assert(capped_sum(distances@, cap) < capped_sum(dprev, cap));
                }
            }
        }
        proof {
            lemma_expand_step(
                dprev,
                pprev,
                distances@,
                predecessors@,
                cpos,
                nb,
                relaxed,
                alt,
                cd,
                dirs@,
                k as int,
                start,
                bset,
                wi,
                hi,
            );
        }
        k += 1;
    }
    proof {
        lemma_expanded_duties(
            distances@,
            predecessors@,
            unvisited@,
            *num_finite as int,
            cpos,
            cd,
            alt,
            dirs@,
            start,
            bset,
            wi,
            hi,
        );
    }
}

/// One neighbor handled: the running per-direction guarantees extend to
/// direction `k`.
#[verifier::rlimit(100)]
#[verifier::spinoff_prover]
proof fn lemma_expand_step(
    dprev: Seq<u32>,
    pprev: Seq<Option<Coord>>,
    dd: Seq<u32>,
    pp: Seq<Option<Coord>>,
    cpos: Coord,
    nb: Coord,
    relaxed: bool,
    alt: u32,
    cd: u32,
    dirs: Seq<Direction>,
    k: int,
    start: Coord,
    bset: Set<Coord>,
    w: int,
    h: int,
)
    requires
        dirs =~= seq![Direction::Left, Direction::Right, Direction::Up, Direction::Down],
        0 <= k < 4,
        dims_ok(w, h),
        dprev.len() == w * h,
        pprev.len() == w * h,
        in_bounds_spec(cpos, w, h),
        forall|d: Direction| can_step(cpos, d),
        nb == stepped(cpos, dirs[k]),
        adjacent(cpos, nb),
        dist_at(dprev, cpos, w, h) == cd,
        alt == cd + 1,
        relaxed <==> in_bounds_spec(nb, w, h) && alt < dist_at(dprev, nb, w, h),
        relaxed ==> dd == dprev.update(cell_index_spec(nb, w), alt) && pp == pprev.update(
            cell_index_spec(nb, w),
            Some(cpos),
        ),
        !relaxed ==> dd == dprev && pp == pprev,
        in_bounds_spec(nb, w, h) ==> dist_at(dd, nb, w, h) <= alt,
        forall|c: Coord| #![trigger pred_at(pprev, c, w, h)] pred_ok(dprev, pprev, c, start, bset, w, h),
        forall|j: int|
            0 <= j < k && in_bounds_spec(#[trigger] stepped(cpos, dirs[j]), w, h)
                ==> dist_at(dprev, stepped(cpos, dirs[j]), w, h) <= alt,
        forall|j: int|
            0 <= j < k && pred_at(pprev, #[trigger] stepped(cpos, dirs[j]), w, h) == Some(cpos)
                ==> dist_at(dprev, stepped(cpos, dirs[j]), w, h) == alt,
    ensures
        dist_at(dd, cpos, w, h) == cd,
        forall|j: int|
            0 <= j < k + 1 && in_bounds_spec(#[trigger] stepped(cpos, dirs[j]), w, h)
                ==> dist_at(dd, stepped(cpos, dirs[j]), w, h) <= alt,
        forall|j: int|
            0 <= j < k + 1 && pred_at(pp, #[trigger] stepped(cpos, dirs[j]), w, h) == Some(cpos)
                ==> dist_at(dd, stepped(cpos, dirs[j]), w, h) == alt,
{
    lemma_adjacent_irrefl(cpos, nb);
    if relaxed {
        lemma_dist_at_update(dprev, nb, alt, w, h);
        lemma_pred_at_update(pprev, nb, Some(cpos), w, h);
    }
    assert(dist_at(dd, cpos, w, h) == cd);
    assert forall|j: int|
        0 <= j < k + 1 && in_bounds_spec(#[trigger] stepped(cpos, dirs[j]), w, h)
            implies dist_at(dd, stepped(cpos, dirs[j]), w, h) <= alt by {
        let sj = stepped(cpos, dirs[j]);
        if j < k && sj != nb {
            assert(dist_at(dd, sj, w, h) == dist_at(dprev, sj, w, h));
        }
    }
    assert forall|j: int|
        0 <= j < k + 1 && pred_at(pp, #[trigger] stepped(cpos, dirs[j]), w, h) == Some(cpos)
            implies dist_at(dd, stepped(cpos, dirs[j]), w, h) == alt by {
        let sj = stepped(cpos, dirs[j]);
        if sj == nb {
            if relaxed {
                assert(dist_at(dd, nb, w, h) == alt);
            } else {
                assert(pred_at(pp, nb, w, h) == pred_at(pprev, nb, w, h));
                assert(dist_at(dd, nb, w, h) == dist_at(dprev, nb, w, h));
                assert(pred_ok(dprev, pprev, nb, start, bset, w, h));
                assert(dist_at(dprev, nb, w, h) >= dist_at(dprev, cpos, w, h) + 1);
            }
        } else {
            assert(j < k) by {
                if j == k {
                    assert(sj == nb);
                }
            }
            assert(pred_at(pp, sj, w, h) == pred_at(pprev, sj, w, h));
            assert(dist_at(dd, sj, w, h) == dist_at(dprev, sj, w, h));
        }
    }
}

/// Once every neighbor of `cpos` has been offered a relaxation, the
/// whole table meets its duties again.
#[verifier::rlimit(100)]
#[verifier::spinoff_prover]
proof fn lemma_expanded_duties(
    dd: Seq<u32>,
    pp: Seq<Option<Coord>>,
    q: Seq<DijkQueueItem>,
    num: int,
    cpos: Coord,
    cd: u32,
    alt: u32,
    dirs: Seq<Direction>,
    start: Coord,
    bset: Set<Coord>,
    w: int,
    h: int,
)
    requires
        dirs =~= seq![Direction::Left, Direction::Right, Direction::Up, Direction::Down],
        core_inv(dd, pp, q, num, start, bset, w, h),
        duties_except(dd, pp, q, cpos, bset, w, h),
        in_bounds_spec(cpos, w, h),
        !bset.contains(cpos),
        forall|d: Direction| can_step(cpos, d),
        dist_at(dd, cpos, w, h) == cd,
        alt == cd + 1,
        forall|j: int|
            0 <= j < 4 && in_bounds_spec(#[trigger] stepped(cpos, dirs[j]), w, h)
                ==> dist_at(dd, stepped(cpos, dirs[j]), w, h) <= alt,
        forall|j: int|
            0 <= j < 4 && pred_at(pp, #[trigger] stepped(cpos, dirs[j]), w, h) == Some(cpos)
                ==> dist_at(dd, stepped(cpos, dirs[j]), w, h) == alt,
    ensures
        duty_inv(dd, pp, q, bset, w, h),
{
    assert(settled_ok(dd, pp, cpos, w, h)) by {
        assert forall|b: Coord| #![trigger adjacent(cpos, b)]
            adjacent(cpos, b) && in_bounds_spec(b, w, h) implies dist_at(dd, b, w, h) <= dist_at(
            dd,
            cpos,
            w,
            h,
        ) + 1 by {
            let sd = choose|sd: Direction| is_step(cpos, b, sd);
            lemma_is_step_stepped(cpos, b, sd);
            match sd {
                Direction::Left => assert(b == stepped(cpos, dirs[0])),
                Direction::Right => assert(b == stepped(cpos, dirs[1])),
                Direction::Up => assert(b == stepped(cpos, dirs[2])),
                Direction::Down => assert(b == stepped(cpos, dirs[3])),
            }
        }
        assert forall|c: Coord| #![trigger pred_at(pp, c, w, h)]
            pred_at(pp, c, w, h) == Some(cpos) implies dist_at(dd, c, w, h) == dist_at(
            dd,
            cpos,
            w,
            h,
        ) + 1 by {
            assert(pred_ok(dd, pp, c, start, bset, w, h));
            assert(adjacent(cpos, c));
            let sd = choose|sd: Direction| is_step(cpos, c, sd);
            lemma_is_step_stepped(cpos, c, sd);
            match sd {
                Direction::Left => assert(c == stepped(cpos, dirs[0])),
                Direction::Right => assert(c == stepped(cpos, dirs[1])),
                Direction::Up => assert(c == stepped(cpos, dirs[2])),
                Direction::Down => assert(c == stepped(cpos, dirs[3])),
            }
        }
    }
    assert forall|a: Coord| #![trigger dist_at(dd, a, w, h)]
        in_bounds_spec(a, w, h) && !bset.contains(a) && dist_at(dd, a, w, h) < u32::MAX && !qhas(
            q,
            a,
        ) implies settled_ok(dd, pp, a, w, h) by {
        if a != cpos {
            assert(duties_except(dd, pp, q, cpos, bset, w, h));
        }
    }
}
impl DijkResult {
    /// The source the search ran from.
    pub closed spec fn start_coord(&self) -> Coord {
        self.start
    }

    /// The board width the search ran on.
    pub closed spec fn grid_width(&self) -> int {
        self.width as int
    }

    /// The board height the search ran on.
    pub closed spec fn grid_height(&self) -> int {
        self.height as int
    }

    /// The recorded hop count of `c`; `u32::MAX` off the board or when
    /// unreached.
    pub closed spec fn dist_of(&self, c: Coord) -> u32 {
        dist_at(self.distances@, c, self.width as int, self.height as int)
    }

    /// The recorded predecessor of `c` on a shortest path, if any.
    pub closed spec fn pred_of(&self, c: Coord) -> Option<Coord> {
        pred_at(self.predecessors@, c, self.width as int, self.height as int)
    }

    /// Both tables cover the whole board.
    pub closed spec fn tables_ok(&self) -> bool {
        &&& self.distances@.len() == self.grid_width() * self.grid_height()
        &&& self.predecessors@.len() == self.grid_width() * self.grid_height()
    }

    /// The shape every finished search has: the start sits at distance
    /// zero with no predecessor, and every other reached cell is exactly
    /// one hop past its recorded predecessor.
    pub open spec fn wf(&self) -> bool {
        &&& dims_ok(self.grid_width(), self.grid_height())
        &&& self.tables_ok()
        &&& in_bounds_spec(self.start_coord(), self.grid_width(), self.grid_height())
        &&& self.dist_of(self.start_coord()) == 0
        &&& self.pred_of(self.start_coord()) is None
        &&& forall|c: Coord| #![trigger self.pred_of(c)]
            self.pred_of(c) matches Some(p) ==> {
                &&& c != self.start_coord()
                &&& in_bounds_spec(c, self.grid_width(), self.grid_height())
                &&& in_bounds_spec(p, self.grid_width(), self.grid_height())
                &&& adjacent(p, c)
                &&& self.dist_of(p) < u32::MAX
                &&& self.dist_of(c) < u32::MAX
                &&& self.dist_of(c) == self.dist_of(p) + 1
            }
        &&& forall|c: Coord| #![trigger self.dist_of(c)]
            in_bounds_spec(c, self.grid_width(), self.grid_height()) && c != self.start_coord()
                && self.dist_of(c) < u32::MAX ==> self.pred_of(c) is Some
        &&& forall|c: Coord| #![trigger self.dist_of(c)]
            self.dist_of(c) < u32::MAX ==> self.dist_of(c) < self.grid_width()
                * self.grid_height()
    }

    /// How the tables relate to the obstacle set they were computed
    /// against: predecessors are never obstacles, and no unblocked
    /// reached cell has a neighbor more than one hop further.
    pub open spec fn respects(&self, blocked: Set<Coord>) -> bool {
        &&& forall|c: Coord| #![trigger self.pred_of(c)]
            self.pred_of(c) matches Some(p) ==> !blocked.contains(p)
        &&& forall|a: Coord, b: Coord| #![trigger self.dist_of(a), adjacent(a, b)]
            in_bounds_spec(a, self.grid_width(), self.grid_height()) && !blocked.contains(a)
                && self.dist_of(a) < u32::MAX && adjacent(a, b) && in_bounds_spec(
                b,
                self.grid_width(),
                self.grid_height(),
            ) ==> self.dist_of(b) <= self.dist_of(a) + 1
    }
}

/// What the search reaches: the start itself, and every in-bounds cell
/// one step from a cell that obstacle-free walking can reach.
pub open spec fn dijk_reached(start: Coord, c: Coord, blocked: Set<Coord>, w: int, h: int) -> bool {
    c == start || (in_bounds_spec(c, w, h) && exists|p: Coord|
        reachable(start, p, blocked, w, h) && adjacent(p, c))
}

/// A cell with a finite recorded distance really is reached: walking the
/// predecessor chain back to the start yields a witness.
proof fn lemma_finite_reached(r: &DijkResult, bset: Set<Coord>, c: Coord)
    requires
        r.wf(),
        r.respects(bset),
        r.dist_of(c) < u32::MAX,
    ensures
        dijk_reached(r.start_coord(), c, bset, r.grid_width(), r.grid_height()),
        !bset.contains(c) ==> reachable(
            r.start_coord(),
            c,
            bset,
            r.grid_width(),
            r.grid_height(),
        ),
    decreases r.dist_of(c),
{
    let s = r.start_coord();
    let w = r.grid_width();
    let h = r.grid_height();
    if c == s {
        if !bset.contains(c) {
            lemma_reach_refl(c, bset, w, h);
        }
    } else {
        assert(in_bounds_spec(c, w, h)) by {
            if !in_bounds_spec(c, w, h) {
                assert(r.dist_of(c) == u32::MAX);
            }
        }
        match r.pred_of(c) {
            Some(p) => {
                assert(r.dist_of(c) == r.dist_of(p) + 1);
                lemma_finite_reached(r, bset, p);
                assert(!bset.contains(p));
                assert(reachable(s, p, bset, w, h) && adjacent(p, c));
                if !bset.contains(c) {
                    lemma_reach_extend(s, p, c, bset, w, h);
                }
            },
            None => {
                assert(false);
            },
        }
    }
}

/// Classic unit-cost Dijkstra from `start` over the board, discarding
/// popped entries whose cell is an obstacle and tolerating stale
/// duplicate entries. The result maps every cell the search reached to
/// its least hop count and a shortest-path predecessor, and every other
/// cell to the sentinel `u32::MAX`.
pub fn dijkstra(start: Coord, board_size: (i32, i32), blocked_pos: &Vec<Coord>) -> (r: DijkResult)
    requires
        dims_ok(board_size.0 as int, board_size.1 as int),
        in_bounds_spec(start, board_size.0 as int, board_size.1 as int),
    ensures
        r.wf(),
        r.start_coord() == start,
        r.grid_width() == board_size.0 as int,
        r.grid_height() == board_size.1 as int,
        r.dist_of(start) == 0,
        r.respects(blocked_pos@.to_set()),
        forall|c: Coord| #![trigger r.dist_of(c)]
            r.dist_of(c) < u32::MAX <==> dijk_reached(
                start,
                c,
                blocked_pos@.to_set(),
                board_size.0 as int,
                board_size.1 as int,
            ),
{
    let w = board_size.0;
    let h = board_size.1;
    let ghost wi = w as int;
    let ghost hi = h as int;
    let ghost bset = blocked_pos@.to_set();
    let ghost cap = wi * hi + 1;
    let n_cells: usize = (w as usize) * (h as usize);
    let mut distances: Vec<u32> = Vec::new();
    while distances.len() < n_cells
        invariant
            distances@.len() <= n_cells,
            forall|i: int| 0 <= i < distances@.len() ==> distances@[i] == u32::MAX,
        decreases n_cells - distances@.len(),
    {
        distances.push(u32::MAX);
    }
    let mut predecessors: Vec<Option<Coord>> = Vec::new();
    while predecessors.len() < n_cells
        invariant
            predecessors@.len() <= n_cells,
            forall|i: int| 0 <= i < predecessors@.len() ==> predecessors@[i] is None,
        decreases n_cells - predecessors@.len(),
    {
        predecessors.push(None);
    }
    let si = cell_index(start, w, h);
    distances[si] = 0;
    let mut unvisited: Vec<DijkQueueItem> = Vec::new();
    unvisited.push(DijkQueueItem { estimated_cost: 0, position: start });
    let mut num_finite: usize = 1;
    proof {
        lemma_cell_index_bound(start, wi, hi);
        assert(dist_at(distances@, start, wi, hi) == 0);
        assert forall|c: Coord| #![trigger dist_at(distances@, c, wi, hi)]
            c != start implies dist_at(distances@, c, wi, hi) == u32::MAX by {
            if in_bounds_spec(c, wi, hi) {
                lemma_cell_index_bound(c, wi, hi);
                lemma_cell_index_injective(c, start, wi, hi);
            }
        }
        assert forall|c: Coord| #![trigger pred_at(predecessors@, c, wi, hi)]
            pred_at(predecessors@, c, wi, hi) is None by {
            if in_bounds_spec(c, wi, hi) {
                lemma_cell_index_bound(c, wi, hi);
            }
        }
        assert(finite_cells(distances@, wi, hi) =~= Set::empty().insert(start));
        assert(finite_cells(distances@, wi, hi).len() == 1);
        assert(qhas(unvisited@, start)) by {
            assert(unvisited@[0].position == start);
        }
        assert(core_inv(distances@, predecessors@, unvisited@, 1, start, bset, wi, hi));
        assert forall|a: Coord| #![trigger dist_at(distances@, a, wi, hi)]
            in_bounds_spec(a, wi, hi) && !bset.contains(a) && dist_at(distances@, a, wi, hi)
                < u32::MAX && !qhas(unvisited@, a) implies settled_ok(
            distances@,
            predecessors@,
            a,
            wi,
            hi,
        ) by {
            assert(a == start);
            assert(false);
        }
    }
    while unvisited.len() > 0
        invariant
            wi == w as int,
            hi == h as int,
            cap == wi * hi + 1,
            bset == blocked_pos@.to_set(),
            in_bounds_spec(start, wi, hi),
            core_inv(
                distances@,
                predecessors@,
                unvisited@,
                num_finite as int,
                start,
                bset,
                wi,
                hi,
            ),
            duty_inv(distances@, predecessors@, unvisited@, bset, wi, hi),
        decreases capped_sum(distances@, cap), unvisited@.len(),
    {
        let ghost dtop = distances@;
        let ghost qtop = unvisited@;
        let mut mi: usize = 0;
        let mut k: usize = 1;
        while k < unvisited.len()
            invariant
                unvisited@.len() >= 1,
                mi < unvisited@.len(),
                1 <= k <= unvisited@.len(),
            decreases unvisited@.len() - k,
        {
            if unvisited[k].estimated_cost < unvisited[mi].estimated_cost {
                mi = k;
            }
            k += 1;
        }
        let current = unvisited.remove(mi);
        let cpos = current.position;
        proof {
            assert(qtop[mi as int].position == cpos);
            assert(in_bounds_spec(cpos, wi, hi) && dist_at(dtop, cpos, wi, hi) < u32::MAX);
            assert forall|kk: int|
                0 <= kk < unvisited@.len() implies in_bounds_spec(
                (#[trigger] unvisited@[kk]).position,
                wi,
                hi,
            ) && dist_at(distances@, unvisited@[kk].position, wi, hi) < u32::MAX by {
                if kk < mi {
                    assert(unvisited@[kk] == qtop[kk]);
                } else {
                    assert(unvisited@[kk] == qtop[kk + 1]);
                }
            }
            assert(core_inv(
                distances@,
                predecessors@,
                unvisited@,
                num_finite as int,
                start,
                bset,
                wi,
                hi,
            ));
            assert forall|a: Coord| #![trigger dist_at(distances@, a, wi, hi)]
                in_bounds_spec(a, wi, hi) && !bset.contains(a) && dist_at(
                    distances@,
                    a,
                    wi,
                    hi,
                ) < u32::MAX && !qhas(unvisited@, a) && a != cpos implies settled_ok(
                distances@,
                predecessors@,
                a,
                wi,
                hi,
            ) by {
                if qhas(qtop, a) {
                    lemma_qhas_remove(qtop, mi as int, a);
                    assert(false);
                }
            }
        }
        if coords_contains(blocked_pos, cpos) {
            proof {
                assert forall|a: Coord| #![trigger dist_at(distances@, a, wi, hi)]
                    in_bounds_spec(a, wi, hi) && !bset.contains(a) && dist_at(
                        distances@,
                        a,
                        wi,
                        hi,
                    ) < u32::MAX && !qhas(unvisited@, a) implies settled_ok(
                    distances@,
                    predecessors@,
                    a,
                    wi,
                    hi,
                ) by {
                    assert(a != cpos);
                }
                lemma_capped_sum_nonneg(distances@, cap);
            }
        } else {
            let ci = cell_index(cpos, w, h);
            let cd = distances[ci];
            expand(
                cpos,
                cd,
                &mut distances,
                &mut predecessors,
                &mut unvisited,
                &mut num_finite,
                w,
                h,
                Ghost(start),
                Ghost(bset),
            );
            proof {
                lemma_capped_sum_nonneg(distances@, cap);
            }
        }
    }
    let r = DijkResult { start, width: w, height: h, distances, predecessors };
    proof {
        let dd = r.distances@;
        let pp = r.predecessors@;
        assert forall|p: Coord| !qhas(unvisited@, p) by {}
        // every recorded predecessor has discharged its duties, which
        // turns the running inequality into the exact one-hop relation
        assert forall|c: Coord| #![trigger r.pred_of(c)]
            (r.pred_of(c) matches Some(p) ==> {
                &&& c != start
                &&& in_bounds_spec(c, wi, hi)
                &&& in_bounds_spec(p, wi, hi)
                &&& adjacent(p, c)
                &&& r.dist_of(p) < u32::MAX
                &&& r.dist_of(c) < u32::MAX
                &&& r.dist_of(c) == r.dist_of(p) + 1
                &&& !bset.contains(p)
            }) by {
            match pred_at(pp, c, wi, hi) {
                Some(p) => {
                    assert(pred_ok(dd, pp, c, start, bset, wi, hi));
                    assert(settled_ok(dd, pp, p, wi, hi));
                    assert(pred_at(pp, c, wi, hi) == Some(p));
                },
                None => {},
            }
        }
        assert(r.wf());
        assert(r.respects(bset)) by {
            assert forall|a: Coord, b: Coord| #![trigger r.dist_of(a), adjacent(a, b)]
                in_bounds_spec(a, wi, hi) && !bset.contains(a) && r.dist_of(a) < u32::MAX
                    && adjacent(a, b) && in_bounds_spec(b, wi, hi) implies r.dist_of(b)
                <= r.dist_of(a) + 1 by {
                assert(settled_ok(dd, pp, a, wi, hi));
            }
        }
        assert forall|c: Coord| #![trigger r.dist_of(c)]
            r.dist_of(c) < u32::MAX implies dijk_reached(start, c, bset, wi, hi) by {
            lemma_finite_reached(&r, bset, c);
        }
        assert forall|c: Coord| #![trigger r.dist_of(c)]
            dijk_reached(start, c, bset, wi, hi) implies r.dist_of(c) < u32::MAX by {
            if c != start {
                let fset = finite_cells(dd, wi, hi);
                assert(fset.contains(start));
                assert(crate::reachability::step_closed(fset, bset, wi, hi)) by {
                    assert forall|a: Coord, b: Coord|
                        #![trigger fset.contains(a), adjacent(a, b)]
                        fset.contains(a) && !bset.contains(a) && adjacent(a, b)
                            && in_bounds_spec(b, wi, hi) && !bset.contains(b)
                        implies fset.contains(b) by {
                        assert(settled_ok(dd, pp, a, wi, hi));
                        assert(dist_at(dd, b, wi, hi) <= dist_at(dd, a, wi, hi) + 1);
                        assert(dist_at(dd, a, wi, hi) < num_finite as int);
                    }
                }
                lemma_closed_set_covers_reachable(fset, start, bset, wi, hi);
                let p = choose|p: Coord| reachable(start, p, bset, wi, hi) && adjacent(p, c);
                lemma_reachable_props(start, p, bset, wi, hi);
                assert(fset.contains(p));
                assert(settled_ok(dd, pp, p, wi, hi));
                assert(dist_at(dd, c, wi, hi) <= dist_at(dd, p, wi, hi) + 1);
                assert(dist_at(dd, p, wi, hi) < num_finite as int);
            }
        }
    }
    r
}

impl DijkResult {
    /// The predecessor chain of `c`, unwound for at most `fuel` hops
    /// and ending at `c`.
    pub open spec fn chain_to(&self, c: Coord, fuel: nat) -> Seq<Coord>
        decreases fuel,
    {
        match self.pred_of(c) {
            Some(p) => if fuel > 0 {
                self.chain_to(p, (fuel - 1) as nat).push(c)
            } else {
                seq![c]
            },
            None => seq![c],
        }
    }

    /// The reconstructed walk for `c`: the predecessor links followed
    /// back as far as they go, then reversed. For a reached cell this is
    /// a full shortest path from the start to `c`; for any other cell it
    /// is just `c` alone.
    pub open spec fn path_of(&self, c: Coord) -> Seq<Coord> {
        self.chain_to(c, self.dist_of(c) as nat)
    }

    /// Unwinding one predecessor link prepends the rest of the path.
    pub proof fn lemma_path_unfold(&self, c: Coord)
        requires
            self.wf(),
            self.pred_of(c) is Some,
        ensures
            self.path_of(c) == self.path_of(self.pred_of(c)->Some_0).push(c),
    {
        let p = self.pred_of(c)->Some_0;
        assert(self.dist_of(c) == self.dist_of(p) + 1);
        assert((self.dist_of(c) as nat - 1) as nat == self.dist_of(p) as nat);
    }

    /// The reconstructed path of a reached cell runs from the start to
    /// the cell, one 4-connected hop per unit of distance, visiting the
    /// cell at distance `k` in position `k`.
    pub proof fn lemma_path_props(&self, c: Coord)
        requires
            self.wf(),
            self.dist_of(c) < u32::MAX,
        ensures
            self.path_of(c).len() == self.dist_of(c) + 1,
            self.path_of(c)[0] == self.start_coord(),
            self.path_of(c)[self.path_of(c).len() - 1] == c,
            forall|k: int| 0 <= k < self.path_of(c).len()
                ==> self.dist_of(#[trigger] self.path_of(c)[k]) == k,
            forall|k: int| 0 <= k < self.path_of(c).len()
                ==> in_bounds_spec(#[trigger] self.path_of(c)[k], self.grid_width(), self.grid_height()),
            forall|k: int| 0 <= k < self.path_of(c).len() - 1
                ==> adjacent(#[trigger] self.path_of(c)[k], self.path_of(c)[k + 1]),
            forall|k: int| 1 <= k < self.path_of(c).len()
                ==> self.pred_of(#[trigger] self.path_of(c)[k]) == Some(self.path_of(c)[k - 1]),
        decreases self.dist_of(c),
    {
        let pa = self.path_of(c);
        assert(in_bounds_spec(c, self.grid_width(), self.grid_height())) by {
            if !in_bounds_spec(c, self.grid_width(), self.grid_height()) {
                assert(self.dist_of(c) == u32::MAX);
            }
        }
        if c == self.start_coord() {
            assert(pa =~= seq![c]);
        } else {
            match self.pred_of(c) {
                Some(p) => {
                    self.lemma_path_unfold(c);
                    self.lemma_path_props(p);
                    let pp = self.path_of(p);
                    assert(pa =~= pp.push(c));
                    assert forall|k: int| 0 <= k < pa.len()
                        implies self.dist_of(#[trigger] pa[k]) == k by {
                        if k < pp.len() {
                            assert(pa[k] == pp[k]);
                        }
                    }
                    assert forall|k: int| 0 <= k < pa.len() - 1
                        implies adjacent(#[trigger] pa[k], pa[k + 1]) by {
                        if k < pp.len() - 1 {
                            assert(adjacent(pp[k], pp[k + 1]));
                        } else {
                            assert(pa[k] == p && pa[k + 1] == c);
                        }
                    }
                    assert forall|k: int| 1 <= k < pa.len()
                        implies self.pred_of(#[trigger] pa[k]) == Some(pa[k - 1]) by {
                        if k < pp.len() {
                            assert(pa[k] == pp[k]);
                        }
                    }
                },
                None => {
                    assert(false);
                },
            }
        }
    }

    /// No valid walk beats the recorded distance: on the tables of a
    /// finished search, a walk of `n` hops to a cell proves that the
    /// cell's recorded distance is a finite number of at most `n`.
    pub proof fn lemma_distance_minimal(&self, blocked: Set<Coord>, p: Seq<Coord>)
        requires
            self.wf(),
            self.respects(blocked),
            is_path(p, self.start_coord(), p[p.len() - 1], blocked, self.grid_width(), self.grid_height()),
        ensures
            self.dist_of(p[p.len() - 1]) < u32::MAX,
            self.dist_of(p[p.len() - 1]) <= p.len() - 1,
        decreases p.len(),
    {
        if p.len() == 1 {
            assert(p[0] == self.start_coord());
        } else {
            let q = p.drop_last();
            assert forall|i: int|
                0 <= i < q.len() implies in_bounds_spec(#[trigger] q[i], self.grid_width(), self.grid_height())
                    && !blocked.contains(q[i]) by {
                assert(q[i] == p[i]);
                assert(in_bounds_spec(p[i], self.grid_width(), self.grid_height()));
            }
            assert forall|i: int| 0 <= i < q.len() - 1 implies adjacent(#[trigger] q[i], q[i + 1]) by {
                assert(adjacent(p[i], p[i + 1]));
            }
            assert(is_path(q, self.start_coord(), q[q.len() - 1], blocked, self.grid_width(), self.grid_height()));
            self.lemma_distance_minimal(blocked, q);
            let a = q[q.len() - 1];
            let b = p[p.len() - 1];
            assert(adjacent(p[p.len() - 2], p[p.len() - 1]));
            assert(a == p[p.len() - 2]);
            assert(self.dist_of(b) <= self.dist_of(a) + 1);
            assert(self.dist_of(a) < self.grid_width() * self.grid_height());
        }
    }

    /// The reconstructed path of a reached, unblocked cell is itself a
    /// valid walk through the searched obstacle set, so the recorded
    /// distance is realized by an actual path.
    pub proof fn lemma_path_realizes_distance(&self, blocked: Set<Coord>, c: Coord)
        requires
            self.wf(),
            self.respects(blocked),
            self.dist_of(c) < u32::MAX,
            !blocked.contains(c),
        ensures
            is_path(self.path_of(c), self.start_coord(), c, blocked, self.grid_width(), self.grid_height()),
            self.path_of(c).len() == self.dist_of(c) + 1,
    {
        self.lemma_path_props(c);
        let pa = self.path_of(c);
        assert forall|i: int| 0 <= i < pa.len() implies !blocked.contains(#[trigger] pa[i]) by {
            if i < pa.len() - 1 {
                assert(self.pred_of(pa[i + 1]) == Some(pa[i]));
            } else {
                assert(pa[i] == c);
            }
        }
    }

    /// The start of the search always sits at distance zero.
    pub proof fn lemma_distance_to_start(&self)
        requires
            self.wf(),
        ensures
            self.dist_of(self.start_coord()) == 0,
    {
    }

    /// Every reached cell other than the start sits exactly one hop
    /// beyond its recorded predecessor.
    pub proof fn lemma_predecessor_distance(&self, c: Coord)
        requires
            self.wf(),
            self.pred_of(c) is Some,
        ensures
            self.dist_of(c) == self.dist_of(self.pred_of(c)->Some_0) + 1,
    {
    }

    /// The recorded hop count of `*c`, `u32::MAX` when unreached.
    pub fn distance_to(&self, c: &Coord) -> (d: u32)
        requires
            self.wf(),
        ensures
            d == self.dist_of(*c),
    {
        if 0 <= c.x && 0 <= c.y && c.x < self.width && c.y < self.height {
            let ci = cell_index(*c, self.width, self.height);
            self.distances[ci]
        } else {
            u32::MAX
        }
    }

    /// The recorded predecessor of `*c`, if any.
    pub fn predecessor_of(&self, c: &Coord) -> (p: Option<Coord>)
        requires
            self.wf(),
        ensures
            p == self.pred_of(*c),
    {
        if 0 <= c.x && 0 <= c.y && c.x < self.width && c.y < self.height {
            let ci = cell_index(*c, self.width, self.height);
            self.predecessors[ci]
        } else {
            None
        }
    }

    /// The raw distance table, row-major with `u32::MAX` for unreached
    /// cells.
    pub fn get_distance_ref(&self) -> (r: &Vec<u32>)
        requires
            self.wf(),
        ensures
            r@.len() == self.grid_width() * self.grid_height(),
            forall|c: Coord|
                in_bounds_spec(c, self.grid_width(), self.grid_height())
                    ==> r@[cell_index_spec(c, self.grid_width())] == #[trigger] self.dist_of(c),
    {
        &self.distances
    }

    /// The raw predecessor table, row-major with `None` for the start
    /// and for unreached cells.
    pub fn get_predecessor_ref(&self) -> (r: &Vec<Option<Coord>>)
        requires
            self.wf(),
        ensures
            r@.len() == self.grid_width() * self.grid_height(),
            forall|c: Coord|
                in_bounds_spec(c, self.grid_width(), self.grid_height())
                    ==> r@[cell_index_spec(c, self.grid_width())] == #[trigger] self.pred_of(c),
    {
        &self.predecessors
    }

    /// The reconstructed walk for each requested cell, in request
    /// order: predecessor links followed back from the cell, reversed,
    /// so a reached cell yields a full start-to-cell shortest path.
    #[verifier::rlimit(60)]
    pub fn get_paths_for(&self, coords: &Vec<Coord>) -> (r: Vec<Vec<Coord>>)
        requires
            self.wf(),
        ensures
            r@.len() == coords@.len(),
            forall|i: int| 0 <= i < coords@.len() ==> (#[trigger] r@[i])@ == self.path_of(coords@[i]),
    {
        let mut r: Vec<Vec<Coord>> = Vec::new();
        let mut i: usize = 0;
        while i < coords.len()
            invariant
                self.wf(),
                i <= coords@.len(),
                r@.len() == i,
                forall|j: int| 0 <= j < i ==> (#[trigger] r@[j])@ == self.path_of(coords@[j]),
            decreases coords@.len() - i,
        {
            let c = coords[i];
            let mut rev: Vec<Coord> = Vec::new();
            rev.push(c);
            let mut cur = c;
            let mut nxt = self.predecessor_of(&cur);
            proof {
                assert(self.path_of(c) =~= self.path_of(cur).drop_last() + rev@.reverse());
            }
            while nxt.is_some()
                invariant
                    self.wf(),
                    nxt == self.pred_of(cur),
                    rev@.len() >= 1,
                    rev@[rev@.len() - 1] == cur,
                    self.path_of(c) =~= self.path_of(cur).drop_last() + rev@.reverse(),
                decreases self.dist_of(cur),
            {
                let p = nxt.unwrap();
                proof {
                    self.lemma_path_unfold(cur);
                    assert(self.dist_of(cur) == self.dist_of(p) + 1);
                    assert(self.path_of(cur).drop_last() =~= self.path_of(p).drop_last().push(p));
                    assert((rev@.push(p)).reverse() =~= seq![p] + rev@.reverse());
                    assert(self.path_of(p).drop_last().push(p) + rev@.reverse() =~= self.path_of(
                        p,
                    ).drop_last() + (seq![p] + rev@.reverse()));
                }
                rev.push(p);
                cur = p;
                nxt = self.predecessor_of(&cur);
            }
            proof {
                assert(self.path_of(cur) =~= seq![cur]);
                assert(self.path_of(c) =~= rev@.reverse());
            }
            let mut path: Vec<Coord> = Vec::new();
            let mut t: usize = 0;
            while t < rev.len()
                invariant
                    t <= rev@.len(),
                    path@.len() == t,
                    forall|u: int| 0 <= u < t ==> path@[u] == rev@[rev@.len() - 1 - u],
                decreases rev@.len() - t,
            {
                path.push(rev[rev.len() - 1 - t]);
                t += 1;
            }
            proof {
                assert(path@ =~= rev@.reverse());
            }
            r.push(path);
            i += 1;
        }
        r
    }

    /// The recorded distance of each requested cell, in request order,
    /// `u32::MAX` for unreached cells.
    pub fn retrieve_distances_for(&self, coords: &Vec<Coord>) -> (r: Vec<u32>)
        requires
            self.wf(),
        ensures
            r@.len() == coords@.len(),
            forall|i: int| 0 <= i < coords@.len() ==> r@[i] == self.dist_of(#[trigger] coords@[i]),
    {
        let mut r: Vec<u32> = Vec::new();
        let mut i: usize = 0;
        while i < coords.len()
            invariant
                self.wf(),
                i <= coords@.len(),
                r@.len() == i,
                forall|j: int| 0 <= j < i ==> r@[j] == self.dist_of(#[trigger] coords@[j]),
            decreases coords@.len() - i,
        {
            r.push(self.distance_to(&coords[i]));
            i += 1;
        }
        r
    }

    /// The index of the first goal with the least recorded distance.
    pub open spec fn best_goal_idx(&self, coords: Seq<Coord>) -> int
        decreases coords.len(),
    {
        if coords.len() <= 1 {
            0
        } else {
            let b = self.best_goal_idx(coords.drop_last());
            if self.dist_of(coords.last()) < self.dist_of(coords[b]) {
                coords.len() - 1
            } else {
                b
            }
        }
    }

    proof fn lemma_best_goal_idx_in_range(&self, coords: Seq<Coord>)
        requires
            coords.len() >= 1,
        ensures
            0 <= self.best_goal_idx(coords) < coords.len(),
        decreases coords.len(),
    {
        if coords.len() > 1 {
            self.lemma_best_goal_idx_in_range(coords.drop_last());
        }
    }

    /// The first move of a shortest path to the closest of `goals`:
    /// `None` when there is no goal, no goal is reachable, or the
    /// closest goal is the start itself, and otherwise the direction of
    /// the first step of the reconstructed path to the goal with the
    /// least recorded distance (first wins on ties).
    pub open spec fn goal_direction(&self, goals: Seq<Coord>) -> Option<Direction> {
        if goals.len() == 0 {
            None
        } else {
            let g = goals[self.best_goal_idx(goals)];
            if self.dist_of(g) == u32::MAX || g == self.start_coord() {
                None
            } else {
                direction_between(self.start_coord(), self.path_of(g)[1])
            }
        }
    }

    /// The first move of a shortest path to the closest of `coords`:
    /// the goal with the least recorded distance (first wins on ties)
    /// is picked, its path reconstructed, and the direction of the
    /// path's first step returned. `None` when there is no goal, no
    /// goal is reachable, or the closest goal is the start itself.
    pub fn get_direction_for_shortest_goal(&self, coords: &Vec<Coord>) -> (r: Option<Direction>)
        requires
            self.wf(),
        ensures
            r == self.goal_direction(coords@),
            coords@.len() > 0 ==> {
                let g = coords@[self.best_goal_idx(coords@)];
                if self.dist_of(g) == u32::MAX || g == self.start_coord() {
                    r is None
                } else {
                    r is Some
                }
            },
    {
        if coords.len() == 0 {
            return None;
        }
        let mut best: usize = 0;
        let mut bd: u32 = self.distance_to(&coords[0]);
        let mut i: usize = 1;
        proof {
            assert(coords@.take(1) =~= seq![coords@[0]]);
        }
        while i < coords.len()
            invariant
                self.wf(),
                1 <= i <= coords@.len(),
                best < i,
                best == self.best_goal_idx(coords@.take(i as int)),
                bd == self.dist_of(coords@[best as int]),
            decreases coords@.len() - i,
        {
            let d = self.distance_to(&coords[i]);
            proof {
                let pre = coords@.take(i as int + 1);
                assert(pre.drop_last() =~= coords@.take(i as int));
                assert(pre.last() == coords@[i as int]);
                self.lemma_best_goal_idx_in_range(coords@.take(i as int));
                assert(pre[self.best_goal_idx(coords@.take(i as int))] == coords@[self.best_goal_idx(
                    coords@.take(i as int),
                )]);
            }
            if d < bd {
                best = i;
                bd = d;
            }
            i += 1;
        }
        proof {
            assert(coords@.take(coords@.len() as int) =~= coords@);
        }
        let goal = coords[best];
        if bd == u32::MAX {
            return None;
        }
        let mut just_goal: Vec<Coord> = Vec::new();
        just_goal.push(goal);
        let paths = self.get_paths_for(&just_goal);
        let path = &paths[0];
        proof {
            assert(path@ == self.path_of(goal));
            self.lemma_path_props(goal);
            if goal != self.start_coord() {
                assert(self.dist_of(goal) >= 1) by {
                    assert(self.pred_of(goal) is Some);
                }
                assert(path@.len() >= 2);
                assert(adjacent(path@[0], path@[1]));
                assert(path@[0] == self.start_coord());
            }
        }
        if path.len() >= 2 {
            let second = path[1];
            let r = get_direction_from_to(&self.start, &second);
            proof {
                let sd = choose|sd: Direction| is_step(self.start_coord(), path@[1], sd);
                assert(r is Some) by {
                    match sd {
                        Direction::Left => {},
                        Direction::Right => {},
                        Direction::Up => {},
                        Direction::Down => {},
                    }
                }
            }
            r
        } else {
            proof {
                assert(goal == self.start_coord()) by {
                    if goal != self.start_coord() {
                        assert(path@.len() >= 2);
                    }
                }
            }
            None
        }
    }
}

/// The city-block distance from `pos` to each target, in target order.
pub fn manhatten_distance(pos: Coord, targets: Vec<Coord>) -> (r: Vec<u32>)
    requires
        forall|i: int|
            0 <= i < targets@.len() ==> abs(pos.x - (#[trigger] targets@[i]).x) + abs(
                pos.y - targets@[i].y,
            ) <= u32::MAX,
    ensures
        r@.len() == targets@.len(),
        forall|i: int|
            0 <= i < targets@.len() ==> r@[i] == abs(pos.x - (#[trigger] targets@[i]).x) + abs(
                pos.y - targets@[i].y,
            ),
{
    let mut r: Vec<u32> = Vec::new();
    let mut i: usize = 0;
    while i < targets.len()
        invariant
            i <= targets@.len(),
            r@.len() == i,
            forall|j: int|
                0 <= j < targets@.len() ==> abs(pos.x - (#[trigger] targets@[j]).x) + abs(
                    pos.y - targets@[j].y,
                ) <= u32::MAX,
            forall|j: int|
                0 <= j < i ==> r@[j] == abs(pos.x - (#[trigger] targets@[j]).x) + abs(
                    pos.y - targets@[j].y,
                ),
        decreases targets@.len() - i,
    {
        let t = targets[i];
        let dx: i64 = (pos.x as i64) - (t.x as i64);
        let dy: i64 = (pos.y as i64) - (t.y as i64);
        let adx: i64 = if dx < 0 { -dx } else { dx };
        let ady: i64 = if dy < 0 { -dy } else { dy };
        let sum: i64 = adx + ady;
        proof {
            assert(adx == abs(pos.x - t.x));
            assert(ady == abs(pos.y - t.y));
            assert(0 <= sum <= u32::MAX);
        }
        r.push(sum as u32);
        i += 1;
    }
    r
}

} // verus!
