//! The turn-level decision procedure: hard safety filters over the four
//! candidate moves, reachable-area scoring, goal seeking, and the final
//! tie-break.
use vstd::prelude::*;
use rand::Rng;
use crate::flood_fill::flood_fill;
use crate::game::Battlesnake;
use crate::game::Board;
use crate::game::Coord;
use crate::game::Direction;
use crate::game::Move;
use crate::game::all_directions;
use crate::game::can_step;
use crate::game::dims_ok;
use crate::game::in_bounds_spec;
use crate::game::lemma_in_bounds_can_step;
use crate::game::stepped;
use crate::pathfinding::DijkResult;
use crate::pathfinding::dijk_reached;
use crate::pathfinding::dijkstra;
use crate::reachability::reach_set;

verus! {

broadcast use {vstd::seq_lib::lemma_seq_contains_after_push, Seq::lemma_index_contains};

/// A policy that always answers with a uniformly random direction.
pub struct RandomStrategy;

/// The space-then-food policy: keep every move that is safe by
/// reachable area, prefer the one leading toward the closest food when
/// it is among them, and otherwise pick among them at random.
pub struct SimpleStrategy;

/// The board extents fit the search engines and the snake's head is on
/// the board.
pub open spec fn turn_input_ok(board: &Board, snake: &Battlesnake) -> bool {
    &&& dims_ok(board.width as int, board.height as int)
    &&& in_bounds_spec(snake.head, board.width as int, board.height as int)
}

/// The cells covered by any of the listed snakes' bodies.
pub open spec fn bodies_set(snakes: Seq<Battlesnake>) -> Set<Coord> {
    Set::new(
        |c: Coord|
            exists|i: int|
                0 <= i < snakes.len() && (#[trigger] snakes[i]).body@.contains(c),
    )
}

/// This turn's obstacle set: the union of all snakes' bodies.
pub open spec fn obstacle_set(board: &Board) -> Set<Coord> {
    bodies_set(board.snakes@)
}

/// Moving `d` would land on the snake's own body.
pub open spec fn hits_own_body(snake: &Battlesnake, d: Direction) -> bool {
    snake.body@.contains(stepped(snake.head, d))
}

/// Moving `d` would leave the board.
pub open spec fn leaves_board(board: &Board, snake: &Battlesnake, d: Direction) -> bool {
    match d {
        Direction::Left => snake.head.x == 0,
        Direction::Right => snake.head.x == board.width - 1,
        Direction::Up => snake.head.y == board.height - 1,
        Direction::Down => snake.head.y == 0,
    }
}

/// `d` survives both hard safety filters.
pub open spec fn is_candidate(board: &Board, snake: &Battlesnake, d: Direction) -> bool {
    !hits_own_body(snake, d) && !leaves_board(board, snake, d)
}

/// The directions whose step avoids the snake's own body.
pub open spec fn misses_own_body(snake: &Battlesnake) -> spec_fn(Direction) -> bool {
    |d: Direction| !hits_own_body(snake, d)
}

/// The directions whose step stays on the board.
pub open spec fn stays_on_board(board: &Board, snake: &Battlesnake) -> spec_fn(Direction) -> bool {
    |d: Direction| !leaves_board(board, snake, d)
}

/// The directions that survive both hard safety filters.
pub open spec fn passes_filters(board: &Board, snake: &Battlesnake) -> spec_fn(Direction) -> bool {
    |d: Direction| is_candidate(board, snake, d)
}

/// The move each value of a four-way random draw decodes to.
pub open spec fn drawn_direction(n: int) -> Direction {
    if n == 0 {
        Direction::Up
    } else if n == 1 {
        Direction::Down
    } else if n == 2 {
        Direction::Left
    } else {
        Direction::Right
    }
}

/// `d` survives the hard filters and no surviving move opens more
/// space.
pub open spec fn max_space_candidate(board: &Board, snake: &Battlesnake, d: Direction) -> bool {
    &&& is_candidate(board, snake, d)
    &&& forall|e: Direction|
        is_candidate(board, snake, e) ==> space_score(board, snake, e) <= space_score(
            board,
            snake,
            d,
        )
}

/// The reachable area behind the move `d`: how many cells a fill from
/// the stepped-to cell covers under this turn's obstacles.
pub open spec fn space_score(board: &Board, snake: &Battlesnake, d: Direction) -> nat {
    reach_set(
        stepped(snake.head, d),
        obstacle_set(board),
        board.width as int,
        board.height as int,
    ).len()
}

/// A candidate move never steps off the board.
pub proof fn lemma_candidate_step_in_bounds(board: &Board, snake: &Battlesnake, d: Direction)
    requires
        turn_input_ok(board, snake),
        !leaves_board(board, snake, d),
    ensures
        in_bounds_spec(stepped(snake.head, d), board.width as int, board.height as int),
{
    lemma_in_bounds_can_step(snake.head, board.width as int, board.height as int);
}

/// `res` is a finished search of this turn's board — anchored at the
/// snake's head, well-formed, consistent with the obstacle set, and
/// reaching exactly what the obstacles allow — and whenever the
/// nearest-food direction it yields is a maximal-space surviving move,
/// `m` takes it.
pub open spec fn honors_goal_search(
    res: DijkResult,
    board: &Board,
    snake: &Battlesnake,
    m: Move,
) -> bool {
    &&& res.wf()
    &&& res.start_coord() == snake.head
    &&& res.grid_width() == board.width as int
    &&& res.grid_height() == board.height as int
    &&& res.respects(obstacle_set(board))
    &&& forall|c: Coord| #![trigger res.dist_of(c)]
        res.dist_of(c) < u32::MAX <==> dijk_reached(
            snake.head,
            c,
            obstacle_set(board),
            board.width as int,
            board.height as int,
        )
    &&& (match res.goal_direction(board.food@) {
        Some(f) => max_space_candidate(board, snake, f) ==> m.dir == f,
        None => true,
    })
}

/// Relies on rand::rng and rand::Rng::random_range: a uniformly random
/// draw from the nonempty range `[0, n)`, so the result is below `n`.
#[verifier::external_body]
fn random_below(n: usize) -> (r: usize)
    requires
        n >= 1,
    ensures
        r < n,
{
    rand::rng().random_range(0..n)
}

/// The move a given four-way draw decodes to.
pub fn direction_for_draw(num: usize) -> (r: Direction)
    requires
        num < 4,
    ensures
        r == drawn_direction(num as int),
{
    if num == 0 {
        Direction::Up
    } else if num == 1 {
        Direction::Down
    } else if num == 2 {
        Direction::Left
    } else {
        Direction::Right
    }
}

/// The final tie-break of a turn, over the evidence the engines hand
/// in: the goal-seeking direction is taken exactly when it is one of
/// the maximal-space moves, and otherwise the randomly drawn one of
/// them answers.
pub fn decide_direction(
    safe_moves: &Vec<Direction>,
    goal_dir: Option<Direction>,
    pick: usize,
) -> (r: Direction)
    requires
        safe_moves@.len() >= 1,
        pick < safe_moves@.len(),
    ensures
        r == (match goal_dir {
            Some(f) => if safe_moves@.contains(f) {
                f
            } else {
                safe_moves@[pick as int]
            },
            None => safe_moves@[pick as int],
        }),
        safe_moves@.contains(r),
{
    if let Some(f) = goal_dir {
        if dirs_contain(safe_moves, f) {
            return f;
        }
    }
    let r = safe_moves[pick];
    proof {
        assert(safe_moves@[pick as int] == r);
    }
    r
}

/// Whether `d` occurs in `v`.
fn dirs_contain(v: &Vec<Direction>, d: Direction) -> (r: bool)
    ensures
        r == v@.contains(d),
{
    let mut i: usize = 0;
    while i < v.len()
        invariant
            i <= v@.len(),
            forall|j: int| 0 <= j < i ==> v@[j] != d,
        decreases v@.len() - i,
    {
        if v[i] == d {
            assert(v@[i as int] == d);
            return true;
        }
        i += 1;
    }
    false
}

/// Every body cell of every snake on the board, flattened into one
/// obstacle list.
fn collect_obstacles(snakes: &Vec<Battlesnake>) -> (r: Vec<Coord>)
    ensures
        forall|c: Coord| r@.contains(c) <==> bodies_set(snakes@).contains(c),
{
    let mut r: Vec<Coord> = Vec::new();
    let mut i: usize = 0;
    while i < snakes.len()
        invariant
            i <= snakes@.len(),
            forall|c: Coord|
                r@.contains(c) <==> exists|ii: int|
                    0 <= ii < i && (#[trigger] snakes@[ii]).body@.contains(c),
        decreases snakes@.len() - i,
    {
        let body = &snakes[i].body;
        let mut j: usize = 0;
        while j < body.len()
            invariant
                i < snakes@.len(),
                j <= body@.len(),
                body@ == snakes@[i as int].body@,
                forall|c: Coord|
                    r@.contains(c) <==> (exists|ii: int|
                        0 <= ii < i && (#[trigger] snakes@[ii]).body@.contains(c)) || body@.take(
                        j as int,
                    ).contains(c),
            decreases body@.len() - j,
        {
            proof {
                assert(body@.take(j as int + 1) =~= body@.take(j as int).push(body@[j as int]));
            }
            r.push(body[j]);
            j += 1;
        }
        proof {
            assert(body@.take(body@.len() as int) =~= body@);
            assert forall|c: Coord|
                r@.contains(c) <==> exists|ii: int|
                    0 <= ii < i + 1 && (#[trigger] snakes@[ii]).body@.contains(c) by {
                if r@.contains(c) {
                    if body@.contains(c) {
                        assert(snakes@[i as int].body@.contains(c));
                    }
                }
                if exists|ii: int| 0 <= ii < i + 1 && (#[trigger] snakes@[ii]).body@.contains(c) {
                    let ii = choose|ii: int|
                        0 <= ii < i + 1 && (#[trigger] snakes@[ii]).body@.contains(c);
                    if ii == i {
                        assert(body@.contains(c));
                    }
                }
            }
        }
        i += 1;
    }
    r
}

/// The reachable-area score behind each in-bounds move from `start`:
/// one entry per direction whose stepped-to cell is on the board,
/// carrying the flood-fill area found there.
#[verifier::rlimit(100)]
#[verifier::spinoff_prover]
pub fn flood_fill_all_directions(
    start: &Coord,
    board_size: (i32, i32),
    blocked_pos: &Vec<Coord>,
) -> (r: Vec<(Direction, usize)>)
    requires
        dims_ok(board_size.0 as int, board_size.1 as int),
        forall|d: Direction| can_step(*start, d),
    ensures
        forall|i: int|
            0 <= i < r@.len() ==> in_bounds_spec(
                stepped(*start, (#[trigger] r@[i]).0),
                board_size.0 as int,
                board_size.1 as int,
            ) && r@[i].1 == reach_set(
                stepped(*start, r@[i].0),
                blocked_pos@.to_set(),
                board_size.0 as int,
                board_size.1 as int,
            ).len(),
        forall|d: Direction|
            in_bounds_spec(#[trigger] stepped(*start, d), board_size.0 as int, board_size.1 as int)
                ==> exists|i: int| 0 <= i < r@.len() && (#[trigger] r@[i]).0 == d,
        forall|i: int, j: int|
            0 <= i < j < r@.len() ==> (#[trigger] r@[i]).0 != (#[trigger] r@[j]).0,
        r@.len() <= 4,
{
    let w = board_size.0;
    let h = board_size.1;
    let dirs = all_directions();
    let mut r: Vec<(Direction, usize)> = Vec::new();
    let mut k: usize = 0;
    while k < 4
        invariant
            dirs@ =~= seq![Direction::Left, Direction::Right, Direction::Up, Direction::Down],
            0 <= k <= 4,
            w == board_size.0,
            h == board_size.1,
            dims_ok(w as int, h as int),
            forall|d: Direction| can_step(*start, d),
            forall|i: int|
                0 <= i < r@.len() ==> in_bounds_spec(
                    stepped(*start, (#[trigger] r@[i]).0),
                    w as int,
                    h as int,
                ) && r@[i].1 == reach_set(
                    stepped(*start, r@[i].0),
                    blocked_pos@.to_set(),
                    w as int,
                    h as int,
                ).len(),
            forall|j: int|
                0 <= j < k && in_bounds_spec(#[trigger] stepped(*start, dirs@[j]), w as int, h as int)
                    ==> exists|i: int| 0 <= i < r@.len() && (#[trigger] r@[i]).0 == dirs@[j],
            forall|i: int|
                0 <= i < r@.len() ==> exists|j: int| 0 <= j < k && (#[trigger] r@[i]).0 == dirs@[j],
            forall|i: int, j: int|
                0 <= i < j < r@.len() ==> (#[trigger] r@[i]).0 != (#[trigger] r@[j]).0,
            r@.len() <= k,
        decreases 4 - k,
    {
        let d = dirs[k];
        let c = start.next_coord_in_dir(&d);
        let ghost r_old = r@;
        if 0 <= c.x && 0 <= c.y && c.x < w && c.y < h {
            let reachable_field = flood_fill(c, blocked_pos, w, h);
            r.push((d, reachable_field.len()));
            proof {
                assert(r@[r@.len() - 1] == (d, reachable_field@.len() as usize));
                assert forall|i: int| 0 <= i < r_old.len() implies r@[i] == r_old[i] by {}
                assert forall|i: int|
                    0 <= i < r@.len() implies exists|j: int|
                        0 <= j < k + 1 && (#[trigger] r@[i]).0 == dirs@[j] by {
                    if i < r_old.len() {
                        let j = choose|j: int| 0 <= j < k && (#[trigger] r_old[i]).0 == dirs@[j];
                        assert(r@[i].0 == dirs@[j]);
                    } else {
                        assert(r@[i].0 == dirs@[k as int]);
                    }
                }
                assert forall|i: int, j: int|
                    0 <= i < j < r@.len() implies (#[trigger] r@[i]).0 != (#[trigger] r@[j]).0 by {
                    if j == r@.len() - 1 {
                        let ji = choose|ji: int| 0 <= ji < k && (#[trigger] r_old[i]).0 == dirs@[ji];
                        assert(r@[i].0 == dirs@[ji]);
                        assert(r@[j].0 == dirs@[k as int]);
                        assert(dirs@[ji] != dirs@[k as int]);
                    }
                }
            }
        }
        proof {
            assert forall|j: int|
                0 <= j < k + 1 && in_bounds_spec(
                    #[trigger] stepped(*start, dirs@[j]),
                    w as int,
                    h as int,
                ) implies exists|i: int| 0 <= i < r@.len() && (#[trigger] r@[i]).0 == dirs@[j] by {
                if j < k {
                    let i = choose|i: int| 0 <= i < r_old.len() && (#[trigger] r_old[i]).0 == dirs@[j];
                    assert(r@[i].0 == dirs@[j]);
                } else {
                    assert(stepped(*start, dirs@[j]) == c);
                    assert(r@[r@.len() - 1].0 == d);
                }
            }
        }
        k += 1;
    }
    r
}

impl RandomStrategy {
    /// A uniformly random move, paying no attention to the board: the
    /// decode of a four-way draw.
    pub fn make_move(&self, _board: &Board, _snake: &Battlesnake) -> (m: Move)
        ensures
            exists|n: int| 0 <= n < 4 && m.dir == drawn_direction(n),
    {
        let num = random_below(4);
        let dir = direction_for_draw(num);
        proof {
            assert(dir == drawn_direction(num as int));
        }
        Move { dir }
    }
}

impl SimpleStrategy {
    /// Drop every direction whose stepped-to cell lands on the snake's
    /// own body; the surviving directions keep their order.
    pub fn prevent_self_collision(&self, moves: &mut Vec<Direction>, snake: &Battlesnake)
        requires
            forall|d: Direction| can_step(snake.head, d),
        ensures
            final(moves)@ == old(moves)@.filter(misses_own_body(snake)),
    {
        let head = snake.head;
        let mut kept: Vec<Direction> = Vec::new();
        let mut i: usize = 0;
        while i < moves.len()
            invariant
                i <= moves@.len(),
                forall|d: Direction| can_step(head, d),
                head == snake.head,
                kept@ == moves@.take(i as int).filter(misses_own_body(snake)),
            decreases moves@.len() - i,
        {
            let mv = moves[i];
            let nxt = head.next_coord_in_dir(&mv);
            let hit = crate::game::coords_contains(&snake.body, nxt);
            if !hit {
                kept.push(mv);
            }
            let ghost i0 = i as int;
            i += 1;
            proof {
                let pred = misses_own_body(snake);
                assert(hit == hits_own_body(snake, mv));
                assert(pred(mv) == !hit);
                assert(mv == moves@[i0]);
                assert(moves@.take(i as int) =~= moves@.take(i0).push(mv));
                moves@.take(i0).lemma_filter_push(mv, pred);
            }
        }
        proof {
            assert(moves@.take(moves@.len() as int) =~= moves@);
        }
        *moves = kept;
    }

    /// Drop every direction that would take the head off the board; the
    /// surviving directions keep their order.
    pub fn prevent_out_of_bounds(&self, moves: &mut Vec<Direction>, board: &Board, snake: &Battlesnake)
        requires
            1 <= board.width,
            1 <= board.height,
        ensures
            final(moves)@ == old(moves)@.filter(stays_on_board(board, snake)),
    {
        let head = snake.head;
        let b_height = board.height;
        let b_width = board.width;
        let mut kept: Vec<Direction> = Vec::new();
        let mut i: usize = 0;
        while i < moves.len()
            invariant
                i <= moves@.len(),
                head == snake.head,
                b_height == board.height,
                b_width == board.width,
                1 <= b_width,
                1 <= b_height,
                kept@ == moves@.take(i as int).filter(stays_on_board(board, snake)),
            decreases moves@.len() - i,
        {
            let mv = moves[i];
            let off = match mv {
                Direction::Left => head.x == 0,
                Direction::Right => head.x == b_width - 1,
                Direction::Up => head.y == b_height - 1,
                Direction::Down => head.y == 0,
            };
            if !off {
                kept.push(mv);
            }
            let ghost i0 = i as int;
            i += 1;
            proof {
                let pred = stays_on_board(board, snake);
                assert(off == leaves_board(board, snake, mv));
                assert(pred(mv) == !off);
                assert(mv == moves@[i0]);
                assert(moves@.take(i as int) =~= moves@.take(i0).push(mv));
                moves@.take(i0).lemma_filter_push(mv, pred);
            }
        }
        proof {
            assert(moves@.take(moves@.len() as int) =~= moves@);
        }
        *moves = kept;
    }

    /// The four directions, minus those failing the bounds filter and
    /// the self-collision filter.
    fn surviving_moves(&self, board: &Board, snake: &Battlesnake) -> (r: Vec<Direction>)
        requires
            turn_input_ok(board, snake),
        ensures
            forall|d: Direction| #![trigger is_candidate(board, snake, d)]
                r@.contains(d) <==> is_candidate(board, snake, d),
    {
        proof {
            lemma_in_bounds_can_step(snake.head, board.width as int, board.height as int);
        }
        let dirs = all_directions();
        let mut kept: Vec<Direction> = Vec::new();
        let mut k: usize = 0;
        while k < 4
            invariant
                dirs@ =~= seq![
                    Direction::Left,
                    Direction::Right,
                    Direction::Up,
                    Direction::Down,
                ],
                0 <= k <= 4,
                turn_input_ok(board, snake),
                forall|d: Direction| can_step(snake.head, d),
                kept@ == dirs@.take(k as int).filter(passes_filters(board, snake)),
            decreases 4 - k,
        {
            let d = dirs[k];
            let head = snake.head;
            let off = match d {
                Direction::Left => head.x == 0,
                Direction::Right => head.x == board.width - 1,
                Direction::Up => head.y == board.height - 1,
                Direction::Down => head.y == 0,
            };
            let nxt = head.next_coord_in_dir(&d);
            let hit = crate::game::coords_contains(&snake.body, nxt);
            if !off && !hit {
                kept.push(d);
            }
            let ghost k0 = k as int;
            k += 1;
            proof {
                let pred = passes_filters(board, snake);
                assert(off == leaves_board(board, snake, d));
                assert(hit == hits_own_body(snake, d));
                assert(pred(d) == (!off && !hit));
                assert(d == dirs@[k0]);
                assert(dirs@.take(k as int) =~= dirs@.take(k0).push(d));
                dirs@.take(k0).lemma_filter_push(d, pred);
            }
        }
        proof {
            let pred = passes_filters(board, snake);
            assert(dirs@.take(4) =~= dirs@);
            assert(kept@ == dirs@.filter(pred));
            assert forall|d: Direction| #![trigger is_candidate(board, snake, d)]
                kept@.contains(d) <==> is_candidate(board, snake, d) by {
                if kept@.contains(d) {
                    let i = choose|i: int| 0 <= i < kept@.len() && kept@[i] == d;
                    dirs@.lemma_filter_pred(pred, i);
                    assert(pred(d));
                }
                if is_candidate(board, snake, d) {
                    let j: int = match d {
                        Direction::Left => 0,
                        Direction::Right => 1,
                        Direction::Up => 2,
                        Direction::Down => 3,
                    };
                    assert(dirs@[j] == d);
                    assert(pred(dirs@[j]));
                    dirs@.lemma_filter_contains(pred, j);
                }
            }
        }
        kept
    }

    /// Decide this turn's move. When no direction survives the
    /// self-collision and bounds filters the fixed fallback `Down` is
    /// returned; otherwise the answer is always one of the surviving
    /// directions whose reachable area is maximal, with the direction
    /// toward the closest reachable food preferred when it is among
    /// them and a random choice among them otherwise.
    #[verifier::rlimit(100)]
    #[verifier::spinoff_prover]
    pub fn make_move(&self, board: &Board, snake: &Battlesnake) -> (m: Move)
        requires
            turn_input_ok(board, snake),
        ensures
            (forall|d: Direction| !is_candidate(board, snake, d)) ==> m.dir == Direction::Down,
            (exists|d: Direction| is_candidate(board, snake, d)) ==> max_space_candidate(
                board,
                snake,
                m.dir,
            ),
            exists|res: DijkResult| honors_goal_search(res, board, snake, m),
    {
        let ghost wi = board.width as int;
        let ghost hi = board.height as int;
        proof {
            lemma_in_bounds_can_step(snake.head, wi, hi);
        }
        let goals = &board.food;
        let board_size = (board.width, board.height);
        let blocked_pos = collect_obstacles(&board.snakes);
        proof {
            assert(blocked_pos@.to_set() =~= obstacle_set(board));
        }
        let surviving_moves = self.surviving_moves(board, snake);
        let flood_fill_scores = flood_fill_all_directions(&snake.head, board_size, &blocked_pos);
        let dijk_res = dijkstra(snake.head, board_size, &blocked_pos);

        // the best reachable area among the surviving moves
        let mut max_ff_score: usize = 0;
        let mut any_candidate: bool = false;
        let mut i: usize = 0;
        while i < flood_fill_scores.len()
            invariant
                i <= flood_fill_scores@.len(),
                turn_input_ok(board, snake),
                forall|d: Direction| #![trigger is_candidate(board, snake, d)]
                    is_candidate(board, snake, d) <==> surviving_moves@.contains(d),
                forall|j: int|
                    0 <= j < flood_fill_scores@.len() ==> in_bounds_spec(
                        stepped(snake.head, (#[trigger] flood_fill_scores@[j]).0),
                        wi,
                        hi,
                    ) && flood_fill_scores@[j].1 == space_score(
                        board,
                        snake,
                        flood_fill_scores@[j].0,
                    ),
                any_candidate <==> exists|j: int|
                    0 <= j < i && is_candidate(board, snake, (#[trigger] flood_fill_scores@[j]).0),
                any_candidate ==> exists|j: int|
                    0 <= j < i && is_candidate(board, snake, (#[trigger] flood_fill_scores@[j]).0)
                        && flood_fill_scores@[j].1 == max_ff_score,
                forall|j: int|
                    0 <= j < i && is_candidate(board, snake, (#[trigger] flood_fill_scores@[j]).0)
                        ==> flood_fill_scores@[j].1 <= max_ff_score,
            decreases flood_fill_scores@.len() - i,
        {
            let entry_dir = flood_fill_scores[i].0;
            let entry_score = flood_fill_scores[i].1;
            if dirs_contain(&surviving_moves, entry_dir) {
                if !any_candidate || entry_score > max_ff_score {
                    max_ff_score = entry_score;
                }
                any_candidate = true;
            }
            i += 1;
        }
        if !any_candidate {
            proof {
                assert forall|d: Direction| !is_candidate(board, snake, d) by {
                    if is_candidate(board, snake, d) {
                        lemma_candidate_step_in_bounds(board, snake, d);
                        let j = choose|j: int|
                            0 <= j < flood_fill_scores@.len() && (#[trigger] flood_fill_scores@[j]).0
                                == d;
                    }
                }
                assert(honors_goal_search(
                    dijk_res,
                    board,
                    snake,
                    (Move { dir: Direction::Down }),
                ));
            }
            return Move { dir: Direction::Down };
        }

        // the moves achieving that best area
        let mut non_blocking_dirs: Vec<Direction> = Vec::new();
        let mut k: usize = 0;
        while k < flood_fill_scores.len()
            invariant
                k <= flood_fill_scores@.len(),
                turn_input_ok(board, snake),
                forall|d: Direction| #![trigger is_candidate(board, snake, d)]
                    is_candidate(board, snake, d) <==> surviving_moves@.contains(d),
                forall|j: int|
                    0 <= j < flood_fill_scores@.len() ==> in_bounds_spec(
                        stepped(snake.head, (#[trigger] flood_fill_scores@[j]).0),
                        wi,
                        hi,
                    ) && flood_fill_scores@[j].1 == space_score(
                        board,
                        snake,
                        flood_fill_scores@[j].0,
                    ),
                forall|d: Direction|
                    non_blocking_dirs@.contains(d) ==> is_candidate(board, snake, d)
                        && space_score(board, snake, d) == max_ff_score,
                forall|j: int|
                    0 <= j < k && is_candidate(board, snake, (#[trigger] flood_fill_scores@[j]).0)
                        && flood_fill_scores@[j].1 == max_ff_score ==> non_blocking_dirs@.contains(
                        flood_fill_scores@[j].0,
                    ),
            decreases flood_fill_scores@.len() - k,
        {
            let entry_dir = flood_fill_scores[k].0;
            let entry_score = flood_fill_scores[k].1;
            let ghost nb_old = non_blocking_dirs@;
            if entry_score == max_ff_score && dirs_contain(&surviving_moves, entry_dir) {
                non_blocking_dirs.push(entry_dir);
            }
            proof {
                assert forall|d: Direction| nb_old.contains(d) implies non_blocking_dirs@.contains(
                    d,
                ) by {}
            }
            k += 1;
        }
        proof {
            let j = choose|j: int|
                0 <= j < flood_fill_scores@.len() && is_candidate(
                    board,
                    snake,
                    (#[trigger] flood_fill_scores@[j]).0,
                ) && flood_fill_scores@[j].1 == max_ff_score;
            assert(non_blocking_dirs@.contains(flood_fill_scores@[j].0));
            assert(non_blocking_dirs@.len() >= 1);
            assert forall|d: Direction|
                is_candidate(board, snake, d) implies space_score(board, snake, d)
                <= max_ff_score by {
                lemma_candidate_step_in_bounds(board, snake, d);
                let jj = choose|jj: int|
                    0 <= jj < flood_fill_scores@.len() && (#[trigger] flood_fill_scores@[jj]).0 == d;
            }
        }

        let closest_food_dir = dijk_res.get_direction_for_shortest_goal(goals);
        let pick = random_below(non_blocking_dirs.len());
        let dir = decide_direction(&non_blocking_dirs, closest_food_dir, pick);
        proof {
            assert(closest_food_dir == dijk_res.goal_direction(board.food@));
            match closest_food_dir {
                Some(f) => {
                    if max_space_candidate(board, snake, f) {
                        lemma_candidate_step_in_bounds(board, snake, f);
                        let j = choose|j: int|
                            0 <= j < flood_fill_scores@.len() && (#[trigger] flood_fill_scores@[j]).0
                                == f;
                        let j0 = choose|j0: int|
                            0 <= j0 < flood_fill_scores@.len() && is_candidate(
                                board,
                                snake,
                                (#[trigger] flood_fill_scores@[j0]).0,
                            ) && flood_fill_scores@[j0].1 == max_ff_score;
                        assert(space_score(board, snake, flood_fill_scores@[j0].0) <= space_score(
                            board,
                            snake,
                            f,
                        ));
                        assert(flood_fill_scores@[j].1 == space_score(board, snake, f));
                        assert(flood_fill_scores@[j].1 == max_ff_score);
                        assert(non_blocking_dirs@.contains(f));
                        assert(dir == f);
                    }
                },
                None => {},
            }
            assert(honors_goal_search(dijk_res, board, snake, (Move { dir })));
        }
        Move { dir }
    }
}

} // verus!
