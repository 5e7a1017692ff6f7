//! Grid geometry: coordinates, the four cardinal directions, stepping,
//! bounds checks, and the board/snake data model.
use vstd::prelude::*;

verus! {

broadcast use {vstd::seq_lib::lemma_seq_contains_after_push, Seq::lemma_index_contains};

/// A cell of the grid, addressed from the bottom-left corner:
/// `x` grows to the right, `y` grows upward.
#[derive(Debug, PartialEq, Eq, Structural, Copy, Clone, Hash, PartialOrd, Ord)]
pub struct Coord {
    pub x: i32,
    pub y: i32,
}

/// One of the four cardinal moves.
#[derive(Debug, PartialEq, Eq, Structural, Copy, Clone, Hash)]
pub enum Direction {
    Left,
    Right,
    Up,
    Down,
}

/// The board as handed to the decision core each turn.
#[derive(Debug, Clone)]
pub struct Board {
    pub height: i32,
    pub width: i32,
    pub food: Vec<Coord>,
    pub snakes: Vec<Battlesnake>,
    pub hazards: Vec<Coord>,
}

/// One snake on the board; `body[0]` is the head.
#[derive(Debug, Clone)]
pub struct Battlesnake {
    pub id: String,
    pub name: String,
    pub health: i32,
    pub body: Vec<Coord>,
    pub head: Coord,
    pub length: i32,
    pub latency: String,
    pub shout: Option<String>,
}

/// The decision returned for a turn.
#[derive(Debug, PartialEq, Eq, Structural, Copy, Clone)]
pub struct Move {
    pub dir: Direction,
}

/// Whether `c` lies on a `w` by `h` board.
pub open spec fn in_bounds_spec(c: Coord, w: int, h: int) -> bool {
    0 <= c.x < w && 0 <= c.y < h
}

/// Acceptable board extents: positive, and with an area that the
/// cell-index arithmetic can hold.
pub open spec fn dims_ok(w: int, h: int) -> bool {
    1 <= w && 1 <= h && w * h <= i32::MAX
}

/// The coordinate one step from `c` in direction `d` (meaningful when
/// the step arithmetic stays in the `i32` range, see `can_step`).
pub open spec fn stepped(c: Coord, d: Direction) -> Coord {
    match d {
        Direction::Left => Coord { x: (c.x - 1) as i32, y: c.y },
        Direction::Right => Coord { x: (c.x + 1) as i32, y: c.y },
        Direction::Up => Coord { x: c.x, y: (c.y + 1) as i32 },
        Direction::Down => Coord { x: c.x, y: (c.y - 1) as i32 },
    }
}

/// The step arithmetic in direction `d` does not leave the `i32` range.
pub open spec fn can_step(c: Coord, d: Direction) -> bool {
    match d {
        Direction::Left => c.x > i32::MIN,
        Direction::Right => c.x < i32::MAX,
        Direction::Up => c.y < i32::MAX,
        Direction::Down => c.y > i32::MIN,
    }
}

/// `b` is exactly one step from `a` in direction `d` (stated over the
/// mathematical integers, so no wrap-around is involved).
pub open spec fn is_step(a: Coord, b: Coord, d: Direction) -> bool {
    match d {
        Direction::Left => b.x == a.x - 1 && b.y == a.y,
        Direction::Right => b.x == a.x + 1 && b.y == a.y,
        Direction::Up => b.x == a.x && b.y == a.y + 1,
        Direction::Down => b.x == a.x && b.y == a.y - 1,
    }
}

/// `a` and `b` are 4-connected neighbors.
pub open spec fn adjacent(a: Coord, b: Coord) -> bool {
    exists|d: Direction| is_step(a, b, d)
}

/// The direction that leads from `a` to `b` in one step, if any.
pub open spec fn direction_between(a: Coord, b: Coord) -> Option<Direction> {
    if is_step(a, b, Direction::Left) {
        Some(Direction::Left)
    } else if is_step(a, b, Direction::Right) {
        Some(Direction::Right)
    } else if is_step(a, b, Direction::Up) {
        Some(Direction::Up)
    } else if is_step(a, b, Direction::Down) {
        Some(Direction::Down)
    } else {
        None
    }
}

/// Row-major index of an in-bounds cell.
pub open spec fn cell_index_spec(c: Coord, w: int) -> int {
    c.y * w + c.x
}

/// A step stays within `i32` whenever the source cell is in bounds of a
/// board with acceptable extents.
pub proof fn lemma_in_bounds_can_step(c: Coord, w: int, h: int)
    requires
        dims_ok(w, h),
        in_bounds_spec(c, w, h),
    ensures
        forall|d: Direction| can_step(c, d),
{
    assert(w <= w * h) by (nonlinear_arith)
        requires 1 <= h && 1 <= w;
    assert(h <= w * h) by (nonlinear_arith)
        requires 1 <= h && 1 <= w;
    assert forall|d: Direction| can_step(c, d) by {
        assert(c.x < i32::MAX);
        assert(c.y < i32::MAX);
    }
}

/// On an in-range step, the arithmetic form `stepped` and the relational
/// form `is_step` agree.
pub proof fn lemma_stepped_is_step(c: Coord, d: Direction)
    requires
        can_step(c, d),
    ensures
        is_step(c, stepped(c, d), d),
{
}

/// When the step arithmetic stays in range, the relational form pins the
/// stepped coordinate.
pub proof fn lemma_is_step_stepped(a: Coord, b: Coord, d: Direction)
    requires
        is_step(a, b, d),
        can_step(a, d),
    ensures
        b == stepped(a, d),
{
}

/// Steps in different directions land on different cells.
pub proof fn lemma_stepped_distinct(c: Coord, d1: Direction, d2: Direction)
    requires
        can_step(c, d1),
        can_step(c, d2),
        d1 != d2,
    ensures
        stepped(c, d1) != stepped(c, d2),
{
}

/// Two distinct in-bounds cells never share a row-major index.
pub proof fn lemma_cell_index_injective(a: Coord, b: Coord, w: int, h: int)
    requires
        dims_ok(w, h),
        in_bounds_spec(a, w, h),
        in_bounds_spec(b, w, h),
    ensures
        cell_index_spec(a, w) == cell_index_spec(b, w) ==> a == b,
{
    if cell_index_spec(a, w) == cell_index_spec(b, w) {
        vstd::arithmetic::div_mod::lemma_fundamental_div_mod_converse(
            cell_index_spec(a, w), w, a.y as int, a.x as int);
        vstd::arithmetic::div_mod::lemma_fundamental_div_mod_converse(
            cell_index_spec(b, w), w, b.y as int, b.x as int);
    }
}

/// The row-major index of an in-bounds cell lies below the board area.
pub proof fn lemma_cell_index_bound(c: Coord, w: int, h: int)
    requires
        dims_ok(w, h),
        in_bounds_spec(c, w, h),
    ensures
        0 <= cell_index_spec(c, w) < w * h,
{
    assert(c.y * w + c.x < w * h) by (nonlinear_arith)
        requires 0 <= c.x < w && 0 <= c.y < h;
    assert(0 <= c.y * w) by (nonlinear_arith)
        requires 0 <= c.y && 1 <= w;
}

impl Coord {
    /// The coordinate one step away in direction `dir`; plain arithmetic
    /// with no bounds check.
    pub fn next_coord_in_dir(&self, dir: &Direction) -> (r: Coord)
        requires
            can_step(*self, *dir),
        ensures
            r == stepped(*self, *dir),
            is_step(*self, r, *dir),
    {
        match dir {
            Direction::Left => Coord { x: self.x - 1, y: self.y },
            Direction::Right => Coord { x: self.x + 1, y: self.y },
            Direction::Up => Coord { x: self.x, y: self.y + 1 },
            Direction::Down => Coord { x: self.x, y: self.y - 1 },
        }
    }

    /// All in-bounds 4-connected neighbors of `self`, one per direction.
    pub fn neighbors(&self, board_size: (i32, i32)) -> (r: Vec<Coord>)
        requires
            dims_ok(board_size.0 as int, board_size.1 as int),
            in_bounds_spec(*self, board_size.0 as int, board_size.1 as int),
        ensures
            forall|i: int| 0 <= i < r@.len() ==>
                in_bounds_spec(#[trigger] r@[i], board_size.0 as int, board_size.1 as int),
            forall|d: Direction|
                in_bounds_spec(#[trigger] stepped(*self, d), board_size.0 as int, board_size.1 as int)
                    ==> r@.contains(stepped(*self, d)),
            forall|i: int| 0 <= i < r@.len() ==> adjacent(*self, #[trigger] r@[i]),
            r@.no_duplicates(),
            r@.len() <= 4,
    {
        proof {
            lemma_in_bounds_can_step(*self, board_size.0 as int, board_size.1 as int);
        }
        let w = board_size.0;
        let h = board_size.1;
        let mut r: Vec<Coord> = Vec::new();
        let left = self.next_coord_in_dir(&Direction::Left);
        if 0 <= left.x && 0 <= left.y && left.x < w && left.y < h {
            r.push(left);
        }
        let right = self.next_coord_in_dir(&Direction::Right);
        if 0 <= right.x && 0 <= right.y && right.x < w && right.y < h {
            r.push(right);
        }
        let up = self.next_coord_in_dir(&Direction::Up);
        if 0 <= up.x && 0 <= up.y && up.x < w && up.y < h {
            r.push(up);
        }
        let down = self.next_coord_in_dir(&Direction::Down);
        if 0 <= down.x && 0 <= down.y && down.x < w && down.y < h {
            r.push(down);
        }
        proof {
            assert forall|d: Direction|
                in_bounds_spec(#[trigger] stepped(*self, d), w as int, h as int)
                    implies r@.contains(stepped(*self, d)) by {
                match d {
                    Direction::Left => assert(stepped(*self, d) == left),
                    Direction::Right => assert(stepped(*self, d) == right),
                    Direction::Up => assert(stepped(*self, d) == up),
                    Direction::Down => assert(stepped(*self, d) == down),
                }
            }
            lemma_stepped_distinct(*self, Direction::Left, Direction::Right);
            lemma_stepped_distinct(*self, Direction::Left, Direction::Up);
            lemma_stepped_distinct(*self, Direction::Left, Direction::Down);
            lemma_stepped_distinct(*self, Direction::Right, Direction::Up);
            lemma_stepped_distinct(*self, Direction::Right, Direction::Down);
            lemma_stepped_distinct(*self, Direction::Up, Direction::Down);
            assert(r@.no_duplicates());
        }
        r
    }
}

/// The four directions in a fixed order.
pub fn all_directions() -> (r: Vec<Direction>)
    ensures
        r@ =~= seq![Direction::Left, Direction::Right, Direction::Up, Direction::Down],
{
    let mut r: Vec<Direction> = Vec::new();
    r.push(Direction::Left);
    r.push(Direction::Right);
    r.push(Direction::Up);
    r.push(Direction::Down);
    r
}

/// The direction leading from `from` to `to`, when `to` is exactly one
/// step away; `None` otherwise.
pub fn get_direction_from_to(from: &Coord, to: &Coord) -> (r: Option<Direction>)
    ensures
        r == direction_between(*from, *to),
{
    let dx: i64 = (to.x as i64) - (from.x as i64);
    let dy: i64 = (to.y as i64) - (from.y as i64);
    if dx == -1 && dy == 0 {
        Some(Direction::Left)
    } else if dx == 1 && dy == 0 {
        Some(Direction::Right)
    } else if dx == 0 && dy == 1 {
        Some(Direction::Up)
    } else if dx == 0 && dy == -1 {
        Some(Direction::Down)
    } else {
        None
    }
}

impl Direction {
    /// The lowercase wire name of the move.
    pub fn label(&self) -> (r: &'static str)
        ensures
            r@ == label_spec(*self),
    {
        match self {
            Direction::Left => "left",
            Direction::Right => "right",
            Direction::Up => "up",
            Direction::Down => "down",
        }
    }
}

/// The lowercase wire name of each move.
pub open spec fn label_spec(d: Direction) -> Seq<char> {
    match d {
        Direction::Left => "left"@,
        Direction::Right => "right"@,
        Direction::Up => "up"@,
        Direction::Down => "down"@,
    }
}

/// Whether `c` occurs in `v`.
pub fn coords_contains(v: &Vec<Coord>, c: Coord) -> (r: bool)
    ensures
        r == v@.contains(c),
{
    let mut i: usize = 0;
    while i < v.len()
        invariant
            i <= v@.len(),
            forall|j: int| 0 <= j < i ==> v@[j] != c,
        decreases v@.len() - i,
    {
        if v[i] == c {
            assert(v@[i as int] == c);
            return true;
        }
        i += 1;
    }
    false
}

/// Row-major index of an in-bounds cell, as a `usize` fit for indexing.
pub fn cell_index(c: Coord, w: i32, h: i32) -> (r: usize)
    requires
        dims_ok(w as int, h as int),
        in_bounds_spec(c, w as int, h as int),
    ensures
        r == cell_index_spec(c, w as int),
        r < (w * h) as usize,
{
    proof {
        lemma_cell_index_bound(c, w as int, h as int);
    }
    (c.y as usize) * (w as usize) + (c.x as usize)
}

} // verus!
