use snake_core::game::Battlesnake;
use snake_core::game::Board;
use snake_core::game::Coord;
use snake_core::game::Direction;
use snake_core::strategy::RandomStrategy;
use snake_core::strategy::SimpleStrategy;
use snake_core::strategy::decide_direction;
use snake_core::strategy::direction_for_draw;
use snake_core::strategy::flood_fill_all_directions;

fn snake_with_body(body: Vec<Coord>) -> Battlesnake {
    Battlesnake {
        id: String::from("self"),
        name: String::from("tester"),
        health: 90,
        head: body[0],
        length: body.len() as i32,
        body,
        latency: String::from("10"),
        shout: None,
    }
}

fn board_with(width: i32, height: i32, food: Vec<Coord>, snakes: Vec<Battlesnake>) -> Board {
    Board {
        width,
        height,
        food,
        snakes,
        hazards: vec![],
    }
}

// safety over greed: the only move toward the food enters a one-cell
// pocket, the other one opens a large region; the large region wins
#[test]
fn test_picks_open_region_over_food_pocket() {
    let body = vec![
        Coord { x: 3, y: 0 },
        Coord { x: 3, y: 1 },
        Coord { x: 2, y: 1 },
        Coord { x: 1, y: 1 },
        Coord { x: 1, y: 0 },
    ];
    let snake = snake_with_body(body);
    let food = vec![Coord { x: 2, y: 0 }];
    let board = board_with(5, 5, food, vec![snake.clone()]);
    let mv = SimpleStrategy.make_move(&board, &snake);
    assert_eq!(mv.dir, Direction::Right);
}

// a snake boxed in on all sides answers with the fixed fallback
#[test]
fn test_boxed_in_falls_back_to_down() {
    let body = vec![
        Coord { x: 0, y: 0 },
        Coord { x: 1, y: 0 },
        Coord { x: 1, y: 1 },
        Coord { x: 0, y: 1 },
    ];
    let snake = snake_with_body(body);
    let board = board_with(5, 5, vec![], vec![snake.clone()]);
    let mv = SimpleStrategy.make_move(&board, &snake);
    assert_eq!(mv.dir, Direction::Down);
}

// with one single safe move left, that move is taken
#[test]
fn test_single_safe_move_is_taken() {
    let body = vec![Coord { x: 0, y: 0 }, Coord { x: 0, y: 1 }];
    let snake = snake_with_body(body);
    let board = board_with(5, 5, vec![Coord { x: 4, y: 4 }], vec![snake.clone()]);
    let mv = SimpleStrategy.make_move(&board, &snake);
    assert_eq!(mv.dir, Direction::Right);
}

// another snake's body counts as an obstacle for the space score
#[test]
fn test_other_snake_blocks_space() {
    let me = snake_with_body(vec![Coord { x: 1, y: 0 }]);
    let other = snake_with_body(vec![
        Coord { x: 0, y: 1 },
        Coord { x: 1, y: 1 },
        Coord { x: 2, y: 1 },
        Coord { x: 2, y: 0 },
    ]);
    // my head sits at (1,0): left is a one-cell pocket at (0,0), right is
    // the other snake's body, up likewise; only left survives as a legal
    // move with any space, so the wall forces the pocket
    let board = board_with(5, 5, vec![], vec![me.clone(), other]);
    let mv = SimpleStrategy.make_move(&board, &me);
    assert_eq!(mv.dir, Direction::Left);
}

// the random policy answers with one of the four moves
#[test]
fn test_random_strategy_returns_a_direction() {
    let snake = snake_with_body(vec![Coord { x: 2, y: 2 }]);
    let board = board_with(5, 5, vec![], vec![snake.clone()]);
    let mv = RandomStrategy.make_move(&board, &snake);
    assert!(matches!(
        mv.dir,
        Direction::Up | Direction::Down | Direction::Left | Direction::Right
    ));
}

// the per-direction area scores of a free head cell
#[test]
fn test_flood_fill_all_directions_scores() {
    let start = Coord { x: 0, y: 0 };
    let blocked: Vec<Coord> = vec![Coord { x: 0, y: 0 }];
    let scores = flood_fill_all_directions(&start, (3, 3), &blocked);
    // only Right and Up lead onto the board from the corner
    assert_eq!(scores.len(), 2);
    assert_eq!(scores[0], (Direction::Right, 8));
    assert_eq!(scores[1], (Direction::Up, 8));
}

// the two hard filters, exercised directly
#[test]
fn test_filters_drop_unsafe_moves() {
    let body = vec![
        Coord { x: 0, y: 0 },
        Coord { x: 1, y: 0 },
        Coord { x: 1, y: 1 },
    ];
    let snake = snake_with_body(body);
    let board = board_with(5, 5, vec![], vec![snake.clone()]);
    let mut moves = vec![
        Direction::Left,
        Direction::Right,
        Direction::Up,
        Direction::Down,
    ];
    SimpleStrategy.prevent_self_collision(&mut moves, &snake);
    assert_eq!(moves, vec![Direction::Left, Direction::Up, Direction::Down]);
    SimpleStrategy.prevent_out_of_bounds(&mut moves, &board, &snake);
    assert_eq!(moves, vec![Direction::Up]);
}

// the tie-break rule over given evidence: the goal direction wins
// exactly when it is among the safe moves
#[test]
fn test_decide_direction_prefers_goal_among_safe() {
    let safe = vec![Direction::Left, Direction::Right];
    assert_eq!(
        decide_direction(&safe, Some(Direction::Right), 0),
        Direction::Right
    );
    assert_eq!(
        decide_direction(&safe, Some(Direction::Up), 0),
        Direction::Left
    );
    assert_eq!(decide_direction(&safe, None, 1), Direction::Right);
}

// the decode of the four-way draw, value by value
#[test]
fn test_direction_for_draw_decode() {
    assert_eq!(direction_for_draw(0), Direction::Up);
    assert_eq!(direction_for_draw(1), Direction::Down);
    assert_eq!(direction_for_draw(2), Direction::Left);
    assert_eq!(direction_for_draw(3), Direction::Right);
}
