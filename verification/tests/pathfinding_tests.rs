use snake_core::game::Coord;
use snake_core::game::Direction;
use snake_core::pathfinding::dijkstra;
use snake_core::pathfinding::manhatten_distance;

#[test]
fn test_single_target() {
    let pos = Coord { x: 0, y: 0 };
    let targets = vec![Coord { x: 3, y: 4 }];
    assert_eq!(manhatten_distance(pos, targets), vec![7]);
}

#[test]
fn test_multiple_targets() {
    let pos = Coord { x: 1, y: 1 };
    let targets = vec![Coord { x: 4, y: 5 }, Coord { x: -2, y: -3 }];
    assert_eq!(manhatten_distance(pos, targets), vec![7, 7]);
}

#[test]
fn test_same_position() {
    let pos = Coord { x: 2, y: 2 };
    let targets = vec![Coord { x: 2, y: 2 }];
    assert_eq!(manhatten_distance(pos, targets), vec![0]);
}

#[test]
fn test_empty_targets() {
    let pos = Coord { x: 5, y: 5 };
    let targets = vec![];
    assert_eq!(manhatten_distance(pos, targets), Vec::<u32>::new());
}

#[test]
fn test_negative_coordinates() {
    let pos = Coord { x: -3, y: -3 };
    let targets = vec![Coord { x: -1, y: -6 }];
    assert_eq!(manhatten_distance(pos, targets), vec![5]);
}

#[test]
fn test_large_numbers() {
    let pos = Coord {
        x: 1_000_000,
        y: 1_000_000,
    };
    let targets = vec![Coord {
        x: 2_000_000,
        y: 3_000_000,
    }];
    assert_eq!(manhatten_distance(pos, targets), vec![3_000_000]);
}

#[test]
fn test_mixed_sign_coordinates() {
    let pos = Coord { x: -5, y: 5 };
    let targets = vec![Coord { x: 5, y: -5 }];
    assert_eq!(manhatten_distance(pos, targets), vec![20]);
}

#[test]
fn test_direct_path() {
    let start = Coord { x: 0, y: 0 };
    let goal = Coord { x: 3, y: 3 };
    let board_size = (5, 5);
    let blocked_pos = vec![];

    assert_eq!(dijkstra(start, board_size, &blocked_pos).distance_to(&goal), 6);
}

#[test]
fn test_with_obstacles() {
    let start = Coord { x: 0, y: 2 };
    let goal = Coord { x: 2, y: 2 };
    let board_size = (3, 3);
    let blocked_pos = vec![Coord { x: 1, y: 2 }, Coord { x: 1, y: 1 }];

    assert_eq!(dijkstra(start, board_size, &blocked_pos).distance_to(&goal), 6);
}

#[test]
fn test_with_obstacles2() {
    let start = Coord { x: 4, y: 3 };
    let goal = Coord { x: 2, y: 0 };
    let board_size = (6, 6);

    let blocked_pos = vec![
        Coord { x: 1, y: 4 },
        Coord { x: 1, y: 3 },
        Coord { x: 1, y: 2 },
        Coord { x: 2, y: 2 },
        Coord { x: 3, y: 2 },
        Coord { x: 4, y: 2 },
        Coord { x: 5, y: 2 },
    ];

    assert_eq!(dijkstra(start, board_size, &blocked_pos).distance_to(&goal), 13);
}

#[test]
fn test_no_path() {
    let start = Coord { x: 0, y: 0 };
    let goal = Coord { x: 3, y: 3 };
    let board_size = (5, 5);
    let blocked_pos = (0..5).map(|i| Coord { x: i, y: 2 }).collect::<Vec<_>>();

    assert_eq!(
        dijkstra(start, board_size, &blocked_pos).distance_to(&goal),
        u32::MAX
    );
}

#[test]
fn test_same_start_and_goal() {
    let start = Coord { x: 2, y: 2 };
    let goal = Coord { x: 2, y: 2 };
    let board_size = (5, 5);
    let blocked_pos = vec![];

    assert_eq!(dijkstra(start, board_size, &blocked_pos).distance_to(&goal), 0);
}

#[test]
fn test_forced_longer_path() {
    let start = Coord { x: 0, y: 0 };
    let goal = Coord { x: 4, y: 4 };
    let board_size = (5, 5);
    let blocked_pos = vec![
        Coord { x: 2, y: 0 },
        Coord { x: 2, y: 1 },
        Coord { x: 2, y: 2 },
    ];

    assert_eq!(dijkstra(start, board_size, &blocked_pos).distance_to(&goal), 8);
}

#[test]
fn test_corner_to_corner_with_blockage() {
    let start = Coord { x: 0, y: 0 };
    let goal = Coord { x: 4, y: 4 };
    let board_size = (5, 5);
    let blocked_pos = vec![
        Coord { x: 1, y: 0 },
        Coord { x: 1, y: 1 },
        Coord { x: 1, y: 2 },
        Coord { x: 1, y: 3 },
        Coord { x: 3, y: 4 },
    ];

    assert_eq!(dijkstra(start, board_size, &blocked_pos).distance_to(&goal), 10);
}

#[test]
fn test_path_for_dijkstra() {
    let mut start = Coord { x: 2, y: 2 };
    let mut goal = Coord { x: 0, y: 0 };
    let board_size = (3, 3);

    let mut blocked_pos = vec![Coord { x: 1, y: 1 }, Coord { x: 2, y: 1 }];
    let mut dijk_result = dijkstra(start, board_size, &blocked_pos);
    let mut path = dijk_result.get_paths_for(&vec![goal])[0].clone();
    let mut expected_path = vec![
        Coord { x: 2, y: 2 },
        Coord { x: 1, y: 2 },
        Coord { x: 0, y: 2 },
        Coord { x: 0, y: 1 },
        Coord { x: 0, y: 0 },
    ];

    assert_eq!(path, expected_path);

    start = Coord { x: 0, y: 2 };
    goal = Coord { x: 2, y: 0 };
    blocked_pos = vec![Coord { x: 1, y: 0 }, Coord { x: 1, y: 1 }];
    dijk_result = dijkstra(start, board_size, &blocked_pos);
    path = dijk_result.get_paths_for(&vec![goal])[0].clone();
    expected_path = vec![
        Coord { x: 0, y: 2 },
        Coord { x: 1, y: 2 },
        Coord { x: 2, y: 2 },
        Coord { x: 2, y: 1 },
        Coord { x: 2, y: 0 },
    ];

    assert_eq!(path, expected_path);
}

#[test]
fn test_shortest_path_direction_for_dijkstra() {
    let mut start = Coord { x: 2, y: 2 };
    let mut goal = Coord { x: 0, y: 0 };
    let board_size = (3, 3);

    let mut blocked_pos = vec![Coord { x: 1, y: 1 }, Coord { x: 2, y: 1 }];
    let mut dijk_result = dijkstra(start, board_size, &blocked_pos);
    let mut s_path_dir = dijk_result
        .get_direction_for_shortest_goal(&vec![goal])
        .unwrap();

    assert_eq!(s_path_dir, Direction::Left);

    start = Coord { x: 0, y: 2 };
    goal = Coord { x: 2, y: 0 };
    blocked_pos = vec![Coord { x: 1, y: 0 }, Coord { x: 1, y: 1 }];
    dijk_result = dijkstra(start, board_size, &blocked_pos);
    s_path_dir = dijk_result
        .get_direction_for_shortest_goal(&vec![goal])
        .unwrap();
    assert_eq!(s_path_dir, Direction::Right);
}

// the source of a search always sits at distance zero
#[test]
fn test_distance_to_start_is_zero() {
    let start = Coord { x: 3, y: 1 };
    let blocked = vec![Coord { x: 3, y: 2 }];
    let res = dijkstra(start, (7, 7), &blocked);
    assert_eq!(res.distance_to(&start), 0);
}

// every reached cell sits one hop past its recorded predecessor
#[test]
fn test_predecessor_distances_step_by_one() {
    let start = Coord { x: 0, y: 0 };
    let blocked = vec![Coord { x: 2, y: 0 }, Coord { x: 2, y: 1 }];
    let res = dijkstra(start, (5, 5), &blocked);
    for x in 0..5 {
        for y in 0..5 {
            let c = Coord { x, y };
            if let Some(p) = res.predecessor_of(&c) {
                assert_eq!(res.distance_to(&c), res.distance_to(&p) + 1);
            }
        }
    }
}

// a reconstructed path runs from the source to the goal, one 4-connected
// step at a time, and its length matches the recorded distance
#[test]
fn test_path_round_trip() {
    let start = Coord { x: 0, y: 4 };
    let goal = Coord { x: 4, y: 0 };
    let blocked = vec![
        Coord { x: 1, y: 1 },
        Coord { x: 1, y: 2 },
        Coord { x: 2, y: 2 },
        Coord { x: 3, y: 2 },
    ];
    let res = dijkstra(start, (5, 5), &blocked);
    let dist = res.distance_to(&goal);
    assert!(dist < u32::MAX);
    let path = res.get_paths_for(&vec![goal])[0].clone();
    assert_eq!(path.len() as u32, dist + 1);
    assert_eq!(path[0], start);
    assert_eq!(path[path.len() - 1], goal);
    for w in path.windows(2) {
        let dx = (w[0].x - w[1].x).abs();
        let dy = (w[0].y - w[1].y).abs();
        assert_eq!(dx + dy, 1);
    }
}

// a source walled off from the target reports the sentinel distance
#[test]
fn test_enclosed_source_reports_sentinel() {
    let start = Coord { x: 2, y: 0 };
    let target = Coord { x: 2, y: 4 };
    let wall = (0..5).map(|x| Coord { x, y: 2 }).collect::<Vec<_>>();
    let res = dijkstra(start, (5, 5), &wall);
    assert_eq!(res.distance_to(&target), u32::MAX);
}

// the board of the fill scenario: with the listed obstacles the goal is
// only reachable around the top, nine hops away
#[test]
fn test_goal_distance_around_wall() {
    let blocked = vec![
        Coord { x: 1, y: 0 },
        Coord { x: 1, y: 1 },
        Coord { x: 2, y: 1 },
        Coord { x: 3, y: 1 },
        Coord { x: 4, y: 1 },
        Coord { x: 1, y: 2 },
    ];
    let start = Coord { x: 3, y: 2 };
    let goal = Coord { x: 0, y: 0 };
    let res = dijkstra(start, (5, 5), &blocked);
    assert_eq!(res.distance_to(&goal), 7);
}

// without the obstacle at (1,2) the goal is five hops away: along row 2,
// then down column 0
#[test]
fn test_goal_distance_along_row_and_column() {
    let blocked = vec![
        Coord { x: 1, y: 0 },
        Coord { x: 1, y: 1 },
        Coord { x: 2, y: 1 },
        Coord { x: 3, y: 1 },
        Coord { x: 4, y: 1 },
    ];
    let start = Coord { x: 3, y: 2 };
    let goal = Coord { x: 0, y: 0 };
    let res = dijkstra(start, (5, 5), &blocked);
    assert_eq!(res.distance_to(&goal), 5);
}

// the raw tables expose the same data as the lookups
#[test]
fn test_distance_tables_match_lookups() {
    let start = Coord { x: 1, y: 1 };
    let blocked = vec![Coord { x: 0, y: 1 }];
    let res = dijkstra(start, (3, 3), &blocked);
    let table = res.get_distance_ref();
    let preds = res.get_predecessor_ref();
    assert_eq!(table.len(), 9);
    assert_eq!(preds.len(), 9);
    for x in 0..3i32 {
        for y in 0..3i32 {
            let c = Coord { x, y };
            let idx = (y * 3 + x) as usize;
            assert_eq!(table[idx], res.distance_to(&c));
            assert_eq!(preds[idx], res.predecessor_of(&c));
        }
    }
}

#[test]
fn test_retrieve_distances_for_order() {
    let start = Coord { x: 0, y: 0 };
    let blocked = vec![];
    let res = dijkstra(start, (4, 4), &blocked);
    let coords = vec![
        Coord { x: 0, y: 0 },
        Coord { x: 3, y: 3 },
        Coord { x: 9, y: 9 },
    ];
    let dists = res.retrieve_distances_for(&coords);
    assert_eq!(dists, vec![0, 6, u32::MAX]);
}

#[test]
fn test_no_direction_for_empty_goals() {
    let start = Coord { x: 1, y: 1 };
    let res = dijkstra(start, (3, 3), &vec![]);
    assert_eq!(res.get_direction_for_shortest_goal(&vec![]), None);
}

#[test]
fn test_no_direction_when_goal_is_start() {
    let start = Coord { x: 1, y: 1 };
    let res = dijkstra(start, (3, 3), &vec![]);
    assert_eq!(res.get_direction_for_shortest_goal(&vec![start]), None);
}

// the first goal wins a tie on distance
#[test]
fn test_first_minimum_goal_wins() {
    let start = Coord { x: 1, y: 1 };
    let res = dijkstra(start, (3, 3), &vec![]);
    let goals = vec![Coord { x: 2, y: 1 }, Coord { x: 0, y: 1 }];
    assert_eq!(
        res.get_direction_for_shortest_goal(&goals),
        Some(Direction::Right)
    );
}
