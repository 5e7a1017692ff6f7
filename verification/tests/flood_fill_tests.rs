use snake_core::flood_fill::flood_fill;
use snake_core::game::Coord;

#[test]
fn test_unblocked_flood_fill() {
    let blocked_coords: Vec<Coord> = vec![];
    let start = Coord { x: 0, y: 0 };
    for h in (1..100).step_by(10) {
        for w in (1..100).step_by(10) {
            let filled_area = flood_fill(start, &blocked_coords, h, w);
            assert_eq!(filled_area.len(), (w * h) as usize);
        }
    }
}

// 4x4
// OOOO
// XXOO
// OOXO
// SOOX
// S: (0,0)  B: (3,0);(2,1);(0,2);(1,2)
#[test]
fn test_simple_wall_flood_fill() {
    let blocked_coords: Vec<Coord> = vec![
        Coord { x: 0, y: 2 },
        Coord { x: 1, y: 2 },
        Coord { x: 2, y: 1 },
        Coord { x: 3, y: 0 },
    ];
    let start = Coord { x: 0, y: 0 };
    let filled_area = flood_fill(start, &blocked_coords, 4, 4);

    assert_eq!(filled_area.len(), 5);
}

// 5x5
// OOOOO
// OOOOO
// OXOSO
// OXXXX
// OXOOO
// S: (3,2)  B: (1,0);(1,1);(2,1);(3,1);(4,1);(1,2)
#[test]
fn test_basic_flood_fill() {
    let blocked_coords = vec![
        Coord { x: 1, y: 0 },
        Coord { x: 1, y: 1 },
        Coord { x: 2, y: 1 },
        Coord { x: 3, y: 1 },
        Coord { x: 4, y: 1 },
        Coord { x: 1, y: 2 },
    ];
    let start = Coord { x: 3, y: 2 };
    let max_x = 5;
    let max_y = 5;

    let mut filled_area = flood_fill(start, &blocked_coords, max_x, max_y);

    // RRRRR
    // RXRSR
    // RXXXX
    // RXOOO
    let mut expected = vec![
        Coord { x: 0, y: 0 },
        Coord { x: 0, y: 1 },
        Coord { x: 0, y: 2 },
        Coord { x: 2, y: 2 },
        Coord { x: 3, y: 2 },
        Coord { x: 4, y: 2 },
        Coord { x: 0, y: 3 },
        Coord { x: 1, y: 3 },
        Coord { x: 2, y: 3 },
        Coord { x: 3, y: 3 },
        Coord { x: 4, y: 3 },
        Coord { x: 0, y: 4 },
        Coord { x: 1, y: 4 },
        Coord { x: 2, y: 4 },
        Coord { x: 3, y: 4 },
        Coord { x: 4, y: 4 },
    ];

    filled_area.sort();
    expected.sort();

    assert_eq!(filled_area.len(), expected.len());
    assert_eq!(filled_area, expected);
}

#[test]
fn test_all_cells_blocked() {
    let blocked_coords = vec![
        Coord { x: 0, y: 0 },
        Coord { x: 0, y: 1 },
        Coord { x: 0, y: 2 },
        Coord { x: 0, y: 3 },
        Coord { x: 0, y: 4 },
        Coord { x: 1, y: 0 },
        Coord { x: 1, y: 1 },
        Coord { x: 1, y: 2 },
        Coord { x: 1, y: 3 },
        Coord { x: 1, y: 4 },
        Coord { x: 2, y: 0 },
        Coord { x: 2, y: 1 },
        Coord { x: 2, y: 2 },
        Coord { x: 2, y: 3 },
        Coord { x: 2, y: 4 },
        Coord { x: 3, y: 0 },
        Coord { x: 3, y: 1 },
        Coord { x: 3, y: 2 },
        Coord { x: 3, y: 3 },
        Coord { x: 3, y: 4 },
        Coord { x: 4, y: 0 },
        Coord { x: 4, y: 1 },
        Coord { x: 4, y: 2 },
        Coord { x: 4, y: 3 },
        Coord { x: 4, y: 4 },
    ];
    let start = Coord { x: 2, y: 2 };
    let max_x = 5;
    let max_y = 5;

    let filled_area = flood_fill(start, &blocked_coords, max_x, max_y);

    // Expected result: No cells are filled since everything is blocked
    let expected: Vec<Coord> = Vec::new();

    assert_eq!(filled_area, expected);
}

#[test]
fn test_flood_fill_with_isolated_blocked_cells() {
    let blocked_coords = vec![Coord { x: 1, y: 0 }, Coord { x: 0, y: 1 }];
    let start = Coord { x: 0, y: 0 };
    let max_x = 5;
    let max_y = 5;

    let filled_area = flood_fill(start, &blocked_coords, max_x, max_y);

    let expected = vec![Coord { x: 0, y: 0 }];

    assert_eq!(filled_area, expected);
}

#[test]
fn test_edge_case_with_single_cell() {
    let blocked_coords = vec![];
    let start = Coord { x: 0, y: 0 };
    let max_x = 1;
    let max_y = 1;

    let filled_area = flood_fill(start, &blocked_coords, max_x, max_y);

    // Expected result: only the starting cell should be filled
    let expected = vec![Coord { x: 0, y: 0 }];
    assert_eq!(filled_area, expected);
}

// repeated fills over the same inputs cover the same set of cells
#[test]
fn test_fill_is_deterministic() {
    let blocked_coords = vec![Coord { x: 2, y: 2 }, Coord { x: 3, y: 1 }];
    let start = Coord { x: 0, y: 0 };
    let mut first = flood_fill(start, &blocked_coords, 6, 6);
    let mut second = flood_fill(start, &blocked_coords, 6, 6);
    first.sort();
    second.sort();
    assert_eq!(first, second);
}

// adding one obstacle never enlarges the filled area
#[test]
fn test_extra_obstacle_never_grows_area() {
    let start = Coord { x: 0, y: 0 };
    let blocked: Vec<Coord> = vec![Coord { x: 2, y: 0 }, Coord { x: 2, y: 1 }];
    let base = flood_fill(start, &blocked, 5, 5).len();
    for x in 0..5 {
        for y in 0..5 {
            let mut more = blocked.clone();
            more.push(Coord { x, y });
            let smaller = flood_fill(start, &more, 5, 5).len();
            assert!(smaller <= base);
        }
    }
}

// a start sitting on an obstacle is already trapped: the fill is empty
#[test]
fn test_blocked_start_yields_empty_fill() {
    let blocked = vec![Coord { x: 1, y: 1 }];
    let filled = flood_fill(Coord { x: 1, y: 1 }, &blocked, 4, 4);
    assert!(filled.is_empty());
}
