use snake_core::game::all_directions;
use snake_core::game::get_direction_from_to;
use snake_core::game::Coord;
use snake_core::game::Direction;

#[test]
fn test_step_in_each_direction() {
    let c = Coord { x: 3, y: 4 };
    assert_eq!(c.next_coord_in_dir(&Direction::Left), Coord { x: 2, y: 4 });
    assert_eq!(c.next_coord_in_dir(&Direction::Right), Coord { x: 4, y: 4 });
    assert_eq!(c.next_coord_in_dir(&Direction::Up), Coord { x: 3, y: 5 });
    assert_eq!(c.next_coord_in_dir(&Direction::Down), Coord { x: 3, y: 3 });
}

#[test]
fn test_neighbors_in_corner() {
    let c = Coord { x: 0, y: 0 };
    let ns = c.neighbors((2, 2));
    assert_eq!(ns, vec![Coord { x: 1, y: 0 }, Coord { x: 0, y: 1 }]);
}

#[test]
fn test_neighbors_in_center() {
    let c = Coord { x: 1, y: 1 };
    let mut ns = c.neighbors((3, 3));
    ns.sort();
    let mut expected = vec![
        Coord { x: 0, y: 1 },
        Coord { x: 2, y: 1 },
        Coord { x: 1, y: 0 },
        Coord { x: 1, y: 2 },
    ];
    expected.sort();
    assert_eq!(ns, expected);
}

#[test]
fn test_all_directions_order() {
    assert_eq!(
        all_directions(),
        vec![
            Direction::Left,
            Direction::Right,
            Direction::Up,
            Direction::Down,
        ]
    );
}

#[test]
fn test_direction_between_unit_steps() {
    let a = Coord { x: 2, y: 2 };
    assert_eq!(
        get_direction_from_to(&a, &Coord { x: 1, y: 2 }),
        Some(Direction::Left)
    );
    assert_eq!(
        get_direction_from_to(&a, &Coord { x: 3, y: 2 }),
        Some(Direction::Right)
    );
    assert_eq!(
        get_direction_from_to(&a, &Coord { x: 2, y: 3 }),
        Some(Direction::Up)
    );
    assert_eq!(
        get_direction_from_to(&a, &Coord { x: 2, y: 1 }),
        Some(Direction::Down)
    );
    assert_eq!(get_direction_from_to(&a, &Coord { x: 3, y: 3 }), None);
    assert_eq!(get_direction_from_to(&a, &a), None);
    assert_eq!(get_direction_from_to(&a, &Coord { x: 4, y: 2 }), None);
}

#[test]
fn test_direction_labels() {
    assert_eq!(Direction::Left.label(), "left");
    assert_eq!(Direction::Right.label(), "right");
    assert_eq!(Direction::Up.label(), "up");
    assert_eq!(Direction::Down.label(), "down");
}
