use bitdefenders::bot::valid_moves;
use bitdefenders::geometry::{bresenham_line, chebyshev_distance, has_line_of_sight};
use bitdefenders::pathfinding::find_next_step;
use bitdefenders::protocol::Wall;

#[test]
fn chebyshev_takes_larger_gap() {
    assert_eq!(chebyshev_distance((0, 0), (3, -5)), 5);
    assert_eq!(chebyshev_distance((7, 2), (1, 3)), 6);
    assert_eq!(chebyshev_distance((4, 4), (4, 4)), 0);
}

#[test]
fn chebyshev_is_symmetric() {
    assert_eq!(chebyshev_distance((2, 9), (-4, 1)), chebyshev_distance((-4, 1), (2, 9)));
}

#[test]
fn bresenham_shallow_line() {
    assert_eq!(bresenham_line((0, 0), (3, 1)), vec![(0, 0), (1, 0), (2, 1), (3, 1)]);
}

#[test]
fn bresenham_vertical_line() {
    assert_eq!(bresenham_line((0, 0), (0, 3)), vec![(0, 0), (0, 1), (0, 2), (0, 3)]);
}

#[test]
fn bresenham_backwards_diagonal() {
    assert_eq!(bresenham_line((2, 2), (-1, -1)), vec![(2, 2), (1, 1), (0, 0), (-1, -1)]);
}

#[test]
fn bresenham_single_point() {
    assert_eq!(bresenham_line((5, -7), (5, -7)), vec![(5, -7)]);
}

#[test]
fn bresenham_ends_at_target_and_steps_by_one() {
    let line = bresenham_line((-3, 11), (14, 2));
    assert_eq!(line[0], (-3, 11));
    assert_eq!(*line.last().unwrap(), (14, 2));
    for w in line.windows(2) {
        assert_eq!(chebyshev_distance(w[0], w[1]), 1);
    }
}

#[test]
fn wall_next_to_line_blocks_sight() {
    let walls = vec![Wall { x: 2, y: 1 }];
    assert!(!has_line_of_sight((0, 0), (4, 0), &walls));
}

#[test]
fn far_wall_does_not_block_sight() {
    let walls = vec![Wall { x: 2, y: 2 }];
    assert!(has_line_of_sight((0, 0), (4, 0), &walls));
    assert!(has_line_of_sight((0, 0), (4, 0), &[]));
}

#[test]
fn end_points_are_not_checked() {
    let walls = vec![Wall { x: 0, y: 0 }, Wall { x: 1, y: 1 }];
    assert!(has_line_of_sight((0, 0), (1, 1), &walls));
    assert!(has_line_of_sight((3, 3), (3, 3), &walls));
}

#[test]
fn moves_skip_walls_in_order() {
    let walls = vec![Wall { x: 6, y: 3 }];
    assert_eq!(
        valid_moves((3, 3), &walls, 10, 10),
        vec![(3, 3), (0, 3), (3, 6), (3, 0), (6, 6), (6, 0), (0, 6), (0, 0)]
    );
}

#[test]
fn moves_stay_on_board() {
    assert_eq!(valid_moves((0, 0), &[], 3, 3), vec![(0, 0)]);
    assert_eq!(valid_moves((1, 1), &[Wall { x: 1, y: 1 }], 3, 3), Vec::<(i32, i32)>::new());
}

#[test]
fn step_towards_open_goal() {
    assert_eq!(find_next_step((1, 1), (7, 7), &[], 10, 10), Some((3, 3)));
}

#[test]
fn step_around_a_wall() {
    let walls = vec![Wall { x: 4, y: 1 }];
    assert_eq!(find_next_step((1, 1), (7, 1), &walls, 10, 10), Some((3, 3)));
}

#[test]
fn no_step_when_already_there() {
    assert_eq!(find_next_step((4, 4), (4, 4), &[], 10, 10), None);
}

#[test]
fn no_step_to_unreachable_goal() {
    assert_eq!(find_next_step((1, 1), (2, 2), &[], 10, 10), None);
    let walls = vec![Wall { x: 7, y: 7 }];
    assert_eq!(find_next_step((1, 1), (7, 7), &walls, 10, 10), None);
}

#[test]
fn board_border_is_walkable_for_search() {
    assert_eq!(find_next_step((0, 0), (3, 0), &[], 3, 3), Some((3, 0)));
}

#[test]
fn step_starts_a_shortest_path() {
    let walls = vec![Wall { x: 4, y: 4 }];
    let d = find_next_step((1, 1), (10, 10), &walls, 12, 12).unwrap();
    assert!(d == (3, 0) || d == (0, 3));
}

#[test]
fn equal_routes_go_by_the_move_tried_first() {
    // (3, 0) then (3, 0), or (3, 3) then (3, -3): the diagonal is tried first.
    assert_eq!(find_next_step((1, 1), (7, 1), &[], 10, 10), Some((3, 3)));
    // With the diagonal blocked, the horizontal move comes before the vertical one.
    let walls = vec![Wall { x: 4, y: 4 }];
    assert_eq!(find_next_step((1, 1), (10, 10), &walls, 12, 12), Some((3, 0)));
    // Moving left and down is tried before moving left alone.
    assert_eq!(find_next_step((7, 7), (1, 7), &[], 10, 10), Some((-3, -3)));
}

#[test]
fn same_search_same_step() {
    let walls = vec![Wall { x: 4, y: 4 }, Wall { x: 7, y: 1 }];
    let first = find_next_step((1, 1), (10, 10), &walls, 12, 12);
    for _ in 0..5 {
        assert_eq!(find_next_step((1, 1), (10, 10), &walls, 12, 12), first);
    }
}

#[test]
fn bresenham_has_one_point_per_longer_axis_cell() {
    assert_eq!(bresenham_line((0, 0), (7, -3)).len(), 8);
    assert_eq!(bresenham_line((2, 1), (-1, 11)).len(), 11);
}
