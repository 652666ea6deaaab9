use autobahn::grid::{Grid2d, Vector2};

fn make_grid(width: usize, height: usize, open: &[(usize, usize)]) -> Grid2d {
    let mut cells = vec![false; width * height];
    for &(x, y) in open {
        cells[y * width + x] = true;
    }
    Grid2d::new(width, height, &cells)
}

fn ring_3x3() -> Vec<(usize, usize)> {
    vec![(0, 0), (1, 0), (2, 0), (0, 1), (2, 1), (0, 2), (1, 2), (2, 2)]
}

fn one_step(a: &Vector2, b: &Vector2) -> bool {
    let dx = if a.x > b.x { a.x - b.x } else { b.x - a.x };
    let dy = if a.y > b.y { a.y - b.y } else { b.y - a.y };
    dx + dy == 1
}

#[test]
fn test_astar_simple_straight_line() {
    let width = 5;
    let height = 1;
    let open = (0..5).map(|x| (x, 0)).collect::<Vec<_>>();
    let grid = make_grid(width, height, &open);
    let start = Vector2::new(0, 0);
    let goal = Vector2::new(4, 0);
    let path = grid.astar(start, goal);
    assert_eq!(
        path,
        vec![
            Vector2::new(0, 0),
            Vector2::new(1, 0),
            Vector2::new(2, 0),
            Vector2::new(3, 0),
            Vector2::new(4, 0)
        ]
    );
}

#[test]
fn test_astar_simple_vertical() {
    let width = 1;
    let height = 5;
    let open = (0..5).map(|y| (0, y)).collect::<Vec<_>>();
    let grid = make_grid(width, height, &open);
    let start = Vector2::new(0, 0);
    let goal = Vector2::new(0, 4);
    let path = grid.astar(start, goal);
    assert_eq!(
        path,
        vec![
            Vector2::new(0, 0),
            Vector2::new(0, 1),
            Vector2::new(0, 2),
            Vector2::new(0, 3),
            Vector2::new(0, 4)
        ]
    );
}

#[test]
fn test_astar_with_obstacle() {
    let width = 3;
    let height = 3;
    let open = vec![
        (0, 0),
        (1, 0),
        (2, 0),
        (0, 1),
        (2, 1),
        (0, 2),
        (1, 2),
        (2, 2),
    ];
    let grid = make_grid(width, height, &open);
    let start = Vector2::new(0, 0);
    let goal = Vector2::new(2, 2);
    let path = grid.astar(start, goal);
    let expected = vec![
        Vector2::new(0, 0),
        Vector2::new(1, 0),
        Vector2::new(2, 0),
        Vector2::new(2, 1),
        Vector2::new(2, 2),
    ];
    assert_eq!(path, expected);
}

#[test]
fn test_astar_no_path() {
    let width = 3;
    let height = 3;
    let open = vec![(0, 0), (1, 0), (2, 0), (0, 1), (2, 1), (0, 2), (2, 2)];
    let grid = make_grid(width, height, &open);
    let start = Vector2::new(0, 0);
    let goal = Vector2::new(1, 2);
    let path = grid.astar(start, goal);
    assert!(path.is_empty());
}

#[test]
fn test_astar_start_is_goal() {
    let width = 3;
    let height = 3;
    let open = vec![
        (0, 0),
        (1, 0),
        (2, 0),
        (0, 1),
        (1, 1),
        (2, 1),
        (0, 2),
        (1, 2),
        (2, 2),
    ];
    let grid = make_grid(width, height, &open);
    let start = Vector2::new(1, 1);
    let goal = Vector2::new(1, 1);
    let path = grid.astar(start, goal);
    assert_eq!(path, vec![Vector2::new(1, 1)]);
}

#[test]
fn test_astar_large_grid() {
    let width = 10;
    let height = 10;
    let open = (0..width)
        .flat_map(|x| (0..height).map(move |y| (x, y)))
        .collect::<Vec<_>>();
    let grid = make_grid(width, height, &open);
    let start = Vector2::new(0, 0);
    let goal = Vector2::new(9, 9);
    let path = grid.astar(start, goal);
    assert_eq!(path.first(), Some(&start));
    assert_eq!(path.last(), Some(&goal));
    assert_eq!(path.len(), 19);
}

#[test]
fn test_astar_blocked_start() {
    let width = 3;
    let height = 3;
    let open = vec![
        (1, 0),
        (2, 0),
        (0, 1),
        (1, 1),
        (2, 1),
        (0, 2),
        (1, 2),
        (2, 2),
    ];
    let grid = make_grid(width, height, &open);
    let start = Vector2::new(0, 0);
    let goal = Vector2::new(2, 2);
    let path = grid.astar(start, goal);
    assert!(path.is_empty());
}

#[test]
fn test_astar_blocked_goal() {
    let width = 3;
    let height = 3;
    let open = vec![
        (0, 0),
        (1, 0),
        (2, 0),
        (0, 1),
        (1, 1),
        (2, 1),
        (0, 2),
        (1, 2),
    ];
    let grid = make_grid(width, height, &open);
    let start = Vector2::new(0, 0);
    let goal = Vector2::new(2, 2);
    let path = grid.astar(start, goal);
    assert!(path.is_empty());
}

#[test]
fn test_astar_diagonal_blocked() {
    let width = 3;
    let height = 3;
    let open = vec![
        (0, 0),
        (1, 0),
        (2, 0),
        (0, 1),
        (2, 1),
        (0, 2),
        (1, 2),
        (2, 2),
    ];
    let grid = make_grid(width, height, &open);
    let start = Vector2::new(0, 2);
    let goal = Vector2::new(2, 0);
    let path = grid.astar(start, goal);
    let expected = vec![
        Vector2::new(0, 2),
        Vector2::new(1, 2),
        Vector2::new(2, 2),
        Vector2::new(2, 1),
        Vector2::new(2, 0),
    ];
    assert_eq!(path, expected);
}

#[test]
fn astar_start_off_the_grid_gives_no_path() {
    let grid = make_grid(3, 3, &ring_3x3());
    assert!(grid.astar(Vector2::new(3, 0), Vector2::new(2, 2)).is_empty());
    assert!(grid.astar(Vector2::new(0, 0), Vector2::new(0, 3)).is_empty());
}

#[test]
fn astar_path_moves_one_step_at_a_time_over_open_cells() {
    // A wall with one gap splits a 7 x 5 grid.
    let mut open = Vec::new();
    for y in 0..5 {
        for x in 0..7 {
            if x != 3 || y == 4 {
                open.push((x, y));
            }
        }
    }
    let grid = make_grid(7, 5, &open);
    let start = Vector2::new(0, 0);
    let goal = Vector2::new(6, 0);
    let path = grid.astar(start, goal);
    // 3 right, 4 down, 1 through the gap, 4 up, 2 right: 14 steps.
    assert_eq!(path.len(), 15);
    assert_eq!(path[0], start);
    assert_eq!(path[path.len() - 1], goal);
    for pair in path.windows(2) {
        assert!(one_step(&pair[0], &pair[1]));
    }
    for p in &path {
        assert!(grid.in_bounds(*p));
        assert!(grid.is_passable(*p));
    }
}

#[test]
fn astar_avoids_temporary_blocks_until_they_are_lifted() {
    let open = (0..3).map(|x| (x, 0)).collect::<Vec<_>>();
    let mut grid = make_grid(3, 1, &open);
    grid.set_temporary(Vector2::new(1, 0));
    assert!(grid.astar(Vector2::new(0, 0), Vector2::new(2, 0)).is_empty());
    grid.clear_temporary_at(Vector2::new(1, 0));
    assert_eq!(grid.astar(Vector2::new(0, 0), Vector2::new(2, 0)).len(), 3);
}
