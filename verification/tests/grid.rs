use autobahn::grid::{Cell, CellKind, Grid2d, MapData, Vector2};

#[test]
fn new_grid_maps_true_to_passable_and_false_to_obstacle() {
    let grid = Grid2d::new(2, 2, &[true, false, false, true]);
    assert_eq!(grid.width, 2);
    assert_eq!(grid.height, 2);
    assert_eq!(
        grid.cells,
        vec![Cell::Passable, Cell::Obstacle, Cell::Obstacle, Cell::Passable]
    );
}

#[test]
fn from_map_data_takes_size_and_cells() {
    let grid = Grid2d::from_map_data(MapData {
        map_size_x: 3,
        map_size_y: 1,
        map_data: vec![true, true, false],
    });
    assert_eq!(grid.width, 3);
    assert_eq!(grid.height, 1);
    assert_eq!(grid.cells, vec![Cell::Passable, Cell::Passable, Cell::Obstacle]);
}

#[test]
fn cell_location_is_row_times_width_plus_column() {
    let grid = Grid2d::new(4, 3, &[true; 12]);
    assert_eq!(grid.get_cell_location(Vector2::new(0, 0)), 0);
    assert_eq!(grid.get_cell_location(Vector2::new(3, 0)), 3);
    assert_eq!(grid.get_cell_location(Vector2::new(1, 2)), 9);
}

#[test]
fn in_bounds_checks_both_coordinates() {
    let grid = Grid2d::new(4, 3, &[true; 12]);
    assert!(grid.in_bounds(Vector2::new(3, 2)));
    assert!(!grid.in_bounds(Vector2::new(4, 2)));
    assert!(!grid.in_bounds(Vector2::new(3, 3)));
}

#[test]
fn is_passable_only_for_passable_cells() {
    let mut grid = Grid2d::new(3, 1, &[true, false, true]);
    grid.set_temporary(Vector2::new(2, 0));
    assert!(grid.is_passable(Vector2::new(0, 0)));
    assert!(!grid.is_passable(Vector2::new(1, 0)));
    assert!(!grid.is_passable(Vector2::new(2, 0)));
}

#[test]
fn neighbors_come_right_down_left_up() {
    let grid = Grid2d::new(3, 3, &[true; 9]);
    assert_eq!(
        grid.neighbors(Vector2::new(1, 1)),
        vec![
            Vector2::new(2, 1),
            Vector2::new(1, 2),
            Vector2::new(0, 1),
            Vector2::new(1, 0)
        ]
    );
}

#[test]
fn neighbors_leave_out_walls_and_the_edge() {
    let grid = Grid2d::new(3, 3, &[true, true, true, false, true, true, true, true, true]);
    // (0, 0): right is open, below is an obstacle, left and up are off the grid.
    assert_eq!(grid.neighbors(Vector2::new(0, 0)), vec![Vector2::new(1, 0)]);
    // (2, 2): right and below are off the grid.
    assert_eq!(
        grid.neighbors(Vector2::new(2, 2)),
        vec![Vector2::new(1, 2), Vector2::new(2, 1)]
    );
}

#[test]
fn set_temporary_remembers_the_cell() {
    let mut grid = Grid2d::new(2, 1, &[true, false]);
    grid.set_temporary(Vector2::new(1, 0));
    assert_eq!(
        grid.cells,
        vec![Cell::Passable, Cell::Temporary(Box::new(Cell::Obstacle))]
    );
    grid.set_temporary(Vector2::new(1, 0));
    assert_eq!(
        grid.cells[1],
        Cell::Temporary(Box::new(Cell::Temporary(Box::new(Cell::Obstacle))))
    );
}

#[test]
fn clear_temporary_at_restores_the_cell() {
    let mut grid = Grid2d::new(2, 1, &[true, false]);
    grid.set_temporary(Vector2::new(1, 0));
    grid.clear_temporary_at(Vector2::new(1, 0));
    assert_eq!(grid.cells, vec![Cell::Passable, Cell::Obstacle]);
}

#[test]
fn clear_temporary_at_makes_an_unblocked_cell_passable() {
    let mut grid = Grid2d::new(2, 1, &[true, false]);
    grid.clear_temporary_at(Vector2::new(1, 0));
    assert_eq!(grid.cells, vec![Cell::Passable, Cell::Passable]);
}

#[test]
fn add_and_clear_temporary_go_through_the_list() {
    let mut grid = Grid2d::new(3, 1, &[true, false, true]);
    grid.add_temporary(vec![Vector2::new(0, 0), Vector2::new(1, 0)]);
    assert_eq!(
        grid.cells,
        vec![
            Cell::Temporary(Box::new(Cell::Passable)),
            Cell::Temporary(Box::new(Cell::Obstacle)),
            Cell::Passable
        ]
    );
    grid.clear_temporary(vec![Vector2::new(1, 0), Vector2::new(0, 0)]);
    assert_eq!(grid.cells, vec![Cell::Passable, Cell::Obstacle, Cell::Passable]);
}

#[test]
fn clear_temporary_all_turns_blocked_cells_passable() {
    let mut grid = Grid2d::new(3, 1, &[true, false, false]);
    grid.set_temporary(Vector2::new(1, 0));
    grid.clear_temporary_all();
    assert_eq!(grid.cells, vec![Cell::Passable, Cell::Passable, Cell::Obstacle]);
    assert_eq!(grid.width, 3);
    assert_eq!(grid.height, 1);
}

#[test]
fn serialize_reports_size_and_kinds() {
    let mut grid = Grid2d::new(3, 1, &[true, false, true]);
    grid.set_temporary(Vector2::new(2, 0));
    let data = grid.serialize();
    assert_eq!(data.width, 3);
    assert_eq!(data.height, 1);
    assert_eq!(
        data.grid,
        vec![CellKind::Passable, CellKind::Obstacle, CellKind::Temporary]
    );
}

#[test]
fn cell_serialize_names_the_kind() {
    assert_eq!(Cell::Passable.serialize(), CellKind::Passable);
    assert_eq!(Cell::Obstacle.serialize(), CellKind::Obstacle);
    assert_eq!(
        Cell::Temporary(Box::new(Cell::Passable)).serialize(),
        CellKind::Temporary
    );
}

#[test]
fn cell_clone_keeps_what_is_remembered() {
    let cell = Cell::Temporary(Box::new(Cell::Obstacle));
    assert_eq!(cell.clone(), cell);
}
