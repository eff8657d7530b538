use high_frequency_snake::game::apple::{Apple, GridAwareApple};
use high_frequency_snake::game::grid::{Cell, Grid};
use high_frequency_snake::game::types::Point;

#[test]
fn test_grid_operations() {
    let mut grid = Grid::new();
    let point = Point { x: 100, y: 200 };

    assert_eq!(grid.get_cell(&point), Cell::Empty);

    grid.set_cell(point, Cell::Snake);
    assert_eq!(grid.get_cell(&point), Cell::Snake);

    grid.set_cell(point, Cell::Apple);
    assert_eq!(grid.get_cell(&point), Cell::Apple);
}

#[test]
fn test_grid_aware_apple() {
    let mut grid = Grid::new();
    let apple = Apple::new(Point { x: 100, y: 200 });

    let mut grid_aware_apple = GridAwareApple::new(apple, &mut grid);

    assert_eq!(grid.get_cell(&Point { x: 100, y: 200 }), Cell::Apple);

    grid_aware_apple.consume(&mut grid);

    assert_eq!(grid.get_cell(&Point { x: 100, y: 200 }), Cell::Empty);
}

#[test]
fn test_grid_aware_apple_edge_cases() {
    let mut grid = Grid::new();

    let apple = Apple::new(Point { x: 100, y: 200 });
    let mut grid_aware_apple = GridAwareApple::new(apple, &mut grid);

    for _ in 0..3 {
        grid_aware_apple.consume(&mut grid);
        assert_eq!(grid.get_cell(&Point { x: 100, y: 200 }), Cell::Empty);

        grid_aware_apple.spawn(&mut grid);
        assert_eq!(grid.get_cell(&Point { x: 100, y: 200 }), Cell::Apple);
    }
}
