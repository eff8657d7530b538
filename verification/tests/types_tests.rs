use high_frequency_snake::game::grid::{Cell, Grid, GRID_HEIGHT, GRID_WIDTH};
use high_frequency_snake::game::types::{Direction, Point};

#[test]
fn random_points_lie_on_the_grid() {
    let mut rng = rand::rng();
    let mut seen = std::collections::HashSet::new();
    for _ in 0..2000 {
        let p = Point::random(&mut rng);
        assert!((p.x as usize) < GRID_WIDTH);
        assert!((p.y as usize) < GRID_HEIGHT);
        seen.insert((p.x, p.y));
    }
    assert!(seen.len() > 1000);
}

#[test]
fn random_directions_cover_all_four() {
    let mut rng = rand::rng();
    let mut seen = [false; 4];
    for _ in 0..400 {
        match Direction::random(&mut rng) {
            Direction::Up => seen[0] = true,
            Direction::Down => seen[1] = true,
            Direction::Left => seen[2] = true,
            Direction::Right => seen[3] = true,
        }
    }
    assert_eq!(seen, [true; 4]);
}

#[test]
fn directions_by_index() {
    assert_eq!(Direction::from_index(0), Direction::Up);
    assert_eq!(Direction::from_index(1), Direction::Down);
    assert_eq!(Direction::from_index(2), Direction::Left);
    assert_eq!(Direction::from_index(3), Direction::Right);
    assert_eq!(Direction::from_index(9), Direction::Right);
}

#[test]
fn directions_reverse() {
    assert_eq!(Direction::Up.reversed(), Direction::Down);
    assert_eq!(Direction::Down.reversed(), Direction::Up);
    assert_eq!(Direction::Left.reversed(), Direction::Right);
    assert_eq!(Direction::Right.reversed(), Direction::Left);
}

#[test]
fn points_step_and_wrap() {
    let p = Point { x: 0, y: 3999 };
    assert_eq!(p.stepped(Direction::Left), Point { x: 3999, y: 3999 });
    assert_eq!(p.stepped(Direction::Right), Point { x: 1, y: 3999 });
    assert_eq!(p.stepped(Direction::Down), Point { x: 0, y: 0 });
    assert_eq!(p.stepped(Direction::Up), Point { x: 0, y: 3998 });
    assert_eq!(Point::default(), Point { x: 0, y: 0 });
}

#[test]
fn grid_cells_are_apart() {
    let mut grid = Grid::default();
    grid.set_cell(Point { x: 3999, y: 0 }, Cell::Apple);
    grid.set_cell(Point { x: 0, y: 1 }, Cell::Snake);
    assert_eq!(grid.get_cell(&Point { x: 3999, y: 0 }), Cell::Apple);
    assert_eq!(grid.get_cell(&Point { x: 0, y: 1 }), Cell::Snake);
    assert_eq!(grid.get_cell(&Point { x: 1, y: 0 }), Cell::Empty);
    assert_eq!(grid.get_cell(&Point { x: 3999, y: 3999 }), Cell::Empty);
}
