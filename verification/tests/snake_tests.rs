use high_frequency_snake::game::grid::{Cell, Grid, GRID_HEIGHT, GRID_WIDTH};
use high_frequency_snake::game::snake::{GridAwareSnake, Snake};
use high_frequency_snake::game::types::{Direction, Point};

#[test]
fn test_snake_movement() {
    let mut snake = Snake::new(1, Point { x: 500, y: 500 }, Direction::Right);
    let initial_head = *snake.body.get(0).unwrap();

    snake.move_forward(false);
    let new_head = *snake.body.get(0).unwrap();

    assert_eq!(new_head.x, initial_head.x + 1);
    assert_eq!(new_head.y, initial_head.y);
}

#[test]
fn test_snake_boundary_wrapping() {
    let mut snake = Snake::new(1, Point { x: (GRID_WIDTH - 1) as u16, y: 500 }, Direction::Right);
    snake.move_forward(false);
    let new_head = *snake.body.get(0).unwrap();

    assert_eq!(new_head.x, 0);
    assert_eq!(new_head.y, 500);
}

#[test]
fn test_snake_growth() {
    let mut snake = Snake::new(1, Point { x: 500, y: 500 }, Direction::Right);
    let initial_length = snake.body.len();

    snake.move_forward(true);
    assert_eq!(snake.body.len(), initial_length + 1);
}

#[test]
fn test_snake_direction_change() {
    let mut snake = Snake::new(1, Point { x: 500, y: 500 }, Direction::Right);

    snake.change_direction(Direction::Up);
    assert_eq!(snake.direction, Direction::Up);

    snake.change_direction(Direction::Down);
    assert_eq!(snake.direction, Direction::Up);
}

#[test]
fn test_boundary_wrapping_all_directions() {
    let test_cases = vec![
        (Point { x: (GRID_WIDTH - 1) as u16, y: 500 }, Direction::Right, Point { x: 0, y: 500 }),
        (Point { x: 0, y: 500 }, Direction::Left, Point { x: (GRID_WIDTH - 1) as u16, y: 500 }),
        (Point { x: 500, y: (GRID_HEIGHT - 1) as u16 }, Direction::Down, Point { x: 500, y: 0 }),
        (Point { x: 500, y: 0 }, Direction::Up, Point { x: 500, y: (GRID_HEIGHT - 1) as u16 }),
    ];

    for (start_pos, direction, expected_pos) in test_cases {
        let snake = Snake::new(1, start_pos, direction);
        let mut test_snake = snake;
        test_snake.move_forward(false);
        let new_head = *test_snake.body.get(0).unwrap();
        assert_eq!(new_head, expected_pos);
    }
}

#[test]
fn test_grid_aware_snake() {
    let mut grid = Grid::new();
    let snake = Snake::new(1, Point { x: 500, y: 500 }, Direction::Right);

    let mut grid_aware_snake = GridAwareSnake::new(snake, &mut grid);

    assert_eq!(grid.get_cell(&Point { x: 500, y: 500 }), Cell::Snake);

    let _moved = grid_aware_snake.move_forward(&mut grid, false);

    assert_eq!(grid.get_cell(&Point { x: 500, y: 500 }), Cell::Empty);
    assert_eq!(grid.get_cell(&Point { x: 501, y: 500 }), Cell::Snake);

    let _moved = grid_aware_snake.move_forward(&mut grid, true);

    assert_eq!(grid.get_cell(&Point { x: 501, y: 500 }), Cell::Snake);
}

#[test]
fn test_grid_aware_snake_edge_cases() {
    let mut grid = Grid::new();

    let snake = Snake::new(1, Point { x: 500, y: 500 }, Direction::Right);
    let mut grid_aware_snake = GridAwareSnake::new(snake, &mut grid);

    for _ in 0..5 {
        let _moved = grid_aware_snake.move_forward(&mut grid, true);
    }

    let body = grid_aware_snake.body();
    assert_eq!(body.len(), 6);
    for i in 0..body.len() {
        assert_eq!(grid.get_cell(body.get(i).unwrap()), Cell::Snake);
    }
}

#[test]
fn body_is_kept_head_first() {
    let mut snake = Snake::new(7, Point { x: 10, y: 20 }, Direction::Down);
    for _ in 0..20 {
        snake.move_forward(true);
    }
    assert_eq!(snake.body.len(), 21);
    for i in 0..21usize {
        assert_eq!(*snake.body.get(i).unwrap(), Point { x: 10, y: 40 - i as u16 });
    }
    assert!(snake.body.get(21).is_none());
    for _ in 0..5 {
        snake.move_forward(false);
    }
    assert_eq!(snake.body.len(), 21);
    assert_eq!(*snake.body.get(0).unwrap(), Point { x: 10, y: 45 });
    assert_eq!(*snake.body.get(20).unwrap(), Point { x: 10, y: 25 });
}

#[test]
fn body_push_and_pop() {
    let mut body = high_frequency_snake::game::snake::Body::new();
    assert_eq!(body.len(), 0);
    assert!(body.get(0).is_none());
    assert_eq!(body.pop_back(), None);
    body.push_front(Point { x: 1, y: 1 });
    body.push_front(Point { x: 2, y: 2 });
    body.push_front(Point { x: 3, y: 3 });
    assert_eq!(body.len(), 3);
    assert_eq!(*body.get(0).unwrap(), Point { x: 3, y: 3 });
    assert_eq!(*body.get(2).unwrap(), Point { x: 1, y: 1 });
    assert_eq!(body.pop_back(), Some(Point { x: 1, y: 1 }));
    assert_eq!(body.len(), 2);
    assert_eq!(*body.get(1).unwrap(), Point { x: 2, y: 2 });
}

#[test]
fn grid_aware_snake_accessors() {
    let mut grid = Grid::new();
    let snake = Snake::new(3, Point { x: 5, y: 6 }, Direction::Left);
    let mut wrapped = GridAwareSnake::new(snake, &mut grid);
    assert_eq!(wrapped.id(), 3);
    assert!(wrapped.is_alive());
    assert_eq!(wrapped.head(), Some(&Point { x: 5, y: 6 }));
    assert_eq!(wrapped.tail_position(), Some(Point { x: 5, y: 6 }));
    assert_eq!(wrapped.calculate_new_head(), Point { x: 4, y: 6 });
    wrapped.change_direction(Direction::Right);
    assert_eq!(wrapped.snake().direction, Direction::Left);
    wrapped.change_direction(Direction::Up);
    assert_eq!(wrapped.snake().direction, Direction::Up);
    wrapped.update_body(true);
    assert_eq!(wrapped.head(), Some(&Point { x: 5, y: 5 }));
    assert_eq!(wrapped.tail_position(), Some(Point { x: 5, y: 6 }));
    assert_eq!(grid.get_cell(&Point { x: 5, y: 5 }), Cell::Empty);
    wrapped.snake_mut().direction = Direction::Left;
    assert_eq!(wrapped.calculate_new_head(), Point { x: 4, y: 5 });
    wrapped.mark_dead();
    assert!(!wrapped.is_alive());
    assert_eq!(grid.get_cell(&Point { x: 5, y: 6 }), Cell::Snake);
    wrapped.die(&mut grid);
    assert_eq!(grid.get_cell(&Point { x: 5, y: 6 }), Cell::Empty);
    assert_eq!(grid.get_cell(&Point { x: 5, y: 5 }), Cell::Empty);
}

#[test]
fn legacy_move_into_snake_kills() {
    let mut grid = Grid::new();
    grid.set_cell(Point { x: 11, y: 10 }, Cell::Snake);
    let snake = Snake::new(0, Point { x: 10, y: 10 }, Direction::Right);
    let mut wrapped = GridAwareSnake::new(snake, &mut grid);
    assert!(!wrapped.move_forward(&mut grid, false));
    assert!(!wrapped.is_alive());
    assert_eq!(wrapped.head(), Some(&Point { x: 10, y: 10 }));
    assert_eq!(grid.get_cell(&Point { x: 10, y: 10 }), Cell::Snake);
}
