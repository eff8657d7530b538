use high_frequency_snake::game::apple::{Apple, APPLE_CAPACITY};
use high_frequency_snake::game::engine::GameState;
use high_frequency_snake::game::grid::{Cell, GRID_HEIGHT, GRID_WIDTH};
use high_frequency_snake::game::snake::{GridAwareSnake, Snake, SNAKE_CAPACITY};
use high_frequency_snake::game::types::{Direction, Input, Point};

fn body_points(snake: &GridAwareSnake) -> Vec<Point> {
    let body = snake.body();
    let mut points = Vec::new();
    for i in 0..body.len() {
        points.push(*body.get(i).unwrap());
    }
    points
}

fn count_apples(game: &GameState) -> usize {
    let mut apple_count = 0;
    for y in 0..GRID_HEIGHT {
        for x in 0..GRID_WIDTH {
            let pos = Point { x: x as u16, y: y as u16 };
            if game.grid.get_cell(&pos) == Cell::Apple {
                apple_count += 1;
            }
        }
    }
    apple_count
}

#[test]
fn test_apple_consumption() {
    let mut game = GameState::new();

    let snake = Snake::new(0, Point { x: 500, y: 500 }, Direction::Right);
    let grid_aware_snake = GridAwareSnake::new(snake, &mut game.grid);
    game.snakes.push(grid_aware_snake);

    let apple = Apple::new(Point { x: 501, y: 500 });
    game.add_apple(apple);

    let initial_snake_length = game.snakes[0].body().len();

    game.tick(&[]);

    assert!(game.snakes[0].body().len() > initial_snake_length);
    assert!(game.num_apples >= 1);
}

#[test]
fn test_snake_collision() {
    let mut game = GameState::new();

    let snake1 = Snake::new(0, Point { x: 500, y: 500 }, Direction::Right);
    let snake2 = Snake::new(1, Point { x: 502, y: 500 }, Direction::Left);

    let grid_aware_snake1 = GridAwareSnake::new(snake1, &mut game.grid);
    let grid_aware_snake2 = GridAwareSnake::new(snake2, &mut game.grid);

    game.snakes.push(grid_aware_snake1);
    game.snakes.push(grid_aware_snake2);

    let initial_snake_count = game.snakes.len();

    game.tick(&[]);

    assert_eq!(game.snakes.len(), initial_snake_count);

    let dead_snakes = game.snakes.iter().filter(|s| !s.is_alive()).count();
    assert!(dead_snakes > 0);
}

#[test]
fn test_input_processing() {
    let mut game = GameState::new();

    let snake = Snake::new(0, Point { x: 500, y: 500 }, Direction::Right);
    let grid_aware_snake = GridAwareSnake::new(snake, &mut game.grid);
    game.snakes.push(grid_aware_snake);

    let input = Input { snake_id: 0, direction: Direction::Up };

    game.tick(&[input]);

    assert_eq!(game.snakes[0].snake().direction, Direction::Up);
}

#[test]
fn test_dead_snake_cleanup() {
    let mut game = GameState::new();

    let mut snake = Snake::new(0, Point { x: 500, y: 500 }, Direction::Right);
    snake.is_alive = false;
    let grid_aware_snake = GridAwareSnake::new(snake, &mut game.grid);
    game.snakes.push(grid_aware_snake);

    let initial_snake_count = game.snakes.len();

    game.tick(&[]);

    assert_eq!(game.snakes.len(), initial_snake_count);
    assert!(!game.snakes[0].is_alive());
}

#[test]
fn test_game_state_consistency() {
    let game = GameState::random();

    if game.snakes.is_empty() {
        return;
    }

    for snake in game.snakes.iter() {
        for part in body_points(snake) {
            assert!(part.x < GRID_WIDTH as u16);
            assert!(part.y < GRID_HEIGHT as u16);
        }
    }

    assert!(game.num_apples <= APPLE_CAPACITY as u64);

    for snake in game.snakes.iter() {
        for part in body_points(snake) {
            assert_eq!(game.grid.get_cell(&part), Cell::Snake);
        }
    }

    let apple_count = count_apples(&game);
    assert_eq!(apple_count, game.num_apples as usize);
}

#[test]
fn test_multiple_ticks() {
    let mut game = GameState::new();

    let snake = Snake::new(0, Point { x: 500, y: 500 }, Direction::Right);
    let grid_aware_snake = GridAwareSnake::new(snake, &mut game.grid);
    game.snakes.push(grid_aware_snake);

    let apple = Apple::new(Point { x: 501, y: 500 });
    game.add_apple(apple);

    for _ in 0..5 {
        game.tick(&[]);
    }

    assert!(game.snakes.len() > 0);
    assert!(game.snakes[0].is_alive());
}

#[test]
fn test_multiple_apple_consumption() {
    let mut game = GameState::new();

    let snake = Snake::new(0, Point { x: 500, y: 500 }, Direction::Right);
    let grid_aware_snake = GridAwareSnake::new(snake, &mut game.grid);
    game.snakes.push(grid_aware_snake);

    let apple1 = Apple::new(Point { x: 501, y: 500 });
    let apple2 = Apple::new(Point { x: 502, y: 500 });
    let apple3 = Apple::new(Point { x: 503, y: 500 });

    game.add_apple(apple1);
    game.add_apple(apple2);
    game.add_apple(apple3);

    let initial_snake_length = game.snakes[0].body().len();

    for _ in 0..3 {
        game.tick(&[]);
    }

    assert!(game.snakes[0].body().len() > initial_snake_length + 2);
}

#[test]
fn test_invalid_input_processing() {
    let mut game = GameState::new();

    let snake = Snake::new(0, Point { x: 500, y: 500 }, Direction::Right);
    let grid_aware_snake = GridAwareSnake::new(snake, &mut game.grid);
    game.snakes.push(grid_aware_snake);

    let valid_input = Input { snake_id: 0, direction: Direction::Up };

    game.tick(&[valid_input]);

    assert!(game.snakes[0].is_alive());
}

#[test]
fn test_reverse_direction_prevention() {
    let mut game = GameState::new();

    let snake = Snake::new(0, Point { x: 500, y: 500 }, Direction::Right);
    let grid_aware_snake = GridAwareSnake::new(snake, &mut game.grid);
    game.snakes.push(grid_aware_snake);

    let reverse_input = Input { snake_id: 0, direction: Direction::Left };

    game.tick(&[reverse_input]);

    assert_eq!(game.snakes[0].snake().direction, Direction::Right);
}

#[test]
fn test_apple_spawning_at_capacity() {
    let mut game = GameState::new();

    for i in 0..APPLE_CAPACITY {
        let apple = Apple::new(Point { x: i as u16, y: 0 });
        game.add_apple(apple);
    }

    let initial_apple_count = game.num_apples;

    let extra_apple = Apple::new(Point { x: 999, y: 999 });
    game.add_apple(extra_apple);

    assert_eq!(game.num_apples, initial_apple_count);
}

#[test]
fn test_snake_spawning_at_capacity() {
    let mut game = GameState::new();

    for i in 0..SNAKE_CAPACITY {
        let snake =
            Snake::new(i as u32, Point { x: (i % (GRID_WIDTH - 1)) as u16, y: 0 }, Direction::Right);
        let grid_aware_snake = GridAwareSnake::new(snake, &mut game.grid);
        game.snakes.push(grid_aware_snake);
    }

    let initial_snake_count = game.snakes.len();

    let extra_snake = Snake::new(
        1024,
        Point { x: (GRID_WIDTH - 2) as u16, y: (GRID_HEIGHT - 2) as u16 },
        Direction::Right,
    );
    let grid_aware_extra_snake = GridAwareSnake::new(extra_snake, &mut game.grid);
    game.snakes.push(grid_aware_extra_snake);

    assert!(game.snakes.len() > initial_snake_count);
}

#[test]
fn test_grid_consistency_after_collision() {
    let mut game = GameState::new();

    let snake1 = Snake::new(0, Point { x: 500, y: 500 }, Direction::Right);
    let snake2 = Snake::new(1, Point { x: 502, y: 500 }, Direction::Left);

    let grid_aware_snake1 = GridAwareSnake::new(snake1, &mut game.grid);
    let grid_aware_snake2 = GridAwareSnake::new(snake2, &mut game.grid);

    game.snakes.push(grid_aware_snake1);
    game.snakes.push(grid_aware_snake2);

    game.tick(&[]);

    for snake in game.snakes.iter() {
        for part in body_points(snake) {
            assert_eq!(game.grid.get_cell(&part), Cell::Snake);
        }
    }

    let mut snake_positions = std::collections::HashSet::new();
    for snake in game.snakes.iter() {
        for part in body_points(snake) {
            snake_positions.insert((part.x, part.y));
        }
    }

    for snake in game.snakes.iter() {
        for part in body_points(snake) {
            assert_eq!(game.grid.get_cell(&part), Cell::Snake);
        }
    }
}

#[test]
fn test_many_snakes_performance() {
    let mut game = GameState::new();

    for i in 0..100 {
        let snake = Snake::new(i, Point { x: i as u16, y: 0 }, Direction::Right);
        let grid_aware_snake = GridAwareSnake::new(snake, &mut game.grid);
        game.snakes.push(grid_aware_snake);
    }

    for _ in 0..10 {
        game.tick(&[]);
    }

    assert!(game.snakes.len() > 0);
}

#[test]
fn test_many_apples_performance() {
    let mut game = GameState::new();

    let snake = Snake::new(0, Point { x: 500, y: 500 }, Direction::Right);
    let grid_aware_snake = GridAwareSnake::new(snake, &mut game.grid);
    game.snakes.push(grid_aware_snake);

    for i in 0..APPLE_CAPACITY {
        let apple = Apple::new(Point { x: i as u16, y: 100 });
        game.add_apple(apple);
    }

    for _ in 0..10 {
        game.tick(&[]);
    }

    assert!(game.snakes.len() > 0);
}

#[test]
fn test_complex_multi_snake_scenario() {
    let mut game = GameState::new();

    let snakes_data = vec![
        (0, Point { x: 100, y: 100 }, Direction::Right),
        (1, Point { x: 200, y: 200 }, Direction::Down),
        (2, Point { x: 300, y: 300 }, Direction::Left),
        (3, Point { x: 400, y: 400 }, Direction::Up),
    ];

    for (id, pos, dir) in snakes_data {
        let snake = Snake::new(id, pos, dir);
        let grid_aware_snake = GridAwareSnake::new(snake, &mut game.grid);
        game.snakes.push(grid_aware_snake);
    }

    for i in 0..10 {
        let apple = Apple::new(Point { x: 150 + i * 50, y: 150 + i * 50 });
        game.add_apple(apple);
    }

    for tick in 0..20 {
        let inputs = vec![
            Input { snake_id: 0, direction: Direction::Right },
            Input { snake_id: 1, direction: Direction::Down },
            Input { snake_id: 2, direction: Direction::Left },
            Input { snake_id: 3, direction: Direction::Up },
        ];

        game.tick(&inputs);

        if tick % 5 == 0 {
            for snake in game.snakes.iter() {
                for part in body_points(snake) {
                    assert_eq!(game.grid.get_cell(&part), Cell::Snake);
                }
            }
        }
    }

    assert!(game.snakes.len() > 0);
}

#[test]
fn test_random_game_state_validity() {
    for _ in 0..5 {
        let game = GameState::random();

        if game.snakes.is_empty() {
            continue;
        }

        for snake in game.snakes.iter() {
            assert!(snake.is_alive());
        }

        for snake in game.snakes.iter() {
            for part in body_points(snake) {
                assert_eq!(game.grid.get_cell(&part), Cell::Snake);
            }
        }

        let apple_count = count_apples(&game);
        assert_eq!(apple_count, game.num_apples as usize);
    }
}
