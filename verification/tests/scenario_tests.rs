use high_frequency_snake::game::apple::Apple;
use high_frequency_snake::game::engine::{bucket_index, snake_at, GameState, NUM_BUCKETS};
use high_frequency_snake::game::grid::{Cell, Grid, GRID_HEIGHT, GRID_WIDTH};
use high_frequency_snake::game::snake::{GridAwareSnake, Snake};
use high_frequency_snake::game::types::{Direction, Input, Point};

fn world(snakes: &[(u16, u16, Direction)]) -> GameState {
    let mut game = GameState::new();
    for (id, (x, y, direction)) in snakes.iter().enumerate() {
        let snake = Snake::new(id as u32, Point { x: *x, y: *y }, *direction);
        let wrapped = GridAwareSnake::new(snake, &mut game.grid);
        game.snakes.push(wrapped);
    }
    game
}

fn body(game: &GameState, id: usize) -> Vec<(u16, u16)> {
    let body = game.snakes[id].body();
    (0..body.len()).map(|i| body.get(i).map(|p| (p.x, p.y)).unwrap()).collect()
}

fn cell(game: &GameState, x: u16, y: u16) -> Cell {
    game.grid.get_cell(&Point { x, y })
}

fn apples_on_grid(game: &GameState) -> u64 {
    let mut count = 0;
    for y in 0..GRID_HEIGHT {
        for x in 0..GRID_WIDTH {
            if cell(game, x as u16, y as u16) == Cell::Apple {
                count += 1;
            }
        }
    }
    count
}

#[test]
fn single_snake_moves_east() {
    let mut game = world(&[(500, 500, Direction::Right)]);
    game.tick(&[]);
    assert_eq!(body(&game, 0), vec![(501, 500)]);
    assert!(game.snakes[0].is_alive());
    assert_eq!(cell(&game, 501, 500), Cell::Snake);
    assert_eq!(cell(&game, 500, 500), Cell::Empty);
    assert_eq!(game.num_apples, 0);
}

#[test]
fn toroidal_wrap() {
    let mut game = world(&[(3999, 500, Direction::Right)]);
    game.tick(&[]);
    assert_eq!(body(&game, 0), vec![(0, 500)]);
    assert_eq!(cell(&game, 0, 500), Cell::Snake);
    assert_eq!(cell(&game, 3999, 500), Cell::Empty);
}

#[test]
fn wrap_on_every_edge_in_a_tick() {
    let mut game = world(&[
        (0, 10, Direction::Left),
        (20, 0, Direction::Up),
        (30, 3999, Direction::Down),
    ]);
    game.tick(&[]);
    assert_eq!(body(&game, 0), vec![(3999, 10)]);
    assert_eq!(body(&game, 1), vec![(20, 3999)]);
    assert_eq!(body(&game, 2), vec![(30, 0)]);
}

#[test]
fn apple_eat() {
    let mut game = world(&[(500, 500, Direction::Right)]);
    game.add_apple(Apple::new(Point { x: 501, y: 500 }));
    assert_eq!(game.num_apples, 1);
    game.tick(&[]);
    assert_eq!(body(&game, 0), vec![(501, 500), (500, 500)]);
    assert_eq!(game.snakes[0].tail_position(), Some(Point { x: 500, y: 500 }));
    assert_eq!(cell(&game, 501, 500), Cell::Snake);
    assert_eq!(cell(&game, 500, 500), Cell::Snake);
    assert_eq!(game.num_apples, 1);
    assert_eq!(apples_on_grid(&game), 1);
}

#[test]
fn apple_eat_without_respawn() {
    let mut game = world(&[(500, 500, Direction::Right)]);
    game.add_apple(Apple::new(Point { x: 501, y: 500 }));
    let consumed = game.advance_snakes(&[]);
    assert_eq!(consumed, 1);
    assert_eq!(game.num_apples, 0);
    assert_eq!(body(&game, 0), vec![(501, 500), (500, 500)]);
    assert_eq!(apples_on_grid(&game), 0);
}

#[test]
fn head_on_peer_collision() {
    let mut game = world(&[(500, 500, Direction::Right), (502, 500, Direction::Left)]);
    game.tick(&[]);
    assert!(game.snakes[0].is_alive());
    assert!(!game.snakes[1].is_alive());
    assert_eq!(body(&game, 0), vec![(501, 500)]);
    assert_eq!(body(&game, 1), vec![(502, 500)]);
    assert_eq!(cell(&game, 501, 500), Cell::Snake);
    assert_eq!(cell(&game, 500, 500), Cell::Empty);
    assert_eq!(cell(&game, 502, 500), Cell::Snake);
}

#[test]
fn lower_id_wins_across_the_snake_array() {
    let mut game = world(&[
        (10, 10, Direction::Right),
        (700, 3000, Direction::Down),
        (700, 3002, Direction::Up),
        (12, 10, Direction::Left),
    ]);
    game.tick(&[]);
    assert!(game.snakes[0].is_alive());
    assert!(game.snakes[1].is_alive());
    assert!(!game.snakes[2].is_alive());
    assert!(!game.snakes[3].is_alive());
    assert_eq!(body(&game, 1), vec![(700, 3001)]);
    assert_eq!(body(&game, 2), vec![(700, 3002)]);
}

#[test]
fn reverse_direction_rejection() {
    let mut game = world(&[(500, 500, Direction::Right)]);
    game.tick(&[Input { snake_id: 0, direction: Direction::Left }]);
    assert_eq!(game.snakes[0].snake().direction, Direction::Right);
    assert_eq!(body(&game, 0), vec![(501, 500)]);
}

#[test]
fn inputs_apply_in_order() {
    let mut game = world(&[(500, 500, Direction::Right), (600, 600, Direction::Up)]);
    game.tick(&[
        Input { snake_id: 0, direction: Direction::Up },
        Input { snake_id: 1, direction: Direction::Down },
        Input { snake_id: 0, direction: Direction::Left },
    ]);
    assert_eq!(game.snakes[0].snake().direction, Direction::Left);
    assert_eq!(body(&game, 0), vec![(499, 500)]);
    assert_eq!(game.snakes[1].snake().direction, Direction::Up);
    assert_eq!(body(&game, 1), vec![(600, 599)]);
}

#[test]
fn dead_snake_stays_dead_and_does_not_move() {
    let mut game = GameState::new();
    let mut snake = Snake::new(0, Point { x: 500, y: 500 }, Direction::Right);
    snake.is_alive = false;
    let wrapped = GridAwareSnake::new(snake, &mut game.grid);
    game.snakes.push(wrapped);
    for _ in 0..3 {
        game.tick(&[Input { snake_id: 0, direction: Direction::Up }]);
        assert!(!game.snakes[0].is_alive());
        assert_eq!(body(&game, 0), vec![(500, 500)]);
        assert_eq!(cell(&game, 500, 500), Cell::Snake);
        assert_eq!(cell(&game, 501, 500), Cell::Empty);
        assert_eq!(cell(&game, 500, 499), Cell::Empty);
    }
    assert_eq!(game.snakes[0].snake().direction, Direction::Up);
}

#[test]
fn moving_into_a_leaving_tail_kills() {
    let mut game = GameState::new();
    let mut leader = Snake::new(0, Point { x: 100, y: 100 }, Direction::Right);
    leader.move_forward(true);
    let wrapped = GridAwareSnake::new(leader, &mut game.grid);
    game.snakes.push(wrapped);
    let follower = Snake::new(1, Point { x: 99, y: 100 }, Direction::Right);
    let wrapped = GridAwareSnake::new(follower, &mut game.grid);
    game.snakes.push(wrapped);
    game.tick(&[]);
    assert!(game.snakes[0].is_alive());
    assert!(!game.snakes[1].is_alive());
    assert_eq!(body(&game, 0), vec![(102, 100), (101, 100)]);
    assert_eq!(cell(&game, 100, 100), Cell::Empty);
    assert_eq!(cell(&game, 99, 100), Cell::Snake);
}

#[test]
fn quiet_tick_shifts_every_snake() {
    let mut game = world(&[
        (100, 100, Direction::Right),
        (200, 200, Direction::Down),
        (300, 300, Direction::Left),
        (400, 400, Direction::Up),
    ]);
    game.add_apple(Apple::new(Point { x: 1000, y: 1000 }));
    let consumed = game.advance_snakes(&[]);
    assert_eq!(consumed, 0);
    assert_eq!(game.num_apples, 1);
    assert_eq!(body(&game, 0), vec![(101, 100)]);
    assert_eq!(body(&game, 1), vec![(200, 201)]);
    assert_eq!(body(&game, 2), vec![(299, 300)]);
    assert_eq!(body(&game, 3), vec![(400, 399)]);
    assert_eq!(cell(&game, 1000, 1000), Cell::Apple);
}

#[test]
fn growth_changes_one_snake_only() {
    let mut game = world(&[(100, 100, Direction::Right), (200, 200, Direction::Down)]);
    game.add_apple(Apple::new(Point { x: 200, y: 201 }));
    game.tick(&[]);
    assert_eq!(body(&game, 0).len(), 1);
    assert_eq!(body(&game, 1), vec![(200, 201), (200, 200)]);
    assert_eq!(game.num_apples, apples_on_grid(&game));
    assert_eq!(game.num_apples, 1);
}

#[test]
fn equal_worlds_run_equally() {
    let start = [
        (100, 100, Direction::Right),
        (103, 100, Direction::Left),
        (200, 200, Direction::Down),
        (200, 204, Direction::Up),
        (3999, 3999, Direction::Right),
    ];
    let mut first = world(&start);
    let mut second = world(&start);
    for game in [&mut first, &mut second] {
        game.add_apple(Apple::new(Point { x: 200, y: 201 }));
        game.add_apple(Apple::new(Point { x: 1, y: 3999 }));
    }
    let batches = [
        vec![],
        vec![Input { snake_id: 4, direction: Direction::Down }],
        vec![
            Input { snake_id: 0, direction: Direction::Up },
            Input { snake_id: 2, direction: Direction::Right },
        ],
        vec![],
    ];
    for batch in batches.iter() {
        let a = first.advance_snakes(batch);
        let b = second.advance_snakes(batch);
        assert_eq!(a, b);
    }
    assert_eq!(first.num_apples, second.num_apples);
    for id in 0..start.len() {
        assert_eq!(body(&first, id), body(&second, id));
        assert_eq!(first.snakes[id].is_alive(), second.snakes[id].is_alive());
        assert_eq!(first.snakes[id].snake().direction, second.snakes[id].snake().direction);
    }
    for y in [99u16, 100, 101, 199, 200, 201, 202, 203, 204, 3999, 0] {
        for x in 0..GRID_WIDTH {
            assert_eq!(cell(&first, x as u16, y), cell(&second, x as u16, y));
        }
    }
}

#[test]
fn invariants_hold_over_many_ticks() {
    let mut game = GameState::random();
    for round in 0..20u32 {
        let inputs: Vec<Input> = (0..64u32)
            .map(|k| Input {
                snake_id: (k * 16 + round) % 1024,
                direction: Direction::from_index(((k + round) % 4) as usize),
            })
            .collect();
        game.tick(&inputs);
    }
    let mut seen = std::collections::HashSet::new();
    for snake in game.snakes.iter() {
        let body = snake.body();
        for i in 0..body.len() {
            let p = *body.get(i).unwrap();
            assert!((p.x as usize) < GRID_WIDTH && (p.y as usize) < GRID_HEIGHT);
            if snake.is_alive() {
                assert_eq!(game.grid.get_cell(&p), Cell::Snake);
                assert!(seen.insert((p.x, p.y)));
            }
        }
    }
    assert!(game.num_apples <= 128);
    assert_eq!(apples_on_grid(&game), game.num_apples);
}

#[test]
fn bucket_is_the_top_byte_of_the_row() {
    assert_eq!(NUM_BUCKETS, 256);
    assert_eq!(bucket_index(Point { x: 0, y: 0 }), 0);
    assert_eq!(bucket_index(Point { x: 77, y: 255 }), 0);
    assert_eq!(bucket_index(Point { x: 77, y: 256 }), 1);
    assert_eq!(bucket_index(Point { x: 3999, y: 3999 }), 15);
}

#[test]
fn place_apple_takes_empty_cells_only() {
    let mut game = world(&[(5, 5, Direction::Right)]);
    assert!(game.place_apple(Point { x: 6, y: 6 }));
    assert_eq!(game.num_apples, 1);
    assert!(!game.place_apple(Point { x: 6, y: 6 }));
    assert!(!game.place_apple(Point { x: 5, y: 5 }));
    assert_eq!(game.num_apples, 1);
    assert_eq!(cell(&game, 5, 5), Cell::Snake);
    for i in 0..127u16 {
        assert!(game.place_apple(Point { x: i, y: 50 }));
    }
    assert_eq!(game.num_apples, 128);
    assert!(!game.place_apple(Point { x: 0, y: 60 }));
    assert_eq!(cell(&game, 0, 60), Cell::Empty);
}

#[test]
fn legacy_tick_moves_by_id_and_stops_at_the_first_meal() {
    let mut game = world(&[
        (500, 500, Direction::Right),
        (502, 500, Direction::Left),
        (10, 10, Direction::Down),
        (20, 20, Direction::Down),
    ]);
    game.add_apple(Apple::new(Point { x: 10, y: 11 }));
    game.tick_legacy(&[Input { snake_id: 3, direction: Direction::Left }]);
    assert_eq!(body(&game, 0), vec![(501, 500)]);
    assert!(!game.snakes[1].is_alive());
    assert_eq!(body(&game, 1), vec![(502, 500)]);
    assert_eq!(body(&game, 2), vec![(10, 11), (10, 10)]);
    assert_eq!(cell(&game, 10, 11), Cell::Empty);
    assert_eq!(body(&game, 3), vec![(20, 20)]);
    assert_eq!(game.snakes[3].snake().direction, Direction::Left);
    assert_eq!(game.num_apples, 1);
    assert_eq!(apples_on_grid(&game), 1);
}

#[test]
fn default_world_is_empty() {
    let game = GameState::default();
    assert_eq!(game.snakes.len(), 0);
    assert_eq!(game.num_apples, 0);
    assert_eq!(game.buckets.len(), 256);
    assert_eq!(game.tail_buckets.len(), 256);
    assert!(game.buckets.iter().all(|bucket| bucket.is_empty()));
    assert!(game.tail_buckets.iter().all(|bucket| bucket.is_empty()));
    assert_eq!(cell(&game, 0, 0), Cell::Empty);
    assert_eq!(cell(&game, 3999, 3999), Cell::Empty);
}

#[test]
fn new_world_has_empty_buckets() {
    let game = GameState::new();
    assert_eq!(game.buckets.len(), NUM_BUCKETS);
    assert_eq!(game.tail_buckets.len(), NUM_BUCKETS);
    assert!(game.buckets.iter().all(|bucket| bucket.is_empty()));
    assert!(game.tail_buckets.iter().all(|bucket| bucket.is_empty()));
}

#[test]
fn snake_at_takes_four_empty_cells_in_a_row() {
    let mut grid = Grid::new();
    let snake = snake_at(&grid, 9, Point { x: 10, y: 20 }, Direction::Right).unwrap();
    assert_eq!(snake.id, 9);
    assert!(snake.is_alive);
    assert_eq!(snake.direction, Direction::Right);
    let cells: Vec<(u16, u16)> =
        (0..snake.body.len()).map(|i| snake.body.get(i).map(|p| (p.x, p.y)).unwrap()).collect();
    assert_eq!(cells, vec![(13, 20), (12, 20), (11, 20), (10, 20)]);
    assert_eq!(grid.get_cell(&Point { x: 11, y: 20 }), Cell::Empty);

    let wrapped = snake_at(&grid, 0, Point { x: 5, y: 1 }, Direction::Up).unwrap();
    let cells: Vec<(u16, u16)> =
        (0..wrapped.body.len()).map(|i| wrapped.body.get(i).map(|p| (p.x, p.y)).unwrap()).collect();
    assert_eq!(cells, vec![(5, 3998), (5, 3999), (5, 0), (5, 1)]);

    for blocked in [10u16, 11, 12, 13] {
        grid.set_cell(Point { x: blocked, y: 20 }, Cell::Apple);
        assert!(snake_at(&grid, 9, Point { x: 10, y: 20 }, Direction::Right).is_none());
        grid.set_cell(Point { x: blocked, y: 20 }, Cell::Empty);
    }
    grid.set_cell(Point { x: 14, y: 20 }, Cell::Snake);
    grid.set_cell(Point { x: 9, y: 20 }, Cell::Snake);
    assert!(snake_at(&grid, 9, Point { x: 10, y: 20 }, Direction::Right).is_some());
    assert!(snake_at(&grid, 9, Point { x: 10, y: 20 }, Direction::Left).is_none());
}

#[test]
fn random_world_keeps_four_segment_snakes_apart() {
    let game = GameState::random();
    assert_eq!(game.snakes[0].body().len(), 4);
    let mut seen = std::collections::HashSet::new();
    for snake in game.snakes.iter() {
        let body = snake.body();
        if body.len() == 4 {
            let head = *body.get(0).unwrap();
            let direction = snake.snake().direction;
            for i in 0..4 {
                let p = *body.get(i).unwrap();
                assert!(seen.insert((p.x, p.y)));
                assert_eq!(game.grid.get_cell(&p), Cell::Snake);
                if i > 0 {
                    assert_eq!(body.get(i - 1).copied(), Some(p.stepped(direction)));
                }
            }
            assert_eq!(snake.head().copied(), Some(head));
        } else {
            assert_eq!(body.len(), 1);
            assert_eq!(body.get(0).copied(), Some(Point { x: 0, y: 0 }));
        }
    }
}

#[test]
fn random_world_is_full() {
    let game = GameState::random();
    assert_eq!(game.snakes.len(), 1024);
    for (id, snake) in game.snakes.iter().enumerate() {
        assert_eq!(snake.id() as usize, id);
        assert!(snake.is_alive());
        let n = snake.body().len();
        assert!(n == 4 || n == 1);
    }
    assert!(game.num_apples <= 128);
}
