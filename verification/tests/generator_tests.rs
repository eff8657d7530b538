use high_frequency_snake::game::apple::{Apple, GridAwareApple};
use high_frequency_snake::game::engine::GameState;
use high_frequency_snake::game::generator::{
    contains_point, DeterministicConfig, DeterministicGenerator, LayoutPattern, RandomGenerator,
};
use high_frequency_snake::game::grid::{Cell, Grid};
use high_frequency_snake::game::snake::{GridAwareSnake, Snake};
use high_frequency_snake::game::types::{Direction, Point};

fn body(game: &GameState, id: usize) -> Vec<(u16, u16)> {
    let body = game.snakes[id].body();
    (0..body.len()).map(|i| body.get(i).map(|p| (p.x, p.y)).unwrap()).collect()
}

#[test]
fn default_config() {
    let config = DeterministicConfig::default();
    assert_eq!(config.seed, 42);
    assert!(matches!(config.layout_pattern, LayoutPattern::Grid));
    assert_eq!(config.initial_snake_length, 3);
}

#[test]
fn spacing_is_the_rounded_root() {
    assert_eq!(DeterministicGenerator::calculate_snake_spacing(0), usize::MAX);
    assert_eq!(DeterministicGenerator::calculate_snake_spacing(1), 2828);
    assert_eq!(DeterministicGenerator::calculate_snake_spacing(2), 2000);
    assert_eq!(DeterministicGenerator::calculate_snake_spacing(1024), 88);
    assert_eq!(DeterministicGenerator::calculate_snake_spacing(1000), 89);
    assert_eq!(DeterministicGenerator::calculate_snake_spacing(888_889), 2);
    assert_eq!(DeterministicGenerator::calculate_snake_spacing(888_888), 3);
    assert_eq!(DeterministicGenerator::calculate_snake_spacing(8_000_000), 2);
    assert_eq!(DeterministicGenerator::calculate_snake_spacing(usize::MAX), 2);
}

#[test]
fn spacing_matches_the_floating_point_root() {
    for n in 1..5000usize {
        let expected = ((8_000_000f64 / n as f64).sqrt() as usize).max(2);
        assert_eq!(DeterministicGenerator::calculate_snake_spacing(n), expected);
    }
}

#[test]
fn grid_positions_walk_the_rows() {
    let positions = DeterministicGenerator::calculate_grid_positions(5, 1000);
    assert_eq!(
        positions,
        vec![
            Point { x: 1000, y: 1000 },
            Point { x: 2000, y: 1000 },
            Point { x: 1000, y: 2000 },
            Point { x: 2000, y: 2000 },
        ]
    );
    assert!(DeterministicGenerator::calculate_grid_positions(0, usize::MAX).is_empty());
    assert!(DeterministicGenerator::calculate_grid_positions(3, 2000).is_empty());
    let one = DeterministicGenerator::calculate_grid_positions(1, 2828);
    assert!(one.is_empty());
    let many = DeterministicGenerator::calculate_grid_positions(1024, 88);
    assert_eq!(many.len(), 1024);
    assert_eq!(many[0], Point { x: 88, y: 88 });
    assert_eq!(many[43], Point { x: 3872, y: 88 });
    assert_eq!(many[44], Point { x: 88, y: 176 });
}

#[test]
fn apple_positions_take_every_thousandth_empty_cell() {
    let mut grid = Grid::new();
    grid.set_cell(Point { x: 0, y: 0 }, Cell::Snake);
    grid.set_cell(Point { x: 500, y: 0 }, Cell::Apple);
    let positions = DeterministicGenerator::calculate_apple_positions(&grid, 7);
    assert_eq!(positions.len(), 128);
    assert_eq!(positions[0], Point { x: 1, y: 0 });
    assert_eq!(positions[1], Point { x: 1002, y: 0 });
    assert_eq!(positions[3], Point { x: 3002, y: 0 });
    assert_eq!(positions[4], Point { x: 2, y: 1 });
    assert_eq!(positions[127], Point { x: 3002, y: 31 });
    assert!(contains_point(&positions, Point { x: 1002, y: 0 }));
    assert!(!contains_point(&positions, Point { x: 1001, y: 0 }));
}

#[test]
fn generate_lays_snakes_in_rows() {
    let state = DeterministicGenerator::generate(16, DeterministicConfig::default(), &[]);
    assert_eq!(state.snakes.len(), 16);
    assert_eq!(body(&state, 0), vec![(707, 707), (706, 707), (705, 707)]);
    assert_eq!(body(&state, 3), vec![(2828, 707), (2827, 707), (2826, 707)]);
    assert_eq!(body(&state, 4), vec![(707, 1414), (706, 1414), (705, 1414)]);
    assert_eq!(body(&state, 15), vec![(2828, 2828), (2827, 2828), (2826, 2828)]);
    for (id, snake) in state.snakes.iter().enumerate() {
        assert_eq!(snake.id() as usize, id);
        assert!(snake.is_alive());
        assert_eq!(snake.snake().direction, Direction::Right);
    }
    assert_eq!(state.num_apples, 128);
    assert_eq!(state.grid.get_cell(&Point { x: 0, y: 0 }), Cell::Apple);
    assert_eq!(state.grid.get_cell(&Point { x: 1000, y: 0 }), Cell::Apple);
    assert_eq!(state.grid.get_cell(&Point { x: 706, y: 707 }), Cell::Snake);
    assert!(DeterministicGenerator::validate_game_state(&state, 16));
    assert!(!DeterministicGenerator::validate_game_state(&state, 17));

    let few = DeterministicGenerator::generate(3, DeterministicConfig::default(), &[]);
    assert_eq!(few.snakes.len(), 1);
    assert_eq!(body(&few, 0), vec![(1632, 1632), (1631, 1632), (1630, 1632)]);
}

#[test]
fn generate_on_a_ring() {
    let config = DeterministicConfig {
        seed: 1,
        layout_pattern: LayoutPattern::Concentric,
        initial_snake_length: 1,
    };
    let ring = [Point { x: 2002, y: 2000 }, Point { x: 2000, y: 2002 }, Point { x: 2000, y: 2000 }];
    let mut state = DeterministicGenerator::generate(99, config, &ring);
    assert_eq!(state.snakes.len(), 3);
    assert_eq!(body(&state, 0), vec![(2002, 2000)]);
    assert_eq!(body(&state, 1), vec![(2000, 2002)]);
    assert_eq!(body(&state, 2), vec![(2000, 2000)]);
    assert!(DeterministicGenerator::validate_game_state(&state, 3));
    state.tick(&[]);
    assert_eq!(body(&state, 2), vec![(2001, 2000)]);
}

#[test]
fn foreseen_outcomes_come_true() {
    let mut state =
        DeterministicGenerator::generate_predictable_outcomes(8, DeterministicConfig::default());
    assert_eq!(state.snakes.len(), 8);
    assert_eq!(body(&state, 0), vec![(100, 100), (99, 100), (98, 100)]);
    assert_eq!(body(&state, 1), vec![(110, 100), (111, 100), (112, 100)]);
    assert_eq!(state.snakes[1].snake().direction, Direction::Left);
    assert_eq!(body(&state, 2), vec![(199, 100), (198, 100), (197, 100)]);
    assert_eq!(body(&state, 3), vec![(219, 100), (218, 100), (217, 100)]);
    assert_eq!(body(&state, 4), vec![(500, 100), (499, 100), (498, 100)]);
    assert_eq!(body(&state, 7), vec![(650, 100), (649, 100), (648, 100)]);
    assert_eq!(state.grid.get_cell(&Point { x: 200, y: 100 }), Cell::Apple);
    assert_eq!(state.grid.get_cell(&Point { x: 220, y: 100 }), Cell::Apple);
    assert_eq!(state.num_apples, 128);
    assert!(DeterministicGenerator::validate_game_state(&state, 8));

    state.tick(&[]);
    assert_eq!(state.snakes[2].body().len(), 4);
    assert_eq!(state.snakes[3].body().len(), 4);
    assert_eq!(state.snakes[4].body().len(), 3);
    for _ in 0..4 {
        state.tick(&[]);
    }
    assert!(state.snakes[0].is_alive());
    assert!(!state.snakes[1].is_alive());
    assert!(state.snakes[4].is_alive());
}

#[test]
fn validation_sees_close_heads_and_missing_apples() {
    let mut game = GameState::new();
    let first = GridAwareSnake::new(Snake::new(0, Point { x: 10, y: 10 }, Direction::Right), &mut game.grid);
    game.snakes.push(first);
    let second = GridAwareSnake::new(Snake::new(1, Point { x: 11, y: 10 }, Direction::Right), &mut game.grid);
    game.snakes.push(second);
    assert!(!DeterministicGenerator::validate_game_state(&game, 2));
    game.add_apple(Apple::new(Point { x: 50, y: 50 }));
    assert!(!DeterministicGenerator::validate_game_state(&game, 2));

    let mut apart = GameState::new();
    let first = GridAwareSnake::new(Snake::new(0, Point { x: 10, y: 10 }, Direction::Right), &mut apart.grid);
    apart.snakes.push(first);
    let second = GridAwareSnake::new(Snake::new(1, Point { x: 11, y: 11 }, Direction::Right), &mut apart.grid);
    apart.snakes.push(second);
    assert!(!DeterministicGenerator::validate_game_state(&apart, 2));
    apart.add_apple(Apple::new(Point { x: 50, y: 50 }));
    assert!(DeterministicGenerator::validate_game_state(&apart, 2));
    apart.num_apples = 129;
    assert!(!DeterministicGenerator::validate_game_state(&apart, 2));
}

#[test]
fn random_generator_fills_the_world() {
    let state = RandomGenerator::generate();
    assert_eq!(state.snakes.len(), 1024);
    assert!(state.num_apples <= 128);
}

#[test]
fn snake_grows_behind_its_tail() {
    let mut snake = Snake::new(0, Point { x: 1, y: 5 }, Direction::Right);
    snake.grow();
    snake.grow();
    snake.grow();
    assert_eq!(snake.body.len(), 4);
    assert_eq!(*snake.body.get(0).unwrap(), Point { x: 1, y: 5 });
    assert_eq!(*snake.body.get(1).unwrap(), Point { x: 0, y: 5 });
    assert_eq!(*snake.body.get(2).unwrap(), Point { x: 3999, y: 5 });
    assert_eq!(*snake.body.get(3).unwrap(), Point { x: 3998, y: 5 });
}

#[test]
fn grid_aware_apple_moves_and_reports() {
    let mut grid = Grid::new();
    let mut apple = GridAwareApple::new(Apple::new(Point { x: 1, y: 2 }), &mut grid);
    assert!(apple.is_spawned());
    assert_eq!(apple.position(), Point { x: 1, y: 2 });
    assert_eq!(apple.apple().position, Point { x: 1, y: 2 });
    apple.move_to(Point { x: 3, y: 4 }, &mut grid);
    assert_eq!(grid.get_cell(&Point { x: 1, y: 2 }), Cell::Empty);
    assert_eq!(grid.get_cell(&Point { x: 3, y: 4 }), Cell::Apple);
    apple.consume(&mut grid);
    apple.move_to(Point { x: 5, y: 6 }, &mut grid);
    assert_eq!(grid.get_cell(&Point { x: 5, y: 6 }), Cell::Empty);
    assert!(!apple.is_spawned());
    let hidden = GridAwareApple::new_unspawned(Apple::new(Point { x: 9, y: 9 }), &mut grid);
    assert!(!hidden.is_spawned());
    assert_eq!(grid.get_cell(&Point { x: 9, y: 9 }), Cell::Empty);
}
