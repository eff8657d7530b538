use vstd::prelude::*;
use rand::rngs::ThreadRng;
use crate::game::apple::{Apple, APPLE_CAPACITY};
use crate::game::grid::{Cell, Grid};
use crate::game::model::{
    all_four, apple_count, bodies_apart, bodies_marked, bucket_of, cells_after, eaters,
    headed_for, in_a_row, legacy_run, lemma_after_wf, lemma_apple_count_bounded,
    lemma_apple_count_none, lemma_apple_count_update, lemma_legacy_stops,
    lemma_marked_elsewhere, lemma_move_keeps_consistent, lemma_row_distinct,
    fours_apart, lemma_fours_are_all, lemma_row_from, lemma_snake_kept_wf, lemma_snake_placed,
    lemma_steer_next, lemma_steered_wf, placed_well, row_from, snakes_after, snakes_wf, steered,
    vacated, LegacyWorld,
};
use crate::game::progress::{
    all_filled, bucket_filled, cells_progress, eaten_progress, in_tails, lemma_bucket_push,
    lemma_bucket_skip, lemma_commit_blocked, lemma_commit_end, lemma_commit_move,
    lemma_commit_next_bucket, lemma_commit_start, lemma_in_seq_push, lemma_in_tails_extend,
    lemma_intents_noted, lemma_served_next, same_intents, snakes_progress, tails_progress,
};
use crate::game::snake::{all_in_bounds, GridAwareSnake, Snake, SnakeState, SNAKE_CAPACITY};
use crate::game::types::{corner, lemma_index_injective, thread_rng, Direction, Input, Point};

verus! {

/// Number of top bits of a row that choose its bucket.
pub const BUCKET_BITS: usize = 8;

/// `1 << BUCKET_BITS`.
pub const NUM_BUCKETS: usize = 256;

/// Room reserved in each bucket: half again the even share of the snakes.
pub const EXPECTED_SNAKES_PER_BUCKET: usize = ((SNAKE_CAPACITY + NUM_BUCKETS - 1) / NUM_BUCKETS
    * 3) / 2;

/// How often a respawn draws a cell before it gives up.
pub const RESPAWN_ATTEMPTS: usize = 100;

/// The intent of one snake in one tick: the cell it heads for, and what the
/// grid held there when the engine looked.
#[derive(Debug, Clone, Copy)]
pub struct MovementRecord {
    pub snake_id: u32,
    pub new_head: Point,
    pub cell_at_new_head: Cell,
}

/// The world: snakes by id, the grid, the number of apples, and the buckets
/// that a tick sorts its work into.
pub struct GameState {
    pub snakes: Vec<GridAwareSnake>,
    pub num_apples: u64,
    pub grid: Grid,
    pub buckets: Vec<Vec<MovementRecord>>,
    pub tail_buckets: Vec<Vec<Point>>,
}

/// Some cell of the grid is not empty.
pub open spec fn occupied_somewhere(cells: Seq<Cell>) -> bool {
    exists|p: Point| p.in_bounds() && #[trigger] cells[p.index()] != Cell::Empty
}

/// `after` is `before` with one empty cell turned into an apple.
pub open spec fn one_apple_added(before: Seq<Cell>, after: Seq<Cell>) -> bool {
    exists|p: Point|
        p.in_bounds() && before[p.index()] == Cell::Empty && after == #[trigger] before.update(
            p.index(),
            Cell::Apple,
        )
}

/// `cells` is `base` with some empty cells turned into apples.
pub open spec fn apples_added(base: Seq<Cell>, cells: Seq<Cell>) -> bool {
    &&& cells.len() == base.len()
    &&& forall|i: int|
        0 <= i < base.len() ==> #[trigger] cells[i] == base[i] || (base[i] == Cell::Empty
            && cells[i] == Cell::Apple)
}

impl GameState {
    /// The snakes' values, by id.
    pub open spec fn snake_states(&self) -> Seq<SnakeState> {
        Seq::new(self.snakes@.len(), |i: int| self.snakes@[i]@)
    }

    /// The records in the buckets, by bucket.
    pub open spec fn intents(&self) -> Seq<Seq<MovementRecord>> {
        Seq::new(self.buckets@.len(), |b: int| self.buckets@[b]@)
    }

    /// The points in the tail buckets, by bucket.
    pub open spec fn tails(&self) -> Seq<Seq<Point>> {
        Seq::new(self.tail_buckets@.len(), |t: int| self.tail_buckets@[t]@)
    }

    /// What a tick needs of the world: a full grid, all buckets, every snake
    /// at the index of its id with its segments on the grid and, while alive,
    /// a head; and an apple count that covers the apples on the grid.
    pub open spec fn wf(&self) -> bool {
        &&& self.grid.wf()
        &&& self.buckets@.len() == NUM_BUCKETS
        &&& self.tail_buckets@.len() == NUM_BUCKETS
        &&& snakes_wf(self.snake_states())
        &&& apple_count(self.grid@) <= self.num_apples
    }

    /// The world's invariant: it is well-formed, the cells under alive snakes
    /// hold `Cell::Snake`, no cell lies under two segments of alive snakes,
    /// and the apple count is the number of apples on the grid, at most
    /// `APPLE_CAPACITY`.
    pub open spec fn consistent(&self) -> bool {
        &&& self.wf()
        &&& bodies_marked(self.snake_states(), self.grid@)
        &&& bodies_apart(self.snake_states())
        &&& self.num_apples == apple_count(self.grid@)
        &&& self.num_apples <= APPLE_CAPACITY
    }

    /// A fully populated world: `SNAKE_CAPACITY` snakes and up to
    /// `APPLE_CAPACITY` apples at random places.
    ///
    /// A snake is placed on four empty cells in a row: a random empty cell
    /// and the three cells after it in a random direction. After more than
    /// 1000 failed draws the snake is placed as one segment in the corner
    /// `(0, 0)` instead, whatever lies there. An apple is placed on a random
    /// empty cell and left out after more than 1000 failed draws.
    pub fn random() -> (state: GameState)
        ensures
            state.wf(),
            state.snake_states().len() == SNAKE_CAPACITY,
            forall|j: int|
                0 <= j < SNAKE_CAPACITY ==> ({
                    let s = #[trigger] state.snake_states()[j];
                    s.alive && ((s.body.len() == 4 && in_a_row(s.body, s.direction)) || s.body
                        == seq![corner()])
                }),
            state.snake_states()[0].body.len() == 4,
            fours_apart(state.snake_states()),
            bodies_marked(state.snake_states(), state.grid@),
            state.num_apples == apple_count(state.grid@),
            state.num_apples <= APPLE_CAPACITY,
            all_four(state.snake_states()) ==> state.consistent(),
    {
        let mut random_snakes = Vec::<GridAwareSnake>::with_capacity(SNAKE_CAPACITY);
        let mut grid = Grid::new();
        let mut rng = thread_rng();
        let ghost mut states = Seq::<SnakeState>::empty();

        let mut index: usize = 0;
        proof {
            assert(!occupied_somewhere(grid@)) by {
                if occupied_somewhere(grid@) {
                    let p = choose|p: Point|
                        p.in_bounds() && #[trigger] grid@[p.index()] != Cell::Empty;
                    lemma_index_injective(p, p);
                }
            }
        }
        while index < SNAKE_CAPACITY
            invariant
                index <= SNAKE_CAPACITY,
                random_snakes@.len() == index,
                states.len() == index,
                forall|j: int| 0 <= j < index ==> (#[trigger] random_snakes@[j])@ == states[j],
                grid.wf(),
                forall|c: int| 0 <= c < grid@.len() ==> grid@[c] != Cell::Apple,
                snakes_wf(states),
                forall|j: int|
                    0 <= j < index ==> {
                        let s = #[trigger] states[j];
                        s.alive && ((s.body.len() == 4 && in_a_row(s.body, s.direction)) || s.body
                            == seq![corner()])
                    },
                bodies_marked(states, grid@),
                fours_apart(states),
                index == 0 ==> !occupied_somewhere(grid@),
                index > 0 ==> states[0].body.len() == 4,
            decreases SNAKE_CAPACITY - index,
        {
            let snake = Self::random_snake(&grid, &mut rng, index as u32);
            let ghost cells = grid@;
            let ghost fresh = snake@;
            let grid_aware_snake = GridAwareSnake::new(snake, &mut grid);
            random_snakes.push(grid_aware_snake);
            proof {
                lemma_snake_placed(states, cells, fresh);
                states = states.push(fresh);
            }
            index += 1;
        }

        let mut state = Self {
            snakes: random_snakes,
            num_apples: 0,
            grid,
            buckets: Self::empty_buckets(),
            tail_buckets: Self::empty_tail_buckets(),
        };
        proof {
            assert(state.snake_states() =~= states);
            lemma_apple_count_none(state.grid@);
            if all_four(states) {
                lemma_fours_are_all(states);
            }
        }

        let mut placed: usize = 0;
        while placed < APPLE_CAPACITY
            invariant
                placed <= APPLE_CAPACITY,
                state.snake_states() == states,
                state.wf(),
                bodies_marked(states, state.grid@),
                state.num_apples == apple_count(state.grid@),
                state.num_apples <= placed,
            decreases APPLE_CAPACITY - placed,
        {
            let mut attempts: usize = 0;
            while attempts <= 1000
                invariant_except_break
                    state.num_apples <= placed,
                invariant
                    placed < APPLE_CAPACITY,
                    state.snake_states() == states,
                    state.wf(),
                    bodies_marked(states, state.grid@),
                    state.num_apples == apple_count(state.grid@),
                ensures
                    state.num_apples <= placed + 1,
                decreases 1001 - attempts,
            {
                let apple = Apple::new(Point::random(&mut rng));
                let ghost cells = state.grid@;
                proof {
                    lemma_index_injective(apple.position, apple.position);
                    lemma_apple_count_update(cells, apple.position.index(), Cell::Apple);
                }
                if state.place_apple(apple.position) {
                    proof {
                        lemma_marked_elsewhere(
                            states,
                            cells,
                            apple.position.index(),
                            Cell::Apple,
                        );
                    }
                    break ;
                }
                attempts += 1;
            }
            placed += 1;
        }
        state
    }

    /// Draws places for snake `index` until one is free, and gives up after
    /// more than 1000 draws: the snake then lies as one segment in the corner
    /// `(0, 0)`. A place is a start cell and a direction; it is free when
    /// `snake_at` finds its four cells empty. On a grid without an occupied
    /// cell the first place drawn is free.
    fn random_snake(grid: &Grid, rng: &mut ThreadRng, index: u32) -> (snake: Snake)
        requires
            grid.wf(),
        ensures
            snake@.id == index,
            snake@.alive,
            snake@.wf(),
            (placed_well(snake@.body, grid@) && in_a_row(snake@.body, snake@.direction))
                || snake@.body == seq![corner()],
            !occupied_somewhere(grid@) ==> snake@.body.len() == 4,
    {
        let mut attempts: usize = 0;
        loop
            invariant
                grid.wf(),
                attempts <= 1000,
                attempts > 0 ==> occupied_somewhere(grid@),
            decreases 1001 - attempts,
        {
            let start_pos = Point::random(rng);
            if grid.get_cell(&start_pos) == Cell::Empty {
                let direction = Direction::random(rng);
                proof {
                    lemma_row_from(start_pos, direction);
                }
                match snake_at(grid, index, start_pos, direction) {
                    Some(snake) => {
                        proof {
                            lemma_row_distinct(snake@.body, direction);
                        }
                        return snake;
                    },
                    None => {
                        proof {
                            let row = row_from(start_pos, direction);
                            let k = choose|k: int|
                                0 <= k < 4 && grid.at(#[trigger] row[k]) != Cell::Empty;
                            assert(row[k].in_bounds());
                            assert(grid@[row[k].index()] != Cell::Empty);
                        }
                    },
                }
            } else {
                assert(grid@[start_pos.index()] != Cell::Empty);
            }
            attempts += 1;
            if attempts > 1000 {
                let start_pos = Point { x: 0, y: 0 };
                let snake = Snake::new(index, start_pos, Direction::random(rng));
                return snake;
            }
        }
    }

    /// An empty world: no snakes, no apples, an empty grid.
    pub fn new() -> (state: GameState)
        ensures
            state.consistent(),
            state.snake_states().len() == 0,
            state.num_apples == 0,
            forall|i: int| 0 <= i < state.grid@.len() ==> state.grid@[i] == Cell::Empty,
            forall|b: int| 0 <= b < NUM_BUCKETS ==> (#[trigger] state.buckets@[b])@.len() == 0,
            forall|b: int| 0 <= b < NUM_BUCKETS ==> (#[trigger] state.tail_buckets@[b])@.len() == 0,
    {
        let buckets = Self::empty_buckets();
        let tail_buckets = Self::empty_tail_buckets();
        let state = Self {
            snakes: Vec::<GridAwareSnake>::with_capacity(SNAKE_CAPACITY),
            num_apples: 0,
            grid: Grid::new(),
            buckets,
            tail_buckets,
        };
        proof {
            lemma_apple_count_none(state.grid@);
        }
        state
    }

    pub(crate) fn empty_buckets() -> (buckets: Vec<Vec<MovementRecord>>)
        ensures
            buckets@.len() == NUM_BUCKETS,
            forall|b: int| 0 <= b < NUM_BUCKETS ==> (#[trigger] buckets@[b])@.len() == 0,
    {
        let mut buckets: Vec<Vec<MovementRecord>> = Vec::with_capacity(NUM_BUCKETS);
        let mut b: usize = 0;
        while b < NUM_BUCKETS
            invariant
                b <= NUM_BUCKETS,
                buckets@.len() == b,
                forall|i: int| 0 <= i < b ==> (#[trigger] buckets@[i])@.len() == 0,
            decreases NUM_BUCKETS - b,
        {
            buckets.push(Vec::with_capacity(EXPECTED_SNAKES_PER_BUCKET));
            b += 1;
        }
        buckets
    }

    pub(crate) fn empty_tail_buckets() -> (buckets: Vec<Vec<Point>>)
        ensures
            buckets@.len() == NUM_BUCKETS,
            forall|b: int| 0 <= b < NUM_BUCKETS ==> (#[trigger] buckets@[b])@.len() == 0,
    {
        let mut buckets: Vec<Vec<Point>> = Vec::with_capacity(NUM_BUCKETS);
        let mut b: usize = 0;
        while b < NUM_BUCKETS
            invariant
                b <= NUM_BUCKETS,
                buckets@.len() == b,
                forall|i: int| 0 <= i < b ==> (#[trigger] buckets@[i])@.len() == 0,
            decreases NUM_BUCKETS - b,
        {
            buckets.push(Vec::with_capacity(EXPECTED_SNAKES_PER_BUCKET));
            b += 1;
        }
        buckets
    }

    /// Puts an apple on the grid and counts it. Does nothing when the world
    /// already counts `APPLE_CAPACITY` apples.
    pub fn add_apple(&mut self, apple: Apple)
        requires
            old(self).grid.wf(),
            apple.position.in_bounds(),
        ensures
            final(self).snakes == old(self).snakes,
            final(self).buckets == old(self).buckets,
            final(self).tail_buckets == old(self).tail_buckets,
            final(self).grid.wf(),
            old(self).num_apples < APPLE_CAPACITY ==> ({
                &&& final(self).num_apples == old(self).num_apples + 1
                &&& final(self).grid@ == old(self).grid@.update(
                    apple.position.index(),
                    Cell::Apple,
                )
            }),
            old(self).num_apples >= APPLE_CAPACITY ==> ({
                &&& final(self).num_apples == old(self).num_apples
                &&& final(self).grid@ == old(self).grid@
            }),
            old(self).wf() ==> final(self).wf(),
            old(self).consistent() && old(self).grid.at(apple.position) == Cell::Empty
                ==> final(self).consistent(),
    {
        if self.num_apples < APPLE_CAPACITY as u64 {
            proof {
                lemma_index_injective(apple.position, apple.position);
                lemma_apple_count_update(self.grid@, apple.position.index(), Cell::Apple);
            }
            self.grid.set_cell(apple.position, Cell::Apple);
            self.num_apples += 1;
            proof {
                if old(self).consistent() && old(self).grid.at(apple.position) == Cell::Empty {
                    lemma_marked_elsewhere(
                        self.snake_states(),
                        old(self).grid@,
                        apple.position.index(),
                        Cell::Apple,
                    );
                }
            }
        }
    }

    /// Puts an apple at `position` if the world is below capacity and the
    /// cell is empty, and says whether it did.
    pub fn place_apple(&mut self, position: Point) -> (placed: bool)
        requires
            old(self).grid.wf(),
            position.in_bounds(),
        ensures
            final(self).snakes == old(self).snakes,
            final(self).buckets == old(self).buckets,
            final(self).tail_buckets == old(self).tail_buckets,
            final(self).grid.wf(),
            placed == (old(self).num_apples < APPLE_CAPACITY && old(self).grid.at(position)
                == Cell::Empty),
            placed ==> final(self).num_apples == old(self).num_apples + 1 && final(self).grid@
                == old(self).grid@.update(position.index(), Cell::Apple),
            !placed ==> final(self).num_apples == old(self).num_apples && final(self).grid@ == old(self).grid@,
            old(self).wf() ==> final(self).wf(),
            old(self).consistent() ==> final(self).consistent(),
    {
        if self.num_apples >= APPLE_CAPACITY as u64 {
            return false;
        }
        if self.grid.get_cell(&position) == Cell::Empty {
            self.add_apple(Apple::new(position));
            true
        } else {
            false
        }
    }

    /// Applies the inputs in order: each turns the snake that it names,
    /// alive or not, unless it asks for a reversal.
    fn apply_inputs(&mut self, inputs: &[Input])
        requires
            forall|k: int|
                0 <= k < inputs@.len() ==> (#[trigger] inputs@[k]).snake_id < old(self).snakes@.len(),
        ensures
            final(self).snake_states() == steered(old(self).snake_states(), inputs@),
            final(self).num_apples == old(self).num_apples,
            final(self).grid == old(self).grid,
            final(self).buckets == old(self).buckets,
            final(self).tail_buckets == old(self).tail_buckets,
    {
        let ghost before = self.snake_states();
        let mut k: usize = 0;
        assert(self.snake_states() =~= steered(before, inputs@.take(0)));
        while k < inputs.len()
            invariant
                k <= inputs@.len(),
                before == old(self).snake_states(),
                self.snakes@.len() == before.len(),
                forall|m: int|
                    0 <= m < inputs@.len() ==> (#[trigger] inputs@[m]).snake_id < before.len(),
                self.snake_states() == steered(before, inputs@.take(k as int)),
                self.num_apples == old(self).num_apples,
                self.grid == old(self).grid,
                self.buckets == old(self).buckets,
                self.tail_buckets == old(self).tail_buckets,
            decreases inputs@.len() - k,
        {
            let input = inputs[k];
            let ghost turned = self.snake_states();
            self.snakes[input.snake_id as usize].change_direction(input.direction);
            proof {
                assert forall|i: int| 0 <= i < before.len() implies self.snake_states()[i]
                    == steered(before, inputs@.take(k + 1))[i] by {
                    lemma_steer_next(before[i].direction, i, inputs@, k as int);
                    assert(turned[i] == steered(before, inputs@.take(k as int))[i]);
                }
                assert(self.snake_states() =~= steered(before, inputs@.take(k + 1)));
            }
            k += 1;
        }
        assert(inputs@.take(inputs@.len() as int) =~= inputs@);
    }

    /// Empties every bucket; their capacity stays.
    fn clear_buckets(&mut self)
        requires
            old(self).buckets@.len() == NUM_BUCKETS,
            old(self).tail_buckets@.len() == NUM_BUCKETS,
        ensures
            final(self).snakes == old(self).snakes,
            final(self).num_apples == old(self).num_apples,
            final(self).grid == old(self).grid,
            final(self).buckets@.len() == NUM_BUCKETS,
            final(self).tail_buckets@.len() == NUM_BUCKETS,
            forall|b: int| 0 <= b < NUM_BUCKETS ==> (#[trigger] final(self).buckets@[b])@.len() == 0,
            forall|b: int|
                0 <= b < NUM_BUCKETS ==> (#[trigger] final(self).tail_buckets@[b])@.len() == 0,
    {
        let mut b: usize = 0;
        while b < NUM_BUCKETS
            invariant
                b <= NUM_BUCKETS,
                self.snakes == old(self).snakes,
                self.num_apples == old(self).num_apples,
                self.grid == old(self).grid,
                self.buckets@.len() == NUM_BUCKETS,
                self.tail_buckets@.len() == NUM_BUCKETS,
                forall|i: int| 0 <= i < b ==> (#[trigger] self.buckets@[i])@.len() == 0,
                forall|i: int| 0 <= i < b ==> (#[trigger] self.tail_buckets@[i])@.len() == 0,
            decreases NUM_BUCKETS - b,
        {
            self.buckets[b].clear();
            self.tail_buckets[b].clear();
            b += 1;
        }
    }

    /// Walks the snakes by id and files the intent of each alive one in the
    /// bucket of the cell that it heads for.
    fn collect_intents(&mut self)
        requires
            old(self).buckets@.len() == NUM_BUCKETS,
            forall|b: int| 0 <= b < NUM_BUCKETS ==> (#[trigger] old(self).buckets@[b])@.len() == 0,
            snakes_wf(old(self).snake_states()),
        ensures
            final(self).snakes == old(self).snakes,
            final(self).num_apples == old(self).num_apples,
            final(self).grid == old(self).grid,
            final(self).tail_buckets == old(self).tail_buckets,
            final(self).buckets@.len() == NUM_BUCKETS,
            forall|b: int|
                0 <= b < NUM_BUCKETS ==> bucket_filled(
                    (#[trigger] final(self).buckets@[b])@,
                    old(self).snake_states(),
                    b,
                    old(self).snake_states().len() as int,
                ),
    {
        let ghost snakes = self.snake_states();
        let n = self.snakes.len();
        let mut i: usize = 0;
        while i < n
            invariant
                i <= n,
                n == snakes.len(),
                snakes == self.snake_states(),
                snakes_wf(snakes),
                self.snakes == old(self).snakes,
                self.num_apples == old(self).num_apples,
                self.grid == old(self).grid,
                self.tail_buckets == old(self).tail_buckets,
                self.buckets@.len() == NUM_BUCKETS,
                forall|b: int|
                    0 <= b < NUM_BUCKETS ==> bucket_filled(
                        (#[trigger] self.buckets@[b])@,
                        snakes,
                        b,
                        i as int,
                    ),
            decreases n - i,
        {
            let snake = &self.snakes[i];
            assert(snake@ == snakes[i as int]);
            if snake.is_alive() {
                let new_head = snake.calculate_new_head();
                let bucket_idx = bucket_index(new_head);
                let record = MovementRecord {
                    snake_id: snake.id(),
                    new_head,
                    cell_at_new_head: Cell::Empty,
                };
                let ghost filed = self.buckets@;
                self.buckets[bucket_idx].push(record);
                proof {
                    assert forall|b: int| 0 <= b < NUM_BUCKETS implies bucket_filled(
                        (#[trigger] self.buckets@[b])@,
                        snakes,
                        b,
                        i + 1,
                    ) by {
                        assert(bucket_filled(filed[b]@, snakes, b, i as int));
                        if b == bucket_idx {
                            lemma_bucket_push(filed[b]@, snakes, b, i as int, record);
                        } else {
                            lemma_bucket_skip(filed[b]@, snakes, b, i as int);
                        }
                    }
                }
            } else {
                proof {
                    assert forall|b: int| 0 <= b < NUM_BUCKETS implies bucket_filled(
                        (#[trigger] self.buckets@[b])@,
                        snakes,
                        b,
                        i + 1,
                    ) by {
                        lemma_bucket_skip(self.buckets@[b]@, snakes, b, i as int);
                    }
                }
            }
            i += 1;
        }
    }

    /// Walks the buckets in order and the records of each in the order they
    /// were filed. The snake of a record dies where it is if the cell ahead
    /// holds a snake; else its new head is marked on the grid, it eats the
    /// apple that may lie there, its tail is noted for clearing unless it
    /// grows, and its body moves. Returns the number of apples eaten.
    fn commit_moves(&mut self) -> (consumed: u64)
        requires
            old(self).grid.wf(),
            old(self).tail_buckets@.len() == NUM_BUCKETS,
            forall|t: int|
                0 <= t < NUM_BUCKETS ==> (#[trigger] old(self).tail_buckets@[t])@.len() == 0,
            snakes_wf(old(self).snake_states()),
            all_filled(old(self).intents(), old(self).snake_states()),
            apple_count(old(self).grid@) <= old(self).num_apples,
        ensures
            final(self).snake_states() == snakes_after(old(self).snake_states(), old(self).grid@),
            final(self).grid.wf(),
            forall|c: int|
                0 <= c < old(self).grid@.len() ==> #[trigger] final(self).grid@[c] == if old(self).grid@[c]
                    == Cell::Snake || headed_for(old(self).snake_states(), c) {
                    Cell::Snake
                } else {
                    old(self).grid@[c]
                },
            final(self).buckets@.len() == NUM_BUCKETS,
            final(self).tail_buckets@.len() == NUM_BUCKETS,
            forall|t: int, m: int|
                0 <= t < final(self).tails().len() && 0 <= m < final(self).tails()[t].len() ==> (
                #[trigger] final(self).tails()[t][m]).in_bounds(),
            forall|c: int|
                #[trigger] in_tails(final(self).tails(), c) == vacated(
                    old(self).snake_states(),
                    old(self).grid@,
                    c,
                ),
            consumed == eaters(old(self).snake_states(), old(self).grid@).len(),
            final(self).num_apples == old(self).num_apples - consumed,
            apple_count(final(self).grid@) == apple_count(old(self).grid@) - consumed,
    {
        let ghost s1 = self.snake_states();
        let ghost g0 = self.grid@;
        let ghost snap = self.intents();
        let ghost mut eaten = Set::<int>::empty();
        let mut consumed: u64 = 0;
        let mut previous_new_head: Option<Point> = None;
        proof {
            lemma_commit_start(self.tails(), snap, s1, g0);
            lemma_apple_count_bounded(g0);
        }
        let mut b: usize = 0;
        while b < NUM_BUCKETS
            invariant
                b <= NUM_BUCKETS,
                s1 == old(self).snake_states(),
                g0 == old(self).grid@,
                all_filled(snap, s1),
                snakes_wf(s1),
                self.grid.wf(),
                self.buckets@.len() == NUM_BUCKETS,
                self.tail_buckets@.len() == NUM_BUCKETS,
                same_intents(self.intents(), snap),
                snakes_progress(self.snake_states(), snap, s1, g0, b as int, 0),
                cells_progress(self.grid@, snap, s1, g0, b as int, 0),
                tails_progress(self.tails(), snap, s1, g0, b as int, 0),
                eaten_progress(eaten, snap, s1, g0, b as int, 0),
                consumed == eaten.len(),
                self.num_apples == old(self).num_apples - consumed,
                apple_count(self.grid@) == apple_count(g0) - consumed,
                apple_count(g0) <= old(self).num_apples,
                apple_count(g0) <= g0.len(),
                previous_new_head matches Some(p) ==> p.in_bounds() && self.grid@[p.index()]
                    == Cell::Snake,
            decreases NUM_BUCKETS - b,
        {
            let len = self.buckets[b].len();
            let mut k: usize = 0;
            assert(self.intents()[b as int].len() == snap[b as int].len());
            while k < len
                invariant
                    b < NUM_BUCKETS,
                    k <= len,
                    len == snap[b as int].len(),
                    s1 == old(self).snake_states(),
                    g0 == old(self).grid@,
                    all_filled(snap, s1),
                    snakes_wf(s1),
                    self.grid.wf(),
                    self.buckets@.len() == NUM_BUCKETS,
                    self.tail_buckets@.len() == NUM_BUCKETS,
                    same_intents(self.intents(), snap),
                    snakes_progress(self.snake_states(), snap, s1, g0, b as int, k as int),
                    cells_progress(self.grid@, snap, s1, g0, b as int, k as int),
                    tails_progress(self.tails(), snap, s1, g0, b as int, k as int),
                    eaten_progress(eaten, snap, s1, g0, b as int, k as int),
                    consumed == eaten.len(),
                    self.num_apples == old(self).num_apples - consumed,
                    apple_count(self.grid@) == apple_count(g0) - consumed,
                    apple_count(g0) <= old(self).num_apples,
                    apple_count(g0) <= g0.len(),
                    previous_new_head matches Some(p) ==> p.in_bounds() && self.grid@[p.index()]
                        == Cell::Snake,
                decreases len - k,
            {
                let ghost snakes_now = self.snake_states();
                let ghost cells_now = self.grid@;
                let ghost tails_now = self.tails();
                let ghost intents_now = self.intents();
                let new_head = self.buckets[b][k].new_head;
                let id = self.buckets[b][k].snake_id as usize;
                proof {
                    lemma_served_next(snap, s1, b as int, k as int);
                    assert(self.intents()[b as int][k as int].new_head == snap[b as int][k as int].new_head);
                    assert(new_head == s1[id as int].next_head());
                    crate::game::types::lemma_step_in_bounds(
                        s1[id as int].body[0],
                        s1[id as int].direction,
                    );
                    lemma_index_injective(new_head, new_head);
                }
                let cell = self.grid.get_cell(&new_head);
                self.buckets[b][k].cell_at_new_head = cell;
                proof {
                    lemma_intents_noted(snap, intents_now, self.intents());
                    assert(self.snake_states() == snakes_now);
                    assert(self.tails() == tails_now);
                }
                if cell == Cell::Snake {
                    proof {
                        lemma_commit_blocked(
                            snakes_now,
                            cells_now,
                            tails_now,
                            eaten,
                            snap,
                            s1,
                            g0,
                            b as int,
                            k as int,
                        );
                    }
                    self.snakes[id].mark_dead();
                    assert(self.snake_states() =~= snakes_now.update(
                        id as int,
                        s1[id as int].dead(),
                    ));
                } else if previous_new_head == Some(new_head) {
                    // The cell of the head committed last reads as a snake
                    // already, so this never holds here; the rule stands for
                    // an engine that marks the heads later.
                    self.snakes[id].mark_dead();
                } else {
                    previous_new_head = Some(new_head);
                    let will_grow = cell == Cell::Apple;
                    proof {
                        lemma_commit_move(
                            snakes_now,
                            cells_now,
                            tails_now,
                            eaten,
                            snap,
                            s1,
                            g0,
                            b as int,
                            k as int,
                        );
                        lemma_apple_count_update(cells_now, new_head.index(), Cell::Snake);
                    }
                    if will_grow {
                        consumed += 1;
                        self.num_apples -= 1;
                        proof {
                            eaten = eaten.insert(id as int);
                        }
                    }
                    self.grid.set_cell(new_head, Cell::Snake);
                    if !will_grow {
                        if let Some(tail_pos) = self.snakes[id].tail_position() {
                            let tail_bucket_idx = bucket_index(tail_pos);
                            self.tail_buckets[tail_bucket_idx].push(tail_pos);
                            assert(self.tails() =~= tails_now.update(
                                tail_bucket_idx as int,
                                tails_now[tail_bucket_idx as int].push(tail_pos),
                            ));
                        }
                    }
                    self.snakes[id].update_body(will_grow);
                    assert(self.snake_states() =~= snakes_now.update(
                        id as int,
                        s1[id as int].advance(will_grow),
                    ));
                }
                k += 1;
            }
            proof {
                lemma_commit_next_bucket(
                    self.snake_states(),
                    self.grid@,
                    self.tails(),
                    eaten,
                    snap,
                    s1,
                    g0,
                    b as int,
                );
            }
            b += 1;
        }
        proof {
            lemma_commit_end(self.snake_states(), self.grid@, self.tails(), eaten, snap, s1, g0);
        }
        consumed
    }

    /// Empties the cell of every tail that was noted, bucket by bucket.
    fn clear_tails(&mut self)
        requires
            old(self).grid.wf(),
            forall|t: int, m: int|
                0 <= t < old(self).tails().len() && 0 <= m < old(self).tails()[t].len() ==> (
                #[trigger] old(self).tails()[t][m]).in_bounds(),
        ensures
            final(self).snakes == old(self).snakes,
            final(self).num_apples == old(self).num_apples,
            final(self).buckets == old(self).buckets,
            final(self).tail_buckets == old(self).tail_buckets,
            final(self).grid.wf(),
            forall|c: int|
                0 <= c < old(self).grid@.len() ==> #[trigger] final(self).grid@[c] == if in_tails(
                    old(self).tails(),
                    c,
                ) {
                    Cell::Empty
                } else {
                    old(self).grid@[c]
                },
            apple_count(final(self).grid@) <= apple_count(old(self).grid@),
            (forall|c: int|
                0 <= c < old(self).grid@.len() && in_tails(old(self).tails(), c)
                    ==> old(self).grid@[c] != Cell::Apple)
                ==> apple_count(final(self).grid@) == apple_count(old(self).grid@),
    {
        let ghost g = self.grid@;
        let ghost tails = self.tails();
        let ghost no_apple = forall|c: int|
            0 <= c < g.len() && in_tails(tails, c) ==> g[c] != Cell::Apple;
        let buckets = self.tail_buckets.len();
        let mut t: usize = 0;
        proof {
            assert forall|c: int| !in_tails(tails.take(0), c) by {
                if in_tails(tails.take(0), c) {
                    let (u, m) = choose|u: int, m: int|
                        0 <= u < tails.take(0).len() && 0 <= m < tails.take(0)[u].len() && (
                        #[trigger] tails.take(0)[u][m]).index() == c;
                }
            }
        }
        while t < buckets
            invariant
                t <= buckets,
                buckets == tails.len(),
                g == old(self).grid@,
                tails == old(self).tails(),
                tails == self.tails(),
                no_apple == (forall|c: int|
                    0 <= c < g.len() && in_tails(tails, c) ==> g[c] != Cell::Apple),
                self.snakes == old(self).snakes,
                self.num_apples == old(self).num_apples,
                self.buckets == old(self).buckets,
                self.tail_buckets == old(self).tail_buckets,
                self.grid.wf(),
                self.grid@.len() == g.len(),
                forall|u: int, m: int|
                    0 <= u < tails.len() && 0 <= m < tails[u].len() ==> (
                    #[trigger] tails[u][m]).in_bounds(),
                forall|c: int|
                    0 <= c < g.len() ==> #[trigger] self.grid@[c] == if in_tails(
                        tails.take(t as int),
                        c,
                    ) {
                        Cell::Empty
                    } else {
                        g[c]
                    },
                apple_count(self.grid@) <= apple_count(g),
                no_apple ==> apple_count(self.grid@) == apple_count(g),
            decreases buckets - t,
        {
            let len = self.tail_buckets[t].len();
            let mut m: usize = 0;
            proof {
                assert(tails[t as int].take(0) =~= Seq::<Point>::empty());
                assert forall|c: int|
                    in_tails(tails.take(t as int).push(tails[t as int].take(0)), c) == in_tails(
                        tails.take(t as int),
                        c,
                    ) by {
                    lemma_in_tails_extend(tails.take(t as int), Seq::<Point>::empty(), c);
                }
            }
            while m < len
                invariant
                    t < buckets,
                    m <= len,
                    len == tails[t as int].len(),
                    buckets == tails.len(),
                    g == old(self).grid@,
                    tails == old(self).tails(),
                    tails == self.tails(),
                    no_apple == (forall|c: int|
                        0 <= c < g.len() && in_tails(tails, c) ==> g[c] != Cell::Apple),
                    self.snakes == old(self).snakes,
                    self.num_apples == old(self).num_apples,
                    self.buckets == old(self).buckets,
                    self.tail_buckets == old(self).tail_buckets,
                    self.grid.wf(),
                    self.grid@.len() == g.len(),
                    forall|u: int, n: int|
                        0 <= u < tails.len() && 0 <= n < tails[u].len() ==> (
                        #[trigger] tails[u][n]).in_bounds(),
                    forall|c: int|
                        0 <= c < g.len() ==> #[trigger] self.grid@[c] == if in_tails(
                            tails.take(t as int).push(tails[t as int].take(m as int)),
                            c,
                        ) {
                            Cell::Empty
                        } else {
                            g[c]
                        },
                    apple_count(self.grid@) <= apple_count(g),
                    no_apple ==> apple_count(self.grid@) == apple_count(g),
                decreases len - m,
            {
                let tail_pos = self.tail_buckets[t][m];
                let ghost cells_now = self.grid@;
                proof {
                    assert(tail_pos == tails[t as int][m as int]);
                    lemma_index_injective(tail_pos, tail_pos);
                    lemma_apple_count_update(cells_now, tail_pos.index(), Cell::Empty);
                    if no_apple {
                        assert(in_tails(tails, tail_pos.index()));
                    }
                    assert(tails[t as int].take(m + 1) =~= tails[t as int].take(m as int).push(
                        tail_pos,
                    ));
                    assert forall|c: int|
                        in_tails(tails.take(t as int).push(tails[t as int].take(m + 1)), c) == (
                        in_tails(tails.take(t as int).push(tails[t as int].take(m as int)), c)
                            || tail_pos.index() == c) by {
                        lemma_in_tails_extend(tails.take(t as int), tails[t as int].take(m + 1), c);
                        lemma_in_tails_extend(
                            tails.take(t as int),
                            tails[t as int].take(m as int),
                            c,
                        );
                        lemma_in_seq_push(tails[t as int].take(m as int), tail_pos, c);
                    }
                }
                self.grid.set_cell(tail_pos, Cell::Empty);
                m += 1;
            }
            proof {
                assert(tails[t as int].take(len as int) =~= tails[t as int]);
                assert(tails.take(t as int).push(tails[t as int]) =~= tails.take(t + 1));
            }
            t += 1;
        }
        proof {
            assert(tails.take(buckets as int) =~= tails);
        }
    }

    /// The earlier form of a tick: the inputs are applied, then the snakes
    /// take their turns by ascending id, each moving on the grid at once, and
    /// the tick ends for the others with the first snake that eats. One
    /// respawn is tried if a snake ate.
    pub fn tick_legacy(&mut self, inputs: &[Input])
        requires
            old(self).wf(),
            forall|k: int|
                0 <= k < inputs@.len() ==> (#[trigger] inputs@[k]).snake_id < old(self).snakes@.len(),
        ensures
            final(self).snake_states() == legacy_outcome(old(self), inputs@).snakes,
            apples_added(legacy_outcome(old(self), inputs@).cells, final(self).grid@),
            final(self).num_apples == old(self).num_apples - legacy_eaten(old(self), inputs@)
                + (apple_count(final(self).grid@) - apple_count(
                legacy_outcome(old(self), inputs@).cells,
            )),
            0 <= apple_count(final(self).grid@) - apple_count(
                legacy_outcome(old(self), inputs@).cells,
            ) <= legacy_eaten(old(self), inputs@),
            final(self).wf(),
    {
        let ghost w0 = LegacyWorld {
            snakes: steered(old(self).snake_states(), inputs@),
            cells: old(self).grid@,
            eaten: false,
        };
        proof {
            lemma_steered_wf(old(self).snake_states(), inputs@);
        }
        self.apply_inputs(inputs);
        let mut consumed: u64 = 0;
        let n = self.snakes.len();
        let mut i: usize = 0;
        let ghost mut done: int = 0;
        while i < n
            invariant_except_break
                consumed == 0,
                done == i,
            invariant
                i <= n,
                n == w0.snakes.len(),
                self.snakes@.len() == n,
                self.grid.wf(),
                self.buckets == old(self).buckets,
                self.tail_buckets == old(self).tail_buckets,
                snakes_wf(self.snake_states()),
                apple_count(self.grid@) <= self.num_apples,
                0 <= done <= n,
                legacy_run(w0, done).snakes == self.snake_states(),
                legacy_run(w0, done).cells == self.grid@,
                legacy_run(w0, done).eaten == (consumed == 1),
                self.num_apples == old(self).num_apples - consumed,
            ensures
                consumed <= 1,
                done == n || consumed == 1,
            decreases n - i,
        {
            let ghost w = legacy_run(w0, done);
            let ghost s = self.snake_states()[i as int];
            assert(self.snakes@[i as int]@ == s);
            if self.snakes[i].is_alive() {
                let will_eat_apple = if self.snakes[i].head().is_some() {
                    let new_head = self.snakes[i].snake().calculate_new_head();
                    self.grid.get_cell(&new_head) == Cell::Apple
                } else {
                    false
                };
                let ghost cells = self.grid@;
                let ghost states = self.snake_states();
                proof {
                    crate::game::snake::lemma_advance_wf(s, will_eat_apple);
                    lemma_index_injective(s.next_head(), s.next_head());
                    lemma_index_injective(s.body.last(), s.body.last());
                    lemma_apple_count_update(cells, s.body.last().index(), Cell::Empty);
                    lemma_apple_count_update(
                        cells.update(s.body.last().index(), Cell::Empty),
                        s.next_head().index(),
                        Cell::Snake,
                    );
                    lemma_apple_count_update(cells, s.next_head().index(), Cell::Snake);
                    lemma_apple_count_update(
                        cells.update(s.next_head().index(), Cell::Snake),
                        s.next_head().index(),
                        Cell::Empty,
                    );
                }
                let moved = self.snakes[i].move_forward(&mut self.grid, will_eat_apple);
                proof {
                    assert(self.snake_states() =~= states.update(i as int, self.snakes@[i as int]@));
                    lemma_snake_kept_wf(states, i as int, self.snakes@[i as int]@);
                }
                if moved {
                    if will_eat_apple {
                        if let Some(head) = self.snakes[i].head() {
                            let head = *head;
                            self.grid.set_cell(head, Cell::Empty);
                            self.num_apples -= 1;
                            consumed += 1;
                            proof {
                                assert(self.grid@ =~= cells.update(
                                    s.next_head().index(),
                                    Cell::Empty,
                                ));
                                done = done + 1;
                            }
                            break ;
                        }
                    }
                }
            }
            proof {
                done = done + 1;
            }
            i += 1;
        }
        proof {
            if done < n {
                lemma_legacy_stops(w0, done, n as int);
            }
        }
        self.respawn(consumed);
    }

    /// Moves the snakes by one step: applies the inputs, then lets every
    /// alive snake step ahead, die or eat, as the model of a tick says.
    /// Returns the number of apples eaten; none is respawned here.
    pub fn advance_snakes(&mut self, inputs: &[Input]) -> (consumed: u64)
        requires
            old(self).wf(),
            forall|k: int|
                0 <= k < inputs@.len() ==> (#[trigger] inputs@[k]).snake_id < old(self).snakes@.len(),
        ensures
            final(self).snake_states() == snakes_after(
                steered(old(self).snake_states(), inputs@),
                old(self).grid@,
            ),
            final(self).grid@ == cells_after(
                steered(old(self).snake_states(), inputs@),
                old(self).grid@,
            ),
            consumed == eaters(steered(old(self).snake_states(), inputs@), old(self).grid@).len(),
            final(self).num_apples == old(self).num_apples - consumed,
            final(self).wf(),
            old(self).consistent() ==> final(self).consistent(),
    {
        let ghost s0 = self.snake_states();
        let ghost g0 = self.grid@;
        let ghost s1 = steered(s0, inputs@);
        proof {
            lemma_steered_wf(s0, inputs@);
            lemma_after_wf(s1, g0);
        }
        self.apply_inputs(inputs);
        self.clear_buckets();
        self.collect_intents();
        assert(all_filled(self.intents(), s1)) by {
            assert forall|b: int| 0 <= b < 256 implies bucket_filled(
                #[trigger] self.intents()[b],
                s1,
                b,
                s1.len() as int,
            ) by {
                assert(bucket_filled(self.buckets@[b]@, s1, b, s1.len() as int));
            }
        }
        let consumed = self.commit_moves();
        let ghost committed = self.grid@;
        self.clear_tails();
        proof {
            assert(self.grid@ =~= cells_after(s1, g0));
            if old(self).consistent() {
                assert(bodies_marked(s1, g0));
                lemma_move_keeps_consistent(s1, g0);
                assert forall|c: int|
                    0 <= c < committed.len() && in_tails(self.tails(), c) implies committed[c]
                    != Cell::Apple by {
                    assert(vacated(s1, g0, c));
                }
            }
        }
        consumed
    }

    /// One tick: the snakes move as `advance_snakes` says, then one respawn
    /// is tried for each apple eaten. A respawn turns one empty cell, drawn at
    /// random, into an apple; it may fail, and none is tried at capacity.
    pub fn tick(&mut self, inputs: &[Input])
        requires
            old(self).wf(),
            forall|k: int|
                0 <= k < inputs@.len() ==> (#[trigger] inputs@[k]).snake_id < old(self).snakes@.len(),
        ensures
            final(self).snake_states() == snakes_after(
                steered(old(self).snake_states(), inputs@),
                old(self).grid@,
            ),
            apples_added(
                cells_after(steered(old(self).snake_states(), inputs@), old(self).grid@),
                final(self).grid@,
            ),
            final(self).num_apples == old(self).num_apples - eaters(
                steered(old(self).snake_states(), inputs@),
                old(self).grid@,
            ).len() + respawned(old(self), inputs@, final(self)),
            0 <= respawned(old(self), inputs@, final(self)) <= eaters(
                steered(old(self).snake_states(), inputs@),
                old(self).grid@,
            ).len(),
            respawned(old(self), inputs@, final(self)) > 0 ==> final(self).num_apples
                <= APPLE_CAPACITY,
            final(self).wf(),
            old(self).consistent() ==> final(self).consistent(),
    {
        let consumed = self.advance_snakes(inputs);
        if consumed > 0 {
            self.respawn(consumed);
        }
    }

    /// Tries to put one apple on a random empty cell, drawing up to
    /// `RESPAWN_ATTEMPTS` cells: the first cell drawn that is empty gets the
    /// apple, and the world counts it. It gives up silently when every cell
    /// drawn is occupied, and draws nothing at capacity. So on a world below
    /// capacity it can fail only where some cell is occupied.
    fn spawn_apple(&mut self) -> (spawned: bool)
        requires
            old(self).grid.wf(),
        ensures
            final(self).snakes == old(self).snakes,
            final(self).buckets == old(self).buckets,
            final(self).tail_buckets == old(self).tail_buckets,
            final(self).grid.wf(),
            apples_added(old(self).grid@, final(self).grid@),
            spawned ==> ({
                &&& old(self).num_apples < APPLE_CAPACITY
                &&& final(self).num_apples == old(self).num_apples + 1
                &&& one_apple_added(old(self).grid@, final(self).grid@)
                &&& apple_count(final(self).grid@) == apple_count(old(self).grid@) + 1
            }),
            !spawned ==> ({
                &&& final(self).num_apples == old(self).num_apples
                &&& final(self).grid@ == old(self).grid@
                &&& old(self).num_apples < APPLE_CAPACITY ==> occupied_somewhere(old(self).grid@)
            }),
            old(self).wf() ==> final(self).wf(),
            old(self).consistent() ==> final(self).consistent(),
    {
        if self.num_apples >= APPLE_CAPACITY as u64 {
            return false;
        }
        let mut rng = thread_rng();
        let mut attempts: usize = 0;
        while attempts < RESPAWN_ATTEMPTS
            invariant
                attempts <= RESPAWN_ATTEMPTS,
                self.snakes == old(self).snakes,
                self.buckets == old(self).buckets,
                self.tail_buckets == old(self).tail_buckets,
                self.num_apples == old(self).num_apples,
                self.num_apples < APPLE_CAPACITY,
                self.grid@ == old(self).grid@,
                self.grid.wf(),
                attempts > 0 ==> occupied_somewhere(old(self).grid@),
                old(self).wf() ==> self.wf(),
                old(self).consistent() ==> self.consistent(),
            decreases RESPAWN_ATTEMPTS - attempts,
        {
            let position = Point::random(&mut rng);
            proof {
                lemma_index_injective(position, position);
                lemma_apple_count_update(self.grid@, position.index(), Cell::Apple);
            }
            if self.place_apple(position) {
                assert(self.grid@ == old(self).grid@.update(position.index(), Cell::Apple));
                return true;
            }
            assert(old(self).grid@[position.index()] != Cell::Empty);
            attempts += 1;
        }
        false
    }

    /// Tries one respawn for each of the `consumed` apples eaten, one after
    /// the other. Each respawn that succeeds turns one empty cell into an
    /// apple and counts it; none succeeds at capacity. Where apples were
    /// eaten and the world is below capacity, no apple at all comes back only
    /// if the draws hit occupied cells, so only where some cell is occupied.
    fn respawn(&mut self, consumed: u64)
        requires
            old(self).grid.wf(),
        ensures
            final(self).snakes == old(self).snakes,
            final(self).buckets == old(self).buckets,
            final(self).tail_buckets == old(self).tail_buckets,
            final(self).grid.wf(),
            apples_added(old(self).grid@, final(self).grid@),
            final(self).num_apples - old(self).num_apples == apple_count(final(self).grid@)
                - apple_count(old(self).grid@),
            0 <= final(self).num_apples - old(self).num_apples <= consumed,
            final(self).num_apples > old(self).num_apples ==> final(self).num_apples
                <= APPLE_CAPACITY,
            final(self).num_apples == old(self).num_apples ==> final(self).grid@ == old(self).grid@,
            consumed > 0 && old(self).num_apples < APPLE_CAPACITY && final(self).num_apples
                == old(self).num_apples ==> occupied_somewhere(old(self).grid@),
            old(self).wf() ==> final(self).wf(),
            old(self).consistent() ==> final(self).consistent(),
    {
        let mut done: u64 = 0;
        while done < consumed
            invariant
                done <= consumed,
                self.snakes == old(self).snakes,
                self.buckets == old(self).buckets,
                self.tail_buckets == old(self).tail_buckets,
                self.grid.wf(),
                apples_added(old(self).grid@, self.grid@),
                self.num_apples - old(self).num_apples == apple_count(self.grid@) - apple_count(
                    old(self).grid@,
                ),
                0 <= self.num_apples - old(self).num_apples <= done,
                self.num_apples > old(self).num_apples ==> self.num_apples <= APPLE_CAPACITY,
                self.num_apples == old(self).num_apples ==> self.grid@ == old(self).grid@,
                done > 0 && old(self).num_apples < APPLE_CAPACITY && self.num_apples
                    == old(self).num_apples ==> occupied_somewhere(old(self).grid@),
                old(self).wf() ==> self.wf(),
                old(self).consistent() ==> self.consistent(),
            decreases consumed - done,
        {
            self.spawn_apple();
            done += 1;
        }
    }
}

/// The number of apples that the respawns of a tick put on the grid: those
/// on the grid `after` the tick beyond those that the move of the snakes
/// left.
pub open spec fn respawned(before: &GameState, inputs: Seq<Input>, after: &GameState) -> int {
    apple_count(after.grid@) - apple_count(
        cells_after(steered(before.snake_states(), inputs), before.grid@),
    )
}

/// The world after the turns of all snakes in a legacy tick, before any
/// respawn.
pub open spec fn legacy_outcome(before: &GameState, inputs: Seq<Input>) -> LegacyWorld {
    legacy_run(
        LegacyWorld {
            snakes: steered(before.snake_states(), inputs),
            cells: before.grid@,
            eaten: false,
        },
        before.snake_states().len() as int,
    )
}

/// The number of apples eaten in a legacy tick: one or none.
pub open spec fn legacy_eaten(before: &GameState, inputs: Seq<Input>) -> int {
    if legacy_outcome(before, inputs).eaten {
        1
    } else {
        0
    }
}

/// Tries to place snake `index` with its tail at `start`, heading `d`: the
/// snake starts as one segment at `start` and is moved three steps ahead,
/// growing each time. It is placed exactly when the four cells of its row are
/// empty on the grid; the grid is not touched.
pub fn snake_at(grid: &Grid, index: u32, start: Point, d: Direction) -> (r: Option<Snake>)
    requires
        grid.wf(),
        start.in_bounds(),
    ensures
        r is Some <==> forall|k: int|
            0 <= k < 4 ==> grid.at(#[trigger] row_from(start, d)[k]) == Cell::Empty,
        r matches Some(s) ==> s@ == (SnakeState {
            id: index,
            body: row_from(start, d),
            direction: d,
            alive: true,
        }),
{
    let ghost row = row_from(start, d);
    proof {
        lemma_row_from(start, d);
    }
    if grid.get_cell(&start) != Cell::Empty {
        assert(grid.at(row[3]) != Cell::Empty);
        return None;
    }
    let mut snake = Snake::new(index, start, d);
    let mut step: usize = 0;
    assert(snake@.body =~= row.subrange(3, 4));
    while step < 3
        invariant
            step <= 3,
            grid.wf(),
            row == row_from(start, d),
            all_in_bounds(row),
            in_a_row(row, d),
            snake@.id == index,
            snake@.alive,
            snake@.direction == d,
            snake@.body == row.subrange(3 - step, 4),
            forall|k: int| 3 - step <= k < 4 ==> grid.at(#[trigger] row[k]) == Cell::Empty,
        decreases 3 - step,
    {
        let ghost before = snake@;
        proof {
            assert(before.body[0] == row[3 - step]);
            assert forall|k: int| 0 <= k < before.body.len() implies (
            #[trigger] before.body[k]).in_bounds() by {
                assert(before.body[k] == row[3 - step + k]);
            }
            assert(row[3 - step - 1] == row[3 - step].step(d));
        }
        snake.move_forward(true);
        assert(snake@.body =~= row.subrange(3 - step - 1, 4));
        if let Some(head) = snake.body.get(0) {
            if grid.get_cell(head) != Cell::Empty {
                assert(grid.at(row[3 - step - 1]) != Cell::Empty);
                return None;
            }
        }
        step += 1;
    }
    assert(snake@.body =~= row);
    Some(snake)
}

/// The bucket of a point: the top `BUCKET_BITS` bits of its row.
pub fn bucket_index(p: Point) -> (b: usize)
    ensures
        b == bucket_of(p),
        b < NUM_BUCKETS,
{
    let y: u16 = p.y;
    assert(y >> 8 == y / 256 && (y >> 8) < 256) by (bit_vector);
    (p.y >> (16 - BUCKET_BITS)) as usize
}

impl Default for GameState {
    fn default() -> (state: GameState)
        ensures
            state.consistent(),
            state.snake_states().len() == 0,
            state.num_apples == 0,
            forall|i: int| 0 <= i < state.grid@.len() ==> state.grid@[i] == Cell::Empty,
            forall|b: int| 0 <= b < NUM_BUCKETS ==> (#[trigger] state.buckets@[b])@.len() == 0,
            forall|b: int| 0 <= b < NUM_BUCKETS ==> (#[trigger] state.tail_buckets@[b])@.len() == 0,
    {
        Self::new()
    }
}

} // verus!
