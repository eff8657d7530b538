//! Laws of the world, proved of the model that the engine's contracts speak
//! in.

use vstd::prelude::*;
use crate::game::apple::APPLE_CAPACITY;
use crate::game::engine::GameState;
use crate::game::grid::Cell;
use crate::game::model::{
    apple_count,
    blocked, cells_after, contested, eaters, eats, moves, snake_after, snakes_after, snakes_wf,
    steer_all, steered,
};
use crate::game::snake::{lemma_advance_wf, SnakeState};
use crate::game::types::{lemma_index_injective, Direction, Input, Point};

verus! {

/// What the invariant of the world says, cell by cell: every segment of an
/// alive snake lies on a cell that holds a snake; two segments of alive
/// snakes lie on one cell only if they are one segment; every segment of
/// every snake lies on the grid; and the world counts the apples that the
/// grid holds, at most `APPLE_CAPACITY`.
pub proof fn lemma_consistent_world(state: &GameState)
    requires
        state.consistent(),
    ensures
        forall|j: int, k: int|
            0 <= j < state.snake_states().len() && state.snake_states()[j].alive && 0 <= k
                < state.snake_states()[j].body.len() ==> state.grid.at(
                #[trigger] state.snake_states()[j].body[k],
            ) == Cell::Snake,
        forall|j1: int, k1: int, j2: int, k2: int|
            0 <= j1 < state.snake_states().len() && 0 <= j2 < state.snake_states().len()
                && state.snake_states()[j1].alive && state.snake_states()[j2].alive && 0 <= k1
                < state.snake_states()[j1].body.len() && 0 <= k2
                < state.snake_states()[j2].body.len() && (j1 != j2 || k1 != k2)
                ==> #[trigger] state.snake_states()[j1].body[k1]
                != #[trigger] state.snake_states()[j2].body[k2],
        forall|j: int, k: int|
            0 <= j < state.snake_states().len() && 0 <= k < state.snake_states()[j].body.len() ==> (
            #[trigger] state.snake_states()[j].body[k]).in_bounds(),
        forall|p: Point|
            p.in_bounds() && state.grid.at(p) == Cell::Apple ==> !exists|j: int, k: int|
                0 <= j < state.snake_states().len() && state.snake_states()[j].alive && 0 <= k
                    < state.snake_states()[j].body.len() && #[trigger] state.snake_states()[j].body[k]
                    == p,
        state.num_apples == apple_count(state.grid@),
        state.num_apples <= APPLE_CAPACITY,
{
    let snakes = state.snake_states();
    assert forall|j: int, k: int| 0 <= j < snakes.len() && 0 <= k < snakes[j].body.len() implies (
    #[trigger] snakes[j].body[k]).in_bounds() by {
        assert(snakes[j].id == j);
    }
    assert forall|p: Point| p.in_bounds() && state.grid.at(p) == Cell::Apple implies !exists|
        j: int,
        k: int,
    |
        0 <= j < snakes.len() && snakes[j].alive && 0 <= k < snakes[j].body.len()
            && #[trigger] snakes[j].body[k] == p by {
        if exists|j: int, k: int|
            0 <= j < snakes.len() && snakes[j].alive && 0 <= k < snakes[j].body.len()
                && #[trigger] snakes[j].body[k] == p {
            let (j, k) = choose|j: int, k: int|
                0 <= j < snakes.len() && snakes[j].alive && 0 <= k < snakes[j].body.len()
                    && #[trigger] snakes[j].body[k] == p;
            lemma_index_injective(snakes[j].body[k], p);
            assert(state.grid@[snakes[j].body[k].index()] == Cell::Snake);
        }
    }
}

/// A snake never reverses: whatever it is asked for, the direction it then
/// holds is not the opposite of the one it held.
pub proof fn lemma_never_reverses(d: Direction, wanted: Direction)
    ensures
        d.steer(wanted) != d.opposite(),
        d.steer(wanted) == d || d.steer(wanted) == wanted,
{
}

/// While the inputs of a tick are applied one by one, no two consecutive
/// directions of a snake are opposite.
pub proof fn lemma_no_reverse_between_inputs(d: Direction, id: int, inputs: Seq<Input>, k: int)
    requires
        0 <= k < inputs.len(),
    ensures
        steer_all(d, id, inputs.take(k + 1)) != steer_all(d, id, inputs.take(k)).opposite(),
{
    assert(inputs.take(k + 1).drop_last() =~= inputs.take(k));
}

/// A tick without inputs steers nothing.
pub proof fn lemma_no_inputs(snakes: Seq<SnakeState>)
    ensures
        steered(snakes, Seq::<Input>::empty()) == snakes,
{
    assert(steered(snakes, Seq::<Input>::empty()) =~= snakes);
}

/// The quiet tick: where every alive snake heads for an empty cell and no
/// two of them for the same one, each alive snake moves one cell ahead and
/// keeps its length, the dead stay as they are, and no apple is eaten, so
/// the number of apples stays.
pub proof fn lemma_quiet_tick(snakes: Seq<SnakeState>, cells: Seq<Cell>)
    requires
        snakes_wf(snakes),
        forall|j: int|
            0 <= j < snakes.len() && (#[trigger] snakes[j]).alive
                ==> cells[snakes[j].next_head().index()] == Cell::Empty,
        forall|i: int, j: int|
            0 <= i < j < snakes.len() && (#[trigger] snakes[i]).alive && (
            #[trigger] snakes[j]).alive ==> snakes[i].next_head() != snakes[j].next_head(),
    ensures
        forall|j: int|
            0 <= j < snakes.len() ==> #[trigger] snakes_after(snakes, cells)[j] == if snakes[j].alive {
                snakes[j].advance(false)
            } else {
                snakes[j]
            },
        forall|j: int|
            0 <= j < snakes.len() && snakes[j].alive ==> ({
                let after = #[trigger] snakes_after(snakes, cells)[j];
                &&& after.alive
                &&& after.body.len() == snakes[j].body.len()
                &&& after.body[0] == snakes[j].body[0].step(snakes[j].direction)
            }),
        eaters(snakes, cells).len() == 0,
{
    assert forall|j: int| 0 <= j < snakes.len() && snakes[j].alive implies moves(snakes, cells, j)
        && !eats(snakes, cells, j) by {
        if contested(snakes, j) {
            let i = choose|i: int|
                0 <= i < j && (#[trigger] snakes[i]).alive && snakes[i].next_head()
                    == snakes[j].next_head();
            assert(snakes[j].alive);
            assert(false);
        }
    }
    assert forall|j: int| 0 <= j < snakes.len() && snakes[j].alive implies {
        let after = #[trigger] snakes_after(snakes, cells)[j];
        &&& after.alive
        &&& after.body.len() == snakes[j].body.len()
        &&& after.body[0] == snakes[j].body[0].step(snakes[j].direction)
    } by {
        assert(moves(snakes, cells, j) && !eats(snakes, cells, j));
        lemma_advance_wf(snakes[j], false);
    }
    assert forall|j: int| 0 <= j < snakes.len() implies #[trigger] snakes_after(snakes, cells)[j]
        == if snakes[j].alive {
        snakes[j].advance(false)
    } else {
        snakes[j]
    } by {
        if snakes[j].alive {
            assert(moves(snakes, cells, j) && !eats(snakes, cells, j));
        }
    }
    assert(eaters(snakes, cells) =~= Set::<int>::empty()) by {
        assert forall|j: int| !eaters(snakes, cells).contains(j) by {
            if 0 <= j < snakes.len() && snakes[j].alive {
                assert(moves(snakes, cells, j) && !eats(snakes, cells, j));
            }
        }
    }
}

/// Growth: where exactly one alive snake heads for an apple, that snake
/// moves and grows by one segment, it is the only eater of the tick, and no
/// other snake changes its length.
pub proof fn lemma_growth(snakes: Seq<SnakeState>, cells: Seq<Cell>, j: int)
    requires
        snakes_wf(snakes),
        0 <= j < snakes.len(),
        snakes[j].alive,
        cells[snakes[j].next_head().index()] == Cell::Apple,
        forall|i: int|
            0 <= i < snakes.len() && i != j && (#[trigger] snakes[i]).alive
                ==> cells[snakes[i].next_head().index()] != Cell::Apple,
    ensures
        snakes_after(snakes, cells)[j] == snakes[j].advance(true),
        snakes_after(snakes, cells)[j].body.len() == snakes[j].body.len() + 1,
        forall|i: int|
            0 <= i < snakes.len() && i != j ==> (#[trigger] snakes_after(snakes, cells)[i]).body.len()
                == snakes[i].body.len(),
        eaters(snakes, cells) == set![j],
        eaters(snakes, cells).len() == 1,
{
    if contested(snakes, j) {
        let i = choose|i: int|
            0 <= i < j && (#[trigger] snakes[i]).alive && snakes[i].next_head()
                == snakes[j].next_head();
        assert(false);
    }
    assert(moves(snakes, cells, j) && eats(snakes, cells, j));
    lemma_advance_wf(snakes[j], true);
    assert forall|i: int| 0 <= i < snakes.len() && i != j implies (#[trigger] snakes_after(
        snakes,
        cells,
    )[i]).body.len() == snakes[i].body.len() by {
        if snakes[i].alive {
            assert(!eats(snakes, cells, i));
            if !blocked(snakes, cells, i) {
                lemma_advance_wf(snakes[i], false);
            }
        }
    }
    assert(eaters(snakes, cells) =~= set![j]) by {
        assert forall|i: int| eaters(snakes, cells).contains(i) == (i == j) by {
            if 0 <= i < snakes.len() && i != j {
                if snakes[i].alive {
                    assert(!eats(snakes, cells, i));
                }
            }
        }
    }
}

/// The snakes and the cells after the batches of inputs were run, one tick
/// each, with no apple respawned between them.
pub open spec fn run_ticks(snakes: Seq<SnakeState>, cells: Seq<Cell>, batches: Seq<Seq<Input>>) -> (
    Seq<SnakeState>,
    Seq<Cell>,
)
    decreases batches.len(),
{
    if batches.len() == 0 {
        (snakes, cells)
    } else {
        let (s, c) = run_ticks(snakes, cells, batches.drop_last());
        let turned = steered(s, batches.last());
        (snakes_after(turned, c), cells_after(turned, c))
    }
}

/// Determinism: the same world run on the same batches of inputs ends as the
/// same world.
pub proof fn lemma_deterministic(
    snakes_a: Seq<SnakeState>,
    cells_a: Seq<Cell>,
    batches_a: Seq<Seq<Input>>,
    snakes_b: Seq<SnakeState>,
    cells_b: Seq<Cell>,
    batches_b: Seq<Seq<Input>>,
)
    requires
        snakes_a == snakes_b,
        cells_a == cells_b,
        batches_a == batches_b,
    ensures
        run_ticks(snakes_a, cells_a, batches_a) == run_ticks(snakes_b, cells_b, batches_b),
{
}

/// Which of the snakes that head for one free cell survives: the one with
/// the lowest id.
pub proof fn lemma_lowest_id_wins(snakes: Seq<SnakeState>, cells: Seq<Cell>, i: int, j: int)
    requires
        0 <= i < j < snakes.len(),
        snakes[i].alive,
        snakes[j].alive,
        snakes[i].next_head() == snakes[j].next_head(),
    ensures
        !snakes_after(snakes, cells)[j].alive,
        snake_after(snakes, cells, j) == snakes[j].dead(),
{
    assert(contested(snakes, j));
}

} // verus!
