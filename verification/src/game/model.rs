//! The mathematical model of a world and of one tick: what every snake and
//! every cell is after the snakes have moved, stated without reference to
//! the order in which the engine visits them.

use vstd::prelude::*;
use vstd::set_lib::*;
use crate::game::grid::{Cell, GRID_HEIGHT, GRID_WIDTH};
use crate::game::snake::{all_in_bounds, covers, lemma_advance_wf, painted, SnakeState};
use crate::game::types::{corner, lemma_index_injective, Direction, Input, Point};

verus! {

/// Positions in the cell buffer that hold an apple.
pub open spec fn apple_cells(cells: Seq<Cell>) -> Set<int> {
    Set::new(|i: int| 0 <= i < cells.len() && cells[i] == Cell::Apple)
}

/// Number of apples on the grid.
pub open spec fn apple_count(cells: Seq<Cell>) -> nat {
    apple_cells(cells).len()
}

/// A grid holds finitely many apples, at most one for each cell.
pub proof fn lemma_apple_count_bounded(cells: Seq<Cell>)
    ensures
        apple_cells(cells).finite(),
        apple_count(cells) <= cells.len(),
{
    lemma_int_range(0, cells.len() as int);
    lemma_len_subset(apple_cells(cells), set_int_range(0, cells.len() as int));
}

/// Writing one cell changes the number of apples by what leaves and what
/// arrives there.
pub proof fn lemma_apple_count_update(cells: Seq<Cell>, i: int, c: Cell)
    requires
        0 <= i < cells.len(),
    ensures
        apple_count(cells.update(i, c)) == apple_count(cells) - (if cells[i] == Cell::Apple {
            1int
        } else {
            0
        }) + (if c == Cell::Apple {
            1int
        } else {
            0
        }),
{
    lemma_apple_count_bounded(cells);
    let before = apple_cells(cells);
    let after = apple_cells(cells.update(i, c));
    if c == Cell::Apple {
        assert(after =~= before.insert(i));
    } else {
        assert(after =~= before.remove(i));
    }
}

/// A grid without apple cells counts none.
pub proof fn lemma_apple_count_none(cells: Seq<Cell>)
    requires
        forall|i: int| 0 <= i < cells.len() ==> cells[i] != Cell::Apple,
    ensures
        apple_count(cells) == 0,
{
    assert(apple_cells(cells) =~= Set::<int>::empty());
}

/// The direction of snake `id` once `inputs` have been applied in order,
/// starting from `d`. Each input for the snake is a request that is ignored
/// when it would reverse the direction held at that moment.
pub open spec fn steer_all(d: Direction, id: int, inputs: Seq<Input>) -> Direction
    decreases inputs.len(),
{
    if inputs.len() == 0 {
        d
    } else {
        let before = steer_all(d, id, inputs.drop_last());
        if inputs.last().snake_id == id {
            before.steer(inputs.last().direction)
        } else {
            before
        }
    }
}

/// The snakes after `inputs` have been applied.
pub open spec fn steered(snakes: Seq<SnakeState>, inputs: Seq<Input>) -> Seq<SnakeState> {
    Seq::new(
        snakes.len(),
        |i: int| SnakeState { direction: steer_all(snakes[i].direction, i, inputs), ..snakes[i] },
    )
}

/// The band of rows that a point falls in: the top bits of its row.
pub open spec fn bucket_of(p: Point) -> int {
    p.y as int / 256
}

/// An alive snake with a lower id heads for the same cell as snake `i`.
pub open spec fn contested(snakes: Seq<SnakeState>, i: int) -> bool {
    exists|j: int|
        0 <= j < i && (#[trigger] snakes[j]).alive && snakes[j].next_head() == snakes[i].next_head()
}

/// Snake `i` cannot enter the cell ahead: a snake is there, or a snake with a
/// lower id claims the cell in this tick.
pub open spec fn blocked(snakes: Seq<SnakeState>, cells: Seq<Cell>, i: int) -> bool {
    cells[snakes[i].next_head().index()] == Cell::Snake || contested(snakes, i)
}

/// Snake `i` is alive and enters the cell ahead.
pub open spec fn moves(snakes: Seq<SnakeState>, cells: Seq<Cell>, i: int) -> bool {
    snakes[i].alive && !blocked(snakes, cells, i)
}

/// Snake `i` enters a cell that holds an apple.
pub open spec fn eats(snakes: Seq<SnakeState>, cells: Seq<Cell>, i: int) -> bool {
    moves(snakes, cells, i) && cells[snakes[i].next_head().index()] == Cell::Apple
}

/// Snake `i` after the snakes have moved: a dead snake stays as it is, a
/// blocked one dies in place, any other steps ahead and grows iff it eats.
pub open spec fn snake_after(snakes: Seq<SnakeState>, cells: Seq<Cell>, i: int) -> SnakeState {
    let s = snakes[i];
    if !s.alive {
        s
    } else if blocked(snakes, cells, i) {
        s.dead()
    } else {
        s.advance(eats(snakes, cells, i))
    }
}

pub open spec fn snakes_after(snakes: Seq<SnakeState>, cells: Seq<Cell>) -> Seq<SnakeState> {
    Seq::new(snakes.len(), |i: int| snake_after(snakes, cells, i))
}

/// Some snake that moves without growing leaves its tail's cell, at position
/// `c` of the buffer.
pub open spec fn vacated(snakes: Seq<SnakeState>, cells: Seq<Cell>, c: int) -> bool {
    exists|j: int|
        0 <= j < snakes.len() && #[trigger] moves(snakes, cells, j) && !eats(snakes, cells, j)
            && snakes[j].body.last().index() == c
}

/// Some alive snake heads for the cell at position `c` of the buffer.
pub open spec fn headed_for(snakes: Seq<SnakeState>, c: int) -> bool {
    exists|j: int|
        0 <= j < snakes.len() && (#[trigger] snakes[j]).alive && snakes[j].next_head().index()
            == c
}

/// The cells after the snakes have moved. A vacated tail cell is empty. Any
/// other cell that held a snake, or that an alive snake heads for, holds a
/// snake: the snake entered it, or died in front of it. The rest is
/// unchanged.
pub open spec fn cells_after(snakes: Seq<SnakeState>, cells: Seq<Cell>) -> Seq<Cell> {
    Seq::new(
        cells.len(),
        |c: int|
            if vacated(snakes, cells, c) {
                Cell::Empty
            } else if cells[c] == Cell::Snake || headed_for(snakes, c) {
                Cell::Snake
            } else {
                cells[c]
            },
    )
}

/// The snakes that eat an apple in this tick.
pub open spec fn eaters(snakes: Seq<SnakeState>, cells: Seq<Cell>) -> Set<int> {
    Set::new(|j: int| 0 <= j < snakes.len() && eats(snakes, cells, j))
}

/// Every alive snake has a head, and every segment of every snake lies on
/// the grid.
pub open spec fn snakes_wf(snakes: Seq<SnakeState>) -> bool {
    forall|j: int|
        0 <= j < snakes.len() ==> {
            &&& (#[trigger] snakes[j]).id == j
            &&& all_in_bounds(snakes[j].body)
            &&& snakes[j].alive ==> snakes[j].body.len() >= 1
        }
}

/// Every cell under an alive snake holds `Cell::Snake`.
pub open spec fn bodies_marked(snakes: Seq<SnakeState>, cells: Seq<Cell>) -> bool {
    forall|j: int, k: int|
        0 <= j < snakes.len() && snakes[j].alive && 0 <= k < snakes[j].body.len() ==> cells[(
        #[trigger] snakes[j].body[k]).index()] == Cell::Snake
}

/// No cell lies under two segments of alive snakes, be they of two snakes or
/// of one.
pub open spec fn bodies_apart(snakes: Seq<SnakeState>) -> bool {
    forall|j1: int, k1: int, j2: int, k2: int|
        0 <= j1 < snakes.len() && 0 <= j2 < snakes.len() && snakes[j1].alive && snakes[j2].alive
            && 0 <= k1 < snakes[j1].body.len() && 0 <= k2 < snakes[j2].body.len()
            && #[trigger] snakes[j1].body[k1] == #[trigger] snakes[j2].body[k2] ==> j1 == j2 && k1
            == k2
}

/// Steering keeps the snakes well-formed and where they are.
pub proof fn lemma_steered_wf(snakes: Seq<SnakeState>, inputs: Seq<Input>)
    requires
        snakes_wf(snakes),
    ensures
        snakes_wf(steered(snakes, inputs)),
        forall|cells: Seq<Cell>|
            bodies_marked(snakes, cells) ==> #[trigger] bodies_marked(
                steered(snakes, inputs),
                cells,
            ),
        bodies_apart(snakes) ==> bodies_apart(steered(snakes, inputs)),
{
    let s1 = steered(snakes, inputs);
    assert forall|j: int| 0 <= j < s1.len() implies {
        &&& (#[trigger] s1[j]).id == j
        &&& all_in_bounds(s1[j].body)
        &&& s1[j].alive ==> s1[j].body.len() >= 1
    } by {
        assert(snakes[j].id == j);
    }
    assert forall|cells: Seq<Cell>| bodies_marked(snakes, cells) implies #[trigger] bodies_marked(
        s1,
        cells,
    ) by {
        assert forall|j: int, k: int|
            0 <= j < s1.len() && s1[j].alive && 0 <= k < s1[j].body.len() implies cells[(
        #[trigger] s1[j].body[k]).index()] == Cell::Snake by {
            assert(cells[snakes[j].body[k].index()] == Cell::Snake);
        }
    }
    if bodies_apart(snakes) {
        assert forall|j1: int, k1: int, j2: int, k2: int|
            0 <= j1 < s1.len() && 0 <= j2 < s1.len() && s1[j1].alive && s1[j2].alive && 0 <= k1
                < s1[j1].body.len() && 0 <= k2 < s1[j2].body.len() && #[trigger] s1[j1].body[k1]
                == #[trigger] s1[j2].body[k2] implies j1 == j2 && k1 == k2 by {
            assert(snakes[j1].body[k1] == snakes[j2].body[k2]);
        }
    }
}

/// Moving keeps the snakes well-formed.
pub proof fn lemma_after_wf(s1: Seq<SnakeState>, g0: Seq<Cell>)
    requires
        snakes_wf(s1),
    ensures
        snakes_wf(snakes_after(s1, g0)),
{
    let s2 = snakes_after(s1, g0);
    assert forall|j: int| 0 <= j < s2.len() implies {
        &&& (#[trigger] s2[j]).id == j
        &&& all_in_bounds(s2[j].body)
        &&& s2[j].alive ==> s2[j].body.len() >= 1
    } by {
        assert(s1[j].id == j);
        if s1[j].alive {
            lemma_advance_wf(s1[j], eats(s1, g0, j));
        }
    }
}

/// The invariant of the world survives the move of the snakes: cells under
/// alive snakes stay marked, no two segments of alive snakes come to share a
/// cell, and every cell that is vacated held a snake.
pub proof fn lemma_move_keeps_consistent(s1: Seq<SnakeState>, g0: Seq<Cell>)
    requires
        snakes_wf(s1),
        bodies_marked(s1, g0),
        bodies_apart(s1),
        g0.len() == GRID_WIDTH * GRID_HEIGHT,
    ensures
        bodies_marked(snakes_after(s1, g0), cells_after(s1, g0)),
        bodies_apart(snakes_after(s1, g0)),
        forall|c: int| 0 <= c < g0.len() && #[trigger] vacated(s1, g0, c) ==> g0[c] == Cell::Snake,
{
    let s2 = snakes_after(s1, g0);
    let g2 = cells_after(s1, g0);
    assert forall|c: int| 0 <= c < g0.len() && #[trigger] vacated(s1, g0, c) implies g0[c]
        == Cell::Snake by {
        let m = choose|m: int|
            0 <= m < s1.len() && #[trigger] moves(s1, g0, m) && !eats(s1, g0, m)
                && s1[m].body.last().index() == c;
        assert(g0[s1[m].body[s1[m].body.len() - 1].index()] == Cell::Snake);
    }
    assert forall|j: int, k: int|
        0 <= j < s2.len() && s2[j].alive && 0 <= k < s2[j].body.len() implies g2[(
    #[trigger] s2[j].body[k]).index()] == Cell::Snake by {
        assert(s1[j].alive && moves(s1, g0, j));
        let grow = eats(s1, g0, j);
        lemma_advance_wf(s1[j], grow);
        let q = s2[j].body[k];
        let c = q.index();
        lemma_index_injective(q, q);
        if vacated(s1, g0, c) {
            let m = choose|m: int|
                0 <= m < s1.len() && #[trigger] moves(s1, g0, m) && !eats(s1, g0, m)
                    && s1[m].body.last().index() == c;
            let tail = s1[m].body[s1[m].body.len() - 1];
            assert(g0[tail.index()] == Cell::Snake);
            lemma_index_injective(tail, q);
            if k == 0 {
                assert(false);
            } else {
                assert(q == s1[j].body[k - 1]);
                assert(s1[m].body[s1[m].body.len() - 1] == s1[j].body[k - 1]);
                assert(false);
            }
        }
        if k == 0 {
            assert(headed_for(s1, c));
        } else {
            assert(q == s1[j].body[k - 1]);
            assert(g0[s1[j].body[k - 1].index()] == Cell::Snake);
        }
    }
    assert forall|j1: int, k1: int, j2: int, k2: int|
        0 <= j1 < s2.len() && 0 <= j2 < s2.len() && s2[j1].alive && s2[j2].alive && 0 <= k1
            < s2[j1].body.len() && 0 <= k2 < s2[j2].body.len() && #[trigger] s2[j1].body[k1]
            == #[trigger] s2[j2].body[k2] implies j1 == j2 && k1 == k2 by {
        assert(moves(s1, g0, j1) && moves(s1, g0, j2));
        lemma_advance_wf(s1[j1], eats(s1, g0, j1));
        lemma_advance_wf(s1[j2], eats(s1, g0, j2));
        if k1 == 0 && k2 == 0 {
            if j1 < j2 {
                assert(s1[j1].alive && s1[j1].next_head() == s1[j2].next_head());
                assert(contested(s1, j2));
            } else if j2 < j1 {
                assert(s1[j2].alive && s1[j2].next_head() == s1[j1].next_head());
                assert(contested(s1, j1));
            }
        } else if k1 == 0 {
            assert(s2[j2].body[k2] == s1[j2].body[k2 - 1]);
            assert(g0[s1[j2].body[k2 - 1].index()] == Cell::Snake);
        } else if k2 == 0 {
            assert(s2[j1].body[k1] == s1[j1].body[k1 - 1]);
            assert(g0[s1[j1].body[k1 - 1].index()] == Cell::Snake);
        } else {
            assert(s2[j1].body[k1] == s1[j1].body[k1 - 1]);
            assert(s2[j2].body[k2] == s1[j2].body[k2 - 1]);
        }
    }
}

/// The world in the middle of a legacy tick: the snakes, the cells, and
/// whether a snake has eaten, which ends the tick for the snakes after it.
pub struct LegacyWorld {
    pub snakes: Seq<SnakeState>,
    pub cells: Seq<Cell>,
    pub eaten: bool,
}

/// The turn of snake `i` in a legacy tick. Nothing happens once a snake has
/// eaten, nor to a dead snake. A snake that faces a snake cell dies. Any
/// other snake moves at once: its tail cell is emptied unless it grows, and
/// its new head is marked; where it eats, the cell of its head is emptied
/// instead.
pub open spec fn legacy_turn(w: LegacyWorld, i: int) -> LegacyWorld {
    let s = w.snakes[i];
    let c = s.next_head().index();
    if w.eaten || !s.alive {
        w
    } else if w.cells[c] == Cell::Snake {
        LegacyWorld { snakes: w.snakes.update(i, s.dead()), ..w }
    } else if w.cells[c] == Cell::Apple {
        LegacyWorld {
            snakes: w.snakes.update(i, s.advance(true)),
            cells: w.cells.update(c, Cell::Empty),
            eaten: true,
        }
    } else {
        LegacyWorld {
            snakes: w.snakes.update(i, s.advance(false)),
            cells: w.cells.update(s.body.last().index(), Cell::Empty).update(c, Cell::Snake),
            eaten: false,
        }
    }
}

/// The world after the turns of the snakes below `upto`, by ascending id.
pub open spec fn legacy_run(w: LegacyWorld, upto: int) -> LegacyWorld
    decreases upto,
{
    if upto <= 0 {
        w
    } else {
        legacy_turn(legacy_run(w, upto - 1), upto - 1)
    }
}

/// Once a snake has eaten, the rest of a legacy tick changes nothing.
pub proof fn lemma_legacy_stops(w: LegacyWorld, from: int, upto: int)
    requires
        0 <= from <= upto,
        legacy_run(w, from).eaten,
    ensures
        legacy_run(w, upto) == legacy_run(w, from),
    decreases upto - from,
{
    if from < upto {
        lemma_legacy_stops(w, from, upto - 1);
    }
}

/// One more input steers the snake that it names and no other.
pub proof fn lemma_steer_next(d: Direction, id: int, inputs: Seq<Input>, k: int)
    requires
        0 <= k < inputs.len(),
    ensures
        steer_all(d, id, inputs.take(k + 1)) == if inputs[k].snake_id == id {
            steer_all(d, id, inputs.take(k)).steer(inputs[k].direction)
        } else {
            steer_all(d, id, inputs.take(k))
        },
{
    assert(inputs.take(k + 1).drop_last() =~= inputs.take(k));
}

/// Writing a cell that lies under no alive snake keeps the snakes' cells
/// marked.
pub proof fn lemma_marked_elsewhere(snakes: Seq<SnakeState>, cells: Seq<Cell>, c: int, v: Cell)
    requires
        bodies_marked(snakes, cells),
        snakes_wf(snakes),
        cells.len() == GRID_WIDTH * GRID_HEIGHT,
        0 <= c < cells.len(),
        cells[c] != Cell::Snake,
    ensures
        bodies_marked(snakes, cells.update(c, v)),
{
    assert forall|j: int, k: int|
        0 <= j < snakes.len() && snakes[j].alive && 0 <= k < snakes[j].body.len() implies cells.update(
        c,
        v,
    )[(#[trigger] snakes[j].body[k]).index()] == Cell::Snake by {
        lemma_index_injective(snakes[j].body[k], snakes[j].body[k]);
    }
}

/// Snakes stay well-formed when one of them is replaced by a well-formed
/// snake of the same id.
pub proof fn lemma_snake_kept_wf(states: Seq<SnakeState>, i: int, after: SnakeState)
    requires
        snakes_wf(states),
        0 <= i < states.len(),
        after.id == states[i].id,
        all_in_bounds(after.body),
        after.alive ==> after.body.len() >= 1,
    ensures
        snakes_wf(states.update(i, after)),
{
    let next = states.update(i, after);
    assert forall|j: int| 0 <= j < next.len() implies {
        &&& (#[trigger] next[j]).id == j
        &&& all_in_bounds(next[j].body)
        &&& next[j].alive ==> next[j].body.len() >= 1
    } by {
        assert(states[j].id == j);
    }
}

/// Every snake has four segments.
pub open spec fn all_four(snakes: Seq<SnakeState>) -> bool {
    forall|j: int| 0 <= j < snakes.len() ==> (#[trigger] snakes[j]).body.len() == 4
}

/// Each segment lies one step in direction `d` after the one behind it.
pub open spec fn in_a_row(body: Seq<Point>, d: Direction) -> bool {
    forall|k: int| 0 <= k < body.len() - 1 ==> (#[trigger] body[k]) == body[k + 1].step(d)
}

/// A body of four segments on four different cells, all of them empty.
pub open spec fn placed_well(body: Seq<Point>, cells: Seq<Cell>) -> bool {
    &&& body.len() == 4
    &&& forall|k: int| 0 <= k < 4 ==> cells[(#[trigger] body[k]).index()] == Cell::Empty
    &&& forall|k1: int, k2: int|
        0 <= k1 < 4 && 0 <= k2 < 4 && #[trigger] body[k1] == #[trigger] body[k2] ==> k1 == k2
}

/// Four segments in a row on the grid lie on four different cells.
pub proof fn lemma_row_distinct(body: Seq<Point>, d: Direction)
    requires
        body.len() == 4,
        all_in_bounds(body),
        in_a_row(body, d),
    ensures
        forall|k1: int, k2: int|
            0 <= k1 < 4 && 0 <= k2 < 4 && #[trigger] body[k1] == #[trigger] body[k2] ==> k1 == k2,
{
    let tail = body[3];
    let third = body[2];
    let second = body[1];
    let head = body[0];
    assert(tail.in_bounds() && third.in_bounds() && second.in_bounds() && head.in_bounds());
    assert(third == tail.step(d));
    assert(second == third.step(d));
    assert(head == second.step(d));
    assert(tail != third && tail != second && tail != head && third != second && third != head
        && second != head);
}

/// No cell lies under two segments of alive snakes of four segments, be they
/// of two snakes or of one, whatever the other snakes are.
pub open spec fn fours_apart(snakes: Seq<SnakeState>) -> bool {
    forall|j1: int, k1: int, j2: int, k2: int|
        0 <= j1 < snakes.len() && 0 <= j2 < snakes.len() && snakes[j1].alive && snakes[j2].alive
            && snakes[j1].body.len() == 4 && snakes[j2].body.len() == 4 && 0 <= k1 < 4 && 0 <= k2
            < 4 && #[trigger] snakes[j1].body[k1] == #[trigger] snakes[j2].body[k2] ==> j1 == j2
            && k1 == k2
}

/// The four cells of a snake that starts at `start` and is moved three steps
/// in direction `d`, growing each time: head first, `start` last.
pub open spec fn row_from(start: Point, d: Direction) -> Seq<Point> {
    seq![start.step(d).step(d).step(d), start.step(d).step(d), start.step(d), start]
}

/// The cells of a row lie on the grid, one step after the other.
pub proof fn lemma_row_from(start: Point, d: Direction)
    requires
        start.in_bounds(),
    ensures
        row_from(start, d).len() == 4,
        all_in_bounds(row_from(start, d)),
        in_a_row(row_from(start, d), d),
{
    crate::game::types::lemma_step_in_bounds(start, d);
    crate::game::types::lemma_step_in_bounds(start.step(d), d);
    crate::game::types::lemma_step_in_bounds(start.step(d).step(d), d);
}

/// Where all snakes have four segments, snakes of four segments that lie
/// apart are all that `bodies_apart` asks for.
pub proof fn lemma_fours_are_all(snakes: Seq<SnakeState>)
    requires
        fours_apart(snakes),
        all_four(snakes),
    ensures
        bodies_apart(snakes),
{
    assert forall|j1: int, k1: int, j2: int, k2: int|
        0 <= j1 < snakes.len() && 0 <= j2 < snakes.len() && snakes[j1].alive && snakes[j2].alive
            && 0 <= k1 < snakes[j1].body.len() && 0 <= k2 < snakes[j2].body.len()
            && #[trigger] snakes[j1].body[k1] == #[trigger] snakes[j2].body[k2] implies j1 == j2
        && k1 == k2 by {
        assert(snakes[j1].body.len() == 4 && snakes[j2].body.len() == 4);
    }
}

/// Placing a snake on the grid keeps the cells under all snakes marked and
/// puts no apple there; where its cells were empty, the snakes of four
/// segments still share no cell.
pub proof fn lemma_snake_placed(states: Seq<SnakeState>, cells: Seq<Cell>, fresh: SnakeState)
    requires
        cells.len() == GRID_WIDTH * GRID_HEIGHT,
        snakes_wf(states),
        bodies_marked(states, cells),
        fours_apart(states),
        forall|c: int| 0 <= c < cells.len() ==> cells[c] != Cell::Apple,
        fresh.id == states.len(),
        fresh.alive,
        fresh.wf(),
        placed_well(fresh.body, cells) || fresh.body == seq![corner()],
    ensures
        snakes_wf(states.push(fresh)),
        bodies_marked(states.push(fresh), painted(cells, fresh.body, Cell::Snake)),
        fours_apart(states.push(fresh)),
        forall|c: int|
            0 <= c < cells.len() ==> painted(cells, fresh.body, Cell::Snake)[c] != Cell::Apple,
{
    let after = states.push(fresh);
    let g = painted(cells, fresh.body, Cell::Snake);
    assert forall|j: int| 0 <= j < after.len() implies {
        &&& (#[trigger] after[j]).id == j
        &&& all_in_bounds(after[j].body)
        &&& after[j].alive ==> after[j].body.len() >= 1
    } by {
        if j < states.len() {
            assert(states[j].id == j);
        }
    }
    assert forall|j: int, k: int|
        0 <= j < after.len() && after[j].alive && 0 <= k < after[j].body.len() implies g[(
    #[trigger] after[j].body[k]).index()] == Cell::Snake by {
        let q = after[j].body[k];
        lemma_index_injective(q, q);
        if j < states.len() {
            assert(states[j].body[k] == q);
            assert(cells[states[j].body[k].index()] == Cell::Snake);
        } else {
            assert(fresh.body[k].index() == q.index());
            assert(covers(fresh.body, q.index()));
        }
    }
    assert forall|j1: int, k1: int, j2: int, k2: int|
        0 <= j1 < after.len() && 0 <= j2 < after.len() && after[j1].alive && after[j2].alive
            && after[j1].body.len() == 4 && after[j2].body.len() == 4 && 0 <= k1 < 4 && 0 <= k2
            < 4 && #[trigger] after[j1].body[k1] == #[trigger] after[j2].body[k2] implies j1 == j2
        && k1 == k2 by {
        let n = states.len() as int;
        if j1 < n && j2 < n {
            assert(states[j1].body[k1] == states[j2].body[k2]);
        } else if j1 < n {
            assert(placed_well(fresh.body, cells));
            assert(cells[states[j1].body[k1].index()] == Cell::Snake);
            assert(cells[fresh.body[k2].index()] == Cell::Empty);
        } else if j2 < n {
            assert(placed_well(fresh.body, cells));
            assert(cells[states[j2].body[k2].index()] == Cell::Snake);
            assert(cells[fresh.body[k1].index()] == Cell::Empty);
        } else {
            assert(placed_well(fresh.body, cells));
            assert(fresh.body[k1] == fresh.body[k2]);
        }
    }
}

} // verus!
