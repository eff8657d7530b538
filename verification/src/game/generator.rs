//! World generators: worlds laid out by rule, for tests and benchmarks, and
//! the random world.

use vstd::prelude::*;
use crate::game::apple::{Apple, GridAwareApple, APPLE_CAPACITY};
use crate::game::engine::GameState;
use crate::game::grid::{Cell, Grid, GRID_HEIGHT, GRID_WIDTH};
use crate::game::model::{
    all_four, apple_cells, apple_count, bodies_marked, fours_apart, in_a_row,
    lemma_apple_count_bounded, lemma_apple_count_none, lemma_apple_count_update, snakes_wf,
};
use crate::game::snake::{
    all_in_bounds, covers, lemma_paint_step, painted, GridAwareSnake, Snake, SnakeState,
    SNAKE_CAPACITY,
};
use crate::game::types::{corner, lemma_index_injective, Direction, Point};

verus! {

/// How the snakes of a world made by rule are laid out.
#[derive(Clone, Copy)]
pub enum LayoutPattern {
    /// In rows, evenly spaced.
    Grid,
    /// On a ring around the centre of the grid.
    Concentric,
}

#[derive(Clone, Copy)]
pub struct DeterministicConfig {
    pub seed: u64,
    pub layout_pattern: LayoutPattern,
    pub initial_snake_length: usize,
}

impl Default for DeterministicConfig {
    fn default() -> (config: DeterministicConfig)
        ensures
            config.seed == 42,
            config.layout_pattern is Grid,
            config.initial_snake_length == 3,
    {
        Self { seed: 42, layout_pattern: LayoutPattern::Grid, initial_snake_length: 3 }
    }
}

/// `r` is the square root of `v`, rounded down.
pub open spec fn is_sqrt(r: int, v: int) -> bool {
    0 <= r && r * r <= v < (r + 1) * (r + 1)
}

/// The distance between snakes in rows: the side of the square that each of
/// `n` snakes has of half the grid, at least 2.
pub open spec fn is_spacing(s: int, n: int) -> bool {
    if n == 0 {
        s == usize::MAX
    } else {
        let share = (GRID_WIDTH * GRID_HEIGHT / 2) as int / n;
        if share < 9 {
            s == 2
        } else {
            is_sqrt(s, share)
        }
    }
}

/// Where the walk along the rows stands, and what it has laid out.
pub struct Walk {
    pub x: int,
    pub y: int,
    pub positions: Seq<Point>,
    pub stopped: bool,
}

/// The walk along the rows after `k` snakes were asked for: it starts one
/// `spacing` from the corner, goes right by `spacing` for each snake, turns
/// to the next row when less than `spacing` is left of this one, and stops
/// when no such row is left.
pub open spec fn grid_walk(k: int, spacing: int) -> Walk
    decreases k,
{
    if k <= 0 {
        Walk { x: spacing, y: spacing, positions: Seq::empty(), stopped: false }
    } else {
        let w = grid_walk(k - 1, spacing);
        if w.stopped {
            w
        } else {
            let x = if w.x >= GRID_WIDTH - spacing {
                spacing
            } else {
                w.x
            };
            let y = if w.x >= GRID_WIDTH - spacing {
                w.y + spacing
            } else {
                w.y
            };
            if y >= GRID_HEIGHT - spacing {
                Walk { x, y, positions: w.positions, stopped: true }
            } else {
                Walk {
                    x: x + spacing,
                    y,
                    positions: w.positions.push(Point { x: x as u16, y: y as u16 }),
                    stopped: false,
                }
            }
        }
    }
}

/// `q` is `a / s`, rounded down.
pub open spec fn is_quotient(q: int, a: int, s: int) -> bool {
    s * q <= a < s * (q + 1)
}

/// The walk keeps the places it has laid out, in front of those it adds.
pub proof fn lemma_walk_keeps(j: int, k: int, spacing: int)
    requires
        0 <= j <= k,
    ensures
        grid_walk(j, spacing).positions.len() <= grid_walk(k, spacing).positions.len(),
        grid_walk(k, spacing).positions.take(grid_walk(j, spacing).positions.len() as int)
            == grid_walk(j, spacing).positions,
    decreases k - j,
{
    let early = grid_walk(j, spacing).positions;
    if j < k {
        lemma_walk_keeps(j, k - 1, spacing);
        let before = grid_walk(k - 1, spacing).positions;
        let after = grid_walk(k, spacing).positions;
        assert(after.take(early.len() as int) =~= before.take(early.len() as int));
    } else {
        assert(early.take(early.len() as int) =~= early);
    }
}

/// Where the walk stands after it has laid out place `c` of row `r`, both
/// counted from 1 within the grid's `cols` columns and from 0 within its
/// `rows` rows: it has not stopped, and that place is `spacing * c` from the
/// left and `spacing * (r + 1)` from the top.
pub proof fn lemma_walk_state(spacing: int, cols: int, rows: int, r: int, c: int)
    requires
        1 <= spacing,
        1 <= cols,
        1 <= rows,
        is_quotient(cols, GRID_WIDTH - spacing - 1, spacing),
        is_quotient(rows, GRID_HEIGHT - spacing - 1, spacing),
        0 <= r < rows,
        1 <= c <= cols,
    ensures
        !grid_walk(r * cols + c, spacing).stopped,
        grid_walk(r * cols + c, spacing).x == spacing * (c + 1),
        grid_walk(r * cols + c, spacing).y == spacing * (r + 1),
        grid_walk(r * cols + c, spacing).positions.len() == r * cols + c,
        grid_walk(r * cols + c, spacing).positions[r * cols + c - 1] == (Point {
            x: (spacing * c) as u16,
            y: (spacing * (r + 1)) as u16,
        }),
        0 <= spacing * c < GRID_WIDTH - spacing,
        0 <= spacing * (r + 1) < GRID_HEIGHT - spacing,
    decreases r, c,
{
    let k = r * cols + c;
    assert(r * cols >= 0) by (nonlinear_arith)
        requires
            r >= 0,
            cols >= 1,
    ;
    assert(spacing * c <= spacing * cols && spacing * c >= spacing && spacing * (c + 1)
        == spacing * c + spacing) by (nonlinear_arith)
        requires
            1 <= c <= cols,
            spacing >= 1,
    ;
    assert(spacing * (r + 1) <= spacing * rows && spacing * (r + 1) == spacing * r + spacing
        && spacing * r >= 0) by (nonlinear_arith)
        requires
            0 <= r < rows,
            spacing >= 1,
    ;
    if c > 1 {
        lemma_walk_state(spacing, cols, rows, r, c - 1);
        assert(k - 1 == r * cols + (c - 1));
        let w = grid_walk(k - 1, spacing);
        assert(w.x == spacing * c);
        assert(grid_walk(k, spacing).positions == w.positions.push(
            Point { x: (spacing * c) as u16, y: (spacing * (r + 1)) as u16 },
        ));
    } else if r > 0 {
        lemma_walk_state(spacing, cols, rows, r - 1, cols);
        assert((r - 1) * cols + cols == r * cols) by (nonlinear_arith);
        let w = grid_walk(k - 1, spacing);
        assert(w.x == spacing * (cols + 1));
        assert(w.y == spacing * r);
        assert(grid_walk(k, spacing).positions == w.positions.push(
            Point { x: spacing as u16, y: (spacing * (r + 1)) as u16 },
        ));
    } else {
        assert(r * cols == 0) by (nonlinear_arith)
            requires
                r == 0,
        ;
        let w = grid_walk(0, spacing);
        assert(w.x == spacing && w.y == spacing);
        assert(grid_walk(1, spacing).positions == w.positions.push(
            Point { x: spacing as u16, y: spacing as u16 },
        ));
    }
}

/// The places in rows, told directly: with `cols` places to a row and `rows`
/// rows, place `c` of row `r`, both counted from 0, is the place number
/// `r * cols + c`; it lies `spacing * (c + 1)` from the left and
/// `spacing * (r + 1)` from the top. A row has a place for every multiple of
/// the spacing that leaves more than one spacing to the right edge, and the
/// grid a row for every such multiple towards the bottom edge.
pub proof fn lemma_grid_place(n: int, spacing: int, cols: int, rows: int, r: int, c: int)
    requires
        1 <= spacing,
        1 <= cols,
        1 <= rows,
        is_quotient(cols, GRID_WIDTH - spacing - 1, spacing),
        is_quotient(rows, GRID_HEIGHT - spacing - 1, spacing),
        0 <= r < rows,
        0 <= c < cols,
        r * cols + c < n,
    ensures
        r * cols + c < grid_walk(n, spacing).positions.len(),
        grid_walk(n, spacing).positions[r * cols + c] == (Point {
            x: (spacing * (c + 1)) as u16,
            y: (spacing * (r + 1)) as u16,
        }),
{
    let k = r * cols + c + 1;
    assert(r * cols >= 0) by (nonlinear_arith)
        requires
            r >= 0,
            cols >= 1,
    ;
    lemma_walk_state(spacing, cols, rows, r, c + 1);
    lemma_walk_keeps(k, n, spacing);
    let early = grid_walk(k, spacing).positions;
    let all = grid_walk(n, spacing).positions;
    assert(all.take(early.len() as int)[k - 1] == all[k - 1]);
}

/// The rows hold `rows * cols` places and no more, however many are asked
/// for.
pub proof fn lemma_grid_full(n: int, spacing: int, cols: int, rows: int)
    requires
        1 <= spacing,
        1 <= cols,
        1 <= rows,
        is_quotient(cols, GRID_WIDTH - spacing - 1, spacing),
        is_quotient(rows, GRID_HEIGHT - spacing - 1, spacing),
        n >= rows * cols,
    ensures
        grid_walk(n, spacing).positions.len() == rows * cols,
{
    let k = rows * cols;
    lemma_walk_state(spacing, cols, rows, rows - 1, cols);
    assert((rows - 1) * cols + cols == rows * cols) by (nonlinear_arith);
    assert(spacing * (rows - 1 + 1) + spacing == spacing * (rows + 1)) by (nonlinear_arith);
    if n > k {
        let w = grid_walk(k, spacing);
        assert(w.x == spacing * (cols + 1));
        assert(grid_walk(k + 1, spacing).stopped);
        assert(grid_walk(k + 1, spacing).positions == w.positions);
        lemma_walk_stopped(k + 1, n, spacing);
    }
}

/// Where the spacing is half the grid or more, the rows hold no place.
pub proof fn lemma_grid_none(n: int, spacing: int)
    requires
        0 <= n,
        2 * spacing >= GRID_WIDTH,
    ensures
        grid_walk(n, spacing).positions.len() == 0,
{
    if n >= 1 {
        let start = grid_walk(0, spacing);
        assert(start.x == spacing && start.y == spacing && !start.stopped);
        assert(start.positions.len() == 0);
        assert(grid_walk(1, spacing).stopped);
        assert(grid_walk(1, spacing).positions.len() == 0);
        lemma_walk_stopped(1, n, spacing);
    }
}

/// Once the walk has stopped it stays where it is.
pub proof fn lemma_walk_stopped(from: int, k: int, spacing: int)
    requires
        0 <= from <= k,
        grid_walk(from, spacing).stopped,
    ensures
        grid_walk(k, spacing) == grid_walk(from, spacing),
    decreases k - from,
{
    if from < k {
        lemma_walk_stopped(from, k - 1, spacing);
    }
}

/// Where a scan of the cells for apple places stands: the number of empty
/// cells seen, and the positions picked.
pub struct Scan {
    pub count: int,
    pub picks: Seq<int>,
}

/// The scan of the first `n` cells in row-major order. Of the empty cells it
/// picks every `stride`-th, the first one included, while fewer than `limit`
/// are picked, and passes over a cell that is picked already. It starts
/// with the picks `init`.
pub open spec fn scan(cells: Seq<Cell>, n: int, stride: int, limit: int, init: Seq<int>) -> Scan
    decreases n,
{
    if n <= 0 {
        Scan { count: 0, picks: init }
    } else {
        let s = scan(cells, n - 1, stride, limit, init);
        if cells[n - 1] == Cell::Empty {
            Scan {
                count: s.count + 1,
                picks: if s.count % stride == 0 && s.picks.len() < limit && !s.picks.contains(
                    n - 1,
                ) {
                    s.picks.push(n - 1)
                } else {
                    s.picks
                },
            }
        } else {
            s
        }
    }
}

/// The places for up to `limit` apples on a grid: every 1000th empty cell,
/// and, if these are fewer than `limit`, every 500th empty cell that is not
/// among them after them.
pub open spec fn apple_picks(cells: Seq<Cell>, limit: int) -> Seq<int> {
    let first = scan(cells, cells.len() as int, 1000, limit, Seq::empty()).picks;
    if first.len() < limit {
        scan(cells, cells.len() as int, 500, limit, first).picks
    } else {
        first
    }
}

/// The number of empty cells among the first `n` cells.
pub open spec fn empty_count(cells: Seq<Cell>, n: int) -> int
    decreases n,
{
    if n <= 0 {
        0
    } else {
        empty_count(cells, n - 1) + if cells[n - 1] == Cell::Empty {
            1int
        } else {
            0
        }
    }
}

/// What a scan with stride 1000 picks when it starts with no picks: pick `k`
/// is the empty cell that has `1000 * k` empty cells before it, for every `k`
/// below the limit for which there is such a cell.
pub proof fn lemma_picks_every_thousandth(cells: Seq<Cell>, n: int, limit: int)
    requires
        0 <= n <= cells.len(),
        0 <= limit,
    ensures
        scan(cells, n, 1000, limit, Seq::empty()).count == empty_count(cells, n),
        scan(cells, n, 1000, limit, Seq::empty()).picks.len() == if (empty_count(cells, n) + 999)
            / 1000 < limit {
            (empty_count(cells, n) + 999) / 1000
        } else {
            limit
        },
        forall|k: int|
            0 <= k < scan(cells, n, 1000, limit, Seq::empty()).picks.len() ==> ({
                let c = #[trigger] scan(cells, n, 1000, limit, Seq::empty()).picks[k];
                &&& 0 <= c < n
                &&& cells[c] == Cell::Empty
                &&& empty_count(cells, c) == 1000 * k
            }),
    decreases n,
{
    if n > 0 {
        lemma_picks_every_thousandth(cells, n - 1, limit);
        let before = scan(cells, n - 1, 1000, limit, Seq::empty());
        let after = scan(cells, n, 1000, limit, Seq::empty());
        if cells[n - 1] == Cell::Empty {
            if before.picks.contains(n - 1) {
                let k = choose|k: int| 0 <= k < before.picks.len() && before.picks[k] == n - 1;
                assert(before.picks[k] < n - 1);
            }
            assert forall|k: int| 0 <= k < after.picks.len() implies ({
                let c = #[trigger] after.picks[k];
                &&& 0 <= c < n
                &&& cells[c] == Cell::Empty
                &&& empty_count(cells, c) == 1000 * k
            }) by {
                if k < before.picks.len() {
                    assert(after.picks[k] == before.picks[k]);
                }
            }
        } else {
            assert(after == before);
        }
    }
}

/// A scan keeps the picks that it starts with, in front of those it adds.
pub proof fn lemma_scan_keeps_start(cells: Seq<Cell>, n: int, stride: int, limit: int, init: Seq<int>)
    ensures
        scan(cells, n, stride, limit, init).picks.len() >= init.len(),
        scan(cells, n, stride, limit, init).picks.take(init.len() as int) == init,
    decreases n,
{
    if n > 0 {
        lemma_scan_keeps_start(cells, n - 1, stride, limit, init);
        let before = scan(cells, n - 1, stride, limit, init).picks;
        let after = scan(cells, n, stride, limit, init).picks;
        assert(after.take(init.len() as int) =~= before.take(init.len() as int));
    } else {
        assert(init.take(init.len() as int) =~= init);
    }
}

/// The first apple places on any grid: place `k` is the empty cell that has
/// `1000 * k` empty cells before it, for every `k` below the limit for which
/// the grid has such a cell.
pub proof fn lemma_apple_picks_start(cells: Seq<Cell>, limit: int, k: int)
    requires
        0 <= k < limit,
        1000 * k < empty_count(cells, cells.len() as int),
    ensures
        k < apple_picks(cells, limit).len(),
        0 <= apple_picks(cells, limit)[k] < cells.len(),
        cells[apple_picks(cells, limit)[k]] == Cell::Empty,
        empty_count(cells, apple_picks(cells, limit)[k]) == 1000 * k,
{
    let n = cells.len() as int;
    lemma_picks_every_thousandth(cells, n, limit);
    let first = scan(cells, n, 1000, limit, Seq::empty()).picks;
    assert(k < first.len());
    let c = first[k];
    assert(0 <= c < n && cells[c] == Cell::Empty && empty_count(cells, c) == 1000 * k);
    if first.len() < limit {
        lemma_scan_keeps_start(cells, n, 500, limit, first);
        let second = scan(cells, n, 500, limit, first).picks;
        assert(second.take(first.len() as int)[k] == second[k]);
    }
}

/// On a grid without snakes and apples the apple places are the cells
/// `(k % 4 * 1000, k / 4)`: every thousandth cell in row-major order.
pub proof fn lemma_apple_picks_on_empty_grid(cells: Seq<Cell>, limit: int, k: int)
    requires
        cells.len() == GRID_WIDTH * GRID_HEIGHT,
        forall|c: int| 0 <= c < cells.len() ==> cells[c] == Cell::Empty,
        0 <= k < limit <= 16000,
    ensures
        apple_picks(cells, limit).len() == limit,
        apple_picks(cells, limit)[k] == 1000 * k,
        apple_picks(cells, limit)[k] == (Point {
            x: (k % 4 * 1000) as u16,
            y: (k / 4) as u16,
        }).index(),
{
    let n = cells.len() as int;
    lemma_all_empty_count(cells, n);
    lemma_picks_every_thousandth(cells, n, limit);
    let first = scan(cells, n, 1000, limit, Seq::empty()).picks;
    assert(first.len() == limit);
    let c = first[k];
    assert(0 <= c < n && empty_count(cells, c) == 1000 * k);
    lemma_all_empty_count(cells, c);
}

/// Among cells that are all empty, all are counted.
pub proof fn lemma_all_empty_count(cells: Seq<Cell>, n: int)
    requires
        0 <= n <= cells.len(),
        forall|c: int| 0 <= c < cells.len() ==> cells[c] == Cell::Empty,
    ensures
        empty_count(cells, n) == n,
    decreases n,
{
    if n > 0 {
        lemma_all_empty_count(cells, n - 1);
    }
}

/// The positions in the cell buffer of the cells of `points`.
pub open spec fn picks_of(points: Seq<Point>) -> Seq<int> {
    Seq::new(points.len(), |k: int| points[k].index())
}

/// The points are different cells of the grid, all of them empty.
pub open spec fn free_places(points: Seq<Point>, cells: Seq<Cell>) -> bool {
    &&& forall|k: int|
        0 <= k < points.len() ==> (#[trigger] points[k]).in_bounds() && cells[points[k].index()]
            == Cell::Empty
    &&& forall|k1: int, k2: int|
        0 <= k1 < points.len() && 0 <= k2 < points.len() && #[trigger] points[k1]
            == #[trigger] points[k2] ==> k1 == k2
}

/// Whether `p` is among `points`.
pub fn contains_point(points: &Vec<Point>, p: Point) -> (found: bool)
    ensures
        found == exists|k: int| 0 <= k < points@.len() && #[trigger] points@[k] == p,
{
    let mut k: usize = 0;
    while k < points.len()
        invariant
            k <= points@.len(),
            forall|m: int| 0 <= m < k ==> #[trigger] points@[m] != p,
        decreases points@.len() - k,
    {
        if points[k] == p {
            return true;
        }
        k += 1;
    }
    false
}

/// One pass over the grid for apple places, added to `positions`.
fn scan_pass(grid: &Grid, positions: &mut Vec<Point>, stride: usize, limit: usize, skip_known: bool)
    requires
        grid.wf(),
        stride > 0,
        free_places(old(positions)@, grid@),
        !skip_known ==> old(positions)@.len() == 0,
    ensures
        picks_of(final(positions)@) == scan(
            grid@,
            grid@.len() as int,
            stride as int,
            limit as int,
            picks_of(old(positions)@),
        ).picks,
        free_places(final(positions)@, grid@),
        final(positions)@.len() <= old(positions)@.len() || final(positions)@.len() <= limit,
{
    let ghost cells = grid@;
    let ghost init = picks_of(positions@);
    let mut count: usize = 0;
    let mut y: usize = 0;
    while y < GRID_HEIGHT
        invariant
            y <= GRID_HEIGHT,
            grid.wf(),
            cells == grid@,
            stride > 0,
            count <= y * 4000,
            scan(cells, y * 4000, stride as int, limit as int, init) == (Scan {
                count: count as int,
                picks: picks_of(positions@),
            }),
            free_places(positions@, cells),
            skip_known || forall|k: int|
                0 <= k < positions@.len() ==> (#[trigger] positions@[k]).index() < y * 4000,
            positions@.len() <= old(positions)@.len() || positions@.len() <= limit,
        decreases GRID_HEIGHT - y,
    {
        let mut x: usize = 0;
        while x < GRID_WIDTH
            invariant
                y < GRID_HEIGHT,
                x <= GRID_WIDTH,
                grid.wf(),
                cells == grid@,
                stride > 0,
                count <= y * 4000 + x,
                scan(cells, y * 4000 + x, stride as int, limit as int, init) == (Scan {
                    count: count as int,
                    picks: picks_of(positions@),
                }),
                free_places(positions@, cells),
                skip_known || forall|k: int|
                    0 <= k < positions@.len() ==> (#[trigger] positions@[k]).index() < y * 4000
                        + x,
                positions@.len() <= old(positions)@.len() || positions@.len() <= limit,
            decreases GRID_WIDTH - x,
        {
            let pos = Point { x: x as u16, y: y as u16 };
            let ghost before = positions@;
            proof {
                assert(pos.index() == y * 4000 + x);
                assert(picks_of(before).contains(pos.index()) == exists|k: int|
                    0 <= k < before.len() && #[trigger] before[k] == pos) by {
                    if picks_of(before).contains(pos.index()) {
                        let k = choose|k: int|
                            0 <= k < picks_of(before).len() && picks_of(before)[k] == pos.index();
                        lemma_index_injective(before[k], pos);
                        assert(before[k] == pos);
                    }
                    if exists|k: int| 0 <= k < before.len() && #[trigger] before[k] == pos {
                        let k = choose|k: int| 0 <= k < before.len() && #[trigger] before[k] == pos;
                        assert(picks_of(before)[k] == pos.index());
                    }
                }
            }
            if grid.get_cell(&pos) == Cell::Empty {
                if count % stride == 0 && positions.len() < limit {
                    if !(skip_known && contains_point(positions, pos)) {
                        positions.push(pos);
                        proof {
                            assert(picks_of(positions@) =~= picks_of(before).push(pos.index()));
                            assert forall|k1: int, k2: int|
                                0 <= k1 < positions@.len() && 0 <= k2 < positions@.len()
                                    && #[trigger] positions@[k1] == #[trigger] positions@[k2] implies k1
                                == k2 by {
                                if k1 < before.len() && k2 < before.len() {
                                    assert(before[k1] == before[k2]);
                                }
                            }
                        }
                    }
                }
                count += 1;
            }
            x += 1;
        }
        y += 1;
    }
}

/// A snake of `len` segments with its head at `start`, heading `d`: one
/// segment, grown `len - 1` times behind its tail.
pub open spec fn laid(id: u32, start: Point, d: Direction, len: int) -> SnakeState
    decreases len,
{
    if len <= 1 {
        SnakeState { id, body: seq![start], direction: d, alive: true }
    } else {
        laid(id, start, d, len - 1).grown()
    }
}

/// The bodies of the snakes, by id.
pub open spec fn bodies_of(snakes: Seq<SnakeState>) -> Seq<Seq<Point>> {
    Seq::new(snakes.len(), |i: int| snakes[i].body)
}

/// Some segment of some body lies on the cell at position `c`.
pub open spec fn covers_any(bodies: Seq<Seq<Point>>, c: int) -> bool {
    exists|b: int| 0 <= b < bodies.len() && covers(#[trigger] bodies[b], c)
}

/// The buffer `cells` with `v` written to every cell under one of the
/// bodies.
pub open spec fn painted_all(cells: Seq<Cell>, bodies: Seq<Seq<Point>>, v: Cell) -> Seq<Cell> {
    Seq::new(
        cells.len(),
        |c: int|
            if covers_any(bodies, c) {
                v
            } else {
                cells[c]
            },
    )
}

/// Painting one more body extends what is painted by that body.
pub proof fn lemma_paint_all_step(cells: Seq<Cell>, bodies: Seq<Seq<Point>>, body: Seq<Point>, v: Cell)
    ensures
        painted(painted_all(cells, bodies, v), body, v) == painted_all(cells, bodies.push(body), v),
{
    let before = painted(painted_all(cells, bodies, v), body, v);
    let after = painted_all(cells, bodies.push(body), v);
    assert forall|c: int| 0 <= c < cells.len() implies before[c] == after[c] by {
        if covers_any(bodies, c) {
            let b = choose|b: int| 0 <= b < bodies.len() && covers(#[trigger] bodies[b], c);
            assert(covers(bodies.push(body)[b], c));
        }
        if covers(body, c) {
            assert(covers(bodies.push(body)[bodies.len() as int], c));
        }
        if covers_any(bodies.push(body), c) {
            let b = choose|b: int|
                0 <= b < bodies.push(body).len() && covers(#[trigger] bodies.push(body)[b], c);
            if b < bodies.len() {
                assert(covers(bodies[b], c));
            }
        }
    }
    assert(before =~= after);
}

/// Painting a new snake on the grid keeps the cells under all snakes marked
/// and puts no apple there.
pub proof fn lemma_snake_painted(states: Seq<SnakeState>, cells: Seq<Cell>, fresh: SnakeState)
    requires
        cells.len() == GRID_WIDTH * GRID_HEIGHT,
        snakes_wf(states),
        bodies_marked(states, cells),
        fresh.id == states.len(),
        fresh.wf(),
    ensures
        snakes_wf(states.push(fresh)),
        bodies_marked(states.push(fresh), painted(cells, fresh.body, Cell::Snake)),
        forall|c: int|
            0 <= c < cells.len() && painted(cells, fresh.body, Cell::Snake)[c] == Cell::Apple
                ==> cells[c] == Cell::Apple,
        bodies_of(states.push(fresh)) == bodies_of(states).push(fresh.body),
{
    let after = states.push(fresh);
    let g = painted(cells, fresh.body, Cell::Snake);
    assert forall|j: int| 0 <= j < after.len() implies {
        &&& (#[trigger] after[j]).id == j
        &&& all_in_bounds(after[j].body)
        &&& after[j].alive ==> after[j].body.len() >= 1
    } by {
        if j < states.len() {
            assert(states[j].id == j);
        }
    }
    assert forall|j: int, k: int|
        0 <= j < after.len() && after[j].alive && 0 <= k < after[j].body.len() implies g[(
    #[trigger] after[j].body[k]).index()] == Cell::Snake by {
        let q = after[j].body[k];
        lemma_index_injective(q, q);
        if j < states.len() {
            assert(states[j].body[k] == q);
            assert(cells[states[j].body[k].index()] == Cell::Snake);
        } else {
            assert(fresh.body[k].index() == q.index());
            assert(covers(fresh.body, q.index()));
        }
    }
    assert(bodies_of(after) =~= bodies_of(states).push(fresh.body));
}

/// A snake that is laid out lies on the grid.
pub proof fn lemma_laid_wf(id: u32, start: Point, d: Direction, len: int)
    requires
        start.in_bounds(),
    ensures
        laid(id, start, d, len).wf(),
        laid(id, start, d, len).id == id,
        laid(id, start, d, len).direction == d,
        laid(id, start, d, len).alive,
        laid(id, start, d, len).body[0] == start,
        laid(id, start, d, len).body.len() == if len <= 1 { 1 } else { len },
    decreases len,
{
    if len > 1 {
        lemma_laid_wf(id, start, d, len - 1);
        let s = laid(id, start, d, len - 1);
        crate::game::types::lemma_step_in_bounds(s.body.last(), d.opposite());
        assert forall|k: int| 0 <= k < s.grown().body.len() implies (#[trigger] s.grown().body[k]).in_bounds() by {
            if k < s.body.len() {
                assert(s.grown().body[k] == s.body[k]);
            }
        }
    }
}

/// Makes a snake of `length` segments with its head at `pos`, marks it on
/// the grid and adds it to the snakes.
fn place_snake(
    snakes: &mut Vec<GridAwareSnake>,
    grid: &mut Grid,
    id: u32,
    pos: Point,
    dir: Direction,
    length: usize,
)
    requires
        old(grid).wf(),
        pos.in_bounds(),
        length >= 1,
    ensures
        final(snakes)@.len() == old(snakes)@.len() + 1,
        forall|j: int| 0 <= j < old(snakes)@.len() ==> final(snakes)@[j] == old(snakes)@[j],
        final(snakes)@[old(snakes)@.len() as int]@ == laid(id, pos, dir, length as int),
        final(grid).wf(),
        final(grid)@ == painted(old(grid)@, laid(id, pos, dir, length as int).body, Cell::Snake),
{
    let mut snake = Snake::new(id, pos, dir);
    let mut grown: usize = 0;
    proof {
        lemma_laid_wf(id, pos, dir, 1);
    }
    while grown < length - 1
        invariant
            length >= 1,
            grown <= length - 1,
            pos.in_bounds(),
            snake@ == laid(id, pos, dir, grown + 1),
            snake@.wf(),
        decreases length - 1 - grown,
    {
        snake.grow();
        grown += 1;
    }
    let grid_aware_snake = GridAwareSnake::new(snake, grid);
    snakes.push(grid_aware_snake);
}

/// Puts an apple on each of the places, which are free, and counts them.
fn place_apples(grid: &mut Grid, num_apples: &mut u64, places: &Vec<Point>, limit: usize)
    requires
        old(grid).wf(),
        free_places(places@, old(grid)@),
        *old(num_apples) + places@.len() <= u64::MAX,
    ensures
        final(grid).wf(),
        final(grid)@ == painted(old(grid)@, places@.take(placed_of(places@, limit)), Cell::Apple),
        *final(num_apples) == *old(num_apples) + placed_of(places@, limit),
        apple_count(final(grid)@) == apple_count(old(grid)@) + placed_of(places@, limit),
        forall|c: int|
            0 <= c < old(grid)@.len() && old(grid)@[c] == Cell::Snake ==> final(grid)@[c]
                == Cell::Snake,
{
    let ghost cells = grid@;
    let ghost start = *num_apples as int;
    let n = if places.len() < limit {
        places.len()
    } else {
        limit
    };
    let mut k: usize = 0;
    assert(grid@ =~= painted(cells, places@.take(0), Cell::Apple));
    while k < n
        invariant
            k <= n,
            n == placed_of(places@, limit),
            n <= places@.len(),
            cells == old(grid)@,
            grid.wf(),
            cells.len() == grid@.len(),
            free_places(places@, cells),
            grid@ == painted(cells, places@.take(k as int), Cell::Apple),
            *num_apples == start + k,
            start + places@.len() <= u64::MAX,
            apple_count(grid@) == apple_count(cells) + k,
        decreases n - k,
    {
        let pos = places[k];
        let ghost now = grid@;
        proof {
            lemma_index_injective(pos, pos);
            if covers(places@.take(k as int), pos.index()) {
                let m = choose|m: int|
                    0 <= m < places@.take(k as int).len() && (
                    #[trigger] places@.take(k as int)[m]).index() == pos.index();
                lemma_index_injective(places@[m], pos);
                assert(places@[m] == places@[k as int]);
            }
            assert(now[pos.index()] == Cell::Empty);
            lemma_apple_count_update(now, pos.index(), Cell::Apple);
            lemma_paint_step(cells, places@, k as int, Cell::Apple);
        }
        let apple = Apple::new(pos);
        let _grid_aware_apple = GridAwareApple::new(apple, grid);
        *num_apples = *num_apples + 1;
        k += 1;
    }
    assert forall|c: int| 0 <= c < cells.len() && cells[c] == Cell::Snake implies grid@[c]
        == Cell::Snake by {
        if covers(places@.take(n as int), c) {
            let m = choose|m: int|
                0 <= m < places@.take(n as int).len() && (#[trigger] places@.take(n as int)[m]).index()
                    == c;
            assert(cells[places@[m].index()] == Cell::Empty);
        }
    }
}

/// How many of the places are used when at most `limit` are wanted.
pub open spec fn placed_of(places: Seq<Point>, limit: usize) -> int {
    if places.len() < limit {
        places.len() as int
    } else {
        limit as int
    }
}

/// The grid without snakes and apples.
pub open spec fn blank() -> Seq<Cell> {
    Seq::new((GRID_WIDTH * GRID_HEIGHT) as nat, |c: int| Cell::Empty)
}

/// The buffer `cells` with `v` written at the positions `picks`.
pub open spec fn marked(cells: Seq<Cell>, picks: Seq<int>, v: Cell) -> Seq<Cell> {
    Seq::new(
        cells.len(),
        |c: int|
            if picks.contains(c) {
                v
            } else {
                cells[c]
            },
    )
}

/// Painting points is marking their positions.
pub proof fn lemma_painted_is_marked(cells: Seq<Cell>, points: Seq<Point>, v: Cell)
    ensures
        painted(cells, points, v) == marked(cells, picks_of(points), v),
{
    assert forall|c: int| covers(points, c) == picks_of(points).contains(c) by {
        if covers(points, c) {
            let k = choose|k: int| 0 <= k < points.len() && (#[trigger] points[k]).index() == c;
            assert(picks_of(points)[k] == c);
        }
        if picks_of(points).contains(c) {
            let k = choose|k: int| 0 <= k < picks_of(points).len() && picks_of(points)[k] == c;
            assert(points[k].index() == c);
        }
    }
    assert(painted(cells, points, v) =~= marked(cells, picks_of(points), v));
}

/// The places of the snakes of a world made by rule: the walk along the
/// rows, or the ring that is handed in.
pub open spec fn layout(num_snakes: usize, config: DeterministicConfig, ring: Seq<Point>) -> Seq<
    Point,
> {
    match config.layout_pattern {
        LayoutPattern::Grid => grid_walk(
            num_snakes as int,
            choose|s: int| is_spacing(s, num_snakes as int),
        ).positions,
        LayoutPattern::Concentric => ring,
    }
}

/// The spacing of `n` snakes is one number.
pub proof fn lemma_spacing_unique(s: int, t: int, n: int)
    requires
        is_spacing(s, n),
        is_spacing(t, n),
    ensures
        s == t,
{
    if n != 0 {
        let share = (GRID_WIDTH * GRID_HEIGHT / 2) as int / n;
        if share >= 9 {
            assert(s == t) by (nonlinear_arith)
                requires
                    0 <= s,
                    0 <= t,
                    s * s <= share < (s + 1) * (s + 1),
                    t * t <= share < (t + 1) * (t + 1),
            ;
        }
    }
}

/// Painting a snake on the grid adds no apple.
pub proof fn lemma_snake_hides_apples(cells: Seq<Cell>, body: Seq<Point>)
    ensures
        apple_count(painted(cells, body, Cell::Snake)) <= apple_count(cells),
{
    lemma_apple_count_bounded(cells);
    let after = painted(cells, body, Cell::Snake);
    assert(apple_cells(after).subset_of(apple_cells(cells)));
    vstd::set_lib::lemma_len_subset(apple_cells(after), apple_cells(cells));
}

/// Where snake `i` of `n` starts in the world of foreseen outcomes. The
/// first quarter are pairs that face each other ten cells apart, one pair on
/// every tenth row. The second quarter stand left of an apple, or five cells
/// right of where one would lie when the apples have run out. The rest keep
/// fifty cells apart.
pub open spec fn outcome_start(i: int, n: int) -> Point {
    let quarter = n / 4;
    if i < quarter {
        Point {
            x: if i % 2 == 0 {
                100
            } else {
                110
            },
            y: (100 + (i / 2) * 10) as u16,
        }
    } else if i < 2 * quarter {
        let k = i - quarter;
        Point {
            x: if k < APPLE_CAPACITY {
                (199 + (k % 10) * 20) as u16
            } else {
                (205 + (k % 10) * 20) as u16
            },
            y: (100 + (k / 10) * 20) as u16,
        }
    } else {
        let k = i - 2 * quarter;
        Point { x: (500 + (k % 20) * 50) as u16, y: (100 + (k / 20) * 50) as u16 }
    }
}

/// Where snake `i` of `n` heads in the world of foreseen outcomes: to the
/// right, but for the second snake of each facing pair.
pub open spec fn outcome_heading(i: int, n: int) -> Direction {
    if i < n / 4 && i % 2 != 0 {
        Direction::Left
    } else {
        Direction::Right
    }
}

/// Where apple `k` of the second quarter's apples lies.
pub open spec fn outcome_apple(k: int) -> Point {
    Point { x: (200 + (k % 10) * 20) as u16, y: (100 + (k / 10) * 20) as u16 }
}

/// The first `count` of the second quarter's apples.
pub open spec fn outcome_apples(count: int) -> Seq<Point> {
    Seq::new(count as nat, |k: int| outcome_apple(k))
}

/// The world of foreseen outcomes has room for `n` snakes: every start lies
/// on the grid.
pub open spec fn outcomes_fit(n: int) -> bool {
    n / 4 <= 780 && n - 2 * (n / 4) <= 1560
}

/// The manhattan distance of two points, taken without wrapping.
pub open spec fn manhattan(p: Point, q: Point) -> int {
    (if p.x >= q.x {
        p.x - q.x
    } else {
        q.x - p.x
    }) + (if p.y >= q.y {
        p.y - q.y
    } else {
        q.y - p.y
    })
}

/// The head of a snake, or the corner `(0, 0)` for a snake without
/// segments.
pub open spec fn head_or_corner(s: SnakeState) -> Point {
    if s.body.len() > 0 {
        s.body[0]
    } else {
        corner()
    }
}

/// Lays out one snake of `length` segments at each start with its heading,
/// in order, with ids from `first_id` on.
fn place_planned(
    snakes: &mut Vec<GridAwareSnake>,
    grid: &mut Grid,
    starts: &Vec<Point>,
    headings: &Vec<Direction>,
    first_id: usize,
    length: usize,
)
    requires
        old(grid).wf(),
        length >= 1,
        starts@.len() == headings@.len(),
        first_id + starts@.len() <= u32::MAX,
        all_in_bounds(starts@),
        old(snakes)@.len() == first_id,
    ensures
        final(grid).wf(),
        final(snakes)@.len() == first_id + starts@.len(),
        forall|j: int| 0 <= j < first_id ==> final(snakes)@[j] == old(snakes)@[j],
        forall|k: int|
            0 <= k < starts@.len() ==> (#[trigger] final(snakes)@[first_id + k])@ == laid(
                (first_id + k) as u32,
                starts@[k],
                headings@[k],
                length as int,
            ),
        final(grid)@ == painted_all(
            old(grid)@,
            planned_bodies(first_id as int, starts@, headings@, length as int),
            Cell::Snake,
        ),
        apple_count(final(grid)@) <= apple_count(old(grid)@),
{
    let ghost cells = grid@;
    let ghost bodies = planned_bodies(first_id as int, starts@, headings@, length as int);
    let mut k: usize = 0;
    assert(grid@ =~= painted_all(cells, bodies.take(0), Cell::Snake));
    while k < starts.len()
        invariant
            k <= starts@.len(),
            length >= 1,
            starts@.len() == headings@.len(),
            first_id + starts@.len() <= u32::MAX,
            all_in_bounds(starts@),
            grid.wf(),
            cells == old(grid)@,
            bodies == planned_bodies(first_id as int, starts@, headings@, length as int),
            snakes@.len() == first_id + k,
            forall|j: int| 0 <= j < first_id ==> snakes@[j] == old(snakes)@[j],
            forall|m: int|
                0 <= m < k ==> (#[trigger] snakes@[first_id + m])@ == laid(
                    (first_id + m) as u32,
                    starts@[m],
                    headings@[m],
                    length as int,
                ),
            grid@ == painted_all(cells, bodies.take(k as int), Cell::Snake),
            apple_count(grid@) <= apple_count(cells),
        decreases starts@.len() - k,
    {
        let ghost now = grid@;
        let ghost before = snakes@;
        let ghost body = laid(
            (first_id + k) as u32,
            starts@[k as int],
            headings@[k as int],
            length as int,
        ).body;
        proof {
            lemma_snake_hides_apples(now, body);
            lemma_paint_all_step(cells, bodies.take(k as int), body, Cell::Snake);
            assert(bodies[k as int] == body);
            assert(bodies.take(k as int).push(body) =~= bodies.take(k + 1));
        }
        place_snake(snakes, grid, (first_id + k) as u32, starts[k], headings[k], length);
        proof {
            assert forall|m: int| 0 <= m < k + 1 implies (#[trigger] snakes@[first_id + m])@ == laid(
                (first_id + m) as u32,
                starts@[m],
                headings@[m],
                length as int,
            ) by {
                if m < k {
                    assert(snakes@[first_id + m] == before[first_id + m]);
                }
            }
        }
        k += 1;
    }
    assert(bodies.take(starts@.len() as int) =~= bodies);
}

/// The bodies of the snakes laid out by plan.
pub open spec fn planned_bodies(
    first_id: int,
    starts: Seq<Point>,
    headings: Seq<Direction>,
    length: int,
) -> Seq<Seq<Point>> {
    Seq::new(
        starts.len(),
        |k: int| laid((first_id + k) as u32, starts[k], headings[k], length).body,
    )
}

/// Painting two groups of bodies one after the other is painting them all.
pub proof fn lemma_paint_all_concat(
    cells: Seq<Cell>,
    first: Seq<Seq<Point>>,
    second: Seq<Seq<Point>>,
    v: Cell,
)
    ensures
        painted_all(painted_all(cells, first, v), second, v) == painted_all(
            cells,
            first + second,
            v,
        ),
{
    let both = first + second;
    assert forall|c: int| covers_any(both, c) == (covers_any(first, c) || covers_any(second, c)) by {
        if covers_any(first, c) {
            let b = choose|b: int| 0 <= b < first.len() && covers(#[trigger] first[b], c);
            assert(covers(both[b], c));
        }
        if covers_any(second, c) {
            let b = choose|b: int| 0 <= b < second.len() && covers(#[trigger] second[b], c);
            assert(covers(both[first.len() + b], c));
        }
        if covers_any(both, c) {
            let b = choose|b: int| 0 <= b < both.len() && covers(#[trigger] both[b], c);
            if b < first.len() {
                assert(covers(first[b], c));
            } else {
                assert(covers(second[b - first.len()], c));
            }
        }
    }
    assert(painted_all(painted_all(cells, first, v), second, v) =~= painted_all(cells, both, v));
}

/// The cells of the world of foreseen outcomes: the first quarter of the
/// snakes on an empty grid, then the second quarter's apples, then the other
/// snakes, then apples at the picks among the cells left empty, until the
/// world has `APPLE_CAPACITY` apples.
pub open spec fn outcome_cells(snakes: Seq<SnakeState>) -> Seq<Cell> {
    let quarter = snakes.len() as int / 4;
    let fixed = if quarter < APPLE_CAPACITY {
        quarter
    } else {
        APPLE_CAPACITY as int
    };
    let first = painted_all(blank(), bodies_of(snakes.take(quarter)), Cell::Snake);
    let with_apples = painted(first, outcome_apples(fixed), Cell::Apple);
    let with_snakes = painted_all(with_apples, bodies_of(snakes.skip(quarter)), Cell::Snake);
    marked(
        with_snakes,
        apple_picks(with_snakes, APPLE_CAPACITY as int).take(outcome_extra(snakes)),
        Cell::Apple,
    )
}

/// The number of apples that the world of foreseen outcomes gets beyond
/// those of the second quarter.
pub open spec fn outcome_extra(snakes: Seq<SnakeState>) -> int {
    let quarter = snakes.len() as int / 4;
    let fixed = if quarter < APPLE_CAPACITY {
        quarter
    } else {
        APPLE_CAPACITY as int
    };
    let first = painted_all(blank(), bodies_of(snakes.take(quarter)), Cell::Snake);
    let with_apples = painted(first, outcome_apples(fixed), Cell::Apple);
    let with_snakes = painted_all(with_apples, bodies_of(snakes.skip(quarter)), Cell::Snake);
    let picks = apple_picks(with_snakes, APPLE_CAPACITY as int);
    if picks.len() < APPLE_CAPACITY - fixed {
        picks.len() as int
    } else {
        APPLE_CAPACITY - fixed
    }
}

/// The number of apples wanted for a world of `snakes` snakes.
pub open spec fn strategic_target(snakes: int) -> int {
    let share = (GRID_WIDTH * GRID_HEIGHT - snakes * 3) / 1000;
    if share < APPLE_CAPACITY {
        share
    } else {
        APPLE_CAPACITY as int
    }
}

pub struct DeterministicGenerator;

impl DeterministicGenerator {
    /// A world made by rule: snakes of `config.initial_snake_length`
    /// segments heading right with their heads at the places of the layout,
    /// id by place, and apples at the picks among the cells that the snakes
    /// leave empty. For the ring layout the places are those of `ring`.
    pub fn generate(num_snakes: usize, config: DeterministicConfig, ring: &[Point]) -> (state:
        GameState)
        requires
            config.initial_snake_length >= 1,
            num_snakes <= u32::MAX,
            config.layout_pattern is Concentric ==> ring@.len() <= u32::MAX && all_in_bounds(ring@),
        ensures
            state.wf(),
            bodies_marked(state.snake_states(), state.grid@),
            state.num_apples == apple_count(state.grid@),
            state.num_apples <= APPLE_CAPACITY,
            state.snake_states().len() == layout(num_snakes, config, ring@).len(),
            forall|i: int|
                0 <= i < state.snake_states().len() ==> #[trigger] state.snake_states()[i] == laid(
                    i as u32,
                    layout(num_snakes, config, ring@)[i],
                    Direction::Right,
                    config.initial_snake_length as int,
                ),
            state.grid@ == marked(
                painted_all(blank(), bodies_of(state.snake_states()), Cell::Snake),
                apple_picks(
                    painted_all(blank(), bodies_of(state.snake_states()), Cell::Snake),
                    APPLE_CAPACITY as int,
                ),
                Cell::Apple,
            ),
            state.num_apples == apple_picks(
                painted_all(blank(), bodies_of(state.snake_states()), Cell::Snake),
                APPLE_CAPACITY as int,
            ).len(),
    {
        let mut grid = Grid::new();
        assert(grid@ =~= blank());
        let spacing = Self::calculate_snake_spacing(num_snakes);
        let snake_positions = match config.layout_pattern {
            LayoutPattern::Grid => Self::calculate_grid_positions(num_snakes, spacing),
            LayoutPattern::Concentric => Self::copy_positions(ring),
        };
        proof {
            let chosen = choose|s: int| is_spacing(s, num_snakes as int);
            lemma_spacing_unique(chosen, spacing as int, num_snakes as int);
            assert(snake_positions@ == layout(num_snakes, config, ring@));
        }
        let (snakes, Ghost(states)) = Self::place_snakes(
            &mut grid,
            &snake_positions,
            config.initial_snake_length,
        );
        let ghost snake_grid = grid@;
        let apple_positions = Self::calculate_apple_positions(&grid, config.seed);
        let mut num_apples: u64 = 0;
        proof {
            lemma_apple_count_none(snake_grid);
            lemma_painted_is_marked(snake_grid, apple_positions@, Cell::Apple);
            assert(apple_positions@.take(apple_positions@.len() as int) =~= apple_positions@);
        }
        place_apples(&mut grid, &mut num_apples, &apple_positions, apple_positions.len());
        let state = GameState {
            snakes,
            num_apples,
            grid,
            buckets: GameState::empty_buckets(),
            tail_buckets: GameState::empty_tail_buckets(),
        };
        proof {
            assert(state.snake_states() =~= states);
            assert(picks_of(apple_positions@).len() == apple_positions@.len());
            assert forall|j: int, k: int|
                0 <= j < states.len() && states[j].alive && 0 <= k < states[j].body.len() implies state.grid@[(
            #[trigger] states[j].body[k]).index()] == Cell::Snake by {
                lemma_index_injective(states[j].body[k], states[j].body[k]);
                assert(snake_grid[states[j].body[k].index()] == Cell::Snake);
            }
        }
        state
    }

    /// A world with foreseen outcomes: a quarter of the snakes in pairs that
    /// face each other, a quarter with an apple in front of them, and the rest
    /// far from each other. Apples beyond those in front of the snakes lie at
    /// the picks among the empty cells.
    pub fn generate_predictable_outcomes(num_snakes: usize, config: DeterministicConfig) -> (state:
        GameState)
        requires
            config.initial_snake_length >= 1,
            outcomes_fit(num_snakes as int),
        ensures
            state.wf(),
            state.snake_states().len() == num_snakes,
            forall|i: int|
                0 <= i < num_snakes ==> #[trigger] state.snake_states()[i] == laid(
                    i as u32,
                    outcome_start(i, num_snakes as int),
                    outcome_heading(i, num_snakes as int),
                    config.initial_snake_length as int,
                ),
            state.grid@ == outcome_cells(state.snake_states()),
            state.num_apples == (if num_snakes / 4 < APPLE_CAPACITY {
                num_snakes as int / 4
            } else {
                APPLE_CAPACITY as int
            }) + outcome_extra(state.snake_states()),
            state.num_apples <= APPLE_CAPACITY,
    {
        let length = config.initial_snake_length;
        let mut grid = Grid::new();
        assert(grid@ =~= blank());
        let mut snakes: Vec<GridAwareSnake> = Vec::with_capacity(num_snakes);
        let mut num_apples: u64 = 0;

        let death_group_size = num_snakes / 4;
        let apple_group_size = num_snakes / 4;
        let safe_group_size = num_snakes - death_group_size - apple_group_size;

        let (starts, headings) = Self::plan_group(num_snakes, 0, death_group_size);
        place_planned(&mut snakes, &mut grid, &starts, &headings, 0, length);
        let ghost first = grid@;
        let ghost bodies1 = planned_bodies(0, starts@, headings@, length as int);
        proof {
            assert forall|c: int| 0 <= c < first.len() implies first[c] != Cell::Apple by {}
            lemma_apple_count_none(first);
        }

        let apples_to_place = if apple_group_size < APPLE_CAPACITY {
            apple_group_size
        } else {
            APPLE_CAPACITY
        };
        let mut i: usize = 0;
        assert(outcome_apples(apples_to_place as int).take(0) =~= Seq::<Point>::empty());
        assert(grid@ =~= painted(first, outcome_apples(apples_to_place as int).take(0), Cell::Apple));
        while i < apples_to_place
            invariant
                i <= apples_to_place,
                apples_to_place <= APPLE_CAPACITY,
                grid.wf(),
                first.len() == grid@.len(),
                num_apples == i,
                grid@ == painted(
                    first,
                    outcome_apples(apples_to_place as int).take(i as int),
                    Cell::Apple,
                ),
                apple_count(grid@) <= i,
            decreases apples_to_place - i,
        {
            let apple_x: usize = 200 + (i % 10) * 20;
            let apple_y: usize = 100 + (i / 10) * 20;
            let apple_pos = Point { x: apple_x as u16, y: apple_y as u16 };
            proof {
                assert(apple_pos == outcome_apples(apples_to_place as int)[i as int]);
                lemma_index_injective(apple_pos, apple_pos);
                lemma_apple_count_update(grid@, apple_pos.index(), Cell::Apple);
                lemma_paint_step(first, outcome_apples(apples_to_place as int), i as int, Cell::Apple);
            }
            let apple = Apple::new(apple_pos);
            let _grid_aware_apple = GridAwareApple::new(apple, &mut grid);
            num_apples += 1;
            i += 1;
        }
        let ghost with_apples = grid@;
        proof {
            assert(outcome_apples(apples_to_place as int).take(apples_to_place as int)
                =~= outcome_apples(apples_to_place as int));
        }

        let (starts2, headings2) = Self::plan_group(num_snakes, death_group_size, apple_group_size);
        place_planned(&mut snakes, &mut grid, &starts2, &headings2, death_group_size, length);
        let ghost snakes_mid = snakes@;
        let (starts3, headings3) = Self::plan_group(
            num_snakes,
            death_group_size + apple_group_size,
            safe_group_size,
        );
        place_planned(
            &mut snakes,
            &mut grid,
            &starts3,
            &headings3,
            death_group_size + apple_group_size,
            length,
        );
        let ghost with_snakes = grid@;
        let ghost bodies2 = planned_bodies(
            death_group_size as int,
            starts2@,
            headings2@,
            length as int,
        );
        let ghost bodies3 = planned_bodies(
            (death_group_size + apple_group_size) as int,
            starts3@,
            headings3@,
            length as int,
        );

        let ghost extra_places = Seq::<Point>::empty();
        let ghost wanted: usize = (APPLE_CAPACITY - apples_to_place) as usize;
        if num_apples < APPLE_CAPACITY as u64 {
            let additional_apple_positions = Self::calculate_apple_positions(&grid, config.seed);
            proof {
                extra_places = additional_apple_positions@;
                lemma_painted_is_marked(
                    with_snakes,
                    extra_places.take(placed_of(extra_places, wanted)),
                    Cell::Apple,
                );
                assert(picks_of(extra_places.take(placed_of(extra_places, wanted))) =~= picks_of(
                    extra_places,
                ).take(placed_of(extra_places, wanted)));
            }
            place_apples(
                &mut grid,
                &mut num_apples,
                &additional_apple_positions,
                APPLE_CAPACITY - apples_to_place,
            );
        } else {
            proof {
                assert(apple_picks(with_snakes, APPLE_CAPACITY as int).take(0) =~= Seq::<int>::empty());
                assert(grid@ =~= marked(with_snakes, Seq::<int>::empty(), Cell::Apple));
            }
        }

        let state = GameState {
            snakes,
            num_apples,
            grid,
            buckets: GameState::empty_buckets(),
            tail_buckets: GameState::empty_tail_buckets(),
        };
        proof {
            let states = state.snake_states();
            let n = num_snakes as int;
            let q = death_group_size as int;
            assert forall|j: int| 0 <= j < n implies #[trigger] states[j] == laid(
                j as u32,
                outcome_start(j, n),
                outcome_heading(j, n),
                length as int,
            ) by {
                if j < q {
                    assert(state.snakes@[0 + j] == snakes_mid[j]);
                } else if j < 2 * q {
                    assert(state.snakes@[j] == snakes_mid[q + (j - q)]);
                } else {
                    assert(state.snakes@[2 * q + (j - 2 * q)]@ == states[j]);
                }
                lemma_laid_wf(
                    j as u32,
                    outcome_start(j, n),
                    outcome_heading(j, n),
                    length as int,
                );
            }
            assert forall|j: int| 0 <= j < states.len() implies {
                &&& (#[trigger] states[j]).id == j
                &&& all_in_bounds(states[j].body)
                &&& states[j].alive ==> states[j].body.len() >= 1
            } by {
                lemma_laid_wf(
                    j as u32,
                    outcome_start(j, n),
                    outcome_heading(j, n),
                    length as int,
                );
            }
            assert(bodies_of(states.take(q)) =~= bodies1);
            assert(bodies_of(states.skip(q)) =~= bodies2 + bodies3);
            lemma_paint_all_concat(with_apples, bodies2, bodies3, Cell::Snake);
        }
        state
    }

    /// The starts and headings of the snakes `first .. first + count` of the
    /// world of foreseen outcomes for `n` snakes.
    fn plan_group(n: usize, first: usize, count: usize) -> (plan: (Vec<Point>, Vec<Direction>))
        requires
            outcomes_fit(n as int),
            first + count <= n,
        ensures
            plan.0@.len() == count,
            plan.1@.len() == count,
            all_in_bounds(plan.0@),
            forall|k: int|
                0 <= k < count ==> #[trigger] plan.0@[k] == outcome_start(first + k, n as int),
            forall|k: int|
                0 <= k < count ==> #[trigger] plan.1@[k] == outcome_heading(first + k, n as int),
    {
        let quarter = n / 4;
        let mut starts: Vec<Point> = Vec::with_capacity(count);
        let mut headings: Vec<Direction> = Vec::with_capacity(count);
        let mut k: usize = 0;
        while k < count
            invariant
                k <= count,
                outcomes_fit(n as int),
                first + count <= n,
                quarter == n / 4,
                starts@.len() == k,
                headings@.len() == k,
                all_in_bounds(starts@),
                forall|m: int|
                    0 <= m < k ==> #[trigger] starts@[m] == outcome_start(first + m, n as int),
                forall|m: int|
                    0 <= m < k ==> #[trigger] headings@[m] == outcome_heading(first + m, n as int),
            decreases count - k,
        {
            let id = first + k;
            let (x, y, direction) = if id < quarter {
                if id % 2 == 0 {
                    (100, 100 + (id / 2) * 10, Direction::Right)
                } else {
                    (100 + 10, 100 + (id / 2) * 10, Direction::Left)
                }
            } else if id < 2 * quarter {
                let i = id - quarter;
                let apple_x: usize = 200 + (i % 10) * 20;
                if i < APPLE_CAPACITY {
                    (apple_x - 1, 100 + (i / 10) * 20, Direction::Right)
                } else {
                    (apple_x + 5, 100 + (i / 10) * 20, Direction::Right)
                }
            } else {
                let i = id - 2 * quarter;
                (500 + (i % 20) * 50, 100 + (i / 20) * 50, Direction::Right)
            };
            let pos = Point { x: x as u16, y: y as u16 };
            assert(pos == outcome_start(first + k, n as int));
            assert(pos.in_bounds());
            starts.push(pos);
            headings.push(direction);
            k += 1;
        }
        (starts, headings)
    }

    /// Whether a world looks as a generated world should: it has
    /// `expected_snakes` snakes, no two heads are closer than two cells, and
    /// it has at least one apple and at most `APPLE_CAPACITY`.
    pub fn validate_game_state(game_state: &GameState, expected_snakes: usize) -> (valid: bool)
        ensures
            valid == (game_state.snake_states().len() == expected_snakes && (forall|i: int, j: int|
                0 <= i < j < game_state.snake_states().len() ==> manhattan(
                    head_or_corner(#[trigger] game_state.snake_states()[i]),
                    head_or_corner(#[trigger] game_state.snake_states()[j]),
                ) >= 2) && 0 < game_state.num_apples <= APPLE_CAPACITY),
    {
        if game_state.snakes.len() != expected_snakes {
            return false;
        }
        let ghost states = game_state.snake_states();
        let n = game_state.snakes.len();
        let mut positions: Vec<Point> = Vec::with_capacity(n);
        let mut k: usize = 0;
        while k < n
            invariant
                k <= n,
                n == states.len(),
                states == game_state.snake_states(),
                positions@.len() == k,
                forall|m: int| 0 <= m < k ==> #[trigger] positions@[m] == head_or_corner(states[m]),
            decreases n - k,
        {
            let head = match game_state.snakes[k].head() {
                Some(p) => *p,
                None => Point { x: 0, y: 0 },
            };
            assert(game_state.snakes@[k as int]@ == states[k as int]);
            positions.push(head);
            k += 1;
        }

        let mut min_distance: u32 = u32::MAX;
        let mut i: usize = 0;
        while i < n
            invariant
                i <= n,
                positions@.len() == n,
                min_distance >= 2 <==> forall|a: int, b: int|
                    0 <= a < b < n && a < i ==> manhattan(
                        #[trigger] positions@[a],
                        #[trigger] positions@[b],
                    ) >= 2,
            decreases n - i,
        {
            let mut j: usize = i + 1;
            while j < n
                invariant
                    i < n,
                    i < j <= n,
                    positions@.len() == n,
                    min_distance >= 2 <==> forall|a: int, b: int|
                        0 <= a < b < n && (a < i || (a == i && b < j)) ==> manhattan(
                            #[trigger] positions@[a],
                            #[trigger] positions@[b],
                        ) >= 2,
                decreases n - j,
            {
                let p = positions[i];
                let q = positions[j];
                let dx: u32 = if p.x >= q.x {
                    (p.x - q.x) as u32
                } else {
                    (q.x - p.x) as u32
                };
                let dy: u32 = if p.y >= q.y {
                    (p.y - q.y) as u32
                } else {
                    (q.y - p.y) as u32
                };
                let distance = dx + dy;
                assert(distance == manhattan(positions@[i as int], positions@[j as int]));
                if distance < min_distance {
                    min_distance = distance;
                }
                j += 1;
            }
            i += 1;
        }
        proof {
            assert((forall|a: int, b: int|
                0 <= a < b < n ==> manhattan(#[trigger] positions@[a], #[trigger] positions@[b])
                    >= 2) <==> (forall|a: int, b: int|
                0 <= a < b < states.len() ==> manhattan(
                    head_or_corner(#[trigger] states[a]),
                    head_or_corner(#[trigger] states[b]),
                ) >= 2)) by {
                if forall|a: int, b: int|
                    0 <= a < b < n ==> manhattan(#[trigger] positions@[a], #[trigger] positions@[b])
                        >= 2 {
                    assert forall|a: int, b: int| 0 <= a < b < states.len() implies manhattan(
                        head_or_corner(#[trigger] states[a]),
                        head_or_corner(#[trigger] states[b]),
                    ) >= 2 by {
                        assert(manhattan(positions@[a], positions@[b]) >= 2);
                    }
                }
                if forall|a: int, b: int|
                    0 <= a < b < states.len() ==> manhattan(
                        head_or_corner(#[trigger] states[a]),
                        head_or_corner(#[trigger] states[b]),
                    ) >= 2 {
                    assert forall|a: int, b: int| 0 <= a < b < n implies manhattan(
                        #[trigger] positions@[a],
                        #[trigger] positions@[b],
                    ) >= 2 by {
                        assert(manhattan(head_or_corner(states[a]), head_or_corner(states[b]))
                            >= 2);
                    }
                }
            }
        }
        if min_distance < 2 {
            return false;
        }
        let active_apples = game_state.num_apples;
        if active_apples == 0 {
            return false;
        }
        if active_apples > APPLE_CAPACITY as u64 {
            return false;
        }
        true
    }

    /// The places of the apples for a world with these snakes: the picks
    /// among the empty cells, as many as a thousandth of the cells that
    /// three segments a snake would leave, and at most `APPLE_CAPACITY`.
    #[allow(dead_code)]
    fn calculate_strategic_apple_positions(
        grid: &Grid,
        _seed: u64,
        snakes: &Vec<GridAwareSnake>,
    ) -> (positions: Vec<Point>)
        requires
            grid.wf(),
            snakes@.len() * 3 <= GRID_WIDTH * GRID_HEIGHT,
        ensures
            picks_of(positions@) == apple_picks(grid@, strategic_target(snakes@.len() as int)),
            free_places(positions@, grid@),
            positions@.len() <= APPLE_CAPACITY,
    {
        let mut positions: Vec<Point> = Vec::new();
        let empty_cells: usize = GRID_WIDTH * GRID_HEIGHT - snakes.len() * 3;
        let target_apples: usize = if empty_cells / 1000 < APPLE_CAPACITY {
            empty_cells / 1000
        } else {
            APPLE_CAPACITY
        };
        assert(picks_of(positions@) =~= Seq::<int>::empty());
        scan_pass(grid, &mut positions, 1000, target_apples, false);
        if positions.len() < target_apples {
            scan_pass(grid, &mut positions, 500, target_apples, true);
        }
        positions
    }

    /// Lays out one snake of `length` segments at each of the places, heading
    /// right, on a grid without snakes or apples.
    fn place_snakes(grid: &mut Grid, places: &Vec<Point>, length: usize) -> (r: (
        Vec<GridAwareSnake>,
        Ghost<Seq<SnakeState>>,
    ))
        requires
            old(grid).wf(),
            old(grid)@ == blank(),
            length >= 1,
            places@.len() <= u32::MAX,
            all_in_bounds(places@),
        ensures
            final(grid).wf(),
            r.0@.len() == places@.len(),
            r.1@.len() == places@.len(),
            forall|i: int| 0 <= i < places@.len() ==> (#[trigger] r.0@[i])@ == r.1@[i],
            forall|i: int|
                0 <= i < places@.len() ==> #[trigger] r.1@[i] == laid(
                    i as u32,
                    places@[i],
                    Direction::Right,
                    length as int,
                ),
            snakes_wf(r.1@),
            bodies_marked(r.1@, final(grid)@),
            final(grid)@ == painted_all(blank(), bodies_of(r.1@), Cell::Snake),
            forall|c: int| 0 <= c < final(grid)@.len() ==> final(grid)@[c] != Cell::Apple,
    {
        let mut snakes: Vec<GridAwareSnake> = Vec::with_capacity(places.len());
        let ghost mut states = Seq::<SnakeState>::empty();
        let mut i: usize = 0;
        assert(grid@ =~= painted_all(blank(), bodies_of(states), Cell::Snake));
        while i < places.len()
            invariant
                i <= places@.len(),
                places@.len() <= u32::MAX,
                all_in_bounds(places@),
                length >= 1,
                grid.wf(),
                snakes@.len() == i,
                states.len() == i,
                forall|j: int| 0 <= j < i ==> (#[trigger] snakes@[j])@ == states[j],
                forall|j: int|
                    0 <= j < i ==> #[trigger] states[j] == laid(
                        j as u32,
                        places@[j],
                        Direction::Right,
                        length as int,
                    ),
                snakes_wf(states),
                bodies_marked(states, grid@),
                grid@ == painted_all(blank(), bodies_of(states), Cell::Snake),
                forall|c: int| 0 <= c < grid@.len() ==> grid@[c] != Cell::Apple,
            decreases places@.len() - i,
        {
            let pos = places[i];
            let ghost fresh = laid(i as u32, pos, Direction::Right, length as int);
            let ghost cells = grid@;
            proof {
                lemma_laid_wf(i as u32, pos, Direction::Right, length as int);
                lemma_snake_painted(states, cells, fresh);
                lemma_paint_all_step(blank(), bodies_of(states), fresh.body, Cell::Snake);
            }
            place_snake(&mut snakes, grid, i as u32, pos, Direction::Right, length);
            proof {
                states = states.push(fresh);
            }
            i += 1;
        }
        (snakes, Ghost(states))
    }

    /// The points of a slice, in a vector.
    fn copy_positions(points: &[Point]) -> (copy: Vec<Point>)
        ensures
            copy@ == points@,
    {
        let mut copy: Vec<Point> = Vec::new();
        let mut i: usize = 0;
        while i < points.len()
            invariant
                i <= points@.len(),
                copy@ == points@.take(i as int),
            decreases points@.len() - i,
        {
            copy.push(points[i]);
            assert(copy@ =~= points@.take(i + 1));
            i += 1;
        }
        assert(points@.take(points@.len() as int) =~= points@);
        copy
    }

    /// The distance to keep between snakes laid out in rows.
    pub fn calculate_snake_spacing(num_snakes: usize) -> (spacing: usize)
        ensures
            is_spacing(spacing as int, num_snakes as int),
            num_snakes > 0 ==> 2 <= spacing <= 2828,
    {
        if num_snakes == 0 {
            return usize::MAX;
        }
        let total_cells: usize = GRID_WIDTH * GRID_HEIGHT;
        let available_cells: usize = total_cells / 2;
        let share: usize = available_cells / num_snakes;
        let mut root: usize = 0;
        let mut next_square: usize = 1;
        while next_square <= share
            invariant
                share <= 8000000,
                root <= 2828,
                root * root <= share,
                next_square == (root + 1) * (root + 1),
                next_square <= 8003241,
            decreases 2829 - root,
        {
            assert(root + 1 <= 2828 && (root + 2) * (root + 2) == next_square + 2 * root + 3 && (
            root + 2) * (root + 2) <= 8003241) by (nonlinear_arith)
                requires
                    next_square == (root + 1) * (root + 1),
                    next_square <= share,
                    share <= 8000000,
            ;
            next_square = next_square + 2 * root + 3;
            root += 1;
        }
        if root < 2 {
            assert(share < 9) by (nonlinear_arith)
                requires
                    share < (root + 1) * (root + 1),
                    root < 2,
            ;
            2
        } else {
            assert(root == 2 ==> share < 9) by (nonlinear_arith)
                requires
                    share < (root + 1) * (root + 1),
            ;
            assert(root >= 3 ==> share >= 9) by (nonlinear_arith)
                requires
                    root * root <= share,
            ;
            root
        }
    }

    /// The places of the apples of a world made by rule: the picks among the
    /// empty cells of the grid, up to `APPLE_CAPACITY`. The seed is not
    /// used.
    pub fn calculate_apple_positions(grid: &Grid, _seed: u64) -> (positions: Vec<Point>)
        requires
            grid.wf(),
        ensures
            picks_of(positions@) == apple_picks(grid@, APPLE_CAPACITY as int),
            free_places(positions@, grid@),
            positions@.len() <= APPLE_CAPACITY,
    {
        let mut positions: Vec<Point> = Vec::new();
        let empty_cells: usize = GRID_WIDTH * GRID_HEIGHT - 100;
        let target_apples: usize = if empty_cells / 1000 < APPLE_CAPACITY {
            empty_cells / 1000
        } else {
            APPLE_CAPACITY
        };
        assert(picks_of(positions@) =~= Seq::<int>::empty());
        scan_pass(grid, &mut positions, 1000, target_apples, false);
        if positions.len() < target_apples {
            scan_pass(grid, &mut positions, 500, target_apples, true);
        }
        positions
    }

    /// The places of up to `num_snakes` snakes in rows: the positions of the
    /// walk along the rows.
    pub fn calculate_grid_positions(num_snakes: usize, spacing: usize) -> (positions: Vec<Point>)
        requires
            num_snakes == 0 || spacing <= GRID_WIDTH,
        ensures
            positions@ == grid_walk(num_snakes as int, spacing as int).positions,
            positions@.len() <= num_snakes,
            forall|k: int| 0 <= k < positions@.len() ==> (#[trigger] positions@[k]).in_bounds(),
    {
        let mut positions: Vec<Point> = Vec::new();
        let mut x: usize = spacing;
        let mut y: usize = spacing;
        let mut placed: usize = 0;
        while placed < num_snakes
            invariant_except_break
                !grid_walk(placed as int, spacing as int).stopped,
            invariant
                placed <= num_snakes,
                num_snakes == 0 || spacing <= GRID_WIDTH,
                num_snakes > 0 ==> x <= GRID_WIDTH + spacing,
                num_snakes > 0 ==> y <= GRID_HEIGHT + spacing,
                grid_walk(placed as int, spacing as int).x == x,
                grid_walk(placed as int, spacing as int).y == y,
                grid_walk(placed as int, spacing as int).positions == positions@,
                positions@.len() <= placed,
                forall|k: int| 0 <= k < positions@.len() ==> (#[trigger] positions@[k]).in_bounds(),
            ensures
                placed == num_snakes || grid_walk(placed as int, spacing as int).stopped,
                placed <= num_snakes,
            decreases num_snakes - placed,
        {
            if x >= GRID_WIDTH - spacing {
                x = spacing;
                y += spacing;
            }
            if y >= GRID_HEIGHT - spacing {
                proof {
                    assert(grid_walk(placed + 1, spacing as int).stopped);
                }
                placed += 1;
                break ;
            }
            positions.push(Point { x: x as u16, y: y as u16 });
            x += spacing;
            placed += 1;
        }
        proof {
            if placed < num_snakes {
                lemma_walk_stopped(placed as int, num_snakes as int, spacing as int);
            }
        }
        positions
    }
}

/// The generator of the random world.
pub struct RandomGenerator;

impl RandomGenerator {
    /// A random world, as `GameState::random` makes it: `SNAKE_CAPACITY` alive
    /// snakes, each on four empty cells in a row or, after more than 1000
    /// failed draws, as one segment in the corner `(0, 0)`; the first snake
    /// always on four cells; and up to `APPLE_CAPACITY` apples on empty cells.
    pub fn generate() -> (state: GameState)
        ensures
            state.wf(),
            state.snake_states().len() == SNAKE_CAPACITY,
            forall|j: int|
                0 <= j < SNAKE_CAPACITY ==> ({
                    let s = #[trigger] state.snake_states()[j];
                    s.alive && ((s.body.len() == 4 && in_a_row(s.body, s.direction)) || s.body
                        == seq![corner()])
                }),
            state.snake_states()[0].body.len() == 4,
            fours_apart(state.snake_states()),
            bodies_marked(state.snake_states(), state.grid@),
            state.num_apples == apple_count(state.grid@),
            state.num_apples <= APPLE_CAPACITY,
            all_four(state.snake_states()) ==> state.consistent(),
    {
        GameState::random()
    }
}

} // verus!
