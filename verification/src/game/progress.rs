//! What holds in the middle of a tick, while the engine walks the buckets:
//! the snakes that had their turn are as the model says, the others are
//! untouched. The lemmas carry these facts from one record to the next.

use vstd::prelude::*;
use crate::game::engine::MovementRecord;
use crate::game::grid::{Cell, GRID_HEIGHT, GRID_WIDTH};
use crate::game::model::{
    blocked, bucket_of, contested, eats, headed_for, moves, snake_after, snakes_wf, vacated,
};
use crate::game::snake::SnakeState;
use crate::game::types::{lemma_index_injective, lemma_step_in_bounds, Point};

verus! {

/// Every bucket of `snap` holds the intents of the snakes `s1` that fall in
/// its band.
pub open spec fn all_filled(snap: Seq<Seq<MovementRecord>>, s1: Seq<SnakeState>) -> bool {
    &&& snap.len() == 256
    &&& forall|b: int|
        0 <= b < 256 ==> bucket_filled(#[trigger] snap[b], s1, b, s1.len() as int)
}

/// Snake `j` had its turn before the engine reached record `k` of bucket
/// `b`.
pub open spec fn served(
    snap: Seq<Seq<MovementRecord>>,
    s1: Seq<SnakeState>,
    j: int,
    b: int,
    k: int,
) -> bool {
    s1[j].alive && (bucket_of(s1[j].next_head()) < b || (bucket_of(s1[j].next_head()) == b
        && has_record(snap[b].take(k), j)))
}

/// Some snake that had its turn heads for the cell at position `c`.
pub open spec fn reached(
    snap: Seq<Seq<MovementRecord>>,
    s1: Seq<SnakeState>,
    c: int,
    b: int,
    k: int,
) -> bool {
    exists|j: int|
        0 <= j < s1.len() && #[trigger] served(snap, s1, j, b, k) && s1[j].next_head().index()
            == c
}

/// Some snake that had its turn moved without growing and left its tail at
/// position `c`.
pub open spec fn left_behind(
    snap: Seq<Seq<MovementRecord>>,
    s1: Seq<SnakeState>,
    g0: Seq<Cell>,
    c: int,
    b: int,
    k: int,
) -> bool {
    exists|j: int|
        0 <= j < s1.len() && #[trigger] served(snap, s1, j, b, k) && moves(s1, g0, j) && !eats(
            s1,
            g0,
            j,
        ) && s1[j].body.last().index() == c
}

/// Some tail bucket holds a point whose cell is at position `c`.
pub open spec fn in_tails(tails: Seq<Seq<Point>>, c: int) -> bool {
    exists|t: int, m: int|
        0 <= t < tails.len() && 0 <= m < tails[t].len() && (#[trigger] tails[t][m]).index() == c
}

/// The snakes that had their turn are as after the tick, the others as
/// before.
pub open spec fn snakes_progress(
    snakes: Seq<SnakeState>,
    snap: Seq<Seq<MovementRecord>>,
    s1: Seq<SnakeState>,
    g0: Seq<Cell>,
    b: int,
    k: int,
) -> bool {
    &&& snakes.len() == s1.len()
    &&& forall|j: int|
        0 <= j < s1.len() ==> #[trigger] snakes[j] == if served(snap, s1, j, b, k) {
            snake_after(s1, g0, j)
        } else {
            s1[j]
        }
}

/// A cell holds a snake if it did before, or if a snake that had its turn
/// heads for it; any other cell is unchanged.
pub open spec fn cells_progress(
    cells: Seq<Cell>,
    snap: Seq<Seq<MovementRecord>>,
    s1: Seq<SnakeState>,
    g0: Seq<Cell>,
    b: int,
    k: int,
) -> bool {
    &&& cells.len() == g0.len()
    &&& g0.len() == GRID_WIDTH * GRID_HEIGHT
    &&& forall|c: int|
        0 <= c < g0.len() ==> #[trigger] cells[c] == if g0[c] == Cell::Snake || reached(
            snap,
            s1,
            c,
            b,
            k,
        ) {
            Cell::Snake
        } else {
            g0[c]
        }
}

/// The tail buckets hold the tails that were left behind so far, and nothing
/// else.
pub open spec fn tails_progress(
    tails: Seq<Seq<Point>>,
    snap: Seq<Seq<MovementRecord>>,
    s1: Seq<SnakeState>,
    g0: Seq<Cell>,
    b: int,
    k: int,
) -> bool {
    &&& tails.len() == 256
    &&& forall|t: int, m: int|
        0 <= t < tails.len() && 0 <= m < tails[t].len() ==> (#[trigger] tails[t][m]).in_bounds()
    &&& forall|c: int|
        #![trigger in_tails(tails, c)]
        #![trigger left_behind(snap, s1, g0, c, b, k)]
        in_tails(tails, c) == left_behind(snap, s1, g0, c, b, k)
}

/// `eaten` holds the snakes that had their turn and ate.
pub open spec fn eaten_progress(
    eaten: Set<int>,
    snap: Seq<Seq<MovementRecord>>,
    s1: Seq<SnakeState>,
    g0: Seq<Cell>,
    b: int,
    k: int,
) -> bool {
    &&& eaten.finite()
    &&& forall|j: int|
        #[trigger] eaten.contains(j) == (0 <= j < s1.len() && served(snap, s1, j, b, k) && eats(
            s1,
            g0,
            j,
        ))
}

/// The snake of record `k` in bucket `b` has not had its turn; after it,
/// exactly one more snake has.
pub proof fn lemma_served_next(snap: Seq<Seq<MovementRecord>>, s1: Seq<SnakeState>, b: int, k: int)
    requires
        all_filled(snap, s1),
        0 <= b < 256,
        0 <= k < snap[b].len(),
    ensures
        0 <= snap[b][k].snake_id < s1.len(),
        s1[snap[b][k].snake_id as int].alive,
        snap[b][k].new_head == s1[snap[b][k].snake_id as int].next_head(),
        bucket_of(snap[b][k].new_head) == b,
        !served(snap, s1, snap[b][k].snake_id as int, b, k),
        forall|j: int|
            0 <= j < s1.len() ==> #[trigger] served(snap, s1, j, b, k + 1) == (served(
                snap,
                s1,
                j,
                b,
                k,
            ) || j == snap[b][k].snake_id),
{
    let bucket = snap[b];
    let id = bucket[k].snake_id as int;
    assert(bucket_filled(bucket, s1, b, s1.len() as int));
    assert(bucket[k].snake_id == id);
    if has_record(bucket.take(k), id) {
        let m = choose|m: int| 0 <= m < bucket.take(k).len() && (#[trigger] bucket.take(k)[m]).snake_id == id;
        assert(bucket[m].snake_id < bucket[k].snake_id);
    }
    assert forall|j: int| 0 <= j < s1.len() implies #[trigger] served(snap, s1, j, b, k + 1) == (
    served(snap, s1, j, b, k) || j == id) by {
        if has_record(bucket.take(k), j) {
            let m = choose|m: int|
                0 <= m < bucket.take(k).len() && (#[trigger] bucket.take(k)[m]).snake_id == j;
            assert(bucket.take(k + 1)[m].snake_id == j);
        }
        if j == id {
            assert(bucket.take(k + 1)[k].snake_id == j);
        }
        if has_record(bucket.take(k + 1), j) {
            let m = choose|m: int|
                0 <= m < bucket.take(k + 1).len() && (#[trigger] bucket.take(k + 1)[m]).snake_id
                    == j;
            if m < k {
                assert(bucket.take(k)[m].snake_id == j);
            } else {
                assert(j == id);
            }
        }
    }
}

/// At the end of a bucket, the snakes that had their turn are those of the
/// bands up to it.
pub proof fn lemma_served_bucket_end(snap: Seq<Seq<MovementRecord>>, s1: Seq<SnakeState>, b: int)
    requires
        all_filled(snap, s1),
        0 <= b < 256,
    ensures
        forall|j: int|
            0 <= j < s1.len() ==> #[trigger] served(snap, s1, j, b + 1, 0) == served(
                snap,
                s1,
                j,
                b,
                snap[b].len() as int,
            ),
{
    let bucket = snap[b];
    assert(bucket_filled(bucket, s1, b, s1.len() as int));
    assert(bucket.take(bucket.len() as int) =~= bucket);
    assert forall|j: int| 0 <= j < s1.len() implies #[trigger] served(snap, s1, j, b + 1, 0)
        == served(snap, s1, j, b, bucket.len() as int) by {
        if s1[j].alive && bucket_of(s1[j].next_head()) == b {
            assert(has_record(bucket, j));
        }
        if b + 1 < 256 {
            assert(snap[b + 1].take(0).len() == 0);
        }
    }
}

/// Before any bucket, no snake has had its turn.
pub proof fn lemma_served_start(snap: Seq<Seq<MovementRecord>>, s1: Seq<SnakeState>)
    requires
        all_filled(snap, s1),
    ensures
        forall|j: int| 0 <= j < s1.len() ==> !#[trigger] served(snap, s1, j, 0, 0),
{
    assert(snap[0].take(0).len() == 0);
}

/// After the last bucket, every alive snake has had its turn.
pub proof fn lemma_served_end(snap: Seq<Seq<MovementRecord>>, s1: Seq<SnakeState>)
    requires
        all_filled(snap, s1),
        snakes_wf(s1),
    ensures
        forall|j: int| 0 <= j < s1.len() ==> #[trigger] served(snap, s1, j, 256, 0) == s1[j].alive,
{
    assert forall|j: int| 0 <= j < s1.len() implies #[trigger] served(snap, s1, j, 256, 0)
        == s1[j].alive by {
        if s1[j].alive {
            lemma_step_in_bounds(s1[j].body[0], s1[j].direction);
        }
    }
}

/// What the engine reads at the head of the snake whose turn it is: a snake
/// cell exactly when the model calls the snake blocked, and else what the
/// cell held before the tick.
pub proof fn lemma_observed(
    cells: Seq<Cell>,
    snap: Seq<Seq<MovementRecord>>,
    s1: Seq<SnakeState>,
    g0: Seq<Cell>,
    b: int,
    k: int,
)
    requires
        all_filled(snap, s1),
        snakes_wf(s1),
        cells_progress(cells, snap, s1, g0, b, k),
        0 <= b < 256,
        0 <= k < snap[b].len(),
    ensures
        ({
            let j = snap[b][k].snake_id as int;
            let c = s1[j].next_head().index();
            &&& 0 <= c < g0.len()
            &&& (cells[c] == Cell::Snake) == blocked(s1, g0, j)
            &&& cells[c] != Cell::Snake ==> cells[c] == g0[c]
        }),
{
    lemma_served_next(snap, s1, b, k);
    let bucket = snap[b];
    let j = bucket[k].snake_id as int;
    let nh = s1[j].next_head();
    let c = nh.index();
    lemma_step_in_bounds(s1[j].body[0], s1[j].direction);
    lemma_index_injective(nh, nh);
    assert(bucket_filled(bucket, s1, b, s1.len() as int));
    if reached(snap, s1, c, b, k) {
        let i = choose|i: int|
            0 <= i < s1.len() && #[trigger] served(snap, s1, i, b, k) && s1[i].next_head().index()
                == c;
        lemma_step_in_bounds(s1[i].body[0], s1[i].direction);
        lemma_index_injective(s1[i].next_head(), nh);
        assert(has_record(bucket.take(k), i));
        let m = choose|m: int| 0 <= m < bucket.take(k).len() && (#[trigger] bucket.take(k)[m]).snake_id == i;
        assert(bucket[m].snake_id < bucket[k].snake_id);
        assert(s1[i].alive && s1[i].next_head() == s1[j].next_head());
        assert(contested(s1, j));
    }
    if contested(s1, j) {
        let i = choose|i: int|
            0 <= i < j && (#[trigger] s1[i]).alive && s1[i].next_head() == s1[j].next_head();
        assert(has_record(bucket, i));
        let m = choose|m: int| 0 <= m < bucket.len() && (#[trigger] bucket[m]).snake_id == i;
        if m >= k {
            if m > k {
                assert(bucket[k].snake_id < bucket[m].snake_id);
            }
            assert(false);
        }
        assert(bucket.take(k)[m].snake_id == i);
        assert(served(snap, s1, i, b, k));
        assert(reached(snap, s1, c, b, k));
    }
}

/// Marking the snake of the current record dead, when it is blocked, moves
/// the walk on by one record.
pub proof fn lemma_commit_blocked(
    snakes: Seq<SnakeState>,
    cells: Seq<Cell>,
    tails: Seq<Seq<Point>>,
    eaten: Set<int>,
    snap: Seq<Seq<MovementRecord>>,
    s1: Seq<SnakeState>,
    g0: Seq<Cell>,
    b: int,
    k: int,
)
    requires
        all_filled(snap, s1),
        snakes_wf(s1),
        snakes_progress(snakes, snap, s1, g0, b, k),
        cells_progress(cells, snap, s1, g0, b, k),
        tails_progress(tails, snap, s1, g0, b, k),
        eaten_progress(eaten, snap, s1, g0, b, k),
        0 <= b < 256,
        0 <= k < snap[b].len(),
        cells[s1[snap[b][k].snake_id as int].next_head().index()] == Cell::Snake,
    ensures
        ({
            let j = snap[b][k].snake_id as int;
            &&& snakes[j] == s1[j]
            &&& snakes_progress(snakes.update(j, s1[j].dead()), snap, s1, g0, b, k + 1)
            &&& cells_progress(cells, snap, s1, g0, b, k + 1)
            &&& tails_progress(tails, snap, s1, g0, b, k + 1)
            &&& eaten_progress(eaten, snap, s1, g0, b, k + 1)
        }),
{
    lemma_served_next(snap, s1, b, k);
    lemma_observed(cells, snap, s1, g0, b, k);
    let j = snap[b][k].snake_id as int;
    let c = s1[j].next_head().index();
    assert(blocked(s1, g0, j));
    assert(served(snap, s1, j, b, k + 1));
    let snakes2 = snakes.update(j, s1[j].dead());
    assert forall|i: int| 0 <= i < s1.len() implies #[trigger] snakes2[i] == if served(
        snap,
        s1,
        i,
        b,
        k + 1,
    ) {
        snake_after(s1, g0, i)
    } else {
        s1[i]
    } by {
        assert(snakes[i] == if served(snap, s1, i, b, k) {
            snake_after(s1, g0, i)
        } else {
            s1[i]
        });
    }
    assert forall|d: int| 0 <= d < g0.len() implies #[trigger] cells[d] == if g0[d] == Cell::Snake
        || reached(snap, s1, d, b, k + 1) {
        Cell::Snake
    } else {
        g0[d]
    } by {
        lemma_reached_next(snap, s1, d, b, k);
    }
    assert forall|d: int|
        #![trigger in_tails(tails, d)]
        #![trigger left_behind(snap, s1, g0, d, b, k + 1)]
        in_tails(tails, d) == left_behind(snap, s1, g0, d, b, k + 1) by {
        lemma_left_behind_next(snap, s1, g0, d, b, k);
        assert(in_tails(tails, d) == left_behind(snap, s1, g0, d, b, k));
    }
}

/// One more record adds the cell that its snake heads for to the cells
/// reached.
pub proof fn lemma_reached_next(
    snap: Seq<Seq<MovementRecord>>,
    s1: Seq<SnakeState>,
    c: int,
    b: int,
    k: int,
)
    requires
        all_filled(snap, s1),
        0 <= b < 256,
        0 <= k < snap[b].len(),
    ensures
        reached(snap, s1, c, b, k + 1) == (reached(snap, s1, c, b, k)
            || s1[snap[b][k].snake_id as int].next_head().index() == c),
{
    lemma_served_next(snap, s1, b, k);
    let j = snap[b][k].snake_id as int;
    if reached(snap, s1, c, b, k) {
        let i = choose|i: int|
            0 <= i < s1.len() && #[trigger] served(snap, s1, i, b, k) && s1[i].next_head().index()
                == c;
        assert(served(snap, s1, i, b, k + 1));
    }
    if s1[j].next_head().index() == c {
        assert(served(snap, s1, j, b, k + 1));
    }
    if reached(snap, s1, c, b, k + 1) {
        let i = choose|i: int|
            0 <= i < s1.len() && #[trigger] served(snap, s1, i, b, k + 1)
                && s1[i].next_head().index() == c;
        if i != j {
            assert(served(snap, s1, i, b, k));
        }
    }
}

/// One more record adds the tail of its snake to the tails left behind, if
/// the snake moves without growing.
pub proof fn lemma_left_behind_next(
    snap: Seq<Seq<MovementRecord>>,
    s1: Seq<SnakeState>,
    g0: Seq<Cell>,
    c: int,
    b: int,
    k: int,
)
    requires
        all_filled(snap, s1),
        0 <= b < 256,
        0 <= k < snap[b].len(),
    ensures
        ({
            let j = snap[b][k].snake_id as int;
            left_behind(snap, s1, g0, c, b, k + 1) == (left_behind(snap, s1, g0, c, b, k) || (
            moves(s1, g0, j) && !eats(s1, g0, j) && s1[j].body.last().index() == c))
        }),
{
    lemma_served_next(snap, s1, b, k);
    let j = snap[b][k].snake_id as int;
    if left_behind(snap, s1, g0, c, b, k) {
        let i = choose|i: int|
            0 <= i < s1.len() && #[trigger] served(snap, s1, i, b, k) && moves(s1, g0, i) && !eats(
                s1,
                g0,
                i,
            ) && s1[i].body.last().index() == c;
        assert(served(snap, s1, i, b, k + 1));
    }
    if moves(s1, g0, j) && !eats(s1, g0, j) && s1[j].body.last().index() == c {
        assert(served(snap, s1, j, b, k + 1));
    }
    if left_behind(snap, s1, g0, c, b, k + 1) {
        let i = choose|i: int|
            0 <= i < s1.len() && #[trigger] served(snap, s1, i, b, k + 1) && moves(s1, g0, i)
                && !eats(s1, g0, i) && s1[i].body.last().index() == c;
        if i != j {
            assert(served(snap, s1, i, b, k));
        }
    }
}

/// Pushing a point into a tail bucket adds its cell to those the buckets
/// hold.
pub proof fn lemma_in_tails_push(tails: Seq<Seq<Point>>, t: int, p: Point, c: int)
    requires
        0 <= t < tails.len(),
    ensures
        in_tails(tails.update(t, tails[t].push(p)), c) == (in_tails(tails, c) || p.index() == c),
{
    let after = tails.update(t, tails[t].push(p));
    if in_tails(tails, c) {
        let (u, m) = choose|u: int, m: int|
            0 <= u < tails.len() && 0 <= m < tails[u].len() && (#[trigger] tails[u][m]).index()
                == c;
        assert(after[u][m].index() == c);
    }
    if p.index() == c {
        assert(after[t][tails[t].len() as int].index() == c);
    }
    if in_tails(after, c) {
        let (u, m) = choose|u: int, m: int|
            0 <= u < after.len() && 0 <= m < after[u].len() && (#[trigger] after[u][m]).index()
                == c;
        if u == t && m == tails[t].len() {
        } else {
            assert(tails[u][m].index() == c);
        }
    }
}

/// Moving the snake of the current record ahead, when it is not blocked,
/// moves the walk on by one record: its new head is marked, its tail is
/// noted unless it grows, and it counts as an eater if the cell held an
/// apple.
pub proof fn lemma_commit_move(
    snakes: Seq<SnakeState>,
    cells: Seq<Cell>,
    tails: Seq<Seq<Point>>,
    eaten: Set<int>,
    snap: Seq<Seq<MovementRecord>>,
    s1: Seq<SnakeState>,
    g0: Seq<Cell>,
    b: int,
    k: int,
)
    requires
        all_filled(snap, s1),
        snakes_wf(s1),
        snakes_progress(snakes, snap, s1, g0, b, k),
        cells_progress(cells, snap, s1, g0, b, k),
        tails_progress(tails, snap, s1, g0, b, k),
        eaten_progress(eaten, snap, s1, g0, b, k),
        0 <= b < 256,
        0 <= k < snap[b].len(),
        cells[s1[snap[b][k].snake_id as int].next_head().index()] != Cell::Snake,
    ensures
        ({
            let j = snap[b][k].snake_id as int;
            let c = s1[j].next_head().index();
            let grow = cells[c] == Cell::Apple;
            let tail = s1[j].body.last();
            let t = bucket_of(tail);
            &&& snakes[j] == s1[j]
            &&& moves(s1, g0, j)
            &&& grow == eats(s1, g0, j)
            &&& !eaten.contains(j)
            &&& 0 <= t < 256
            &&& snakes_progress(snakes.update(j, s1[j].advance(grow)), snap, s1, g0, b, k + 1)
            &&& cells_progress(cells.update(c, Cell::Snake), snap, s1, g0, b, k + 1)
            &&& tails_progress(
                if grow {
                    tails
                } else {
                    tails.update(t, tails[t].push(tail))
                },
                snap,
                s1,
                g0,
                b,
                k + 1,
            )
            &&& eaten_progress(
                if grow {
                    eaten.insert(j)
                } else {
                    eaten
                },
                snap,
                s1,
                g0,
                b,
                k + 1,
            )
        }),
{
    lemma_served_next(snap, s1, b, k);
    lemma_observed(cells, snap, s1, g0, b, k);
    let j = snap[b][k].snake_id as int;
    let c = s1[j].next_head().index();
    let grow = cells[c] == Cell::Apple;
    let tail = s1[j].body.last();
    let t = bucket_of(tail);
    assert(!blocked(s1, g0, j));
    assert(served(snap, s1, j, b, k + 1));
    assert(tail.in_bounds());
    let snakes2 = snakes.update(j, s1[j].advance(grow));
    assert forall|i: int| 0 <= i < s1.len() implies #[trigger] snakes2[i] == if served(
        snap,
        s1,
        i,
        b,
        k + 1,
    ) {
        snake_after(s1, g0, i)
    } else {
        s1[i]
    } by {
        assert(snakes[i] == if served(snap, s1, i, b, k) {
            snake_after(s1, g0, i)
        } else {
            s1[i]
        });
    }
    let cells2 = cells.update(c, Cell::Snake);
    assert forall|d: int| 0 <= d < g0.len() implies #[trigger] cells2[d] == if g0[d]
        == Cell::Snake || reached(snap, s1, d, b, k + 1) {
        Cell::Snake
    } else {
        g0[d]
    } by {
        lemma_reached_next(snap, s1, d, b, k);
        assert(cells[d] == if g0[d] == Cell::Snake || reached(snap, s1, d, b, k) {
            Cell::Snake
        } else {
            g0[d]
        });
    }
    let tails2 = if grow {
        tails
    } else {
        tails.update(t, tails[t].push(tail))
    };
    assert forall|d: int|
        #![trigger in_tails(tails2, d)]
        #![trigger left_behind(snap, s1, g0, d, b, k + 1)]
        in_tails(tails2, d) == left_behind(snap, s1, g0, d, b, k + 1) by {
        lemma_left_behind_next(snap, s1, g0, d, b, k);
        assert(in_tails(tails, d) == left_behind(snap, s1, g0, d, b, k));
        if !grow {
            lemma_in_tails_push(tails, t, tail, d);
        }
    }
    assert forall|u: int, m: int| 0 <= u < tails2.len() && 0 <= m < tails2[u].len() implies (
    #[trigger] tails2[u][m]).in_bounds() by {
        if !grow && u == t && m == tails[t].len() {
        } else {
            assert(tails[u][m].in_bounds());
        }
    }
}

/// The end of a bucket is the start of the next.
pub proof fn lemma_commit_next_bucket(
    snakes: Seq<SnakeState>,
    cells: Seq<Cell>,
    tails: Seq<Seq<Point>>,
    eaten: Set<int>,
    snap: Seq<Seq<MovementRecord>>,
    s1: Seq<SnakeState>,
    g0: Seq<Cell>,
    b: int,
)
    requires
        all_filled(snap, s1),
        0 <= b < 256,
        snakes_progress(snakes, snap, s1, g0, b, snap[b].len() as int),
        cells_progress(cells, snap, s1, g0, b, snap[b].len() as int),
        tails_progress(tails, snap, s1, g0, b, snap[b].len() as int),
        eaten_progress(eaten, snap, s1, g0, b, snap[b].len() as int),
    ensures
        snakes_progress(snakes, snap, s1, g0, b + 1, 0),
        cells_progress(cells, snap, s1, g0, b + 1, 0),
        tails_progress(tails, snap, s1, g0, b + 1, 0),
        eaten_progress(eaten, snap, s1, g0, b + 1, 0),
{
    lemma_served_bucket_end(snap, s1, b);
    let k = snap[b].len() as int;
    assert forall|j: int| 0 <= j < s1.len() implies #[trigger] snakes[j] == if served(
        snap,
        s1,
        j,
        b + 1,
        0,
    ) {
        snake_after(s1, g0, j)
    } else {
        s1[j]
    } by {
        assert(served(snap, s1, j, b + 1, 0) == served(snap, s1, j, b, k));
    }
    assert forall|c: int| reached(snap, s1, c, b + 1, 0) == reached(snap, s1, c, b, k) by {
        if reached(snap, s1, c, b + 1, 0) {
            let i = choose|i: int|
                0 <= i < s1.len() && #[trigger] served(snap, s1, i, b + 1, 0)
                    && s1[i].next_head().index() == c;
            assert(served(snap, s1, i, b, k));
        }
        if reached(snap, s1, c, b, k) {
            let i = choose|i: int|
                0 <= i < s1.len() && #[trigger] served(snap, s1, i, b, k)
                    && s1[i].next_head().index() == c;
            assert(served(snap, s1, i, b + 1, 0));
        }
    }
    assert forall|c: int|
        left_behind(snap, s1, g0, c, b + 1, 0) == left_behind(snap, s1, g0, c, b, k) by {
        if left_behind(snap, s1, g0, c, b + 1, 0) {
            let i = choose|i: int|
                0 <= i < s1.len() && #[trigger] served(snap, s1, i, b + 1, 0) && moves(s1, g0, i)
                    && !eats(s1, g0, i) && s1[i].body.last().index() == c;
            assert(served(snap, s1, i, b, k));
        }
        if left_behind(snap, s1, g0, c, b, k) {
            let i = choose|i: int|
                0 <= i < s1.len() && #[trigger] served(snap, s1, i, b, k) && moves(s1, g0, i)
                    && !eats(s1, g0, i) && s1[i].body.last().index() == c;
            assert(served(snap, s1, i, b + 1, 0));
        }
    }
    assert forall|c: int| 0 <= c < g0.len() implies #[trigger] cells[c] == if g0[c] == Cell::Snake
        || reached(snap, s1, c, b + 1, 0) {
        Cell::Snake
    } else {
        g0[c]
    } by {
        assert(reached(snap, s1, c, b + 1, 0) == reached(snap, s1, c, b, k));
    }
    assert forall|c: int|
        #![trigger in_tails(tails, c)]
        #![trigger left_behind(snap, s1, g0, c, b + 1, 0)]
        in_tails(tails, c) == left_behind(snap, s1, g0, c, b + 1, 0) by {
        assert(left_behind(snap, s1, g0, c, b + 1, 0) == left_behind(snap, s1, g0, c, b, k));
        assert(in_tails(tails, c) == left_behind(snap, s1, g0, c, b, k));
    }
    assert forall|j: int|
        #[trigger] eaten.contains(j) == (0 <= j < s1.len() && served(snap, s1, j, b + 1, 0)
            && eats(s1, g0, j)) by {
        if 0 <= j < s1.len() {
            assert(served(snap, s1, j, b + 1, 0) == served(snap, s1, j, b, k));
        }
    }
}

/// Before the first record nothing has changed, no tail is noted and no
/// snake has eaten.
pub proof fn lemma_commit_start(
    tails: Seq<Seq<Point>>,
    snap: Seq<Seq<MovementRecord>>,
    s1: Seq<SnakeState>,
    g0: Seq<Cell>,
)
    requires
        all_filled(snap, s1),
        g0.len() == GRID_WIDTH * GRID_HEIGHT,
        tails.len() == 256,
        forall|t: int| 0 <= t < 256 ==> (#[trigger] tails[t]).len() == 0,
    ensures
        snakes_progress(s1, snap, s1, g0, 0, 0),
        cells_progress(g0, snap, s1, g0, 0, 0),
        tails_progress(tails, snap, s1, g0, 0, 0),
        eaten_progress(Set::<int>::empty(), snap, s1, g0, 0, 0),
{
    lemma_served_start(snap, s1);
    assert forall|c: int| !reached(snap, s1, c, 0, 0) by {
        if reached(snap, s1, c, 0, 0) {
            let i = choose|i: int|
                0 <= i < s1.len() && #[trigger] served(snap, s1, i, 0, 0)
                    && s1[i].next_head().index() == c;
            assert(false);
        }
    }
    assert forall|c: int|
        #![trigger in_tails(tails, c)]
        #![trigger left_behind(snap, s1, g0, c, 0, 0)]
        in_tails(tails, c) == left_behind(snap, s1, g0, c, 0, 0) by {
        if in_tails(tails, c) {
            let (u, m) = choose|u: int, m: int|
                0 <= u < tails.len() && 0 <= m < tails[u].len() && (#[trigger] tails[u][m]).index()
                    == c;
            assert(tails[u].len() == 0);
        }
        if left_behind(snap, s1, g0, c, 0, 0) {
            let i = choose|i: int|
                0 <= i < s1.len() && #[trigger] served(snap, s1, i, 0, 0) && moves(s1, g0, i)
                    && !eats(s1, g0, i) && s1[i].body.last().index() == c;
            assert(false);
        }
    }
}

/// After the last record the snakes are as the model says, the cells too but
/// for the tails still to be cleared, the tail buckets hold the vacated
/// cells, and `eaten` is the set of eaters.
pub proof fn lemma_commit_end(
    snakes: Seq<SnakeState>,
    cells: Seq<Cell>,
    tails: Seq<Seq<Point>>,
    eaten: Set<int>,
    snap: Seq<Seq<MovementRecord>>,
    s1: Seq<SnakeState>,
    g0: Seq<Cell>,
)
    requires
        all_filled(snap, s1),
        snakes_wf(s1),
        snakes_progress(snakes, snap, s1, g0, 256, 0),
        cells_progress(cells, snap, s1, g0, 256, 0),
        tails_progress(tails, snap, s1, g0, 256, 0),
        eaten_progress(eaten, snap, s1, g0, 256, 0),
    ensures
        snakes == crate::game::model::snakes_after(s1, g0),
        forall|c: int|
            0 <= c < g0.len() ==> #[trigger] cells[c] == if g0[c] == Cell::Snake || headed_for(
                s1,
                c,
            ) {
                Cell::Snake
            } else {
                g0[c]
            },
        forall|c: int| #[trigger] in_tails(tails, c) == vacated(s1, g0, c),
        eaten == crate::game::model::eaters(s1, g0),
{
    lemma_served_end(snap, s1);
    assert(snakes =~= crate::game::model::snakes_after(s1, g0));
    assert forall|c: int| reached(snap, s1, c, 256, 0) == headed_for(s1, c) by {
        if reached(snap, s1, c, 256, 0) {
            let i = choose|i: int|
                0 <= i < s1.len() && #[trigger] served(snap, s1, i, 256, 0)
                    && s1[i].next_head().index() == c;
            assert(s1[i].alive);
        }
        if headed_for(s1, c) {
            let i = choose|i: int|
                0 <= i < s1.len() && (#[trigger] s1[i]).alive && s1[i].next_head().index() == c;
            assert(served(snap, s1, i, 256, 0));
        }
    }
    assert forall|c: int| 0 <= c < g0.len() implies #[trigger] cells[c] == if g0[c] == Cell::Snake
        || headed_for(s1, c) {
        Cell::Snake
    } else {
        g0[c]
    } by {
        assert(reached(snap, s1, c, 256, 0) == headed_for(s1, c));
    }
    assert forall|c: int| #[trigger] in_tails(tails, c) == vacated(s1, g0, c) by {
        assert(in_tails(tails, c) == left_behind(snap, s1, g0, c, 256, 0));
        if left_behind(snap, s1, g0, c, 256, 0) {
            let i = choose|i: int|
                0 <= i < s1.len() && #[trigger] served(snap, s1, i, 256, 0) && moves(s1, g0, i)
                    && !eats(s1, g0, i) && s1[i].body.last().index() == c;
            assert(moves(s1, g0, i));
        }
        if vacated(s1, g0, c) {
            let i = choose|i: int|
                0 <= i < s1.len() && #[trigger] moves(s1, g0, i) && !eats(s1, g0, i)
                    && s1[i].body.last().index() == c;
            assert(served(snap, s1, i, 256, 0));
        }
    }
    assert(eaten =~= crate::game::model::eaters(s1, g0));
}

/// The bucket holds a record of snake `j`.
pub open spec fn has_record(bucket: Seq<MovementRecord>, j: int) -> bool {
    exists|k: int| 0 <= k < bucket.len() && (#[trigger] bucket[k]).snake_id == j
}

/// Bucket `b` holds the intents of the alive snakes below `upto` that head
/// for a cell of band `b`, one record each, by ascending id.
pub open spec fn bucket_filled(
    bucket: Seq<MovementRecord>,
    snakes: Seq<SnakeState>,
    b: int,
    upto: int,
) -> bool {
    &&& forall|k: int|
        0 <= k < bucket.len() ==> {
            let r = #[trigger] bucket[k];
            &&& 0 <= r.snake_id < upto
            &&& snakes[r.snake_id as int].alive
            &&& r.new_head == snakes[r.snake_id as int].next_head()
            &&& bucket_of(r.new_head) == b
        }
    &&& forall|k1: int, k2: int|
        0 <= k1 < k2 < bucket.len() ==> (#[trigger] bucket[k1]).snake_id < (
        #[trigger] bucket[k2]).snake_id
    &&& forall|j: int|
        0 <= j < upto && snakes[j].alive && bucket_of(snakes[j].next_head()) == b
            ==> #[trigger] has_record(bucket, j)
}

/// Filing the intent of snake `i` behind those of the snakes below it keeps
/// the bucket in order and complete.
pub proof fn lemma_bucket_push(
    bucket: Seq<MovementRecord>,
    snakes: Seq<SnakeState>,
    b: int,
    i: int,
    record: MovementRecord,
)
    requires
        bucket_filled(bucket, snakes, b, i),
        0 <= i < snakes.len(),
        record.snake_id == i,
        snakes[i].alive,
        record.new_head == snakes[i].next_head(),
        bucket_of(record.new_head) == b,
    ensures
        bucket_filled(bucket.push(record), snakes, b, i + 1),
{
    let now = bucket.push(record);
    assert forall|k: int| 0 <= k < now.len() implies {
        let r = #[trigger] now[k];
        &&& 0 <= r.snake_id < i + 1
        &&& snakes[r.snake_id as int].alive
        &&& r.new_head == snakes[r.snake_id as int].next_head()
        &&& bucket_of(r.new_head) == b
    } by {
        if k < bucket.len() {
            assert(now[k] == bucket[k]);
        }
    }
    assert forall|k1: int, k2: int| 0 <= k1 < k2 < now.len() implies (#[trigger] now[k1]).snake_id
        < (#[trigger] now[k2]).snake_id by {
        assert(now[k1] == bucket[k1]);
        if k2 < bucket.len() {
            assert(now[k2] == bucket[k2]);
        }
    }
    assert forall|j: int|
        0 <= j < i + 1 && snakes[j].alive && bucket_of(snakes[j].next_head())
            == b implies #[trigger] has_record(now, j) by {
        if j == i {
            assert(now[bucket.len() as int].snake_id == j);
        } else {
            assert(has_record(bucket, j));
            let k = choose|k: int| 0 <= k < bucket.len() && (#[trigger] bucket[k]).snake_id == j;
            assert(now[k].snake_id == j);
        }
    }
}

/// A bucket stays in order and complete when snake `i` files nothing in it.
pub proof fn lemma_bucket_skip(bucket: Seq<MovementRecord>, snakes: Seq<SnakeState>, b: int, i: int)
    requires
        bucket_filled(bucket, snakes, b, i),
        0 <= i < snakes.len(),
        !(snakes[i].alive && bucket_of(snakes[i].next_head()) == b),
    ensures
        bucket_filled(bucket, snakes, b, i + 1),
{
    assert forall|j: int|
        0 <= j < i + 1 && snakes[j].alive && bucket_of(snakes[j].next_head())
            == b implies #[trigger] has_record(bucket, j) by {
        assert(j < i);
    }
}

/// The buckets `now` hold the intents of `snap`: the same snakes heading for
/// the same cells, whatever was noted of the cells since.
pub open spec fn same_intents(now: Seq<Seq<MovementRecord>>, snap: Seq<Seq<MovementRecord>>) -> bool {
    &&& now.len() == snap.len()
    &&& forall|b: int| 0 <= b < snap.len() ==> (#[trigger] now[b]).len() == snap[b].len()
    &&& forall|b: int, k: int|
        0 <= b < snap.len() && 0 <= k < snap[b].len() ==> (#[trigger] now[b][k]).snake_id
            == snap[b][k].snake_id && now[b][k].new_head == snap[b][k].new_head
}

/// Some point of `pts` has its cell at position `c`.
pub open spec fn in_seq(pts: Seq<Point>, c: int) -> bool {
    exists|m: int| 0 <= m < pts.len() && (#[trigger] pts[m]).index() == c
}

/// One more bucket adds its points to those the buckets hold.
pub proof fn lemma_in_tails_extend(tails: Seq<Seq<Point>>, last: Seq<Point>, c: int)
    ensures
        in_tails(tails.push(last), c) == (in_tails(tails, c) || in_seq(last, c)),
{
    let after = tails.push(last);
    if in_tails(tails, c) {
        let (u, m) = choose|u: int, m: int|
            0 <= u < tails.len() && 0 <= m < tails[u].len() && (#[trigger] tails[u][m]).index()
                == c;
        assert(after[u][m].index() == c);
    }
    if in_seq(last, c) {
        let m = choose|m: int| 0 <= m < last.len() && (#[trigger] last[m]).index() == c;
        assert(after[tails.len() as int][m].index() == c);
    }
    if in_tails(after, c) {
        let (u, m) = choose|u: int, m: int|
            0 <= u < after.len() && 0 <= m < after[u].len() && (#[trigger] after[u][m]).index()
                == c;
        if u < tails.len() {
            assert(tails[u][m].index() == c);
        } else {
            assert(last[m].index() == c);
        }
    }
}

/// One more point adds its cell to those the points cover.
pub proof fn lemma_in_seq_push(pts: Seq<Point>, p: Point, c: int)
    ensures
        in_seq(pts.push(p), c) == (in_seq(pts, c) || p.index() == c),
{
    let after = pts.push(p);
    if in_seq(pts, c) {
        let m = choose|m: int| 0 <= m < pts.len() && (#[trigger] pts[m]).index() == c;
        assert(after[m].index() == c);
    }
    if p.index() == c {
        assert(after[pts.len() as int].index() == c);
    }
    if in_seq(after, c) {
        let m = choose|m: int| 0 <= m < after.len() && (#[trigger] after[m]).index() == c;
        if m < pts.len() {
            assert(pts[m].index() == c);
        }
    }
}

/// Noting a cell in a record changes no intent.
pub proof fn lemma_intents_noted(
    snap: Seq<Seq<MovementRecord>>,
    before: Seq<Seq<MovementRecord>>,
    after: Seq<Seq<MovementRecord>>,
)
    requires
        same_intents(before, snap),
        after.len() == before.len(),
        forall|b: int| 0 <= b < before.len() ==> (#[trigger] after[b]).len() == before[b].len(),
        forall|b: int, k: int|
            0 <= b < before.len() && 0 <= k < before[b].len() ==> (#[trigger] after[b][k]).snake_id
                == before[b][k].snake_id && after[b][k].new_head == before[b][k].new_head,
    ensures
        same_intents(after, snap),
{
    assert forall|b: int, k: int| 0 <= b < snap.len() && 0 <= k < snap[b].len() implies (
    #[trigger] after[b][k]).snake_id == snap[b][k].snake_id && after[b][k].new_head
        == snap[b][k].new_head by {
        assert(before[b].len() == snap[b].len());
        assert(before[b][k].snake_id == snap[b][k].snake_id);
    }
}

} // verus!
