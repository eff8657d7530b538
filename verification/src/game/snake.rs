use vstd::prelude::*;
use crossbeam_utils::CachePadded;
use tinydeque::TinyDeque;
use crate::game::grid::{Cell, Grid};
use crate::game::types::{lemma_index_injective, lemma_step_in_bounds, Direction, Point};

verus! {

pub const SNAKE_CAPACITY: usize = 1024;

/// The segments of a snake, head first, kept in a `TinyDeque` that stays on
/// the stack while the snake is short.
///
/// `TinyDeque::push_front` appends at the back of the deque, so the deque is
/// kept tail first: a new head goes to its back and the tail leaves at its
/// front.
#[verifier::external_body]
pub struct Body {
    deque: TinyDeque<[Point; 16]>,
}

/// What the deque of a body holds, from its front to its back.
pub uninterp spec fn deque_items(b: Body) -> Seq<Point>;

/// `TinyDeque::new`: a deque that holds nothing.
#[verifier::external_body]
fn deque_new() -> (b: Body)
    ensures
        deque_items(b) == Seq::<Point>::empty(),
{
    Body { deque: TinyDeque::new() }
}

/// `TinyDeque::len`: the number of items held.
#[verifier::external_body]
fn deque_len(b: &Body) -> (n: usize)
    ensures
        n == deque_items(*b).len(),
{
    b.deque.len()
}

/// `TinyDeque::get`: the item at `index`, counted from the front, or nothing
/// when `index` is not below the length.
#[verifier::external_body]
fn deque_get(b: &Body, index: usize) -> (r: Option<&Point>)
    ensures
        index < deque_items(*b).len() ==> r == Some(&deque_items(*b)[index as int]),
        index >= deque_items(*b).len() ==> r is None,
{
    b.deque.get(index)
}

/// `TinyDeque::push_back`: the item is appended behind the others.
#[verifier::external_body]
fn deque_push_back(b: &mut Body, p: Point)
    ensures
        deque_items(*final(b)) == deque_items(*old(b)).push(p),
{
    b.deque.push_back(p)
}

/// `TinyDeque::pop_front`: the front item leaves and is returned; an empty
/// deque stays as it is and returns nothing.
#[verifier::external_body]
fn deque_pop_front(b: &mut Body) -> (r: Option<Point>)
    ensures
        deque_items(*old(b)).len() == 0 ==> r is None && deque_items(*final(b)) == deque_items(
            *old(b),
        ),
        deque_items(*old(b)).len() > 0 ==> r == Some(deque_items(*old(b))[0]) && deque_items(
            *final(b),
        ) == deque_items(*old(b)).drop_first(),
{
    b.deque.pop_front()
}

impl View for Body {
    type V = Seq<Point>;

    /// The segments from head to tail.
    open spec fn view(&self) -> Seq<Point> {
        let items = deque_items(*self);
        Seq::new(items.len(), |i: int| items[items.len() - 1 - i])
    }
}

impl Body {
    /// A body without segments.
    pub fn new() -> (b: Body)
        ensures
            b@ == Seq::<Point>::empty(),
    {
        let b = deque_new();
        assert(b@ =~= Seq::<Point>::empty());
        b
    }

    pub fn len(&self) -> (n: usize)
        ensures
            n == self@.len(),
    {
        deque_len(self)
    }

    /// The segment at `index`, where the head is segment 0.
    pub fn get(&self, index: usize) -> (r: Option<&Point>)
        ensures
            index < self@.len() ==> r == Some(&self@[index as int]),
            index >= self@.len() ==> r is None,
    {
        let n = deque_len(self);
        if index < n {
            deque_get(self, n - 1 - index)
        } else {
            None
        }
    }

    /// Puts a new head in front of the others.
    pub fn push_front(&mut self, p: Point)
        ensures
            final(self)@ == seq![p] + old(self)@,
    {
        deque_push_back(self, p);
        assert(self@ =~= seq![p] + old(self)@);
    }

    /// Takes the tail off, if there is one.
    pub fn pop_back(&mut self) -> (r: Option<Point>)
        ensures
            old(self)@.len() == 0 ==> r is None && final(self)@ == old(self)@,
            old(self)@.len() > 0 ==> r == Some(old(self)@.last()) && final(self)@ == old(self)@.drop_last(),
    {
        let r = deque_pop_front(self);
        assert(old(self)@.len() > 0 ==> self@ =~= old(self)@.drop_last());
        r
    }
}

/// Every point of `pts` lies on the grid.
pub open spec fn all_in_bounds(pts: Seq<Point>) -> bool {
    forall|k: int| 0 <= k < pts.len() ==> (#[trigger] pts[k]).in_bounds()
}

/// Some point of `pts` has its cell at position `i` of the cell buffer.
pub open spec fn covers(pts: Seq<Point>, i: int) -> bool {
    exists|k: int| 0 <= k < pts.len() && (#[trigger] pts[k]).index() == i
}

/// The buffer `cells` with `c` written to the cell of every point of `pts`.
pub open spec fn painted(cells: Seq<Cell>, pts: Seq<Point>, c: Cell) -> Seq<Cell> {
    Seq::new(
        cells.len(),
        |i: int|
            if covers(pts, i) {
                c
            } else {
                cells[i]
            },
    )
}

/// The mathematical value of a snake.
pub struct SnakeState {
    pub id: u32,
    /// Segments from head (index 0) to tail.
    pub body: Seq<Point>,
    pub direction: Direction,
    pub alive: bool,
}

impl SnakeState {
    /// The snake has a head and all its segments lie on the grid.
    pub open spec fn wf(self) -> bool {
        self.body.len() >= 1 && all_in_bounds(self.body)
    }

    /// The cell that the head reaches by one step in the current direction.
    pub open spec fn next_head(self) -> Point {
        self.body[0].step(self.direction)
    }

    /// The snake after one step: a new head in front, and the tail gone
    /// unless the snake grows.
    pub open spec fn advance(self, will_grow: bool) -> SnakeState {
        SnakeState {
            body: if will_grow {
                seq![self.next_head()] + self.body
            } else {
                seq![self.next_head()] + self.body.drop_last()
            },
            ..self
        }
    }

    /// The snake after it is asked to head for `wanted`.
    pub open spec fn steer(self, wanted: Direction) -> SnakeState {
        SnakeState { direction: self.direction.steer(wanted), ..self }
    }

    /// The snake with one more segment behind its tail, away from where it
    /// heads.
    pub open spec fn grown(self) -> SnakeState {
        SnakeState { body: self.body.push(self.body.last().step(self.direction.opposite())), ..self }
    }

    pub open spec fn dead(self) -> SnakeState {
        SnakeState { alive: false, ..self }
    }
}

/// A step keeps a well-formed snake well-formed, changes its length by one
/// exactly when it grows, and puts its head one cell further.
pub proof fn lemma_advance_wf(s: SnakeState, will_grow: bool)
    requires
        s.wf(),
    ensures
        s.advance(will_grow).wf(),
        s.advance(will_grow).body[0] == s.next_head(),
        will_grow ==> s.advance(will_grow).body.len() == s.body.len() + 1,
        !will_grow ==> s.advance(will_grow).body.len() == s.body.len(),
{
    lemma_step_in_bounds(s.body[0], s.direction);
    let t = s.advance(will_grow);
    assert forall|k: int| 0 <= k < t.body.len() implies (#[trigger] t.body[k]).in_bounds() by {
        if k > 0 {
            assert(t.body[k] == s.body[k - 1]);
        }
    }
}

pub struct Snake {
    pub id: u32,
    pub body: Body,
    pub direction: Direction,
    pub is_alive: bool,
}

impl View for Snake {
    type V = SnakeState;

    open spec fn view(&self) -> SnakeState {
        SnakeState {
            id: self.id,
            body: self.body@,
            direction: self.direction,
            alive: self.is_alive,
        }
    }
}

impl Snake {
    /// A living snake of one segment.
    pub fn new(id: u32, start_pos: Point, initial_direction: Direction) -> (s: Snake)
        ensures
            s@ == (SnakeState {
                id,
                body: seq![start_pos],
                direction: initial_direction,
                alive: true,
            }),
    {
        let mut body = Body::new();
        body.push_front(start_pos);
        assert(body@ =~= seq![start_pos]);
        Self { id, body, direction: initial_direction, is_alive: true }
    }

    /// Moves the snake one cell in its direction; its length grows by one iff
    /// `will_grow`.
    pub fn move_forward(&mut self, will_grow: bool)
        requires
            old(self)@.wf(),
        ensures
            final(self)@ == old(self)@.advance(will_grow),
    {
        let new_head = self.calculate_new_head();
        self.body.push_front(new_head);
        if !will_grow {
            self.body.pop_back();
            assert(self.body@ =~= seq![new_head] + old(self).body@.drop_last());
        }
    }

    /// Adds a segment behind the tail; the head stays where it is.
    pub fn grow(&mut self)
        requires
            old(self)@.wf(),
        ensures
            final(self)@ == old(self)@.grown(),
            final(self)@.wf(),
    {
        let n = self.body.len();
        let tail = *self.body.get(n - 1).unwrap();
        let new_tail = tail.stepped(self.direction.reversed());
        let mut body = Body::new();
        body.push_front(new_tail);
        let mut k: usize = n;
        assert(body@ =~= self.body@.subrange(k as int, n as int).push(new_tail));
        while k > 0
            invariant
                k <= n,
                n == self.body@.len(),
                body@ == self.body@.subrange(k as int, n as int).push(new_tail),
            decreases k,
        {
            k -= 1;
            let segment = *self.body.get(k).unwrap();
            body.push_front(segment);
            assert(body@ =~= self.body@.subrange(k as int, n as int).push(new_tail));
        }
        assert(self.body@.subrange(0, n as int) =~= self.body@);
        self.body = body;
        assert forall|i: int| 0 <= i < self@.body.len() implies (#[trigger] self@.body[i]).in_bounds() by {
            if i < n {
                assert(self@.body[i] == old(self)@.body[i]);
            }
        }
    }

    /// Where the head will be after one step, wrapping around the edges.
    #[inline(always)]
    pub fn calculate_new_head(&self) -> (p: Point)
        requires
            self@.wf(),
        ensures
            p == self@.next_head(),
            p.in_bounds(),
    {
        let current_head = *self.body.get(0).unwrap();
        assert(current_head == self@.body[0]);
        assert(current_head.in_bounds());
        match self.direction {
            Direction::Up => Point {
                x: current_head.x,
                y: if current_head.y == 0 {
                    3999
                } else {
                    current_head.y - 1
                },
            },
            Direction::Down => Point {
                x: current_head.x,
                y: if current_head.y == 3999 {
                    0
                } else {
                    current_head.y + 1
                },
            },
            Direction::Left => Point {
                x: if current_head.x == 0 {
                    3999
                } else {
                    current_head.x - 1
                },
                y: current_head.y,
            },
            Direction::Right => Point {
                x: if current_head.x == 3999 {
                    0
                } else {
                    current_head.x + 1
                },
                y: current_head.y,
            },
        }
    }

    /// Turns the snake towards `new_direction`, unless that would reverse it.
    pub fn change_direction(&mut self, new_direction: Direction)
        ensures
            final(self)@ == old(self)@.steer(new_direction),
            final(self)@.direction != old(self)@.direction.opposite(),
    {
        let can_change = !matches!(
            (self.direction, new_direction),
            (Direction::Up, Direction::Down) | (Direction::Down, Direction::Up) | (
                Direction::Left,
                Direction::Right,
            ) | (Direction::Right, Direction::Left)
        );
        if can_change {
            self.direction = new_direction;
        }
    }
}

#[verifier::external_type_specification]
#[verifier::external_body]
#[verifier::reject_recursive_types(T)]
pub struct ExCachePadded<T>(CachePadded<T>);

/// The snake that a cache-line padded slot holds.
pub uninterp spec fn padded_snake(p: CachePadded<Snake>) -> Snake;

/// `CachePadded::new`: the slot holds the value that it was made from.
#[verifier::external_body]
fn pad(snake: Snake) -> (p: CachePadded<Snake>)
    ensures
        padded_snake(p) == snake,
{
    CachePadded::new(snake)
}

/// `Deref` of `CachePadded`: a view of the value held.
#[verifier::external_body]
fn padded_ref(p: &CachePadded<Snake>) -> (s: &Snake)
    ensures
        *s == padded_snake(*p),
{
    &**p
}

/// `DerefMut` of `CachePadded`: the value held, to be changed in place; the
/// slot then holds what the borrow leaves.
#[verifier::external_body]
fn padded_mut(p: &mut CachePadded<Snake>) -> (s: &mut Snake)
    ensures
        *s == padded_snake(*old(p)),
        padded_snake(*final(p)) == *final(s),
{
    &mut **p
}

/// Writing `c` to the cell of one more point extends what is painted by
/// that point.
pub proof fn lemma_paint_step(cells: Seq<Cell>, pts: Seq<Point>, k: int, c: Cell)
    requires
        0 <= k < pts.len(),
        0 <= pts[k].index() < cells.len(),
    ensures
        painted(cells, pts.take(k), c).update(pts[k].index(), c) == painted(
            cells,
            pts.take(k + 1),
            c,
        ),
{
    let before = painted(cells, pts.take(k), c).update(pts[k].index(), c);
    let after = painted(cells, pts.take(k + 1), c);
    assert forall|i: int| 0 <= i < cells.len() implies before[i] == after[i] by {
        if covers(pts.take(k), i) {
            let w = choose|w: int| 0 <= w < pts.take(k).len() && (#[trigger] pts.take(k)[w]).index() == i;
            assert(pts.take(k + 1)[w].index() == i);
        }
        if pts[k].index() == i {
            assert(pts.take(k + 1)[k].index() == i);
        }
        if covers(pts.take(k + 1), i) {
            let w = choose|w: int|
                0 <= w < pts.take(k + 1).len() && (#[trigger] pts.take(k + 1)[w]).index() == i;
            if w < k {
                assert(pts.take(k)[w].index() == i);
            }
        }
    }
    assert(before =~= after);
}

/// A snake that lives on a grid: it sits in a cache line of its own, and the
/// methods that take the grid keep the grid's cells in step with the body.
pub struct GridAwareSnake {
    snake: CachePadded<Snake>,
}

impl View for GridAwareSnake {
    type V = SnakeState;

    closed spec fn view(&self) -> SnakeState {
        padded_snake(self.snake)@
    }
}

impl GridAwareSnake {
    /// Wraps `snake` and marks every cell of its body on the grid.
    pub fn new(snake: Snake, grid: &mut Grid) -> (wrapper: GridAwareSnake)
        requires
            old(grid).wf(),
            all_in_bounds(snake@.body),
        ensures
            wrapper@ == snake@,
            final(grid).wf(),
            final(grid)@ == painted(old(grid)@, snake@.body, Cell::Snake),
    {
        let wrapper = Self { snake: pad(snake) };
        wrapper.update_grid_with_body(grid);
        wrapper
    }

    /// Where the head will be after one step.
    #[inline(always)]
    pub fn calculate_new_head(&self) -> (p: Point)
        requires
            self@.wf(),
        ensures
            p == self@.next_head(),
            p.in_bounds(),
    {
        padded_ref(&self.snake).calculate_new_head()
    }

    /// The last segment, if the body has any.
    #[inline(always)]
    pub fn tail_position(&self) -> (r: Option<Point>)
        ensures
            self@.body.len() > 0 ==> r == Some(self@.body.last()),
            self@.body.len() == 0 ==> r is None,
    {
        let snake = padded_ref(&self.snake);
        let n = snake.body.len();
        if n > 0 {
            match snake.body.get(n - 1) {
                Some(p) => Some(*p),
                None => None,
            }
        } else {
            None
        }
    }

    /// Moves the body one step; the grid is not touched.
    #[inline(always)]
    pub fn update_body(&mut self, will_grow: bool)
        requires
            old(self)@.wf(),
        ensures
            final(self)@ == old(self)@.advance(will_grow),
    {
        padded_mut(&mut self.snake).move_forward(will_grow);
    }

    /// Marks the snake dead; the grid is not touched.
    #[inline(always)]
    pub fn mark_dead(&mut self)
        ensures
            final(self)@ == old(self)@.dead(),
    {
        let snake = padded_mut(&mut self.snake);
        snake.is_alive = false;
    }

    /// Moves the snake one step on the grid, unless the cell ahead holds a
    /// snake: then the snake dies where it is. Returns whether it moved.
    #[inline(always)]
    pub fn move_forward(&mut self, grid: &mut Grid, will_grow: bool) -> (moved: bool)
        requires
            old(self)@.wf(),
            old(grid).wf(),
        ensures
            final(grid).wf(),
            moved == (old(grid).at(old(self)@.next_head()) != Cell::Snake),
            !moved ==> final(self)@ == old(self)@.dead() && final(grid)@ == old(grid)@,
            moved ==> final(self)@ == old(self)@.advance(will_grow) && final(grid)@ == (if will_grow {
                old(grid)@
            } else {
                old(grid)@.update(old(self)@.body.last().index(), Cell::Empty)
            }).update(old(self)@.next_head().index(), Cell::Snake),
    {
        let new_head = self.calculate_new_head();
        if grid.get_cell(&new_head) == Cell::Snake {
            self.mark_dead();
            return false;
        }
        if !will_grow {
            if let Some(tail) = self.tail_position() {
                grid.set_cell(tail, Cell::Empty);
            }
        }
        self.update_body(will_grow);
        grid.set_cell(new_head, Cell::Snake);
        true
    }

    /// Marks the snake dead and empties the cells of its body.
    #[inline(always)]
    pub fn die(&mut self, grid: &mut Grid)
        requires
            old(grid).wf(),
            all_in_bounds(old(self)@.body),
        ensures
            final(self)@ == old(self)@.dead(),
            final(grid).wf(),
            final(grid)@ == painted(old(grid)@, old(self)@.body, Cell::Empty),
    {
        self.mark_dead();
        self.clear_from_grid(grid);
    }

    /// Turns the snake, unless that would reverse it; the grid is not
    /// touched.
    #[inline(always)]
    pub fn change_direction(&mut self, new_direction: Direction)
        ensures
            final(self)@ == old(self)@.steer(new_direction),
            final(self)@.direction != old(self)@.direction.opposite(),
    {
        padded_mut(&mut self.snake).change_direction(new_direction);
    }

    /// The snake inside.
    pub fn snake(&self) -> (s: &Snake)
        ensures
            s@ == self@,
    {
        padded_ref(&self.snake)
    }

    /// The snake inside, to be changed in place.
    pub fn snake_mut(&mut self) -> (s: &mut Snake)
        ensures
            s@ == old(self)@,
            final(self)@ == final(s)@,
    {
        padded_mut(&mut self.snake)
    }

    pub fn is_alive(&self) -> (alive: bool)
        ensures
            alive == self@.alive,
    {
        padded_ref(&self.snake).is_alive
    }

    pub fn id(&self) -> (id: u32)
        ensures
            id == self@.id,
    {
        padded_ref(&self.snake).id
    }

    /// The first segment, if the body has any.
    #[inline(always)]
    pub fn head(&self) -> (r: Option<&Point>)
        ensures
            self@.body.len() > 0 ==> r == Some(&self@.body[0]),
            self@.body.len() == 0 ==> r is None,
    {
        padded_ref(&self.snake).body.get(0)
    }

    pub fn body(&self) -> (b: &Body)
        ensures
            b@ == self@.body,
    {
        &padded_ref(&self.snake).body
    }

    fn update_grid_with_body(&self, grid: &mut Grid)
        requires
            old(grid).wf(),
            all_in_bounds(self@.body),
        ensures
            final(grid).wf(),
            final(grid)@ == painted(old(grid)@, self@.body, Cell::Snake),
    {
        let body = self.body();
        let n = body.len();
        let mut i: usize = 0;
        assert(grid@ =~= painted(old(grid)@, body@.take(0), Cell::Snake));
        while i < n
            invariant
                i <= n,
                n == body@.len(),
                grid.wf(),
                old(grid).wf(),
                all_in_bounds(body@),
                grid@ == painted(old(grid)@, body@.take(i as int), Cell::Snake),
            decreases n - i,
        {
            if let Some(part) = body.get(i) {
                proof {
                    lemma_index_injective(*part, *part);
                    lemma_paint_step(old(grid)@, body@, i as int, Cell::Snake);
                }
                grid.set_cell(*part, Cell::Snake);
            }
            i += 1;
        }
        assert(body@.take(n as int) =~= body@);
    }

    fn clear_from_grid(&self, grid: &mut Grid)
        requires
            old(grid).wf(),
            all_in_bounds(self@.body),
        ensures
            final(grid).wf(),
            final(grid)@ == painted(old(grid)@, self@.body, Cell::Empty),
    {
        let body = self.body();
        let n = body.len();
        let mut i: usize = 0;
        assert(grid@ =~= painted(old(grid)@, body@.take(0), Cell::Empty));
        while i < n
            invariant
                i <= n,
                n == body@.len(),
                grid.wf(),
                old(grid).wf(),
                all_in_bounds(body@),
                grid@ == painted(old(grid)@, body@.take(i as int), Cell::Empty),
            decreases n - i,
        {
            if let Some(part) = body.get(i) {
                proof {
                    lemma_index_injective(*part, *part);
                    lemma_paint_step(old(grid)@, body@, i as int, Cell::Empty);
                }
                grid.set_cell(*part, Cell::Empty);
            }
            i += 1;
        }
        assert(body@.take(n as int) =~= body@);
    }
}

} // verus!
