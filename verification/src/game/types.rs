use vstd::prelude::*;
use rand::rngs::ThreadRng;
use rand::Rng;
use crate::game::grid::{GRID_HEIGHT, GRID_WIDTH};

verus! {

/// A cell position. A point that names a cell of the grid is `in_bounds`.
#[derive(Debug, Clone, Copy, PartialEq, Eq, Structural)]
pub struct Point {
    pub x: u16,
    pub y: u16,
}

impl Point {
    /// The point lies on the grid.
    pub open spec fn in_bounds(self) -> bool {
        self.x < GRID_WIDTH && self.y < GRID_HEIGHT
    }

    /// Position of the point's cell in the row-major cell buffer.
    pub open spec fn index(self) -> int {
        self.y * GRID_WIDTH + self.x
    }

    /// The neighbouring cell in direction `d`, wrapping around every edge.
    pub open spec fn step(self, d: Direction) -> Point {
        match d {
            Direction::Up => Point {
                x: self.x,
                y: if self.y == 0 { (GRID_HEIGHT - 1) as u16 } else { (self.y - 1) as u16 },
            },
            Direction::Down => Point {
                x: self.x,
                y: if self.y == GRID_HEIGHT - 1 { 0 } else { (self.y + 1) as u16 },
            },
            Direction::Left => Point {
                x: if self.x == 0 { (GRID_WIDTH - 1) as u16 } else { (self.x - 1) as u16 },
                y: self.y,
            },
            Direction::Right => Point {
                x: if self.x == GRID_WIDTH - 1 { 0 } else { (self.x + 1) as u16 },
                y: self.y,
            },
        }
    }

    /// The neighbouring cell in direction `d`.
    pub fn stepped(self, d: Direction) -> (p: Point)
        requires
            self.in_bounds(),
        ensures
            p == self.step(d),
            p.in_bounds(),
    {
        match d {
            Direction::Up => Point { x: self.x, y: if self.y == 0 { 3999 } else { self.y - 1 } },
            Direction::Down => Point { x: self.x, y: if self.y == 3999 { 0 } else { self.y + 1 } },
            Direction::Left => Point { x: if self.x == 0 { 3999 } else { self.x - 1 }, y: self.y },
            Direction::Right => Point { x: if self.x == 3999 { 0 } else { self.x + 1 }, y: self.y },
        }
    }

    /// A point drawn uniformly from the grid.
    pub fn random(rng: &mut ThreadRng) -> (p: Point)
        ensures
            p.in_bounds(),
    {
        let x: usize = random_below(rng, GRID_WIDTH);
        let y: usize = random_below(rng, GRID_HEIGHT);
        Point { x: x as u16, y: y as u16 }
    }
}

impl Default for Point {
    fn default() -> (p: Point)
        ensures
            p == (Point { x: 0, y: 0 }),
    {
        Point { x: 0, y: 0 }
    }
}

/// The corner of the grid where both coordinates are 0.
pub open spec fn corner() -> Point {
    Point { x: 0, y: 0 }
}

/// Distinct in-bounds points have distinct buffer positions, all below the
/// size of the grid.
pub proof fn lemma_index_injective(p: Point, q: Point)
    requires
        p.in_bounds(),
        q.in_bounds(),
    ensures
        0 <= p.index() < GRID_WIDTH * GRID_HEIGHT,
        p.index() == q.index() <==> p == q,
{
    assert(p.y * GRID_WIDTH + p.x < GRID_WIDTH * GRID_HEIGHT) by (nonlinear_arith)
        requires
            p.x < GRID_WIDTH,
            p.y < GRID_HEIGHT,
            GRID_WIDTH == 4000,
            GRID_HEIGHT == 4000,
    ;
    if p.index() == q.index() {
        assert(p.y == q.y && p.x == q.x) by (nonlinear_arith)
            requires
                p.y * 4000 + p.x == q.y * 4000 + q.x,
                p.x < 4000,
                q.x < 4000,
                0 <= p.x,
                0 <= q.x,
        ;
    }
}

/// Stepping keeps a point on the grid.
pub proof fn lemma_step_in_bounds(p: Point, d: Direction)
    requires
        p.in_bounds(),
    ensures
        p.step(d).in_bounds(),
{
}

#[derive(Debug, Clone, Copy, PartialEq, Eq, Structural)]
pub enum Direction {
    Up,
    Down,
    Left,
    Right,
}

impl Direction {
    /// The direction that points the other way along the same axis.
    pub open spec fn opposite(self) -> Direction {
        match self {
            Direction::Up => Direction::Down,
            Direction::Down => Direction::Up,
            Direction::Left => Direction::Right,
            Direction::Right => Direction::Left,
        }
    }

    #[verifier::when_used_as_spec(opposite)]
    pub fn reversed(self) -> (d: Direction)
        ensures
            d == self.opposite(),
    {
        match self {
            Direction::Up => Direction::Down,
            Direction::Down => Direction::Up,
            Direction::Left => Direction::Right,
            Direction::Right => Direction::Left,
        }
    }

    /// What a snake heading `self` heads after it is asked for `wanted`:
    /// a request to reverse is ignored.
    pub open spec fn steer(self, wanted: Direction) -> Direction {
        if wanted == self.opposite() {
            self
        } else {
            wanted
        }
    }

    /// The direction that a draw `n` from `0..4` stands for.
    pub open spec fn spec_from_index(n: usize) -> Direction {
        if n == 0 {
            Direction::Up
        } else if n == 1 {
            Direction::Down
        } else if n == 2 {
            Direction::Left
        } else {
            Direction::Right
        }
    }

    #[verifier::when_used_as_spec(spec_from_index)]
    pub fn from_index(n: usize) -> (d: Direction)
        ensures
            d == Self::spec_from_index(n),
    {
        match n {
            0 => Direction::Up,
            1 => Direction::Down,
            2 => Direction::Left,
            _ => Direction::Right,
        }
    }

    /// A direction drawn uniformly from the four: the direction that
    /// `from_index` gives for a draw from `0..4`. Every direction can come.
    pub fn random(rng: &mut ThreadRng) -> (d: Direction) {
        let n: usize = random_below(rng, 4);
        Direction::from_index(n)
    }
}

/// One player command: head snake `snake_id` towards `direction`.
#[derive(Debug, Clone, Copy)]
pub struct Input {
    pub snake_id: u32,
    pub direction: Direction,
}

#[verifier::external_type_specification]
#[verifier::external_body]
pub struct ExThreadRng(ThreadRng);

/// `rand::rng`: a handle to the calling thread's generator. Nothing is
/// claimed of it.
#[verifier::external_body]
pub(crate) fn thread_rng() -> ThreadRng {
    rand::rng()
}

/// `Rng::random_range` on `0..bound`: the draw lies in the range, which must
/// not be empty. Nothing else is claimed of the value.
#[verifier::external_body]
pub(crate) fn random_below(rng: &mut ThreadRng, bound: usize) -> (r: usize)
    requires
        bound > 0,
    ensures
        r < bound,
{
    rng.random_range(0..bound)
}

} // verus!
