use vstd::prelude::*;
use crate::game::types::Point;

verus! {

pub const GRID_WIDTH: usize = 4000;

pub const GRID_HEIGHT: usize = 4000;

/// What occupies one position of the grid.
#[derive(Debug, Clone, Copy, PartialEq, Eq, Structural)]
pub enum Cell {
    Empty,
    Snake,
    Apple,
}

/// Dense occupancy map: one contiguous row-major buffer of
/// `GRID_WIDTH * GRID_HEIGHT` cells.
pub struct Grid {
    cells: Vec<Cell>,
}

impl View for Grid {
    type V = Seq<Cell>;

    closed spec fn view(&self) -> Seq<Cell> {
        self.cells@
    }
}

impl Grid {
    /// The buffer holds exactly one cell for each position.
    pub open spec fn wf(&self) -> bool {
        self@.len() == GRID_WIDTH * GRID_HEIGHT
    }

    /// The cell at `p`.
    pub open spec fn at(&self, p: Point) -> Cell {
        self@[p.index()]
    }

    /// A grid whose cells are all empty.
    pub fn new() -> (g: Grid)
        ensures
            g.wf(),
            forall|i: int| 0 <= i < g@.len() ==> g@[i] == Cell::Empty,
    {
        let cells: Vec<Cell> = vec![Cell::Empty; GRID_WIDTH * GRID_HEIGHT];
        Grid { cells }
    }

    #[inline(always)]
    pub fn get_cell(&self, point: &Point) -> (c: Cell)
        requires
            self.wf(),
            point.in_bounds(),
        ensures
            c == self.at(*point),
    {
        proof {
            crate::game::types::lemma_index_injective(*point, *point);
        }
        self.cells[point.y as usize * GRID_WIDTH + point.x as usize]
    }

    #[inline(always)]
    pub fn set_cell(&mut self, point: Point, cell: Cell)
        requires
            old(self).wf(),
            point.in_bounds(),
        ensures
            final(self).wf(),
            final(self)@ == old(self)@.update(point.index(), cell),
    {
        proof {
            crate::game::types::lemma_index_injective(point, point);
        }
        self.cells[point.y as usize * GRID_WIDTH + point.x as usize] = cell;
    }
}

impl Default for Grid {
    fn default() -> (g: Grid)
        ensures
            g.wf(),
            forall|i: int| 0 <= i < g@.len() ==> g@[i] == Cell::Empty,
    {
        Self::new()
    }
}

} // verus!
