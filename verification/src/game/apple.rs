use vstd::prelude::*;
use crate::game::grid::{Cell, Grid};
use crate::game::types::{lemma_index_injective, Point};

verus! {

pub const APPLE_CAPACITY: usize = 128;

/// A passive marker: the cell where an apple lies.
pub struct Apple {
    pub position: Point,
}

impl Apple {
    pub fn new(position: Point) -> (apple: Apple)
        ensures
            apple.position == position,
    {
        Self { position }
    }
}

/// An apple that lives on a grid: while it is spawned, its cell holds
/// `Cell::Apple`.
pub struct GridAwareApple {
    apple: Apple,
    is_spawned: bool,
}

impl GridAwareApple {
    pub closed spec fn spec_position(&self) -> Point {
        self.apple.position
    }

    pub closed spec fn spec_is_spawned(&self) -> bool {
        self.is_spawned
    }

    /// Wraps `apple` and puts it on the grid.
    pub fn new(apple: Apple, grid: &mut Grid) -> (wrapper: GridAwareApple)
        requires
            old(grid).wf(),
            apple.position.in_bounds(),
        ensures
            wrapper.position() == apple.position,
            wrapper.is_spawned(),
            final(grid).wf(),
            final(grid)@ == old(grid)@.update(apple.position.index(), Cell::Apple),
            final(grid).at(wrapper.position()) == Cell::Apple,
    {
        proof {
            lemma_index_injective(apple.position, apple.position);
        }
        let wrapper = Self { apple, is_spawned: true };
        grid.set_cell(wrapper.apple.position, Cell::Apple);
        wrapper
    }

    /// Wraps `apple` without putting it on the grid.
    pub fn new_unspawned(apple: Apple, _grid: &mut Grid) -> (wrapper: GridAwareApple)
        ensures
            wrapper.position() == apple.position,
            !wrapper.is_spawned(),
            *final(_grid) == *old(_grid),
    {
        Self { apple, is_spawned: false }
    }

    /// Puts the apple on the grid, unless it is there already.
    #[inline(always)]
    pub fn spawn(&mut self, grid: &mut Grid)
        requires
            old(grid).wf(),
            old(self).position().in_bounds(),
        ensures
            final(self).position() == old(self).position(),
            final(self).is_spawned(),
            final(grid).wf(),
            final(grid)@ == if old(self).is_spawned() {
                old(grid)@
            } else {
                old(grid)@.update(old(self).position().index(), Cell::Apple)
            },
            !old(self).is_spawned() ==> final(grid).at(final(self).position()) == Cell::Apple,
    {
        proof {
            lemma_index_injective(self.apple.position, self.apple.position);
        }
        if !self.is_spawned {
            grid.set_cell(self.apple.position, Cell::Apple);
            self.is_spawned = true;
        }
    }

    /// Takes the apple off the grid, if it is there: its cell becomes empty.
    #[inline(always)]
    pub fn consume(&mut self, grid: &mut Grid)
        requires
            old(grid).wf(),
            old(self).position().in_bounds(),
        ensures
            final(self).position() == old(self).position(),
            !final(self).is_spawned(),
            final(grid).wf(),
            final(grid)@ == if old(self).is_spawned() {
                old(grid)@.update(old(self).position().index(), Cell::Empty)
            } else {
                old(grid)@
            },
    {
        if self.is_spawned {
            grid.set_cell(self.apple.position, Cell::Empty);
            self.is_spawned = false;
        }
    }

    /// Moves the apple to `new_position`; a spawned apple leaves its old cell
    /// empty and marks the new one.
    pub fn move_to(&mut self, new_position: Point, grid: &mut Grid)
        requires
            old(grid).wf(),
            old(self).position().in_bounds(),
            new_position.in_bounds(),
        ensures
            final(self).position() == new_position,
            final(self).is_spawned() == old(self).is_spawned(),
            final(grid).wf(),
            final(grid)@ == if old(self).is_spawned() {
                old(grid)@.update(old(self).position().index(), Cell::Empty).update(
                    new_position.index(),
                    Cell::Apple,
                )
            } else {
                old(grid)@
            },
            final(self).is_spawned() ==> final(grid).at(new_position) == Cell::Apple,
    {
        proof {
            lemma_index_injective(new_position, new_position);
        }
        if self.is_spawned {
            grid.set_cell(self.apple.position, Cell::Empty);
        }
        self.apple.position = new_position;
        if self.is_spawned {
            grid.set_cell(self.apple.position, Cell::Apple);
        }
    }

    pub fn apple(&self) -> (apple: &Apple)
        ensures
            apple.position == self.position(),
    {
        &self.apple
    }

    #[verifier::when_used_as_spec(spec_position)]
    pub fn position(&self) -> (p: Point)
        ensures
            p == self.position(),
    {
        self.apple.position
    }

    #[verifier::when_used_as_spec(spec_is_spawned)]
    pub fn is_spawned(&self) -> (spawned: bool)
        ensures
            spawned == self.is_spawned(),
    {
        self.is_spawned
    }
}

} // verus!
