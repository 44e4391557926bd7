//! Board coordinates and the eight directions in which a line can run.
//!
//! A cell is a pair `(x, y)` with `x` growing eastwards and `y` growing
//! southwards. Nothing here holds state.

use vstd::prelude::*;

verus! {

/// One of the eight compass directions, each a unit step on the grid.
#[derive(Clone, Copy, Debug, PartialEq, Eq, Structural)]
pub enum Direction {
    N,
    S,
    E,
    W,
    NE,
    SE,
    SW,
    NW,
}

impl Direction {
    /// Horizontal component of the unit step.
    pub open spec fn dx(self) -> int {
        match self {
            Direction::E | Direction::NE | Direction::SE => 1,
            Direction::W | Direction::NW | Direction::SW => -1,
            Direction::N | Direction::S => 0,
        }
    }

    /// Vertical component of the unit step.
    pub open spec fn dy(self) -> int {
        match self {
            Direction::S | Direction::SE | Direction::SW => 1,
            Direction::N | Direction::NE | Direction::NW => -1,
            Direction::E | Direction::W => 0,
        }
    }

    /// The direction that points the other way along the same axis.
    pub open spec fn opposite(self) -> Direction {
        match self {
            Direction::N => Direction::S,
            Direction::S => Direction::N,
            Direction::E => Direction::W,
            Direction::W => Direction::E,
            Direction::NE => Direction::SW,
            Direction::SW => Direction::NE,
            Direction::SE => Direction::NW,
            Direction::NW => Direction::SE,
        }
    }

    /// The column reached from column `x` after `k` steps.
    pub open spec fn step_x(self, x: int, k: int) -> int {
        match self {
            Direction::E | Direction::NE | Direction::SE => x + k,
            Direction::W | Direction::NW | Direction::SW => x - k,
            Direction::N | Direction::S => x,
        }
    }

    /// The row reached from row `y` after `k` steps.
    pub open spec fn step_y(self, y: int, k: int) -> int {
        match self {
            Direction::S | Direction::SE | Direction::SW => y + k,
            Direction::N | Direction::NE | Direction::NW => y - k,
            Direction::E | Direction::W => y,
        }
    }

    /// The unit step as a pair `(dx, dy)`.
    pub fn vector(self) -> (v: (isize, isize))
        ensures
            v.0 == self.dx(),
            v.1 == self.dy(),
    {
        match self {
            Direction::N => (0, -1),
            Direction::S => (0, 1),
            Direction::E => (1, 0),
            Direction::W => (-1, 0),
            Direction::NE => (1, -1),
            Direction::SE => (1, 1),
            Direction::SW => (-1, 1),
            Direction::NW => (-1, -1),
        }
    }

    /// The direction that points the other way.
    pub fn reversed(self) -> (r: Direction)
        ensures
            r == self.opposite(),
    {
        match self {
            Direction::N => Direction::S,
            Direction::S => Direction::N,
            Direction::E => Direction::W,
            Direction::W => Direction::E,
            Direction::NE => Direction::SW,
            Direction::SW => Direction::NE,
            Direction::SE => Direction::NW,
            Direction::NW => Direction::SE,
        }
    }

    /// Column `x` moved `k` steps in this direction.
    pub fn shift_x(self, x: usize, k: usize) -> (r: usize)
        requires
            0 <= self.step_x(x as int, k as int) <= usize::MAX,
        ensures
            r == self.step_x(x as int, k as int),
    {
        match self {
            Direction::E | Direction::NE | Direction::SE => x + k,
            Direction::W | Direction::NW | Direction::SW => x - k,
            Direction::N | Direction::S => x,
        }
    }

    /// Row `y` moved `k` steps in this direction.
    pub fn shift_y(self, y: usize, k: usize) -> (r: usize)
        requires
            0 <= self.step_y(y as int, k as int) <= usize::MAX,
        ensures
            r == self.step_y(y as int, k as int),
    {
        match self {
            Direction::S | Direction::SE | Direction::SW => y + k,
            Direction::N | Direction::NE | Direction::NW => y - k,
            Direction::E | Direction::W => y,
        }
    }
}

/// Whether `(x, y)` lies on a board of `size` by `size` cells.
pub open spec fn in_board(size: int, x: int, y: int) -> bool {
    0 <= x < size && 0 <= y < size
}

/// The cell `k` steps from `(x, y)` in direction `d`.
pub open spec fn ray_cell(x: int, y: int, d: Direction, k: int) -> (int, int) {
    (d.step_x(x, k), d.step_y(y, k))
}

/// The four axes, in the order column, row, main diagonal, anti-diagonal.
pub open spec fn axes() -> Seq<(Direction, Direction)> {
    seq![
        (Direction::S, Direction::N),
        (Direction::W, Direction::E),
        (Direction::NW, Direction::SE),
        (Direction::NE, Direction::SW),
    ]
}

/// The four axes through a cell, each as its two opposite directions:
/// column, row, main diagonal, anti-diagonal.
pub fn axis_directions() -> (pairs: [(Direction, Direction); 4])
    ensures
        pairs@ == axes(),
        forall|i: int| 0 <= i < 4 ==> (#[trigger] pairs@[i]).1 == pairs@[i].0.opposite(),
{
    let pairs: [(Direction, Direction); 4] = [
        (Direction::S, Direction::N),
        (Direction::W, Direction::E),
        (Direction::NW, Direction::SE),
        (Direction::NE, Direction::SW),
    ];
    assert(pairs@ =~= axes());
    pairs
}

/// Tells whether `(x, y)` is a cell of a board with `size` cells per side.
pub fn in_bounds(x: isize, y: isize, size: usize) -> (inside: bool)
    ensures
        inside == in_board(size as int, x as int, y as int),
{
    x >= 0 && y >= 0 && (x as usize) < size && (y as usize) < size
}

} // verus!
