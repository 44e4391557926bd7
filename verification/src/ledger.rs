//! The run ledger: one player's stones, and for the stones at the ends of
//! each run the length of that run, kept up to date move by move.
//!
//! The cells are stored row by row in one vector, with a border of one
//! empty cell on every side of the board, so that the neighbour of a board
//! cell is always a stored cell.

use vstd::prelude::*;
use crate::config::{Config, MAX_SIZE};
use crate::game::{
    first_win, lemma_cell_on_board, lemma_fresh_cell, lemma_stones_start, lemma_stones_step, outcome_is,
    player_to_move, stones_of, valid_order, wins_at, Player,
};
use crate::geometry::{Direction, in_board, ray_cell};
use crate::lines::{
    completes_line, has_stone, lemma_run_at_least, lemma_run_beyond_ignores_origin, lemma_run_bounded,
    lemma_run_cells, lemma_run_exact, lemma_run_insert_at_end, lemma_run_insert_elsewhere, line_len,
    run_beyond, run_end, run_from,
};
use crate::permutation::{inside_out, shuffle};
use crate::xorshift::XorShift;

verus! {

/// What the ledger stores for one cell: whether the player has a stone on
/// it and, for each direction, a run count.
#[derive(Clone, Copy, Debug)]
struct Cell {
    occupied: bool,
    n: usize,
    s: usize,
    e: usize,
    w: usize,
    ne: usize,
    se: usize,
    sw: usize,
    nw: usize,
}

impl Cell {
    spec fn run(self, d: Direction) -> usize {
        match d {
            Direction::N => self.n,
            Direction::S => self.s,
            Direction::E => self.e,
            Direction::W => self.w,
            Direction::NE => self.ne,
            Direction::SE => self.se,
            Direction::SW => self.sw,
            Direction::NW => self.nw,
        }
    }

    spec fn blank(self) -> bool {
        !self.occupied && forall|d: Direction| #[trigger] self.run(d) == 0
    }

    fn empty() -> (c: Cell)
        ensures
            c.blank(),
    {
        Cell { occupied: false, n: 0, s: 0, e: 0, w: 0, ne: 0, se: 0, sw: 0, nw: 0 }
    }

    fn get(&self, d: Direction) -> (v: usize)
        ensures
            v == self.run(d),
    {
        match d {
            Direction::N => self.n,
            Direction::S => self.s,
            Direction::E => self.e,
            Direction::W => self.w,
            Direction::NE => self.ne,
            Direction::SE => self.se,
            Direction::SW => self.sw,
            Direction::NW => self.nw,
        }
    }

    fn with_run(self, d: Direction, v: usize) -> (c: Cell)
        ensures
            c.occupied == self.occupied,
            c.run(d) == v,
            forall|other: Direction| other != d ==> #[trigger] c.run(other) == self.run(other),
    {
        let mut c = self;
        match d {
            Direction::N => { c.n = v; },
            Direction::S => { c.s = v; },
            Direction::E => { c.e = v; },
            Direction::W => { c.w = v; },
            Direction::NE => { c.ne = v; },
            Direction::SE => { c.se = v; },
            Direction::SW => { c.sw = v; },
            Direction::NW => { c.nw = v; },
        }
        c
    }
}

/// The place of cell `(x, y)` in the stored vector of a board of side
/// `size`, for coordinates from `-1` to `size`.
spec fn slot(size: int, x: int, y: int) -> int {
    (y + 1) * (size + 2) + (x + 1)
}

proof fn lemma_slot(size: int, x: int, y: int)
    by (nonlinear_arith)
    requires
        0 <= size <= 65533,
        -1 <= x <= size,
        -1 <= y <= size,
    ensures
        0 <= (y + 1) * (size + 2),
        0 <= slot(size, x, y) < (size + 2) * (size + 2),
        (size + 2) * (size + 2) <= 65535 * 65535,
{
}

proof fn lemma_slot_injective(size: int, x1: int, y1: int, x2: int, y2: int)
    by (nonlinear_arith)
    requires
        0 <= size,
        -1 <= x1 <= size,
        -1 <= x2 <= size,
        -1 <= y1 <= size,
        -1 <= y2 <= size,
        slot(size, x1, y1) == slot(size, x2, y2),
    ensures
        x1 == x2,
        y1 == y2,
{
}

/// One player's run ledger.
pub struct Board {
    size: usize,
    win: usize,
    cells: Vec<Cell>,
}

impl Board {
    /// The side of the board.
    pub closed spec fn side(&self) -> int {
        self.size as int
    }

    /// The number of stones in a line that wins.
    pub closed spec fn goal(&self) -> int {
        self.win as int
    }

    spec fn cell(&self, x: int, y: int) -> Cell {
        self.cells@[slot(self.size as int, x, y)]
    }

    /// The cells on which the player has a stone.
    pub closed spec fn stones(&self) -> Set<(int, int)> {
        Set::new(|c: (int, int)| in_board(self.size as int, c.0, c.1) && self.cell(c.0, c.1).occupied)
    }

    /// The run count stored for cell `(x, y)` in direction `d`; zero off
    /// the board.
    pub closed spec fn run_at(&self, x: int, y: int, d: Direction) -> int {
        if in_board(self.size as int, x, y) {
            self.cell(x, y).run(d) as int
        } else {
            0
        }
    }

    /// The ledger is well formed: it has all its cells, the border holds no
    /// stone, and a cell without a stone has run count zero in every
    /// direction.
    pub closed spec fn wf(&self) -> bool {
        &&& 1 <= self.size <= MAX_SIZE
        &&& self.win <= self.size
        &&& self.cells@.len() == (self.size + 2) * (self.size + 2)
        &&& forall|i: int|
            0 <= i < self.cells@.len() && !(#[trigger] self.cells@[i]).occupied ==> self.cells@[i].blank()
        &&& forall|x: int, y: int|
            -1 <= x <= self.size && -1 <= y <= self.size && !in_board(self.size as int, x, y) ==> !(
            #[trigger] self.cell(x, y)).occupied
    }

    /// The run counts agree with the stones: for a stone that is not
    /// strictly inside a run along the axis of `d`, the count stored for
    /// `d` is the number of stones in the run that starts at its neighbour
    /// in direction `d`.
    pub open spec fn consistent(&self) -> bool {
        forall|x: int, y: int, d: Direction|
            self.stones().contains((x, y)) && !(self.stones().contains(ray_cell(x, y, d, -1))
                && self.stones().contains(ray_cell(x, y, d, 1))) ==> #[trigger] self.run_at(x, y, d)
                == run_beyond(self.stones(), self.side(), x, y, d)
    }

    /// Run-count consistency, for one stone and one direction: unless the
    /// stone has a stone of the player on both sides along the axis of `d`,
    /// its count for `d` is the length of the run of stones that starts at
    /// its neighbour in direction `d`.
    pub proof fn lemma_count_is_run(&self, x: int, y: int, d: Direction)
        requires
            self.wf(),
            self.consistent(),
            self.stones().contains((x, y)),
            !(self.stones().contains(ray_cell(x, y, d, -1)) && self.stones().contains(ray_cell(x, y, d, 1))),
        ensures
            self.run_at(x, y, d) == run_from(self.stones(), self.side(), d.step_x(x, 1), d.step_y(y, 1), d),
            0 <= self.run_at(x, y, d) < self.side(),
    {
        self.lemma_wf_facts();
        lemma_run_bounded(self.stones(), self.side(), d.step_x(x, 1), d.step_y(y, 1), d);
    }

    /// In a well-formed ledger every stone is on the board, and a cell
    /// without a stone counts nothing.
    pub proof fn lemma_wf_facts(&self)
        requires
            self.wf(),
        ensures
            1 <= self.side() <= MAX_SIZE,
            0 <= self.goal() <= self.side(),
            forall|c: (int, int)| #[trigger] self.stones().contains(c) ==> in_board(self.side(), c.0, c.1),
            forall|x: int, y: int, d: Direction|
                !self.stones().contains((x, y)) ==> #[trigger] self.run_at(x, y, d) == 0,
            forall|x: int, y: int, d: Direction| 0 <= #[trigger] self.run_at(x, y, d),
    {
        assert forall|x: int, y: int, d: Direction| !self.stones().contains((x, y)) implies #[trigger] self.run_at(
            x,
            y,
            d,
        ) == 0 by {
            if in_board(self.size as int, x, y) {
                lemma_slot(self.size as int, x, y);
                let c = self.cells@[slot(self.size as int, x, y)];
                assert(c.blank());
                assert(c.run(d) == 0);
            }
        }
    }

    fn slot_of(&self, px: usize, py: usize) -> (i: usize)
        requires
            self.wf(),
            px <= self.size + 1,
            py <= self.size + 1,
        ensures
            i == slot(self.size as int, px - 1, py - 1),
            i < self.cells@.len(),
    {
        proof {
            lemma_slot(self.size as int, px - 1, py - 1);
        }
        py * (self.size + 2) + px
    }

    /// An empty ledger for the given board and winning length.
    pub fn new(config: &Config) -> (board: Board)
        requires
            config.wf(),
        ensures
            board.wf(),
            board.consistent(),
            board.side() == config.side(),
            board.goal() == config.goal(),
            board.stones() == Set::<(int, int)>::empty(),
            forall|x: int, y: int, d: Direction| #[trigger] board.run_at(x, y, d) == 0,
    {
        let size: usize = config.size();
        let win: usize = config.win();
        proof {
            lemma_slot(size as int, 0, 0);
        }
        let total: usize = (size + 2) * (size + 2);
        let mut cells: Vec<Cell> = Vec::new();
        let mut i: usize = 0;
        while i < total
            invariant
                i <= total,
                cells@.len() == i,
                forall|j: int| 0 <= j < i ==> (#[trigger] cells@[j]).blank(),
            decreases total - i,
        {
            cells.push(Cell::empty());
            i = i + 1;
        }
        let board = Board { size, win, cells };
        proof {
            assert forall|x: int, y: int| -1 <= x <= size && -1 <= y <= size implies !(#[trigger] board.cell(
                x,
                y,
            )).occupied by {
                lemma_slot(size as int, x, y);
            }
            assert(board.stones() =~= Set::<(int, int)>::empty()) by {
                assert forall|c: (int, int)| !board.stones().contains(c) by {
                    if in_board(size as int, c.0, c.1) {
                        assert(!board.cell(c.0, c.1).occupied);
                    }
                }
            }
            assert forall|x: int, y: int, d: Direction| #[trigger] board.run_at(x, y, d) == 0 by {
                if in_board(size as int, x, y) {
                    lemma_slot(size as int, x, y);
                    assert(board.cells@[slot(size as int, x, y)].blank());
                }
            }
        }
        board
    }

    /// The side of the board.
    pub fn size(&self) -> (s: usize)
        ensures
            s == self.side(),
    {
        self.size
    }

    /// The number of stones in a line that wins.
    pub fn win(&self) -> (k: usize)
        ensures
            k == self.goal(),
    {
        self.win
    }

    /// Whether the player has a stone on `(x, y)`. No stone stands off the
    /// board.
    pub fn is_occupied(&self, x: isize, y: isize) -> (there: bool)
        requires
            self.wf(),
        ensures
            there == self.stones().contains((x as int, y as int)),
    {
        if x >= 0 && y >= 0 && (x as usize) < self.size && (y as usize) < self.size {
            let i: usize = self.slot_of(x as usize + 1, y as usize + 1);
            self.cells[i].occupied
        } else {
            false
        }
    }

    /// The run count stored for `(x, y)` in direction `d`: zero for a cell
    /// without a stone and for a cell off the board.
    pub fn run_count(&self, x: isize, y: isize, d: Direction) -> (count: usize)
        requires
            self.wf(),
        ensures
            count == self.run_at(x as int, y as int, d),
            !self.stones().contains((x as int, y as int)) ==> count == 0,
    {
        proof {
            self.lemma_wf_facts();
        }
        if x >= 0 && y >= 0 && (x as usize) < self.size && (y as usize) < self.size {
            let i: usize = self.slot_of(x as usize + 1, y as usize + 1);
            self.cells[i].get(d)
        } else {
            0
        }
    }

    /// Puts a stone of the player on `(x, y)`. The run counts stay as they
    /// are.
    pub fn set_occupied(&mut self, x: usize, y: usize)
        requires
            old(self).wf(),
            in_board(old(self).side(), x as int, y as int),
        ensures
            final(self).wf(),
            final(self).side() == old(self).side(),
            final(self).goal() == old(self).goal(),
            final(self).stones() == old(self).stones().insert((x as int, y as int)),
            forall|cx: int, cy: int, d: Direction|
                #[trigger] final(self).run_at(cx, cy, d) == old(self).run_at(cx, cy, d),
    {
        let i: usize = self.slot_of(x + 1, y + 1);
        let mut c: Cell = self.cells[i];
        c.occupied = true;
        self.cells.set(i, c);
        proof {
            let size = self.size as int;
            assert forall|x2: int, y2: int|
                -1 <= x2 <= size && -1 <= y2 <= size && (x2, y2) != (x as int, y as int) implies #[trigger] self.cell(
                x2,
                y2,
            ) == old(self).cell(x2, y2) by {
                lemma_slot(size, x2, y2);
                if slot(size, x2, y2) == slot(size, x as int, y as int) {
                    lemma_slot_injective(size, x2, y2, x as int, y as int);
                }
            }
            assert(final(self).stones() =~= old(self).stones().insert((x as int, y as int)));
            assert forall|cx: int, cy: int, d: Direction| #[trigger] self.run_at(cx, cy, d) == old(self).run_at(
                cx,
                cy,
                d,
            ) by {
                if in_board(size, cx, cy) && (cx, cy) != (x as int, y as int) {
                    assert(self.cell(cx, cy) == old(self).cell(cx, cy));
                }
            }
        }
    }

    /// Overwrites the run count of the stone on `(x, y)` in direction `d`.
    /// Nothing else changes.
    pub fn set_run_count(&mut self, x: usize, y: usize, d: Direction, value: usize)
        requires
            old(self).wf(),
            old(self).stones().contains((x as int, y as int)),
        ensures
            final(self).wf(),
            final(self).side() == old(self).side(),
            final(self).goal() == old(self).goal(),
            final(self).stones() == old(self).stones(),
            forall|cx: int, cy: int, other: Direction|
                #[trigger] final(self).run_at(cx, cy, other) == if cx == x && cy == y && other == d {
                    value as int
                } else {
                    old(self).run_at(cx, cy, other)
                },
    {
        let i: usize = self.slot_of(x + 1, y + 1);
        let c: Cell = self.cells[i].with_run(d, value);
        self.cells.set(i, c);
        proof {
            let size = self.size as int;
            assert forall|x2: int, y2: int|
                -1 <= x2 <= size && -1 <= y2 <= size && (x2, y2) != (x as int, y as int) implies #[trigger] self.cell(
                x2,
                y2,
            ) == old(self).cell(x2, y2) by {
                lemma_slot(size, x2, y2);
                if slot(size, x2, y2) == slot(size, x as int, y as int) {
                    lemma_slot_injective(size, x2, y2, x as int, y as int);
                }
            }
            assert(final(self).stones() =~= old(self).stones());
            assert forall|cx: int, cy: int, other: Direction| #[trigger] self.run_at(cx, cy, other) == if cx == x
                && cy == y && other == d {
                value as int
            } else {
                old(self).run_at(cx, cy, other)
            } by {
                if in_board(size, cx, cy) && (cx, cy) != (x as int, y as int) {
                    assert(self.cell(cx, cy) == old(self).cell(cx, cy));
                }
            }
        }
    }

    /// The length of the run that starts at the neighbour of the empty
    /// cell `(x, y)` in direction `d`, read from that neighbour alone.
    fn adjacent(&self, x: usize, y: usize, d: Direction) -> (n: usize)
        requires
            self.wf(),
            self.consistent(),
            in_board(self.side(), x as int, y as int),
            !self.stones().contains((x as int, y as int)),
        ensures
            n == run_beyond(self.stones(), self.side(), x as int, y as int, d),
            n <= self.side(),
    {
        let px: usize = d.shift_x(x + 1, 1);
        let py: usize = d.shift_y(y + 1, 1);
        let i: usize = self.slot_of(px, py);
        let c: Cell = self.cells[i];
        proof {
            let size = self.size as int;
            let nx = d.step_x(x as int, 1);
            let ny = d.step_y(y as int, 1);
            lemma_run_bounded(self.stones(), size, nx, ny, d);
            assert(c == self.cell(nx, ny));
            if c.occupied {
                assert(in_board(size, nx, ny));
                assert(self.stones().contains((nx, ny)));
                assert(ray_cell(nx, ny, d, -1) == (x as int, y as int));
                assert(self.run_at(nx, ny, d) == run_beyond(self.stones(), size, nx, ny, d));
                lemma_run_bounded(self.stones(), size, d.step_x(nx, 1), d.step_y(ny, 1), d);
            }
        }
        if c.occupied {
            c.get(d) + 1
        } else {
            0
        }
    }

    /// The runs beyond the empty cell `(x, y)` in all eight directions.
    fn survey(&self, x: usize, y: usize) -> (q: Cell)
        requires
            self.wf(),
            self.consistent(),
            in_board(self.side(), x as int, y as int),
            !self.stones().contains((x as int, y as int)),
        ensures
            forall|d: Direction|
                #[trigger] q.run(d) == run_beyond(self.stones(), self.side(), x as int, y as int, d),
            forall|d: Direction| #[trigger] q.run(d) <= self.side(),
    {
        let n: usize = self.adjacent(x, y, Direction::N);
        let s: usize = self.adjacent(x, y, Direction::S);
        let e: usize = self.adjacent(x, y, Direction::E);
        let w: usize = self.adjacent(x, y, Direction::W);
        let ne: usize = self.adjacent(x, y, Direction::NE);
        let se: usize = self.adjacent(x, y, Direction::SE);
        let sw: usize = self.adjacent(x, y, Direction::SW);
        let nw: usize = self.adjacent(x, y, Direction::NW);
        Cell { occupied: false, n, s, e, w, ne, se, sw, nw }
    }

    /// Writes `value` as the run count that the stone `steps` cells from
    /// `(x, y)` in direction `toward` holds for the way back.
    fn mark_end(&mut self, x: usize, y: usize, toward: Direction, steps: usize, value: usize)
        requires
            old(self).wf(),
            old(self).stones().contains(ray_cell(x as int, y as int, toward, steps as int)),
        ensures
            final(self).wf(),
            final(self).side() == old(self).side(),
            final(self).goal() == old(self).goal(),
            final(self).stones() == old(self).stones(),
            forall|cx: int, cy: int, d: Direction|
                #[trigger] final(self).run_at(cx, cy, d) == if (cx, cy) == ray_cell(
                    x as int,
                    y as int,
                    toward,
                    steps as int,
                ) && d == toward.opposite() {
                    value as int
                } else {
                    old(self).run_at(cx, cy, d)
                },
    {
        proof {
            self.lemma_wf_facts();
        }
        let tx: usize = toward.shift_x(x, steps);
        let ty: usize = toward.shift_y(y, steps);
        self.set_run_count(tx, ty, toward.reversed(), value);
    }

    /// Brings the run counts up to date after a stone was put on `(x, y)`:
    /// `q` holds the runs that lay beyond the cell before.
    fn propagate(&mut self, x: usize, y: usize, q: Cell, Ghost(before): Ghost<Set<(int, int)>>)
        requires
            old(self).wf(),
            in_board(old(self).side(), x as int, y as int),
            !before.contains((x as int, y as int)),
            old(self).stones() == before.insert((x as int, y as int)),
            forall|d: Direction|
                #[trigger] q.run(d) == run_beyond(before, old(self).side(), x as int, y as int, d),
        ensures
            final(self).wf(),
            final(self).side() == old(self).side(),
            final(self).goal() == old(self).goal(),
            final(self).stones() == old(self).stones(),
            forall|cx: int, cy: int, d: Direction|
                #[trigger] final(self).run_at(cx, cy, d) == if (cx, cy) == run_end(
                    before,
                    old(self).side(),
                    x as int,
                    y as int,
                    d.opposite(),
                ) {
                    line_len(before, old(self).side(), x as int, y as int, d) - 1
                } else {
                    old(self).run_at(cx, cy, d)
                },
    {
        proof {
            let size = self.side();
            self.lemma_wf_facts();
            lemma_run_bounded(before, size, Direction::N.step_x(x as int, 1), Direction::N.step_y(y as int, 1), Direction::N);
            lemma_run_bounded(before, size, Direction::S.step_x(x as int, 1), Direction::S.step_y(y as int, 1), Direction::S);
            lemma_run_bounded(before, size, Direction::E.step_x(x as int, 1), Direction::E.step_y(y as int, 1), Direction::E);
            lemma_run_bounded(before, size, Direction::W.step_x(x as int, 1), Direction::W.step_y(y as int, 1), Direction::W);
            lemma_run_bounded(before, size, Direction::NE.step_x(x as int, 1), Direction::NE.step_y(y as int, 1), Direction::NE);
            lemma_run_bounded(before, size, Direction::SE.step_x(x as int, 1), Direction::SE.step_y(y as int, 1), Direction::SE);
            lemma_run_bounded(before, size, Direction::SW.step_x(x as int, 1), Direction::SW.step_y(y as int, 1), Direction::SW);
            lemma_run_bounded(before, size, Direction::NW.step_x(x as int, 1), Direction::NW.step_y(y as int, 1), Direction::NW);
            lemma_run_end_is_stone(before, size, x as int, y as int, Direction::N);
            lemma_run_end_is_stone(before, size, x as int, y as int, Direction::S);
            lemma_run_end_is_stone(before, size, x as int, y as int, Direction::E);
            lemma_run_end_is_stone(before, size, x as int, y as int, Direction::W);
            lemma_run_end_is_stone(before, size, x as int, y as int, Direction::NE);
            lemma_run_end_is_stone(before, size, x as int, y as int, Direction::SE);
            lemma_run_end_is_stone(before, size, x as int, y as int, Direction::SW);
            lemma_run_end_is_stone(before, size, x as int, y as int, Direction::NW);
            assert(q.run(Direction::N) == q.n && q.run(Direction::S) == q.s);
            assert(q.run(Direction::E) == q.e && q.run(Direction::W) == q.w);
            assert(q.run(Direction::NE) == q.ne && q.run(Direction::SW) == q.sw);
            assert(q.run(Direction::SE) == q.se && q.run(Direction::NW) == q.nw);
        }
        let col: usize = q.s + q.n;
        let row: usize = q.w + q.e;
        let diag: usize = q.nw + q.se;
        let anti: usize = q.ne + q.sw;
        self.mark_end(x, y, Direction::S, q.s, col);
        self.mark_end(x, y, Direction::N, q.n, col);
        self.mark_end(x, y, Direction::E, q.e, row);
        self.mark_end(x, y, Direction::W, q.w, row);
        self.mark_end(x, y, Direction::SE, q.se, diag);
        self.mark_end(x, y, Direction::NW, q.nw, diag);
        self.mark_end(x, y, Direction::NE, q.ne, anti);
        self.mark_end(x, y, Direction::SW, q.sw, anti);
    }

    /// Places a stone of the player on the empty cell `(x, y)` and tells
    /// whether it completes a line of the winning length. Unless it does,
    /// the run counts of the stones at the two ends of each line through
    /// `(x, y)` are brought up to date, two writes for each axis.
    pub fn check_win(&mut self, x: usize, y: usize) -> (won: bool)
        requires
            old(self).wf(),
            old(self).consistent(),
            in_board(old(self).side(), x as int, y as int),
            !old(self).stones().contains((x as int, y as int)),
        ensures
            final(self).wf(),
            final(self).side() == old(self).side(),
            final(self).goal() == old(self).goal(),
            final(self).stones() == old(self).stones().insert((x as int, y as int)),
            won == completes_line(old(self).stones(), old(self).side(), x as int, y as int, old(self).goal()),
            !won ==> final(self).consistent(),
            forall|cx: int, cy: int, d: Direction|
                #[trigger] final(self).run_at(cx, cy, d) == if !won && (cx, cy) == run_end(
                    old(self).stones(),
                    old(self).side(),
                    x as int,
                    y as int,
                    d.opposite(),
                ) {
                    line_len(old(self).stones(), old(self).side(), x as int, y as int, d) - 1
                } else {
                    old(self).run_at(cx, cy, d)
                },
    {
        let q: Cell = self.survey(x, y);
        proof {
            assert(q.run(Direction::N) == q.n && q.run(Direction::S) == q.s);
            assert(q.run(Direction::E) == q.e && q.run(Direction::W) == q.w);
            assert(q.run(Direction::NE) == q.ne && q.run(Direction::SW) == q.sw);
            assert(q.run(Direction::SE) == q.se && q.run(Direction::NW) == q.nw);
        }
        let col: usize = q.s + 1 + q.n;
        let row: usize = q.w + 1 + q.e;
        let diag: usize = q.nw + 1 + q.se;
        let anti: usize = q.ne + 1 + q.sw;
        self.set_occupied(x, y);
        if reaches(col, row, diag, anti, self.win) {
            return true;
        }
        self.propagate(x, y, q, Ghost(old(self).stones()));
        proof {
            lemma_move_keeps_consistent(*old(self), *self, x as int, y as int);
        }
        false
    }
}

/// Whether one of the four lines through a new stone has reached the
/// winning length.
pub fn reaches(col: usize, row: usize, diag: usize, anti: usize, win: usize) -> (won: bool)
    ensures
        won == (col >= win || row >= win || diag >= win || anti >= win),
{
    col >= win || row >= win || diag >= win || anti >= win
}

/// The last cell of the run beyond an empty cell is that cell itself or a
/// stone on the board.
proof fn lemma_run_end_is_stone(stones: Set<(int, int)>, size: int, x: int, y: int, d: Direction)
    ensures
        run_beyond(stones, size, x, y, d) == 0 ==> run_end(stones, size, x, y, d) == (x, y),
        run_beyond(stones, size, x, y, d) > 0 ==> has_stone(stones, size, run_end(stones, size, x, y, d)),
{
    let k = run_beyond(stones, size, x, y, d) as int;
    if k > 0 {
        lemma_run_cells(stones, size, d.step_x(x, 1), d.step_y(y, 1), d, k - 1);
        assert(ray_cell(d.step_x(x, 1), d.step_y(y, 1), d, k - 1) == ray_cell(x, y, d, k));
    }
}

/// Writing the new line length, less one, to the stones at the two ends of
/// each line through a new stone keeps the run counts in agreement with the
/// stones.
proof fn lemma_move_keeps_consistent(before: Board, after: Board, x: int, y: int)
    requires
        before.wf(),
        before.consistent(),
        in_board(before.side(), x, y),
        !before.stones().contains((x, y)),
        after.side() == before.side(),
        after.stones() == before.stones().insert((x, y)),
        forall|cx: int, cy: int, d: Direction|
            #[trigger] after.run_at(cx, cy, d) == if (cx, cy) == run_end(
                before.stones(),
                before.side(),
                x,
                y,
                d.opposite(),
            ) {
                line_len(before.stones(), before.side(), x, y, d) - 1
            } else {
                before.run_at(cx, cy, d)
            },
    ensures
        after.consistent(),
{
    let s = before.stones();
    let s1 = after.stones();
    let size = before.side();
    before.lemma_wf_facts();
    assert forall|cx: int, cy: int, d: Direction|
        s1.contains((cx, cy)) && !(s1.contains(ray_cell(cx, cy, d, -1)) && s1.contains(
            ray_cell(cx, cy, d, 1),
        )) implies #[trigger] after.run_at(cx, cy, d) == run_beyond(s1, size, cx, cy, d) by {
        lemma_end_count(s, size, x, y, cx, cy, d, before.run_at(cx, cy, d));
    }
}

/// The case analysis behind `lemma_move_keeps_consistent`, for one stone
/// `(cx, cy)` and one direction `d`, over the stones alone. `stored` is the
/// count held for that stone and direction before the move.
proof fn lemma_end_count(
    s: Set<(int, int)>,
    size: int,
    x: int,
    y: int,
    cx: int,
    cy: int,
    d: Direction,
    stored: int,
)
    requires
        forall|c: (int, int)| #[trigger] s.contains(c) ==> in_board(size, c.0, c.1),
        in_board(size, x, y),
        !s.contains((x, y)),
        s.insert((x, y)).contains((cx, cy)),
        !(s.insert((x, y)).contains(ray_cell(cx, cy, d, -1)) && s.insert((x, y)).contains(
            ray_cell(cx, cy, d, 1),
        )),
        !s.contains((cx, cy)) ==> stored == 0,
        s.contains((cx, cy)) && !(s.contains(ray_cell(cx, cy, d, -1)) && s.contains(ray_cell(cx, cy, d, 1)))
            ==> stored == run_beyond(s, size, cx, cy, d),
    ensures
        run_beyond(s.insert((x, y)), size, cx, cy, d) == if (cx, cy) == run_end(s, size, x, y, d.opposite()) {
            line_len(s, size, x, y, d) - 1
        } else {
            stored
        },
{
    let p = (x, y);
    let c = (cx, cy);
    let s1 = s.insert(p);
    let o = d.opposite();
    let k = run_beyond(s, size, x, y, o) as int;
    let m = run_beyond(s, size, x, y, d) as int;
    let ox = o.step_x(x, 1);
    let oy = o.step_y(y, 1);
    let nx = d.step_x(cx, 1);
    let ny = d.step_y(cy, 1);
    assert(d.opposite().opposite() == d);
    if c == run_end(s, size, x, y, o) {
        if k == 0 {
            lemma_run_beyond_ignores_origin(s, size, x, y, d);
        } else {
            // the stones between the end of the run and the new stone
            assert forall|j: int| 0 <= j < k - 1 implies #[trigger] has_stone(s, size, ray_cell(nx, ny, d, j)) by {
                lemma_run_cells(s, size, ox, oy, o, k - 2 - j);
                assert(ray_cell(ox, oy, o, k - 2 - j) == ray_cell(nx, ny, d, j));
            }
            assert(ray_cell(nx, ny, d, k - 1) == p);
            lemma_run_exact(s, size, nx, ny, d, k - 1);
            lemma_run_insert_at_end(s, size, nx, ny, d, p);
        }
    } else if c == p {
        // a run lies behind the new stone, so nothing may lie ahead of it
        lemma_run_cells(s, size, ox, oy, o, 0);
        assert(ray_cell(ox, oy, o, 0) == ray_cell(cx, cy, d, -1));
        assert(!s1.contains((nx, ny)));
    } else {
        let n = run_beyond(s, size, cx, cy, d) as int;
        if p == ray_cell(nx, ny, d, n) {
            // the new stone would extend the run ahead of `c`: then `c`
            // lies strictly inside the new line
            assert forall|j: int| 0 <= j < n + 1 implies #[trigger] has_stone(s, size, ray_cell(ox, oy, o, j)) by {
                if j < n {
                    lemma_run_cells(s, size, nx, ny, d, n - 1 - j);
                    assert(ray_cell(nx, ny, d, n - 1 - j) == ray_cell(ox, oy, o, j));
                } else {
                    assert(ray_cell(ox, oy, o, j) == c);
                }
            }
            lemma_run_at_least(s, size, ox, oy, o, n + 1);
            assert(ray_cell(x, y, o, n + 1) == c);
            assert(k >= n + 2);
            lemma_run_cells(s, size, ox, oy, o, n + 1);
            assert(ray_cell(ox, oy, o, n + 1) == ray_cell(cx, cy, d, -1));
            if n > 0 {
                lemma_run_cells(s, size, nx, ny, d, 0);
                assert(ray_cell(nx, ny, d, 0) == ray_cell(cx, cy, d, 1));
            } else {
                assert(ray_cell(cx, cy, d, 1) == p);
            }
            assert(false);
        }
        lemma_run_insert_elsewhere(s, size, nx, ny, d, p);
    }
}

/// Plays the moves of `order` in turn, circle first, each player on a
/// ledger of their own, and stops at the first move that completes a
/// line. Returns the player who made that move, or `None` where no move of
/// the order completes a line.
pub fn play(order: &Vec<usize>, config: &Config) -> (result: Option<Player>)
    requires
        config.wf(),
        valid_order(order@, config.side()),
    ensures
        outcome_is(order@, config.side(), config.goal(), result),
{
    let size: usize = config.size();
    let ghost win = config.goal();
    let mut circle: Board = Board::new(config);
    let mut cross: Board = Board::new(config);
    proof {
        lemma_stones_start(order@, size as int, Player::Circle);
        lemma_stones_start(order@, size as int, Player::Cross);
    }
    let mut i: usize = 0;
    while i < order.len()
        invariant
            i <= order@.len(),
            0 < size,
            size == config.side(),
            win == config.goal(),
            valid_order(order@, size as int),
            circle.wf(),
            circle.consistent(),
            circle.side() == size,
            circle.goal() == win,
            cross.wf(),
            cross.consistent(),
            cross.side() == size,
            cross.goal() == win,
            circle.stones() == stones_of(order@, size as int, Player::Circle, i as int),
            cross.stones() == stones_of(order@, size as int, Player::Cross, i as int),
            forall|j: int| 0 <= j < i ==> !#[trigger] wins_at(order@, size as int, win, j),
        decreases order@.len() - i,
    {
        let index: usize = order[i];
        let x: usize = index % size;
        let y: usize = index / size;
        proof {
            lemma_cell_on_board(index as int, size as int);
            lemma_fresh_cell(order@, size as int, Player::Circle, i as int);
            lemma_fresh_cell(order@, size as int, Player::Cross, i as int);
            lemma_stones_step(order@, size as int, Player::Circle, i as int);
            lemma_stones_step(order@, size as int, Player::Cross, i as int);
        }
        let player: Player = player_to_move(i);
        let won: bool = match player {
            Player::Circle => circle.check_win(x, y),
            Player::Cross => cross.check_win(x, y),
        };
        if won {
            assert(first_win(order@, size as int, win, i as int));
            return Some(player);
        }
        i = i + 1;
    }
    None
}

/// Plays one game on a board whose cells come in the order of the
/// inside-out shuffle drawn from `rng`.
pub fn do_game(rng: &mut XorShift, config: &Config) -> (result: Option<Player>)
    requires
        config.wf(),
    ensures
        final(rng).state() == inside_out(old(rng).state(), (config.side() * config.side()) as nat).1,
        outcome_is(
            inside_out(old(rng).state(), (config.side() * config.side()) as nat).0,
            config.side(),
            config.goal(),
            result,
        ),
{
    let order: Vec<usize> = shuffle(rng, config.cells());
    play(&order, config)
}

} // verus!
