//! Win detection by rescanning: the board keeps the player's stones and the
//! number of stones on every column, row and diagonal, and looks along a
//! line only where that number allows a win.

use vstd::prelude::*;
use rand::rngs::SmallRng;
use crate::config::{Config, MAX_SIZE};
use crate::game::{
    first_win, is_permutation, lemma_cell_on_board, lemma_fresh_cell, lemma_stones_start, lemma_stones_step,
    mover, outcome_is, player_to_move, stones_of, valid_order, wins_at, Player,
};
use crate::geometry::{Direction, in_board, ray_cell};
use crate::lines::{
    completes_line, counted_line, has_stone, lemma_line_ignores_origin, lemma_line_within_count,
    lemma_ray_bounded, lemma_ray_empty, lemma_ray_insert, lemma_run_at_least, lemma_run_exact, line_len,
    run_beyond, stones_on_line,
};
use crate::permutation::shuffled_cells;

verus! {

/// The place of cell `(x, y)` in the stored vector of a board of side
/// `size`.
spec fn place(size: int, x: int, y: int) -> int {
    y * size + x
}

proof fn lemma_place(size: int, x: int, y: int)
    by (nonlinear_arith)
    requires
        0 <= size <= 65533,
        0 <= x < size,
        0 <= y < size,
    ensures
        0 <= y * size,
        0 <= place(size, x, y) < size * size,
        size * size <= 65533 * 65533,
{
}

proof fn lemma_place_injective(size: int, x1: int, y1: int, x2: int, y2: int)
    by (nonlinear_arith)
    requires
        0 <= x1 < size,
        0 <= x2 < size,
        0 <= y1 < size,
        0 <= y2 < size,
        place(size, x1, y1) == place(size, x2, y2),
    ensures
        x1 == x2,
        y1 == y2,
{
}

/// Whether `p` lies on the line through `(x, y)` along the axis of `d`.
pub open spec fn aligned(x: int, y: int, d: Direction, p: (int, int)) -> bool {
    match d {
        Direction::N | Direction::S => p.0 == x,
        Direction::E | Direction::W => p.1 == y,
        Direction::NW | Direction::SE => p.0 - p.1 == x - y,
        Direction::NE | Direction::SW => p.0 + p.1 == x + y,
    }
}

/// A new stone adds one to the count of each line it lies on.
pub proof fn lemma_line_insert(stones: Set<(int, int)>, size: int, x: int, y: int, d: Direction, p: (int, int))
    requires
        in_board(size, x, y),
        in_board(size, p.0, p.1),
        !stones.contains(p),
    ensures
        stones_on_line(stones.insert(p), size, x, y, d) == stones_on_line(stones, size, x, y, d) + (if aligned(
            x,
            y,
            d,
            p,
        ) {
            1nat
        } else {
            0nat
        }),
{
    let o = d.opposite();
    lemma_ray_insert(stones, size, d.step_x(x, 1), d.step_y(y, 1), d, p);
    lemma_ray_insert(stones, size, o.step_x(x, 1), o.step_y(y, 1), o, p);
}

/// A line of the board holds at most as many stones as the board is wide.
pub proof fn lemma_line_bounded(stones: Set<(int, int)>, size: int, x: int, y: int, d: Direction)
    requires
        in_board(size, x, y),
    ensures
        stones_on_line(stones, size, x, y, d) <= size,
{
    let o = d.opposite();
    lemma_ray_bounded(stones, size, d.step_x(x, 1), d.step_y(y, 1), d);
    lemma_ray_bounded(stones, size, o.step_x(x, 1), o.step_y(y, 1), o);
}

/// One player's stones with a count of the stones on each line.
pub struct Board {
    size: usize,
    win: usize,
    board: Vec<bool>,
    cols: Vec<usize>,
    rows: Vec<usize>,
    diag: Vec<usize>,
    anti: Vec<usize>,
}

impl Board {
    /// The side of the board.
    pub closed spec fn side(&self) -> int {
        self.size as int
    }

    /// The number of stones in a line that wins.
    pub closed spec fn goal(&self) -> int {
        self.win as int
    }

    /// The cells on which the player has a stone.
    pub closed spec fn stones(&self) -> Set<(int, int)> {
        Set::new(
            |c: (int, int)| in_board(self.size as int, c.0, c.1) && self.board@[place(self.size as int, c.0, c.1)],
        )
    }

    spec fn agrees_at(&self, x: int, y: int) -> bool {
        let s = self.stones();
        let n = self.size as int;
        &&& self.cols@[x] == stones_on_line(s, n, x, y, Direction::S)
        &&& self.rows@[y] == stones_on_line(s, n, x, y, Direction::W)
        &&& self.diag@[x - y + n - 1] == stones_on_line(s, n, x, y, Direction::NW)
        &&& self.anti@[x + y] == stones_on_line(s, n, x, y, Direction::NE)
    }

    /// The board is well formed: it has all its cells, and the count kept
    /// for each column, row and diagonal is the number of stones on it.
    pub closed spec fn wf(&self) -> bool {
        &&& 1 <= self.size <= MAX_SIZE
        &&& self.win <= self.size
        &&& self.board@.len() == self.size * self.size
        &&& self.cols@.len() == self.size
        &&& self.rows@.len() == self.size
        &&& self.diag@.len() == 2 * self.size - 1
        &&& self.anti@.len() == 2 * self.size - 1
        &&& forall|x: int, y: int| in_board(self.size as int, x, y) ==> #[trigger] self.agrees_at(x, y)
    }

    /// In a well-formed board every stone is on the board.
    pub proof fn lemma_wf_facts(&self)
        requires
            self.wf(),
        ensures
            1 <= self.side() <= MAX_SIZE,
            0 <= self.goal() <= self.side(),
            forall|c: (int, int)| #[trigger] self.stones().contains(c) ==> in_board(self.side(), c.0, c.1),
    {
    }

    /// An empty board for the given side and winning length.
    pub fn new(config: &Config) -> (board: Board)
        requires
            config.wf(),
        ensures
            board.wf(),
            board.side() == config.side(),
            board.goal() == config.goal(),
            board.stones() == Set::<(int, int)>::empty(),
    {
        let size: usize = config.size();
        let win: usize = config.win();
        proof {
            lemma_place(size as int, 0, 0);
        }
        let board = Board {
            size,
            win,
            board: filled(size * size, false),
            cols: filled(size, 0usize),
            rows: filled(size, 0usize),
            diag: filled(2 * size - 1, 0usize),
            anti: filled(2 * size - 1, 0usize),
        };
        proof {
            assert(board.stones() =~= Set::<(int, int)>::empty()) by {
                assert forall|c: (int, int)| !board.stones().contains(c) by {
                    if in_board(size as int, c.0, c.1) {
                        lemma_place(size as int, c.0, c.1);
                    }
                }
            }
            assert forall|x: int, y: int| in_board(size as int, x, y) implies #[trigger] board.agrees_at(x, y) by {
                let e = Set::<(int, int)>::empty();
                lemma_empty_line(size as int, x, y, Direction::S);
                lemma_empty_line(size as int, x, y, Direction::W);
                lemma_empty_line(size as int, x, y, Direction::NW);
                lemma_empty_line(size as int, x, y, Direction::NE);
            }
        }
        board
    }

    /// The side of the board.
    pub fn size(&self) -> (s: usize)
        ensures
            s == self.side(),
    {
        self.size
    }

    /// The number of stones in a line that wins.
    pub fn win(&self) -> (k: usize)
        ensures
            k == self.goal(),
    {
        self.win
    }

    /// Whether the player has a stone on `(x, y)`. No stone stands off the
    /// board.
    pub fn is_occupied(&self, x: isize, y: isize) -> (there: bool)
        requires
            self.wf(),
        ensures
            there == self.stones().contains((x as int, y as int)),
    {
        if x >= 0 && y >= 0 && (x as usize) < self.size && (y as usize) < self.size {
            proof {
                lemma_place(self.size as int, x as int, y as int);
            }
            self.board[(y as usize) * self.size + (x as usize)]
        } else {
            false
        }
    }

    /// Puts a stone of the player on the empty cell `(x, y)` and counts it
    /// on its column, its row and its two diagonals.
    pub fn update(&mut self, x: usize, y: usize)
        requires
            old(self).wf(),
            in_board(old(self).side(), x as int, y as int),
            !old(self).stones().contains((x as int, y as int)),
        ensures
            final(self).wf(),
            final(self).side() == old(self).side(),
            final(self).goal() == old(self).goal(),
            final(self).stones() == old(self).stones().insert((x as int, y as int)),
    {
        let ghost size = self.size as int;
        let ghost before = self.stones();
        let ghost p = (x as int, y as int);
        proof {
            lemma_place(size, x as int, y as int);
            assert(self.agrees_at(x as int, y as int));
            lemma_line_insert(before, size, x as int, y as int, Direction::S, p);
            lemma_line_insert(before, size, x as int, y as int, Direction::W, p);
            lemma_line_insert(before, size, x as int, y as int, Direction::NW, p);
            lemma_line_insert(before, size, x as int, y as int, Direction::NE, p);
            lemma_line_bounded(before.insert(p), size, x as int, y as int, Direction::S);
            lemma_line_bounded(before.insert(p), size, x as int, y as int, Direction::W);
            lemma_line_bounded(before.insert(p), size, x as int, y as int, Direction::NW);
            lemma_line_bounded(before.insert(p), size, x as int, y as int, Direction::NE);
        }
        self.board.set(y * self.size + x, true);
        let c: usize = self.cols[x];
        self.cols.set(x, c + 1);
        let r: usize = self.rows[y];
        self.rows.set(y, r + 1);
        let di: usize = x + self.size - 1 - y;
        let dv: usize = self.diag[di];
        self.diag.set(di, dv + 1);
        let ai: usize = x + y;
        let av: usize = self.anti[ai];
        self.anti.set(ai, av + 1);
        proof {
            assert(self.stones() =~= before.insert(p)) by {
                assert forall|c: (int, int)| self.stones().contains(c) == before.insert(p).contains(c) by {
                    if in_board(size, c.0, c.1) {
                        lemma_place(size, c.0, c.1);
                        if place(size, c.0, c.1) == place(size, x as int, y as int) {
                            lemma_place_injective(size, c.0, c.1, x as int, y as int);
                        }
                    }
                }
            }
            assert forall|qx: int, qy: int| in_board(size, qx, qy) implies #[trigger] self.agrees_at(qx, qy) by {
                assert(old(self).agrees_at(qx, qy));
                lemma_line_insert(before, size, qx, qy, Direction::S, p);
                lemma_line_insert(before, size, qx, qy, Direction::W, p);
                lemma_line_insert(before, size, qx, qy, Direction::NW, p);
                lemma_line_insert(before, size, qx, qy, Direction::NE, p);
            }
        }
    }

    /// The length of the run beyond `(x, y)` in direction `d`, counted cell
    /// by cell, but no further than `limit`.
    fn scan(&self, x: isize, y: isize, d: Direction, limit: usize) -> (n: usize)
        requires
            self.wf(),
            in_board(self.side(), x as int, y as int),
        ensures
            n == if run_beyond(self.stones(), self.side(), x as int, y as int, d) < limit {
                run_beyond(self.stones(), self.side(), x as int, y as int, d)
            } else {
                limit as nat
            },
    {
        let v: (isize, isize) = d.vector();
        let ghost x1 = d.step_x(x as int, 1);
        let ghost y1 = d.step_y(y as int, 1);
        let mut cx: isize = x + v.0;
        let mut cy: isize = y + v.1;
        let mut n: usize = 0;
        while n < limit && self.is_occupied(cx, cy)
            invariant
                self.wf(),
                n <= limit,
                v.0 == d.dx(),
                v.1 == d.dy(),
                x1 == d.step_x(x as int, 1),
                y1 == d.step_y(y as int, 1),
                (cx as int, cy as int) == ray_cell(x1, y1, d, n as int),
                -1 <= cx <= self.side(),
                -1 <= cy <= self.side(),
                forall|j: int| 0 <= j < n ==> #[trigger] has_stone(self.stones(), self.side(), ray_cell(x1, y1, d, j)),
            decreases limit - n,
        {
            proof {
                self.lemma_wf_facts();
                assert(has_stone(self.stones(), self.side(), ray_cell(x1, y1, d, n as int)));
            }
            n = n + 1;
            cx = cx + v.0;
            cy = cy + v.1;
        }
        proof {
            if n < limit {
                assert(!has_stone(self.stones(), self.side(), ray_cell(x1, y1, d, n as int)));
                lemma_run_exact(self.stones(), self.side(), x1, y1, d, n as int);
            } else {
                lemma_run_at_least(self.stones(), self.side(), x1, y1, d, n as int);
            }
        }
        n
    }

    /// Whether the stones in a row through `(x, y)` along the axis of `d`
    /// reach the winning length, the cell itself counted as a stone.
    fn line_reaches(&self, x: isize, y: isize, d: Direction) -> (reached: bool)
        requires
            self.wf(),
            in_board(self.side(), x as int, y as int),
        ensures
            reached == (line_len(self.stones(), self.side(), x as int, y as int, d) >= self.goal()),
    {
        let ahead: usize = self.scan(x, y, d, self.win);
        let behind: usize = self.scan(x, y, d.reversed(), self.win);
        ahead + 1 + behind >= self.win
    }

    /// Tells whether the stone on `(x, y)` lies on a line of the winning
    /// length. A line is looked along only where it holds enough stones
    /// from edge to edge.
    pub fn check_win(&self, x: isize, y: isize) -> (won: bool)
        requires
            self.wf(),
            in_board(self.side(), x as int, y as int),
        ensures
            won == (counted_line(self.stones(), self.side(), x as int, y as int, Direction::S, self.goal())
                || counted_line(self.stones(), self.side(), x as int, y as int, Direction::W, self.goal())
                || counted_line(self.stones(), self.side(), x as int, y as int, Direction::NW, self.goal())
                || counted_line(self.stones(), self.side(), x as int, y as int, Direction::NE, self.goal())),
            self.stones().contains((x as int, y as int)) ==> won == completes_line(
                self.stones(),
                self.side(),
                x as int,
                y as int,
                self.goal(),
            ),
    {
        let ux: usize = x as usize;
        let uy: usize = y as usize;
        proof {
            assert(self.agrees_at(x as int, y as int));
            if self.stones().contains((x as int, y as int)) {
                lemma_line_within_count(self.stones(), self.side(), x as int, y as int, Direction::S);
                lemma_line_within_count(self.stones(), self.side(), x as int, y as int, Direction::W);
                lemma_line_within_count(self.stones(), self.side(), x as int, y as int, Direction::NW);
                lemma_line_within_count(self.stones(), self.side(), x as int, y as int, Direction::NE);
            }
        }
        if self.cols[ux] >= self.win && self.line_reaches(x, y, Direction::S) {
            return true;
        }
        if self.rows[uy] >= self.win && self.line_reaches(x, y, Direction::W) {
            return true;
        }
        if self.diag[ux + self.size - 1 - uy] >= self.win && self.line_reaches(x, y, Direction::NW) {
            return true;
        }
        if self.anti[ux + uy] >= self.win && self.line_reaches(x, y, Direction::NE) {
            return true;
        }
        false
    }
}

/// A vector of `n` copies of `value`.
fn filled<T: Copy>(n: usize, value: T) -> (v: Vec<T>)
    ensures
        v@.len() == n,
        forall|i: int| 0 <= i < n ==> v@[i] == value,
{
    let mut v: Vec<T> = Vec::new();
    let mut i: usize = 0;
    while i < n
        invariant
            i <= n,
            v@.len() == i,
            forall|j: int| 0 <= j < i ==> v@[j] == value,
        decreases n - i,
    {
        v.push(value);
        i = i + 1;
    }
    v
}

/// An empty board has no stone on any line.
proof fn lemma_empty_line(size: int, x: int, y: int, d: Direction)
    ensures
        stones_on_line(Set::<(int, int)>::empty(), size, x, y, d) == 0,
{
    let o = d.opposite();
    lemma_ray_empty(size, d.step_x(x, 1), d.step_y(y, 1), d);
    lemma_ray_empty(size, o.step_x(x, 1), o.step_y(y, 1), o);
}

/// Plays the moves of `order` in turn, circle first, each player on a
/// board of their own, and stops at the first move that completes a line.
/// Returns the player who made that move, or `None` where no move of the
/// order completes a line.
pub fn play(order: &Vec<usize>, config: &Config) -> (result: Option<Player>)
    requires
        config.wf(),
        valid_order(order@, config.side()),
    ensures
        outcome_is(order@, config.side(), config.goal(), result),
{
    let size: usize = config.size();
    let ghost win = config.goal();
    let mut circle: Board = Board::new(config);
    let mut cross: Board = Board::new(config);
    proof {
        lemma_stones_start(order@, size as int, Player::Circle);
        lemma_stones_start(order@, size as int, Player::Cross);
    }
    let mut i: usize = 0;
    while i < order.len()
        invariant
            i <= order@.len(),
            0 < size <= MAX_SIZE,
            size == config.side(),
            win == config.goal(),
            valid_order(order@, size as int),
            circle.wf(),
            circle.side() == size,
            circle.goal() == win,
            cross.wf(),
            cross.side() == size,
            cross.goal() == win,
            circle.stones() == stones_of(order@, size as int, Player::Circle, i as int),
            cross.stones() == stones_of(order@, size as int, Player::Cross, i as int),
            forall|j: int| 0 <= j < i ==> !#[trigger] wins_at(order@, size as int, win, j),
        decreases order@.len() - i,
    {
        let index: usize = order[i];
        let x: usize = index % size;
        let y: usize = index / size;
        proof {
            lemma_cell_on_board(index as int, size as int);
            lemma_fresh_cell(order@, size as int, Player::Circle, i as int);
            lemma_fresh_cell(order@, size as int, Player::Cross, i as int);
            lemma_stones_step(order@, size as int, Player::Circle, i as int);
            lemma_stones_step(order@, size as int, Player::Cross, i as int);
            lemma_line_ignores_origin(
                stones_of(order@, size as int, mover(i as int), i as int),
                size as int,
                x as int,
                y as int,
                win,
            );
        }
        let player: Player = player_to_move(i);
        let won: bool = match player {
            Player::Circle => {
                circle.update(x, y);
                circle.check_win(x as isize, y as isize)
            },
            Player::Cross => {
                cross.update(x, y);
                cross.check_win(x as isize, y as isize)
            },
        };
        if won {
            assert(first_win(order@, size as int, win, i as int));
            return Some(player);
        }
        i = i + 1;
    }
    None
}

/// Plays one game on a board whose cells come in an order drawn from
/// `rng`. The result is the outcome of the game for that order, which is
/// some order of all the cells.
pub fn do_game(rng: &mut SmallRng, config: &Config) -> (result: Option<Player>)
    requires
        config.wf(),
    ensures
        exists|order: Seq<usize>|
            is_permutation(order, config.side() * config.side()) && #[trigger] outcome_is(
                order,
                config.side(),
                config.goal(),
                result,
            ),
{
    let order: Vec<usize> = shuffled_cells(rng, config.cells());
    play(&order, config)
}

} // verus!
