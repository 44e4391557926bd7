//! The mathematical model of stones and runs.
//!
//! A player's stones are a set of cells. Everything the boards compute is
//! stated against the functions of this module, which count stones cell by
//! cell along a ray.

use vstd::prelude::*;
use crate::geometry::{Direction, in_board, ray_cell};

verus! {

/// How many cells a ray from `(x, y)` in direction `d` still has on the
/// board, the starting cell included.
pub open spec fn room(size: int, x: int, y: int, d: Direction) -> int {
    match d {
        Direction::E | Direction::NE | Direction::SE => size - x,
        Direction::W | Direction::NW | Direction::SW => x + 1,
        Direction::S => size - y,
        Direction::N => y + 1,
    }
}

/// Whether `c` is a cell of the board that holds a stone.
pub open spec fn has_stone(stones: Set<(int, int)>, size: int, c: (int, int)) -> bool {
    in_board(size, c.0, c.1) && stones.contains(c)
}

/// The number of consecutive stones found by walking from `(x, y)` in
/// direction `d`, starting with `(x, y)` itself and stopping at the first
/// cell that is empty or off the board.
pub open spec fn run_from(stones: Set<(int, int)>, size: int, x: int, y: int, d: Direction) -> nat
    decreases room(size, x, y, d),
{
    if in_board(size, x, y) && stones.contains((x, y)) {
        1 + run_from(stones, size, d.step_x(x, 1), d.step_y(y, 1), d)
    } else {
        0
    }
}

/// The run that starts at the neighbour of `(x, y)` in direction `d`: the
/// stones strictly beyond `(x, y)`, not counting the cell itself.
pub open spec fn run_beyond(stones: Set<(int, int)>, size: int, x: int, y: int, d: Direction) -> nat {
    run_from(stones, size, d.step_x(x, 1), d.step_y(y, 1), d)
}

/// The last cell of the run beyond `(x, y)` in direction `d`, which is
/// `(x, y)` itself when that run is empty.
pub open spec fn run_end(stones: Set<(int, int)>, size: int, x: int, y: int, d: Direction) -> (int, int) {
    ray_cell(x, y, d, run_beyond(stones, size, x, y, d) as int)
}

/// The length of the line through `(x, y)` along the axis of `d`, with a
/// stone counted at `(x, y)` whether or not one stands there.
pub open spec fn line_len(stones: Set<(int, int)>, size: int, x: int, y: int, d: Direction) -> nat {
    run_beyond(stones, size, x, y, d) + 1 + run_beyond(stones, size, x, y, d.opposite())
}

/// Whether a stone at `(x, y)` lies on a line of at least `win` stones along
/// the column, the row or one of the two diagonals.
pub open spec fn completes_line(stones: Set<(int, int)>, size: int, x: int, y: int, win: int) -> bool {
    ||| line_len(stones, size, x, y, Direction::S) >= win
    ||| line_len(stones, size, x, y, Direction::W) >= win
    ||| line_len(stones, size, x, y, Direction::NW) >= win
    ||| line_len(stones, size, x, y, Direction::NE) >= win
}

/// A run never leaves the board.
pub proof fn lemma_run_bounded(stones: Set<(int, int)>, size: int, x: int, y: int, d: Direction)
    requires
        0 <= size,
    ensures
        run_from(stones, size, x, y, d) <= size,
        in_board(size, x, y) ==> run_from(stones, size, x, y, d) <= room(size, x, y, d),
    decreases room(size, x, y, d),
{
    if in_board(size, x, y) && stones.contains((x, y)) {
        lemma_run_bounded(stones, size, d.step_x(x, 1), d.step_y(y, 1), d);
    }
}

/// Every cell of a run is a stone on the board.
pub proof fn lemma_run_cells(stones: Set<(int, int)>, size: int, x: int, y: int, d: Direction, k: int)
    requires
        0 <= k < run_from(stones, size, x, y, d),
    ensures
        has_stone(stones, size, ray_cell(x, y, d, k)),
    decreases k,
{
    if k > 0 {
        lemma_run_cells(stones, size, d.step_x(x, 1), d.step_y(y, 1), d, k - 1);
    }
}

/// Where the first `n` cells of a ray are stones, the run has at least
/// `n` cells.
pub proof fn lemma_run_at_least(stones: Set<(int, int)>, size: int, x: int, y: int, d: Direction, n: int)
    requires
        forall|k: int| 0 <= k < n ==> #[trigger] has_stone(stones, size, ray_cell(x, y, d, k)),
    ensures
        run_from(stones, size, x, y, d) >= n,
    decreases n,
{
    if n > 0 {
        let x1 = d.step_x(x, 1);
        let y1 = d.step_y(y, 1);
        assert(ray_cell(x, y, d, 0) == (x, y));
        assert(has_stone(stones, size, ray_cell(x, y, d, 0)));
        assert forall|k: int| 0 <= k < n - 1 implies #[trigger] has_stone(
            stones,
            size,
            ray_cell(x1, y1, d, k),
        ) by {
            assert(has_stone(stones, size, ray_cell(x, y, d, k + 1)));
            assert(ray_cell(x1, y1, d, k) == ray_cell(x, y, d, k + 1));
        }
        lemma_run_at_least(stones, size, x1, y1, d, n - 1);
    }
}

/// Where the first `n` cells of a ray are stones and the next one is not,
/// the run has exactly `n` cells.
pub proof fn lemma_run_exact(stones: Set<(int, int)>, size: int, x: int, y: int, d: Direction, n: int)
    requires
        0 <= n,
        forall|k: int| 0 <= k < n ==> #[trigger] has_stone(stones, size, ray_cell(x, y, d, k)),
        !has_stone(stones, size, ray_cell(x, y, d, n)),
    ensures
        run_from(stones, size, x, y, d) == n,
{
    lemma_run_at_least(stones, size, x, y, d, n);
    if run_from(stones, size, x, y, d) > n {
        lemma_run_cells(stones, size, x, y, d, n);
    }
}

/// A new stone anywhere but on the cell just past a run leaves the run as
/// it was.
pub proof fn lemma_run_insert_elsewhere(
    stones: Set<(int, int)>,
    size: int,
    x: int,
    y: int,
    d: Direction,
    p: (int, int),
)
    requires
        p != ray_cell(x, y, d, run_from(stones, size, x, y, d) as int),
    ensures
        run_from(stones.insert(p), size, x, y, d) == run_from(stones, size, x, y, d),
    decreases room(size, x, y, d),
{
    if in_board(size, x, y) && stones.contains((x, y)) {
        let x1 = d.step_x(x, 1);
        let y1 = d.step_y(y, 1);
        let n = run_from(stones, size, x1, y1, d) as int;
        assert(ray_cell(x1, y1, d, n) == ray_cell(x, y, d, n + 1));
        lemma_run_insert_elsewhere(stones, size, x1, y1, d, p);
    } else {
        assert(ray_cell(x, y, d, 0) == (x, y));
    }
}

/// A new stone on the cell just past a run joins it to the run that starts
/// behind the new stone.
pub proof fn lemma_run_insert_at_end(
    stones: Set<(int, int)>,
    size: int,
    x: int,
    y: int,
    d: Direction,
    p: (int, int),
)
    requires
        p == ray_cell(x, y, d, run_from(stones, size, x, y, d) as int),
        in_board(size, p.0, p.1),
    ensures
        run_from(stones.insert(p), size, x, y, d) == run_from(stones, size, x, y, d) + 1 + run_beyond(
            stones,
            size,
            p.0,
            p.1,
            d,
        ),
    decreases room(size, x, y, d),
{
    let x1 = d.step_x(x, 1);
    let y1 = d.step_y(y, 1);
    if in_board(size, x, y) && stones.contains((x, y)) {
        let n = run_from(stones, size, x1, y1, d) as int;
        assert(ray_cell(x1, y1, d, n) == ray_cell(x, y, d, n + 1));
        lemma_run_insert_at_end(stones, size, x1, y1, d, p);
    } else {
        assert(p == (x, y));
        let m = run_from(stones, size, x1, y1, d) as int;
        assert(ray_cell(x1, y1, d, m) == ray_cell(x, y, d, m + 1));
        assert(ray_cell(x, y, d, m + 1) != p);
        lemma_run_insert_elsewhere(stones, size, x1, y1, d, p);
    }
}

/// A stone placed on `(x, y)` itself changes none of the runs beyond it.
pub proof fn lemma_run_beyond_ignores_origin(
    stones: Set<(int, int)>,
    size: int,
    x: int,
    y: int,
    d: Direction,
)
    ensures
        run_beyond(stones.insert((x, y)), size, x, y, d) == run_beyond(stones, size, x, y, d),
{
    let x1 = d.step_x(x, 1);
    let y1 = d.step_y(y, 1);
    let m = run_from(stones, size, x1, y1, d) as int;
    assert(ray_cell(x1, y1, d, m) == ray_cell(x, y, d, m + 1));
    assert(ray_cell(x, y, d, m + 1) != (x, y));
    lemma_run_insert_elsewhere(stones, size, x1, y1, d, (x, y));
}

/// Whether a stone on `(x, y)` completes a line does not depend on
/// whether the stone is already there.
pub proof fn lemma_line_ignores_origin(stones: Set<(int, int)>, size: int, x: int, y: int, win: int)
    ensures
        forall|d: Direction|
            #[trigger] line_len(stones.insert((x, y)), size, x, y, d) == line_len(stones, size, x, y, d),
        completes_line(stones.insert((x, y)), size, x, y, win) == completes_line(stones, size, x, y, win),
{
    assert forall|d: Direction|
        #[trigger] line_len(stones.insert((x, y)), size, x, y, d) == line_len(stones, size, x, y, d) by {
        lemma_run_beyond_ignores_origin(stones, size, x, y, d);
        lemma_run_beyond_ignores_origin(stones, size, x, y, d.opposite());
    }
}

/// The number of stones on the ray that starts at `(x, y)` and runs in
/// direction `d` to the edge of the board, gaps or not.
pub open spec fn stones_on_ray(stones: Set<(int, int)>, size: int, x: int, y: int, d: Direction) -> nat
    decreases room(size, x, y, d),
{
    if in_board(size, x, y) {
        (if stones.contains((x, y)) {
            1nat
        } else {
            0nat
        }) + stones_on_ray(stones, size, d.step_x(x, 1), d.step_y(y, 1), d)
    } else {
        0
    }
}

/// The number of stones on the whole line through `(x, y)` along the axis
/// of `d`, from edge to edge.
pub open spec fn stones_on_line(stones: Set<(int, int)>, size: int, x: int, y: int, d: Direction) -> nat {
    stones_on_ray(stones, size, d.step_x(x, 1), d.step_y(y, 1), d) + (if stones.contains((x, y)) {
        1nat
    } else {
        0nat
    }) + stones_on_ray(stones, size, d.opposite().step_x(x, 1), d.opposite().step_y(y, 1), d.opposite())
}

/// Whether the line through `(x, y)` along the axis of `d` has `win`
/// stones in all and `win` in a row through `(x, y)`.
pub open spec fn counted_line(stones: Set<(int, int)>, size: int, x: int, y: int, d: Direction, win: int) -> bool {
    stones_on_line(stones, size, x, y, d) >= win && line_len(stones, size, x, y, d) >= win
}

/// Whether board cell `p` lies on the ray from `(x, y)` in direction `d`.
pub open spec fn on_ray(size: int, x: int, y: int, d: Direction, p: (int, int)) -> bool {
    let k = match d {
        Direction::E | Direction::NE | Direction::SE => p.0 - x,
        Direction::W | Direction::NW | Direction::SW => x - p.0,
        Direction::S => p.1 - y,
        Direction::N => y - p.1,
    };
    in_board(size, x, y) && k >= 0 && ray_cell(x, y, d, k) == p
}

/// A ray holds no more stones than it has cells.
pub proof fn lemma_ray_bounded(stones: Set<(int, int)>, size: int, x: int, y: int, d: Direction)
    requires
        0 <= size,
    ensures
        in_board(size, x, y) ==> stones_on_ray(stones, size, x, y, d) <= room(size, x, y, d),
        !in_board(size, x, y) ==> stones_on_ray(stones, size, x, y, d) == 0,
    decreases room(size, x, y, d),
{
    if in_board(size, x, y) {
        lemma_ray_bounded(stones, size, d.step_x(x, 1), d.step_y(y, 1), d);
    }
}

/// A run is no longer than the number of stones on its ray.
pub proof fn lemma_run_within_ray(stones: Set<(int, int)>, size: int, x: int, y: int, d: Direction)
    ensures
        run_from(stones, size, x, y, d) <= stones_on_ray(stones, size, x, y, d),
    decreases room(size, x, y, d),
{
    if in_board(size, x, y) && stones.contains((x, y)) {
        lemma_run_within_ray(stones, size, d.step_x(x, 1), d.step_y(y, 1), d);
    }
}

/// A line through a stone is no longer than the number of stones on the
/// whole line.
pub proof fn lemma_line_within_count(stones: Set<(int, int)>, size: int, x: int, y: int, d: Direction)
    requires
        stones.contains((x, y)),
    ensures
        line_len(stones, size, x, y, d) <= stones_on_line(stones, size, x, y, d),
{
    let o = d.opposite();
    lemma_run_within_ray(stones, size, d.step_x(x, 1), d.step_y(y, 1), d);
    lemma_run_within_ray(stones, size, o.step_x(x, 1), o.step_y(y, 1), o);
}

/// An empty board has no stone on any ray.
pub proof fn lemma_ray_empty(size: int, x: int, y: int, d: Direction)
    ensures
        stones_on_ray(Set::<(int, int)>::empty(), size, x, y, d) == 0,
    decreases room(size, x, y, d),
{
    if in_board(size, x, y) {
        lemma_ray_empty(size, d.step_x(x, 1), d.step_y(y, 1), d);
    }
}

/// A new stone adds one to the rays it lies on and nothing to the others.
pub proof fn lemma_ray_insert(stones: Set<(int, int)>, size: int, x: int, y: int, d: Direction, p: (int, int))
    requires
        in_board(size, p.0, p.1),
        !stones.contains(p),
    ensures
        stones_on_ray(stones.insert(p), size, x, y, d) == stones_on_ray(stones, size, x, y, d) + (if on_ray(
            size,
            x,
            y,
            d,
            p,
        ) {
            1nat
        } else {
            0nat
        }),
    decreases room(size, x, y, d),
{
    if in_board(size, x, y) {
        lemma_ray_insert(stones, size, d.step_x(x, 1), d.step_y(y, 1), d, p);
    }
}

} // verus!
