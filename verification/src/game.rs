//! A game as a sequence of moves: who moves when, which stones each player
//! has after a number of moves, and how the game ends.
//!
//! The cells of a board of side `size` are numbered row by row, so that
//! cell `(x, y)` has the index `y * size + x`. An order of play is a
//! sequence of such indices. The player called circle makes the moves at the even
//! positions of the order, the player called cross those at the odd
//! positions.

use vstd::prelude::*;
use vstd::arithmetic::div_mod::lemma_fundamental_div_mod;
use crate::geometry::in_board;
use crate::lines::completes_line;

verus! {

/// One of the two players.
#[derive(Clone, Copy, Debug, PartialEq, Eq, Structural)]
pub enum Player {
    Circle,
    Cross,
}

/// The player who makes move `i`, the first move being move 0.
pub open spec fn mover(i: int) -> Player {
    if i % 2 == 0 {
        Player::Circle
    } else {
        Player::Cross
    }
}

/// The cell with the given index on a board of side `size`.
pub open spec fn cell_of(index: int, size: int) -> (int, int) {
    (index % size, index / size)
}

/// Every entry of the order is the index of a cell, and no cell comes
/// twice.
pub open spec fn valid_order(order: Seq<usize>, size: int) -> bool {
    &&& forall|i: int| 0 <= i < order.len() ==> 0 <= #[trigger] order[i] < size * size
    &&& order.no_duplicates()
}

/// The order names every one of the first `n` indices exactly once.
pub open spec fn is_permutation(order: Seq<usize>, n: int) -> bool {
    &&& order.len() == n
    &&& forall|i: int| 0 <= i < order.len() ==> 0 <= #[trigger] order[i] < n
    &&& order.no_duplicates()
}

/// Move `j` is a move of `player` onto cell `c`.
pub open spec fn placed(order: Seq<usize>, size: int, player: Player, j: int, c: (int, int)) -> bool {
    0 <= j < order.len() && mover(j) == player && cell_of(order[j] as int, size) == c
}

/// The stones that `player` has on the board after the first `n` moves.
pub open spec fn stones_of(order: Seq<usize>, size: int, player: Player, n: int) -> Set<(int, int)> {
    Set::new(|c: (int, int)| exists|j: int| j < n && #[trigger] placed(order, size, player, j, c))
}

/// Whether move `i` completes a line of `win` stones of the player who
/// makes it.
pub open spec fn wins_at(order: Seq<usize>, size: int, win: int, i: int) -> bool {
    completes_line(
        stones_of(order, size, mover(i), i),
        size,
        cell_of(order[i] as int, size).0,
        cell_of(order[i] as int, size).1,
        win,
    )
}

/// Move `i` completes a line and no move before it does.
pub open spec fn first_win(order: Seq<usize>, size: int, win: int, i: int) -> bool {
    &&& 0 <= i < order.len()
    &&& wins_at(order, size, win, i)
    &&& forall|j: int| 0 <= j < i ==> !#[trigger] wins_at(order, size, win, j)
}

/// Whether `result` is how the game ends: with the player who makes the
/// first move that completes a line, or with nobody where no move of the
/// order completes one.
pub open spec fn outcome_is(order: Seq<usize>, size: int, win: int, result: Option<Player>) -> bool {
    match result {
        Some(player) => exists|i: int| #[trigger] first_win(order, size, win, i) && player == mover(i),
        None => forall|i: int| 0 <= i < order.len() ==> !#[trigger] wins_at(order, size, win, i),
    }
}

/// The player who makes move `i`.
pub fn player_to_move(i: usize) -> (player: Player)
    ensures
        player == mover(i as int),
{
    if i % 2 == 0 {
        Player::Circle
    } else {
        Player::Cross
    }
}

/// The index of a cell tells its coordinates, and they lie on the board.
pub proof fn lemma_cell_on_board(index: int, size: int)
    requires
        0 < size,
        0 <= index < size * size,
    ensures
        in_board(size, cell_of(index, size).0, cell_of(index, size).1),
{
    lemma_fundamental_div_mod(index, size);
    assert(0 <= index % size < size);
    let q = index / size;
    assert(0 <= q < size) by (nonlinear_arith)
        requires
            0 < size,
            0 <= index < size * size,
            index == size * q + index % size,
            0 <= index % size < size,
    ;
}

/// Two indices of the same cell are the same index.
pub proof fn lemma_cell_of_injective(a: int, b: int, size: int)
    requires
        0 < size,
        cell_of(a, size) == cell_of(b, size),
    ensures
        a == b,
{
    lemma_fundamental_div_mod(a, size);
    lemma_fundamental_div_mod(b, size);
}

/// A move adds its cell to the stones of the player who makes it and
/// leaves the other player's stones alone.
pub proof fn lemma_stones_step(order: Seq<usize>, size: int, player: Player, i: int)
    requires
        0 <= i < order.len(),
    ensures
        stones_of(order, size, player, i + 1) == if mover(i) == player {
            stones_of(order, size, player, i).insert(cell_of(order[i] as int, size))
        } else {
            stones_of(order, size, player, i)
        },
{
    let before = stones_of(order, size, player, i);
    let after = stones_of(order, size, player, i + 1);
    let cell = cell_of(order[i] as int, size);
    let expected = if mover(i) == player {
        before.insert(cell)
    } else {
        before
    };
    assert forall|c: (int, int)| after.contains(c) == expected.contains(c) by {
        if after.contains(c) {
            let j = choose|j: int| j < i + 1 && #[trigger] placed(order, size, player, j, c);
            if j < i {
                assert(before.contains(c));
            }
        }
        if expected.contains(c) {
            if before.contains(c) {
                let j = choose|j: int| j < i && #[trigger] placed(order, size, player, j, c);
                assert(j < i + 1 && placed(order, size, player, j, c));
            } else {
                assert(placed(order, size, player, i, c));
            }
        }
    }
    assert(after =~= expected);
}

/// Before any move nobody has a stone.
pub proof fn lemma_stones_start(order: Seq<usize>, size: int, player: Player)
    ensures
        stones_of(order, size, player, 0) == Set::<(int, int)>::empty(),
{
    assert(stones_of(order, size, player, 0) =~= Set::<(int, int)>::empty());
}

/// No cell is marked twice: the cell of a move holds no stone of either
/// player when the move is made, and every cell marked before still holds
/// the stone of the player who marked it.
pub proof fn lemma_marked_once(order: Seq<usize>, size: int, i: int, j: int)
    requires
        0 < size,
        valid_order(order, size),
        0 <= i < j < order.len(),
    ensures
        !stones_of(order, size, Player::Circle, j).contains(cell_of(order[j] as int, size)),
        !stones_of(order, size, Player::Cross, j).contains(cell_of(order[j] as int, size)),
        stones_of(order, size, mover(i), j).contains(cell_of(order[i] as int, size)),
        cell_of(order[i] as int, size) != cell_of(order[j] as int, size),
{
    lemma_fresh_cell(order, size, Player::Circle, j);
    lemma_fresh_cell(order, size, Player::Cross, j);
    assert(placed(order, size, mover(i), i, cell_of(order[i] as int, size)));
    if cell_of(order[i] as int, size) == cell_of(order[j] as int, size) {
        lemma_cell_of_injective(order[i] as int, order[j] as int, size);
    }
}

/// The cell of move `i` holds no stone of `player` before that move.
pub proof fn lemma_fresh_cell(order: Seq<usize>, size: int, player: Player, i: int)
    requires
        0 < size,
        valid_order(order, size),
        0 <= i < order.len(),
    ensures
        !stones_of(order, size, player, i).contains(cell_of(order[i] as int, size)),
{
    let cell = cell_of(order[i] as int, size);
    if stones_of(order, size, player, i).contains(cell) {
        let j = choose|j: int| j < i && #[trigger] placed(order, size, player, j, cell);
        lemma_cell_of_injective(order[j] as int, order[i] as int, size);
        assert(order[j] != order[i]);
    }
}

/// The two players never hold the same cell.
pub proof fn lemma_players_apart(order: Seq<usize>, size: int, n: int)
    requires
        0 < size,
        valid_order(order, size),
    ensures
        stones_of(order, size, Player::Circle, n).disjoint(stones_of(order, size, Player::Cross, n)),
{
    assert forall|c: (int, int)|
        !(stones_of(order, size, Player::Circle, n).contains(c) && stones_of(order, size, Player::Cross, n).contains(
            c,
        )) by {
        if stones_of(order, size, Player::Circle, n).contains(c) && stones_of(
            order,
            size,
            Player::Cross,
            n,
        ).contains(c) {
            let a = choose|j: int| j < n && #[trigger] placed(order, size, Player::Circle, j, c);
            let b = choose|j: int| j < n && #[trigger] placed(order, size, Player::Cross, j, c);
            lemma_cell_of_injective(order[a] as int, order[b] as int, size);
            assert(order[a] != order[b]);
        }
    }
}

/// A game has at most one first winning move.
pub proof fn lemma_first_win_unique(order: Seq<usize>, size: int, win: int, i: int, j: int)
    requires
        first_win(order, size, win, i),
        first_win(order, size, win, j),
    ensures
        i == j,
{
    if i < j {
        assert(!wins_at(order, size, win, i));
    }
    if j < i {
        assert(!wins_at(order, size, win, j));
    }
}

/// A game ends in one way only. Whatever two boards report for the same
/// order of play, if each reports how the game ends, they report the same:
/// a board that keeps run counts and a board that looks along the lines
/// cannot disagree.
pub proof fn lemma_outcome_unique(order: Seq<usize>, size: int, win: int, a: Option<Player>, b: Option<Player>)
    requires
        outcome_is(order, size, win, a),
        outcome_is(order, size, win, b),
    ensures
        a == b,
{
    match (a, b) {
        (Some(pa), Some(pb)) => {
            let i = choose|i: int| #[trigger] first_win(order, size, win, i) && pa == mover(i);
            let j = choose|j: int| #[trigger] first_win(order, size, win, j) && pb == mover(j);
            lemma_first_win_unique(order, size, win, i, j);
        },
        (Some(pa), None) => {
            let i = choose|i: int| #[trigger] first_win(order, size, win, i) && pa == mover(i);
            assert(wins_at(order, size, win, i));
        },
        (None, Some(pb)) => {
            let j = choose|j: int| #[trigger] first_win(order, size, win, j) && pb == mover(j);
            assert(wins_at(order, size, win, j));
        },
        (None, None) => {},
    }
}

/// Where no move of the order completes a line, the game is a draw.
pub proof fn lemma_draw_without_line(order: Seq<usize>, size: int, win: int, result: Option<Player>)
    requires
        outcome_is(order, size, win, result),
        forall|i: int| 0 <= i < order.len() ==> !#[trigger] wins_at(order, size, win, i),
    ensures
        result == None::<Player>,
{
    if let Some(player) = result {
        let i = choose|i: int| #[trigger] first_win(order, size, win, i) && player == mover(i);
        assert(wins_at(order, size, win, i));
    }
}

/// After `n` moves circle has made the larger half of them and cross the
/// smaller: on a full board of even side each player has half of the
/// cells.
pub proof fn lemma_move_counts(order: Seq<usize>, size: int, n: int)
    requires
        0 < size,
        valid_order(order, size),
        0 <= n <= order.len(),
    ensures
        stones_of(order, size, Player::Circle, n).finite(),
        stones_of(order, size, Player::Cross, n).finite(),
        stones_of(order, size, Player::Circle, n).len() == (n + 1) / 2,
        stones_of(order, size, Player::Cross, n).len() == n / 2,
    decreases n,
{
    if n == 0 {
        lemma_stones_start(order, size, Player::Circle);
        lemma_stones_start(order, size, Player::Cross);
    } else {
        lemma_move_counts(order, size, n - 1);
        lemma_stones_step(order, size, Player::Circle, n - 1);
        lemma_stones_step(order, size, Player::Cross, n - 1);
        lemma_fresh_cell(order, size, Player::Circle, n - 1);
        lemma_fresh_cell(order, size, Player::Cross, n - 1);
    }
}

} // verus!
