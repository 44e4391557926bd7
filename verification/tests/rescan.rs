use k_in_a_row::config::Config;
use k_in_a_row::rescan::Board;

fn board(size: usize, win: usize) -> Board {
    Board::new(&Config::new(size, win).unwrap())
}

fn place(b: &mut Board, x: usize, y: usize) -> bool {
    b.update(x, y);
    b.check_win(x as isize, y as isize)
}

#[test]
fn a_new_counting_board_is_empty() {
    let b = board(5, 3);
    assert_eq!((b.size(), b.win()), (5, 3));
    for y in -1..=5 {
        for x in -1..=5 {
            assert!(!b.is_occupied(x, y));
        }
    }
}

#[test]
fn update_marks_the_cell() {
    let mut b = board(5, 3);
    b.update(4, 1);
    for y in 0..5 {
        for x in 0..5 {
            assert_eq!(b.is_occupied(x, y), (x, y) == (4, 1));
        }
    }
}

#[test]
fn rescan_diagonal_of_three_wins_at_the_fifth_move() {
    let mut a = board(5, 3);
    let mut b = board(5, 3);
    assert!(!place(&mut a, 0, 0));
    assert!(!place(&mut b, 4, 4));
    assert!(!place(&mut a, 1, 1));
    assert!(!place(&mut b, 4, 3));
    assert!(place(&mut a, 2, 2));
}

#[test]
fn rescan_each_axis_wins() {
    for cells in [
        [(2, 1), (2, 2), (2, 3)],
        [(1, 2), (2, 2), (3, 2)],
        [(1, 1), (2, 2), (3, 3)],
        [(3, 1), (2, 2), (1, 3)],
    ] {
        for last in 0..3 {
            let mut a = board(5, 3);
            for (i, &(x, y)) in cells.iter().enumerate() {
                if i != last {
                    assert!(!place(&mut a, x, y));
                }
            }
            assert!(place(&mut a, cells[last].0, cells[last].1));
        }
    }
}

#[test]
fn rescan_needs_the_stones_in_a_row() {
    // three stones on the row, but with a gap
    let mut a = board(5, 3);
    assert!(!place(&mut a, 0, 0));
    assert!(!place(&mut a, 1, 0));
    assert!(!place(&mut a, 3, 0));
    assert!(!place(&mut a, 4, 0));
    assert!(place(&mut a, 2, 0));
}

#[test]
fn rescan_run_at_the_edge_does_not_win() {
    let mut a = board(5, 3);
    assert!(!place(&mut a, 0, 0));
    assert!(!place(&mut a, 1, 0));
    assert!(!a.is_occupied(-1, 0));
    assert!(!place(&mut a, 0, 2));
    assert!(place(&mut a, 2, 0));
}

#[test]
fn rescan_every_move_wins_where_one_stone_is_enough() {
    let mut a = board(3, 1);
    assert!(place(&mut a, 1, 1));
    let mut b = board(3, 0);
    assert!(place(&mut b, 0, 2));
}

#[test]
fn check_win_can_be_asked_of_any_stone() {
    let mut a = board(6, 3);
    a.update(1, 1);
    a.update(2, 2);
    a.update(5, 0);
    a.update(3, 3);
    assert!(a.check_win(1, 1));
    assert!(a.check_win(2, 2));
    assert!(a.check_win(3, 3));
    assert!(!a.check_win(5, 0));
}

#[test]
fn check_win_of_an_empty_cell_needs_enough_stones_on_the_line() {
    // two stones beside the empty cell (2, 0): a stone there would make
    // three in a row, but the row holds only two
    let mut a = board(6, 3);
    a.update(0, 0);
    a.update(1, 0);
    assert!(!a.check_win(2, 0));
    // with a third stone further along the row, the row holds three
    a.update(5, 0);
    assert!(a.check_win(2, 0));
    assert!(!a.check_win(3, 0));
}
