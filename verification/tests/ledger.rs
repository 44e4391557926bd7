use k_in_a_row::config::Config;
use k_in_a_row::geometry::Direction;
use k_in_a_row::ledger::{reaches, Board};
use k_in_a_row::permutation::shuffle;
use k_in_a_row::xorshift::XorShift;

const ALL: [Direction; 8] = [
    Direction::N,
    Direction::S,
    Direction::E,
    Direction::W,
    Direction::NE,
    Direction::SE,
    Direction::SW,
    Direction::NW,
];

fn board(size: usize, win: usize) -> Board {
    Board::new(&Config::new(size, win).unwrap())
}

/// The stones in a row from the neighbour of `(x, y)` in direction `d`,
/// counted cell by cell.
fn scanned(b: &Board, x: isize, y: isize, d: Direction) -> usize {
    let (dx, dy) = d.vector();
    let (mut cx, mut cy) = (x + dx, y + dy);
    let mut n = 0;
    while b.is_occupied(cx, cy) {
        n += 1;
        cx += dx;
        cy += dy;
    }
    n
}

#[test]
fn a_new_ledger_is_empty() {
    let b = board(5, 3);
    assert_eq!((b.size(), b.win()), (5, 3));
    for y in -1..=5 {
        for x in -1..=5 {
            assert!(!b.is_occupied(x, y));
            for d in ALL {
                assert_eq!(b.run_count(x, y, d), 0);
            }
        }
    }
}

#[test]
fn diagonal_of_three_wins_at_the_fifth_move() {
    let mut a = board(5, 3);
    let mut b = board(5, 3);
    assert!(!a.check_win(0, 0));
    assert!(!b.check_win(4, 4));
    assert!(!a.check_win(1, 1));
    assert!(!b.check_win(4, 3));
    assert!(a.check_win(2, 2));
    assert!(a.is_occupied(0, 0) && a.is_occupied(1, 1) && a.is_occupied(2, 2));
    assert!(!a.is_occupied(4, 4) && !a.is_occupied(4, 3));
    assert!(b.is_occupied(4, 4) && b.is_occupied(4, 3) && !b.is_occupied(2, 2));
}

#[test]
fn counts_after_two_stones_on_a_diagonal() {
    let mut a = board(5, 3);
    assert!(!a.check_win(0, 0));
    assert!(!a.check_win(1, 1));
    assert_eq!(a.run_count(0, 0, Direction::SE), 1);
    assert_eq!(a.run_count(1, 1, Direction::NW), 1);
    assert_eq!(a.run_count(0, 0, Direction::NW), 0);
    assert_eq!(a.run_count(1, 1, Direction::SE), 0);
    assert_eq!(a.run_count(1, 1, Direction::E), 0);
    assert_eq!(a.run_count(2, 2, Direction::NW), 0);
}

#[test]
fn run_at_the_edge_does_not_win_and_nothing_lies_beyond() {
    // two stones from the left edge, one short of a win
    let mut a = board(5, 3);
    assert!(!a.check_win(0, 0));
    assert!(!a.check_win(1, 0));
    assert_eq!(a.run_count(0, 0, Direction::E), 1);
    assert_eq!(a.run_count(0, 0, Direction::W), 0);
    assert_eq!(a.run_count(1, 0, Direction::W), 1);
    assert!(!a.is_occupied(-1, 0));
    for d in ALL {
        assert_eq!(a.run_count(-1, 0, d), 0);
        assert_eq!(a.run_count(0, -1, d), 0);
        assert_eq!(a.run_count(-1, -1, d), 0);
    }
    // a stone elsewhere does not complete the line
    assert!(!a.check_win(3, 0));
    assert!(!a.check_win(0, 2));
    // the only cell that does
    assert!(a.check_win(2, 0));
}

#[test]
fn run_at_the_far_corner_does_not_win_and_nothing_lies_beyond() {
    let mut a = board(5, 3);
    assert!(!a.check_win(4, 4));
    assert!(!a.check_win(3, 3));
    assert!(!a.check_win(4, 3));
    assert!(!a.check_win(3, 4));
    assert!(!a.is_occupied(5, 5) && !a.is_occupied(5, 4) && !a.is_occupied(4, 5));
    for d in ALL {
        assert_eq!(a.run_count(5, 5, d), 0);
        assert_eq!(a.run_count(5, 4, d), 0);
        assert_eq!(a.run_count(4, 5, d), 0);
    }
    assert_eq!(a.run_count(4, 4, Direction::NW), 1);
    assert_eq!(a.run_count(4, 4, Direction::SE), 0);
    assert_eq!(a.run_count(4, 4, Direction::N), 1);
    assert_eq!(a.run_count(4, 4, Direction::W), 1);
    assert_eq!(a.run_count(4, 3, Direction::SW), 1);
    assert!(a.check_win(2, 2));
}

#[test]
fn fourth_stone_reads_the_length_written_by_the_third() {
    let mut a = board(10, 4);
    assert!(!a.check_win(3, 5));
    assert!(!a.check_win(4, 5));
    assert!(!a.check_win(5, 5));
    // the two ends of the run know its length
    assert_eq!(a.run_count(3, 5, Direction::E), 2);
    assert_eq!(a.run_count(5, 5, Direction::W), 2);
    assert_eq!(a.run_count(3, 5, Direction::W), 0);
    assert_eq!(a.run_count(5, 5, Direction::E), 0);
    assert!(a.check_win(6, 5));
}

#[test]
fn fourth_stone_at_the_other_end_wins_too() {
    let mut a = board(10, 4);
    assert!(!a.check_win(5, 5));
    assert!(!a.check_win(3, 5));
    assert!(!a.check_win(4, 5));
    assert_eq!(a.run_count(3, 5, Direction::E), 2);
    assert_eq!(a.run_count(5, 5, Direction::W), 2);
    assert!(a.check_win(2, 5));
}

#[test]
fn a_longer_line_is_needed_where_the_goal_is_longer() {
    let mut a = board(10, 5);
    for x in [3, 4, 5, 6] {
        assert!(!a.check_win(x, 5));
    }
    assert_eq!(a.run_count(3, 5, Direction::E), 3);
    assert_eq!(a.run_count(6, 5, Direction::W), 3);
    assert!(a.check_win(7, 5));
}

#[test]
fn joining_two_runs_adds_them_up() {
    let mut a = board(9, 6);
    assert!(!a.check_win(0, 4));
    assert!(!a.check_win(1, 4));
    assert!(!a.check_win(3, 4));
    assert!(!a.check_win(4, 4));
    assert!(!a.check_win(2, 4));
    assert_eq!(a.run_count(0, 4, Direction::E), 4);
    assert_eq!(a.run_count(4, 4, Direction::W), 4);
    assert!(a.check_win(5, 4));
}

#[test]
fn count_of_a_stone_inside_a_run_stays_as_written() {
    let mut a = board(5, 4);
    assert!(!a.check_win(1, 0));
    assert!(!a.check_win(0, 0));
    assert!(!a.check_win(2, 0));
    // the ends are up to date
    assert_eq!(a.run_count(0, 0, Direction::E), 2);
    assert_eq!(a.run_count(2, 0, Direction::W), 2);
    // the stone between them was written when it was an end
    assert_eq!(a.run_count(1, 0, Direction::W), 1);
    assert_eq!(a.run_count(1, 0, Direction::E), 0);
}

#[test]
fn a_winning_move_marks_the_cell_and_writes_no_count() {
    let mut a = board(5, 2);
    assert!(!a.check_win(2, 2));
    assert!(a.check_win(2, 3));
    assert!(a.is_occupied(2, 3));
    for d in ALL {
        assert_eq!(a.run_count(2, 2, d), 0);
        assert_eq!(a.run_count(2, 3, d), 0);
    }
}

#[test]
fn every_move_wins_where_one_stone_is_enough() {
    let mut a = board(3, 1);
    assert!(a.check_win(1, 1));
    let mut b = board(3, 0);
    assert!(b.check_win(0, 2));
}

#[test]
fn each_axis_wins() {
    for cells in [
        [(2, 1), (2, 2), (2, 3)],
        [(1, 2), (2, 2), (3, 2)],
        [(1, 1), (2, 2), (3, 3)],
        [(3, 1), (2, 2), (1, 3)],
    ] {
        for last in 0..3 {
            let mut a = board(5, 3);
            for (i, &(x, y)) in cells.iter().enumerate() {
                if i != last {
                    assert!(!a.check_win(x, y));
                }
            }
            assert!(a.check_win(cells[last].0, cells[last].1));
        }
    }
}

#[test]
fn stones_that_do_not_line_up_do_not_win() {
    let mut a = board(5, 3);
    for (x, y) in [(0, 0), (1, 0), (3, 0), (4, 0), (0, 1), (2, 2), (4, 2), (0, 3), (2, 4)] {
        assert!(!a.check_win(x, y), "({}, {})", x, y);
    }
}

#[test]
fn set_occupied_marks_one_cell_and_no_count() {
    let mut a = board(4, 4);
    a.set_occupied(3, 0);
    for y in 0..4 {
        for x in 0..4 {
            assert_eq!(a.is_occupied(x, y), (x, y) == (3, 0));
            for d in ALL {
                assert_eq!(a.run_count(x, y, d), 0);
            }
        }
    }
}

#[test]
fn set_run_count_writes_one_count() {
    let mut a = board(4, 4);
    a.set_occupied(1, 2);
    a.set_occupied(2, 2);
    a.set_run_count(1, 2, Direction::E, 7);
    for y in 0..4 {
        for x in 0..4 {
            assert_eq!(a.is_occupied(x, y), (x, y) == (1, 2) || (x, y) == (2, 2));
            for d in ALL {
                let expected = if (x, y, d) == (1, 2, Direction::E) { 7 } else { 0 };
                assert_eq!(a.run_count(x, y, d), expected);
            }
        }
    }
    a.set_run_count(1, 2, Direction::E, 1);
    assert_eq!(a.run_count(1, 2, Direction::E), 1);
}

#[test]
fn reaches_is_true_where_one_line_is_long_enough() {
    assert!(!reaches(1, 2, 3, 4, 5));
    assert!(reaches(5, 1, 1, 1, 5));
    assert!(reaches(1, 5, 1, 1, 5));
    assert!(reaches(1, 1, 6, 1, 5));
    assert!(reaches(1, 1, 1, 5, 5));
    assert!(reaches(1, 1, 1, 1, 0));
    assert!(reaches(1, 1, 1, 1, 1));
}

#[test]
fn counts_at_the_ends_of_runs_match_a_scan_of_the_board() {
    let mut rng = XorShift::new(2024);
    for _ in 0..50 {
        let mut a = board(8, 8);
        let order = shuffle(&mut rng, 64);
        for (i, &index) in order.iter().enumerate() {
            if i % 2 == 1 {
                continue;
            }
            if a.check_win(index % 8, index / 8) {
                break;
            }
            for y in 0..8isize {
                for x in 0..8isize {
                    for d in ALL {
                        let (dx, dy) = d.vector();
                        let inside = a.is_occupied(x - dx, y - dy) && a.is_occupied(x + dx, y + dy);
                        if a.is_occupied(x, y) && !inside {
                            assert_eq!(a.run_count(x, y, d), scanned(&a, x, y, d));
                        }
                        if !a.is_occupied(x, y) {
                            assert_eq!(a.run_count(x, y, d), 0);
                        }
                    }
                }
            }
        }
    }
}

#[test]
fn a_stone_once_placed_stays() {
    let mut rng = XorShift::new(5);
    let mut a = board(6, 6);
    let order = shuffle(&mut rng, 36);
    let mut placed: Vec<(isize, isize)> = Vec::new();
    for &index in order.iter().take(20) {
        if a.check_win(index % 6, index / 6) {
            break;
        }
        placed.push(((index % 6) as isize, (index / 6) as isize));
        let mut count = 0;
        for y in 0..6 {
            for x in 0..6 {
                if a.is_occupied(x, y) {
                    count += 1;
                }
            }
        }
        assert_eq!(count, placed.len());
        for &(x, y) in placed.iter() {
            assert!(a.is_occupied(x, y));
        }
    }
}
