use k_in_a_row::config::Config;
use k_in_a_row::game::{player_to_move, Player};
use k_in_a_row::ledger;
use k_in_a_row::permutation::{ascending, shuffle, shuffled_cells};
use k_in_a_row::rescan;
use k_in_a_row::xorshift::XorShift;
use rand::rngs::SmallRng;
use rand::SeedableRng;

/// The outcome of a game and the number of moves made, by looking along
/// every line through each new stone.
fn by_hand(order: &[usize], size: usize, win: usize) -> (Option<Player>, usize) {
    let mut owner: Vec<Option<usize>> = vec![None; size * size];
    for (i, &index) in order.iter().enumerate() {
        owner[index] = Some(i % 2);
        let (x, y) = ((index % size) as isize, (index / size) as isize);
        for (dx, dy) in [(0isize, 1isize), (1, 0), (1, 1), (1, -1)] {
            let mut length = 1;
            for sign in [1, -1] {
                let (mut cx, mut cy) = (x + sign * dx, y + sign * dy);
                while cx >= 0
                    && cy >= 0
                    && (cx as usize) < size
                    && (cy as usize) < size
                    && owner[cy as usize * size + cx as usize] == Some(i % 2)
                {
                    length += 1;
                    cx += sign * dx;
                    cy += sign * dy;
                }
            }
            if length >= win {
                let player = if i % 2 == 0 { Player::Circle } else { Player::Cross };
                return (Some(player), i + 1);
            }
        }
    }
    (None, order.len())
}

#[test]
fn circle_moves_first_and_the_players_take_turns() {
    assert_eq!(player_to_move(0), Player::Circle);
    assert_eq!(player_to_move(1), Player::Cross);
    assert_eq!(player_to_move(2), Player::Circle);
    assert_eq!(player_to_move(399), Player::Cross);
}

#[test]
fn cells_in_rising_order_give_circle_a_column() {
    let config = Config::new(20, 10).unwrap();
    let order = ascending(400);
    assert_eq!(ledger::play(&order, &config), Some(Player::Circle));
    assert_eq!(rescan::play(&order, &config), Some(Player::Circle));
    assert_eq!(by_hand(&order, 20, 10), (Some(Player::Circle), 181));
}

#[test]
fn a_full_board_without_a_line_is_a_draw() {
    let config = Config::new(3, 3).unwrap();
    let order = vec![0, 1, 2, 4, 3, 5, 7, 6, 8];
    assert_eq!(ledger::play(&order, &config), None);
    assert_eq!(rescan::play(&order, &config), None);
}

#[test]
fn cross_can_win() {
    let config = Config::new(3, 3).unwrap();
    let order = vec![0, 2, 1, 4, 8, 6];
    assert_eq!(ledger::play(&order, &config), Some(Player::Cross));
    assert_eq!(rescan::play(&order, &config), Some(Player::Cross));
}

#[test]
fn moves_after_the_first_win_do_not_count() {
    let config = Config::new(3, 3).unwrap();
    // circle completes the top row at the fifth move; cross would
    // complete the middle row at the sixth
    let order = vec![0, 3, 1, 4, 2, 5];
    assert_eq!(ledger::play(&order, &config), Some(Player::Circle));
    assert_eq!(rescan::play(&order, &config), Some(Player::Circle));
}

#[test]
fn an_order_that_stops_early_has_no_winner() {
    let config = Config::new(3, 3).unwrap();
    assert_eq!(ledger::play(&vec![], &config), None);
    assert_eq!(rescan::play(&vec![4, 0, 8], &config), None);
}

#[test]
fn the_first_move_wins_where_one_stone_is_enough() {
    let config = Config::new(1, 1).unwrap();
    assert_eq!(ledger::play(&vec![0], &config), Some(Player::Circle));
    assert_eq!(rescan::play(&vec![0], &config), Some(Player::Circle));
}

#[test]
fn concrete_scenario_as_a_game() {
    // (0,0) circle, (4,4) cross, (1,1) circle, (4,3) cross, (2,2) circle
    let config = Config::new(5, 3).unwrap();
    let order = vec![0, 24, 6, 19, 12];
    assert_eq!(ledger::play(&order, &config), Some(Player::Circle));
    assert_eq!(ledger::play(&order[..4].to_vec(), &config), None);
    assert_eq!(by_hand(&order, 5, 3), (Some(Player::Circle), 5));
}

#[test]
fn both_boards_agree_with_a_scan_by_hand() {
    let mut rng = XorShift::new(99);
    for (size, win) in [(3usize, 3usize), (4, 3), (5, 4), (6, 6), (7, 5), (9, 4), (20, 10), (20, 5)] {
        let config = Config::new(size, win).unwrap();
        for _ in 0..40 {
            let order = shuffle(&mut rng, size * size);
            let expected = by_hand(&order, size, win).0;
            assert_eq!(ledger::play(&order, &config), expected);
            assert_eq!(rescan::play(&order, &config), expected);
        }
    }
}

#[test]
fn three_hundred_games_from_seed_1729() {
    let config = Config::new(20, 10).unwrap();
    let mut rng = XorShift::new(1729);
    let mut first = Vec::new();
    let (mut circle, mut cross, mut draw) = (0, 0, 0);
    for game in 0..300 {
        let result = ledger::do_game(&mut rng, &config);
        if game < 10 {
            first.push(result);
        }
        match result {
            Some(Player::Circle) => circle += 1,
            Some(Player::Cross) => cross += 1,
            None => draw += 1,
        }
    }
    let (o, x) = (Some(Player::Circle), Some(Player::Cross));
    assert_eq!(first, vec![None, x, None, None, x, x, None, None, None, o]);
    assert_eq!((circle, cross, draw), (84, 74, 142));
}

#[test]
fn three_hundred_small_games_from_seed_1729() {
    let config = Config::new(5, 4).unwrap();
    let mut rng = XorShift::new(1729);
    let (mut circle, mut cross, mut draw) = (0, 0, 0);
    for _ in 0..300 {
        match ledger::do_game(&mut rng, &config) {
            Some(Player::Circle) => circle += 1,
            Some(Player::Cross) => cross += 1,
            None => draw += 1,
        }
    }
    assert_eq!((circle, cross, draw), (150, 118, 32));
}

#[test]
fn on_a_full_board_of_even_side_each_player_has_half_the_cells() {
    let mut rng = XorShift::new(1);
    let order = shuffle(&mut rng, 400);
    let circle = (0..400).filter(|&i| player_to_move(i) == Player::Circle).count();
    assert_eq!(circle, 200);
    assert_eq!(order.len() - circle, 200);
    // on a board of odd side circle moves once more than cross
    let circle = (0..9).filter(|&i| player_to_move(i) == Player::Circle).count();
    assert_eq!((circle, 9 - circle), (5, 4));
}

#[test]
fn cells_drawn_from_rand_come_each_once_and_not_in_rising_order() {
    let mut rng = SmallRng::seed_from_u64(1729);
    let order = shuffled_cells(&mut rng, 400);
    assert_ne!(order, ascending(400));
    let mut sorted = order.clone();
    sorted.sort();
    assert_eq!(sorted, ascending(400));
    let again = shuffled_cells(&mut rng, 400);
    assert_ne!(again, order);
}

#[test]
fn no_cells_drawn_from_rand_is_no_cells() {
    let mut rng = SmallRng::seed_from_u64(1);
    assert_eq!(shuffled_cells(&mut rng, 0), Vec::<usize>::new());
    assert_eq!(shuffled_cells(&mut rng, 1), vec![0]);
}

#[test]
fn games_drawn_from_rand_end_in_every_way() {
    let config = Config::new(20, 10).unwrap();
    let mut rng = SmallRng::seed_from_u64(1729);
    let (mut circle, mut cross, mut draw) = (0, 0, 0);
    for _ in 0..300 {
        match rescan::do_game(&mut rng, &config) {
            Some(Player::Circle) => circle += 1,
            Some(Player::Cross) => cross += 1,
            None => draw += 1,
        }
    }
    assert_eq!(circle + cross + draw, 300);
    // in rising order circle would win every game
    assert!(cross > 0 && draw > 0 && circle > 0);
}
