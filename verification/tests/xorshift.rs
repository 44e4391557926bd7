use k_in_a_row::permutation::{ascending, shuffle};
use k_in_a_row::xorshift::XorShift;

#[test]
fn first_numbers_from_seed_1729() {
    let mut rng = XorShift::new(1729);
    let drawn: Vec<u64> = (0..5).map(|_| rng.rand(1000)).collect();
    assert_eq!(drawn, vec![108, 15, 459, 86, 563]);
}

#[test]
fn a_bound_of_zero_gives_zero_and_still_advances() {
    let mut rng = XorShift::new(1729);
    assert_eq!(rng.rand(0), 0);
    // the second number of the sequence above
    assert_eq!(rng.rand(1000), 15);
}

#[test]
fn seed_zero_stays_at_zero() {
    let mut rng = XorShift::new(0);
    for _ in 0..10 {
        assert_eq!(rng.rand(10), 0);
    }
}

#[test]
fn the_largest_seed_and_bound_do_not_overflow() {
    let mut rng = XorShift::new(u64::MAX);
    assert_eq!(rng.rand(u32::MAX), 253982);
}

#[test]
fn numbers_stay_below_the_bound() {
    let mut rng = XorShift::new(42);
    for max in 1..2000u32 {
        assert!(rng.rand(max) < max as u64);
    }
    for _ in 0..1000 {
        assert_eq!(rng.rand(1), 0);
    }
}

#[test]
fn ascending_counts_up_from_zero() {
    assert_eq!(ascending(0), Vec::<usize>::new());
    assert_eq!(ascending(5), vec![0, 1, 2, 3, 4]);
}

#[test]
fn shuffle_of_ten_from_seed_1729() {
    let mut rng = XorShift::new(1729);
    assert_eq!(shuffle(&mut rng, 10), vec![3, 7, 4, 6, 5, 0, 8, 9, 1, 2]);
}

#[test]
fn shuffle_of_nothing_is_empty_and_draws_nothing() {
    let mut rng = XorShift::new(1729);
    assert_eq!(shuffle(&mut rng, 0), Vec::<usize>::new());
    assert_eq!(rng.rand(1000), 108);
}

#[test]
fn shuffle_names_every_index_once() {
    let mut rng = XorShift::new(7);
    for n in [1usize, 2, 3, 25, 400, 1000] {
        let mut order = shuffle(&mut rng, n);
        assert_eq!(order.len(), n);
        order.sort();
        assert_eq!(order, ascending(n));
    }
}
