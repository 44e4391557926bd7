use k_in_a_row::geometry::{axis_directions, in_bounds, Direction};

#[test]
fn axes_are_column_row_and_two_diagonals() {
    let axes = axis_directions();
    assert_eq!(axes[0], (Direction::S, Direction::N));
    assert_eq!(axes[1], (Direction::W, Direction::E));
    assert_eq!(axes[2], (Direction::NW, Direction::SE));
    assert_eq!(axes[3], (Direction::NE, Direction::SW));
}

#[test]
fn each_axis_pairs_opposite_unit_vectors() {
    for (a, b) in axis_directions() {
        assert_eq!(a.reversed(), b);
        assert_eq!(b.reversed(), a);
        let (ax, ay) = a.vector();
        let (bx, by) = b.vector();
        assert_eq!((ax + bx, ay + by), (0, 0));
        assert!(ax.abs() <= 1 && ay.abs() <= 1);
        assert!((ax, ay) != (0, 0));
    }
}

#[test]
fn vectors_point_where_the_names_say() {
    assert_eq!(Direction::N.vector(), (0, -1));
    assert_eq!(Direction::S.vector(), (0, 1));
    assert_eq!(Direction::E.vector(), (1, 0));
    assert_eq!(Direction::W.vector(), (-1, 0));
    assert_eq!(Direction::NE.vector(), (1, -1));
    assert_eq!(Direction::SE.vector(), (1, 1));
    assert_eq!(Direction::SW.vector(), (-1, 1));
    assert_eq!(Direction::NW.vector(), (-1, -1));
}

#[test]
fn reversing_twice_gives_the_direction_back() {
    for d in [
        Direction::N,
        Direction::S,
        Direction::E,
        Direction::W,
        Direction::NE,
        Direction::SE,
        Direction::SW,
        Direction::NW,
    ] {
        assert_eq!(d.reversed().reversed(), d);
        assert_ne!(d.reversed(), d);
    }
}

#[test]
fn shifting_moves_along_the_direction() {
    assert_eq!(Direction::E.shift_x(3, 4), 7);
    assert_eq!(Direction::E.shift_y(3, 4), 3);
    assert_eq!(Direction::NW.shift_x(5, 2), 3);
    assert_eq!(Direction::NW.shift_y(5, 2), 3);
    assert_eq!(Direction::SW.shift_x(5, 5), 0);
    assert_eq!(Direction::SW.shift_y(5, 5), 10);
    assert_eq!(Direction::N.shift_x(9, 9), 9);
    assert_eq!(Direction::N.shift_y(9, 9), 0);
    assert_eq!(Direction::S.shift_y(0, 0), 0);
}

#[test]
fn in_bounds_accepts_exactly_the_board() {
    assert!(in_bounds(0, 0, 1));
    assert!(in_bounds(0, 0, 20));
    assert!(in_bounds(19, 19, 20));
    assert!(in_bounds(19, 0, 20));
    assert!(!in_bounds(20, 0, 20));
    assert!(!in_bounds(0, 20, 20));
    assert!(!in_bounds(-1, 0, 20));
    assert!(!in_bounds(0, -1, 20));
    assert!(!in_bounds(-1, -1, 20));
    assert!(!in_bounds(0, 0, 0));
    assert!(!in_bounds(isize::MAX, isize::MIN, 20));
}
