use gridwalk::coord::{integer_sqrt, Coord};

#[test]
fn neighbor_up_adds_one_to_z() {
    let c = Coord::new(3, 0, -2);
    assert_eq!(c.neighbor(0), Some(Coord::new(3, 0, -1)));
}

#[test]
fn integer_sqrt_rounds_down() {
    assert_eq!(integer_sqrt(0), 0);
    assert_eq!(integer_sqrt(15), 3);
    assert_eq!(integer_sqrt(16), 4);
    assert_eq!(integer_sqrt(u128::MAX), u64::MAX);
}

#[test]
fn eight_neighbours_in_their_order() {
    let c = Coord::new(10, 4, -10);
    let around: Vec<Option<Coord>> = (0..8).map(|d| c.neighbor(d)).collect();
    assert_eq!(
        around,
        vec![
            Some(Coord::new(10, 4, -9)),
            Some(Coord::new(9, 4, -10)),
            Some(Coord::new(10, 4, -11)),
            Some(Coord::new(11, 4, -10)),
            Some(Coord::new(9, 4, -9)),
            Some(Coord::new(9, 4, -11)),
            Some(Coord::new(11, 4, -11)),
            Some(Coord::new(11, 4, -9)),
        ]
    );
    assert_eq!(c.neighbor(8), None);
    assert_eq!(c.neighbor(usize::MAX), None);
}

#[test]
fn no_neighbour_beyond_the_coordinate_range() {
    let corner = Coord::new(i32::MAX, 0, i32::MIN);
    assert_eq!(corner.neighbor(0), Some(Coord::new(i32::MAX, 0, i32::MIN + 1)));
    assert_eq!(corner.neighbor(1), Some(Coord::new(i32::MAX - 1, 0, i32::MIN)));
    assert_eq!(corner.neighbor(2), None);
    assert_eq!(corner.neighbor(3), None);
    assert_eq!(corner.neighbor(4), Some(Coord::new(i32::MAX - 1, 0, i32::MIN + 1)));
    assert_eq!(corner.neighbor(5), None);
    assert_eq!(corner.neighbor(6), None);
    assert_eq!(corner.neighbor(7), None);
}

#[test]
fn distance_squared_counts_all_three_axes() {
    let a = Coord::new(1, 2, 3);
    assert_eq!(a.distance_squared(a), 0);
    assert_eq!(a.distance_squared(Coord::new(4, 6, 3)), 25);
    assert_eq!(a.distance_squared(Coord::new(1, 2, -9)), 144);
    let low = Coord::new(i32::MIN, i32::MIN, i32::MIN);
    let high = Coord::new(i32::MAX, i32::MAX, i32::MAX);
    assert_eq!(low.distance_squared(high), 3 * (u32::MAX as u128) * (u32::MAX as u128));
}

#[test]
fn estimate_is_three_times_the_distance_in_score_units() {
    let a = Coord::new(0, 0, 0);
    assert_eq!(a.estimate_to(a), 0);
    assert_eq!(a.estimate_to(Coord::new(1, 0, 0)), 846);
    assert_eq!(a.estimate_to(Coord::new(3, 0, 4)), 4230);
    assert_eq!(a.estimate_to(Coord::new(1, 0, 1)), 1196);
    assert_eq!(a.estimate_to(Coord::new(0, 2, 0)), 1692);
    let low = Coord::new(i32::MIN, i32::MIN, i32::MIN);
    let high = Coord::new(i32::MAX, i32::MAX, i32::MAX);
    assert_eq!(low.estimate_to(high), 6_293_479_929_731);
}

#[test]
fn key_and_back() {
    let c = Coord::new(-1, 2, -3);
    assert_eq!(c.key(), (-1, 2, -3));
    assert_eq!(Coord::from_key((-1, 2, -3)), c);
}

#[test]
fn shifted_cell_stays_on_its_level() {
    let c = Coord::new(5, 3, -5);
    assert_eq!(c.shifted(-10, 9), Some(Coord::new(-5, 3, 4)));
    assert_eq!(c.shifted(0, 0), Some(c));
    assert_eq!(c.shifted(i32::MAX, 0), None);
    assert_eq!(c.shifted(0, i32::MIN), None);
    assert_eq!(Coord::new(i32::MIN, 0, i32::MAX).shifted(i32::MAX, i32::MIN), Some(Coord::new(-1, 0, -1)));
}
