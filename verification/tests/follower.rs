use gridwalk::coord::Coord;
use gridwalk::follower::{
    blend_axis, build_path, cell_at, is_within_reach, lerp_places, move_entity, nearest_coordinate, place_of,
    progress_at, NextCell, PastCell, Path, PlaceField, Plan, Position, Step, Walker,
};
use gridwalk::grid_index::{CellIdToEntity, CostField};
use gridwalk::path_finding::MoveCost;
use std::collections::VecDeque;

fn at(x: i64, y: i64, z: i64) -> Position {
    Position { x, y, z }
}

fn row(n: i32) -> (CellIdToEntity, PlaceField, CostField) {
    let mut index = CellIdToEntity::new();
    let mut places = PlaceField::new();
    let mut cells = CostField::new();
    for x in 0..n {
        index.insert(Coord::new(x, 0, 0), x as u64);
        places.insert(x as u64, at(x as i64 * 1000, 0, 0));
        cells.insert(x as u64, MoveCost(10));
    }
    (index, places, cells)
}

fn walker(position: Position, next: Option<Coord>, past: Coord, start_time: u64, path: &[Coord]) -> Walker {
    Walker {
        position,
        next: NextCell(next),
        past: PastCell { cell: past, start_time },
        path: Path(path.iter().copied().collect::<VecDeque<Coord>>()),
    }
}

#[test]
fn halfway_after_a_twentieth_of_a_second() {
    let (index, places, _) = row(3);
    let mut w = walker(at(0, 0, 0), Some(Coord::new(1, 0, 0)), Coord::new(0, 0, 0), 1000, &[]);
    let step = move_entity(&mut w, 1050, &places, &index);
    assert_eq!(step, Step::Moved { toward: at(1000, 0, 0), advanced: false });
    assert_eq!(w.position, at(500, 0, 0));
    assert_eq!(w.past, PastCell { cell: Coord::new(0, 0, 0), start_time: 1000 });
    assert_eq!(w.next, NextCell(Some(Coord::new(1, 0, 0))));
}

#[test]
fn waypoint_is_reached_after_a_tenth_of_a_second() {
    let (index, places, _) = row(3);
    let mut w = walker(at(0, 0, 0), Some(Coord::new(1, 0, 0)), Coord::new(0, 0, 0), 1000, &[]);
    let step = move_entity(&mut w, 1100, &places, &index);
    assert_eq!(step, Step::Moved { toward: at(1000, 0, 0), advanced: false });
    assert_eq!(w.position, at(999, 0, 0));
    let later = move_entity(&mut w, 5000, &places, &index);
    assert_eq!(later, Step::Arrived);
    assert_eq!(w.past, PastCell { cell: Coord::new(1, 0, 0), start_time: 5000 });
    assert_eq!(w.next, NextCell(None));
    assert_eq!(w.position, at(999, 0, 0));
    assert_eq!(move_entity(&mut w, 6000, &places, &index), Step::Rest);
}

#[test]
fn reached_waypoint_hands_over_to_the_next() {
    let (index, places, _) = row(3);
    let mut w = walker(at(999, 0, 0), Some(Coord::new(1, 0, 0)), Coord::new(0, 0, 0), 0, &[Coord::new(2, 0, 0)]);
    let step = move_entity(&mut w, 700, &places, &index);
    assert_eq!(step, Step::Moved { toward: at(2000, 0, 0), advanced: true });
    assert_eq!(w.past, PastCell { cell: Coord::new(1, 0, 0), start_time: 700 });
    assert_eq!(w.next, NextCell(Some(Coord::new(2, 0, 0))));
    assert!(w.path.0.is_empty());
    assert_eq!(w.position, at(1000, 0, 0));
    let step = move_entity(&mut w, 730, &places, &index);
    assert_eq!(step, Step::Moved { toward: at(2000, 0, 0), advanced: false });
    assert_eq!(w.position, at(1300, 0, 0));
}

#[test]
fn idle_agent_takes_the_first_waiting_waypoint() {
    let (index, places, _) = row(3);
    let mut w = walker(at(0, 0, 0), None, Coord::new(0, 0, 0), 100, &[Coord::new(1, 0, 0), Coord::new(2, 0, 0)]);
    let step = move_entity(&mut w, 120, &places, &index);
    assert_eq!(step, Step::Moved { toward: at(1000, 0, 0), advanced: false });
    assert_eq!(w.next, NextCell(Some(Coord::new(1, 0, 0))));
    assert_eq!(w.path.0, VecDeque::from(vec![Coord::new(2, 0, 0)]));
    assert_eq!(w.position, at(200, 0, 0));
}

#[test]
fn agent_without_waypoints_rests() {
    let (index, places, _) = row(3);
    let mut w = walker(at(5, 6, 7), None, Coord::new(0, 0, 0), 0, &[]);
    assert_eq!(move_entity(&mut w, 10, &places, &index), Step::Rest);
    assert_eq!(w.position, at(5, 6, 7));
}

#[test]
fn waypoint_without_a_place_is_reported() {
    let (index, places, _) = row(3);
    let gone = Coord::new(9, 0, 9);
    let mut w = walker(at(0, 0, 0), Some(gone), Coord::new(0, 0, 0), 0, &[]);
    assert_eq!(move_entity(&mut w, 10, &places, &index), Step::Lost(gone));
    assert_eq!(w.position, at(0, 0, 0));
    let mut v = walker(at(0, 0, 0), Some(Coord::new(1, 0, 0)), gone, 0, &[]);
    assert_eq!(move_entity(&mut v, 10, &places, &index), Step::Lost(gone));
    let mut u = walker(at(1000, 0, 0), Some(Coord::new(1, 0, 0)), Coord::new(0, 0, 0), 0, &[gone]);
    assert_eq!(move_entity(&mut u, 10, &places, &index), Step::Lost(gone));
    assert_eq!(u.past, PastCell { cell: Coord::new(1, 0, 0), start_time: 10 });
    assert_eq!(u.next, NextCell(Some(gone)));
}

#[test]
fn progress_grows_to_almost_one() {
    assert_eq!(progress_at(1000, 1000), 0);
    assert_eq!(progress_at(1000, 900), 0);
    assert_eq!(progress_at(1000, 1001), 10);
    assert_eq!(progress_at(1000, 1050), 500);
    assert_eq!(progress_at(1000, 1099), 990);
    assert_eq!(progress_at(1000, 1100), 999);
    assert_eq!(progress_at(0, u64::MAX), 999);
}

#[test]
fn blend_rounds_toward_the_start() {
    assert_eq!(blend_axis(0, 1000, 500), 500);
    assert_eq!(blend_axis(0, 1000, 999), 999);
    assert_eq!(blend_axis(1000, 0, 999), 1);
    assert_eq!(blend_axis(0, 7, 500), 3);
    assert_eq!(blend_axis(0, -7, 500), -3);
    assert_eq!(blend_axis(-4, -4, 700), -4);
    assert_eq!(blend_axis(i64::MIN, i64::MAX, 1000), i64::MAX);
    assert_eq!(blend_axis(i64::MAX, i64::MIN, 0), i64::MAX);
    assert_eq!(lerp_places(at(0, 10, -10), at(100, 20, -20), 250), at(25, 12, -12));
}

#[test]
fn reach_ends_at_a_thousandth_of_a_square_unit() {
    assert!(is_within_reach(at(0, 0, 0), at(0, 0, 0)));
    assert!(is_within_reach(at(0, 0, 0), at(31, 6, 1)));
    assert!(!is_within_reach(at(0, 0, 0), at(31, 6, 2)));
    assert!(!is_within_reach(at(0, 0, 0), at(30, 10, 0)));
    assert!(is_within_reach(at(-5, 7, 9), at(-23, -12, 26)));
    assert!(!is_within_reach(at(0, 0, 0), at(32, 0, 0)));
    assert!(!is_within_reach(at(i64::MIN, 0, 0), at(i64::MAX, 0, 0)));
}

#[test]
fn place_needs_both_index_and_field() {
    let (mut index, places, _) = row(2);
    assert_eq!(place_of(&places, &index, Coord::new(1, 0, 0)), Some(at(1000, 0, 0)));
    assert_eq!(place_of(&places, &index, Coord::new(2, 0, 0)), None);
    index.insert(Coord::new(2, 0, 0), 77);
    assert_eq!(place_of(&places, &index, Coord::new(2, 0, 0)), None);
}

#[test]
fn new_goal_replaces_the_path() {
    let (index, _, cells) = row(4);
    let mut path = Path(VecDeque::from(vec![Coord::new(3, 0, 0)]));
    let next = NextCell(None);
    let past = PastCell { cell: Coord::new(0, 0, 0), start_time: 0 };
    let plan = build_path(&mut path, Coord::new(2, 0, 0), &next, &past, &cells, &index);
    assert_eq!(plan, Plan::Routed);
    assert_eq!(path.0, VecDeque::from(vec![Coord::new(0, 0, 0), Coord::new(1, 0, 0), Coord::new(2, 0, 0)]));
}

#[test]
fn new_path_starts_at_the_pursued_waypoint() {
    let (index, _, cells) = row(4);
    let mut path = Path(VecDeque::new());
    let next = NextCell(Some(Coord::new(3, 0, 0)));
    let past = PastCell { cell: Coord::new(0, 0, 0), start_time: 0 };
    let plan = build_path(&mut path, Coord::new(2, 0, 0), &next, &past, &cells, &index);
    assert_eq!(plan, Plan::Routed);
    assert_eq!(path.0, VecDeque::from(vec![Coord::new(3, 0, 0), Coord::new(2, 0, 0)]));
}

#[test]
fn goal_outside_the_grid_keeps_the_path() {
    let (index, _, cells) = row(4);
    let mut path = Path(VecDeque::from(vec![Coord::new(3, 0, 0)]));
    let next = NextCell(None);
    let past = PastCell { cell: Coord::new(0, 0, 0), start_time: 0 };
    let plan = build_path(&mut path, Coord::new(9, 0, 9), &next, &past, &cells, &index);
    assert_eq!(plan, Plan::NoCell);
    assert_eq!(path.0, VecDeque::from(vec![Coord::new(3, 0, 0)]));
}

#[test]
fn impassable_goal_keeps_the_path() {
    let (index, _, mut cells) = row(4);
    cells.insert(2, MoveCost::infinite());
    cells.remove(3);
    let mut path = Path(VecDeque::from(vec![Coord::new(1, 0, 0)]));
    let next = NextCell(None);
    let past = PastCell { cell: Coord::new(0, 0, 0), start_time: 0 };
    assert_eq!(build_path(&mut path, Coord::new(2, 0, 0), &next, &past, &cells, &index), Plan::Blocked);
    assert_eq!(build_path(&mut path, Coord::new(3, 0, 0), &next, &past, &cells, &index), Plan::Blocked);
    assert_eq!(path.0, VecDeque::from(vec![Coord::new(1, 0, 0)]));
}

#[test]
fn unreachable_goal_keeps_the_path() {
    let (index, _, mut cells) = row(4);
    cells.insert(1, MoveCost::infinite());
    let mut path = Path(VecDeque::from(vec![Coord::new(1, 0, 0)]));
    let next = NextCell(None);
    let past = PastCell { cell: Coord::new(0, 0, 0), start_time: 0 };
    assert_eq!(build_path(&mut path, Coord::new(3, 0, 0), &next, &past, &cells, &index), Plan::NoPath);
    assert_eq!(path.0, VecDeque::from(vec![Coord::new(1, 0, 0)]));
}

#[test]
fn nearest_cell_rounds_half_away_from_zero() {
    use_cell_at(at(0, 0, 0), Coord::new(0, 0, 0));
    use_cell_at(at(499, 9000, -499), Coord::new(0, 0, 0));
    use_cell_at(at(500, 0, -500), Coord::new(1, 0, -1));
    use_cell_at(at(1499, 0, -1500), Coord::new(1, 0, -2));
    use_cell_at(at(-2501, -7, 2500), Coord::new(-3, 0, 3));
    use_cell_at(at(i64::MAX, 0, i64::MIN), Coord::new(i32::MAX, 0, i32::MIN));
    assert_eq!(nearest_coordinate(2_147_483_647_499), i32::MAX);
    assert_eq!(nearest_coordinate(2_147_483_646_499), i32::MAX - 1);
    assert_eq!(nearest_coordinate(-2_147_483_648_500), i32::MIN);
}

fn use_cell_at(p: Position, expected: Coord) {
    assert_eq!(cell_at(p), expected);
}
