use gridwalk::coord::Coord;
use gridwalk::grid_index::{CellIdToEntity, CostField};
use gridwalk::path_finding::{a_star, a_star_debug, cost_of, edge, find_path, MoveCost, PathError};

fn square(side: i32, cost: MoveCost) -> (CellIdToEntity, CostField) {
    let mut index = CellIdToEntity::new();
    let mut cells = CostField::new();
    let mut id: u64 = 0;
    for z in 0..side {
        for x in 0..side {
            index.insert(Coord::new(x, 0, z), id);
            cells.insert(id, cost);
            id += 1;
        }
    }
    (index, cells)
}

fn adjacent(a: Coord, b: Coord) -> bool {
    a != b && a.y == b.y && (a.x - b.x).abs() <= 1 && (a.z - b.z).abs() <= 1
}

#[test]
fn path_to_itself_is_the_start_alone() {
    let (index, cells) = square(3, MoveCost(10));
    let start = Coord::new(1, 0, 1);
    assert_eq!(a_star(start, start, &cells, &index), Some(vec![start]));
}

#[test]
fn path_to_itself_needs_no_cell() {
    let index = CellIdToEntity::new();
    let cells = CostField::new();
    let start = Coord::new(7, 0, -7);
    assert_eq!(a_star(start, start, &cells, &index), Some(vec![start]));
}

#[test]
fn impassable_goal_is_refused() {
    let (mut index, mut cells) = square(3, MoveCost(10));
    index.insert(Coord::new(3, 0, 0), 100);
    cells.insert(100, MoveCost::infinite());
    let start = Coord::new(0, 0, 0);
    let goal = Coord::new(3, 0, 0);
    assert_eq!(a_star(start, goal, &cells, &index), None);
    assert!(a_star_debug(start, goal, &cells, &index).is_none());
    assert_eq!(find_path(start, goal, &cells, &index, 1000).err(), Some(PathError::GoalImpassable));
    assert_eq!(find_path(goal, goal, &cells, &index, 1000).err(), Some(PathError::GoalImpassable));
}

#[test]
fn goal_without_cost_is_refused() {
    let (mut index, cells) = square(3, MoveCost(10));
    index.insert(Coord::new(3, 0, 0), 100);
    let found = find_path(Coord::new(0, 0, 0), Coord::new(3, 0, 0), &cells, &index, 1000);
    assert_eq!(found.err(), Some(PathError::GoalImpassable));
}

#[test]
fn straight_line_over_equal_costs() {
    let (index, cells) = square(3, MoveCost(10));
    let start = Coord::new(0, 0, 0);
    let goal = Coord::new(2, 0, 0);
    let path = a_star(start, goal, &cells, &index).expect("a path");
    assert!(path.len() <= 3);
    assert_eq!(path.first(), Some(&start));
    assert_eq!(path.last(), Some(&goal));
    for pair in path.windows(2) {
        assert!(adjacent(pair[0], pair[1]));
    }
    for c in &path {
        assert!(index.get_by_id(c).is_some());
    }
    assert_eq!(path, vec![start, Coord::new(1, 0, 0), goal]);
}

#[test]
fn diagonal_beats_two_straight_steps() {
    let (index, cells) = square(3, MoveCost(10));
    let start = Coord::new(0, 0, 0);
    let goal = Coord::new(1, 0, 1);
    assert_eq!(a_star(start, goal, &cells, &index), Some(vec![start, goal]));
    let far = Coord::new(2, 0, 2);
    assert_eq!(a_star(start, far, &cells, &index), Some(vec![start, goal, far]));
}

#[test]
fn wall_is_walked_around() {
    let (index, mut cells) = square(3, MoveCost(10));
    cells.insert(1, MoveCost::infinite());
    cells.insert(4, MoveCost::infinite());
    let start = Coord::new(0, 0, 0);
    let goal = Coord::new(2, 0, 0);
    let (path, explored) = a_star_debug(start, goal, &cells, &index).expect("a path");
    assert_eq!(path.first(), Some(&start));
    assert_eq!(path.last(), Some(&goal));
    for pair in path.windows(2) {
        assert!(adjacent(pair[0], pair[1]));
    }
    for c in &path {
        assert!(*c != Coord::new(1, 0, 0) && *c != Coord::new(1, 0, 1));
        assert!(explored.contains(*c));
    }
    assert!(!explored.contains(Coord::new(1, 0, 0)));
    assert_eq!(path.len(), 5);
}

#[test]
fn closed_wall_leaves_no_path() {
    let (index, mut cells) = square(3, MoveCost(10));
    cells.insert(1, MoveCost::infinite());
    cells.insert(4, MoveCost::infinite());
    cells.insert(7, MoveCost::infinite());
    let start = Coord::new(0, 0, 0);
    let goal = Coord::new(2, 0, 0);
    assert_eq!(a_star(start, goal, &cells, &index), None);
    assert_eq!(find_path(start, goal, &cells, &index, 1000).err(), Some(PathError::Unreachable));
}

#[test]
fn goal_outside_the_grid_is_not_reached() {
    let (index, cells) = square(3, MoveCost(10));
    let found = find_path(Coord::new(0, 0, 0), Coord::new(5, 0, 5), &cells, &index, 1000);
    assert_eq!(found.err(), Some(PathError::Unreachable));
}

#[test]
fn spent_budget_is_reported() {
    let (index, cells) = square(3, MoveCost(10));
    let start = Coord::new(0, 0, 0);
    let goal = Coord::new(2, 0, 2);
    assert_eq!(find_path(start, goal, &cells, &index, 0).err(), Some(PathError::BudgetSpent));
    assert_eq!(find_path(start, goal, &cells, &index, 1).err(), Some(PathError::BudgetSpent));
    assert!(find_path(start, goal, &cells, &index, 9).is_ok());
    assert!(find_path(start, start, &cells, &index, 0).is_ok());
}

#[test]
fn cheap_detour_is_taken() {
    let (index, mut cells) = square(3, MoveCost(10));
    cells.insert(1, MoveCost(1000));
    cells.insert(3, MoveCost(1000));
    let start = Coord::new(0, 0, 0);
    let goal = Coord::new(2, 0, 0);
    let path = a_star(start, goal, &cells, &index).expect("a path");
    assert_eq!(path, vec![start, Coord::new(1, 0, 1), goal]);
}

#[test]
fn step_costs_in_score_units() {
    assert_eq!(edge(MoveCost(10), MoveCost(10), false), 2820);
    assert_eq!(edge(MoveCost(10), MoveCost(10), true), 4000);
    assert_eq!(edge(MoveCost(10), MoveCost(15), false), 3525);
    assert_eq!(edge(MoveCost(0), MoveCost(0), true), 0);
    assert_eq!(edge(MoveCost(65534), MoveCost(65534), true), 26_213_600);
}

#[test]
fn cost_of_a_cell_goes_through_the_index() {
    let (mut index, mut cells) = square(2, MoveCost(10));
    cells.insert(3, MoveCost(15));
    assert_eq!(cost_of(&cells, &index, Coord::new(1, 0, 1)), Some(MoveCost(15)));
    assert_eq!(cost_of(&cells, &index, Coord::new(0, 0, 0)), Some(MoveCost(10)));
    assert_eq!(cost_of(&cells, &index, Coord::new(2, 0, 0)), None);
    index.insert(Coord::new(2, 0, 0), 50);
    assert_eq!(cost_of(&cells, &index, Coord::new(2, 0, 0)), Some(MoveCost::infinite()));
}

#[test]
fn explored_cells_hold_start_and_goal() {
    let (index, cells) = square(3, MoveCost(10));
    let start = Coord::new(0, 0, 0);
    let goal = Coord::new(2, 0, 2);
    let (path, explored) = a_star_debug(start, goal, &cells, &index).expect("a path");
    assert!(explored.contains(start));
    assert!(explored.contains(goal));
    for c in &path {
        assert!(explored.contains(*c));
    }
    assert!(!explored.contains(Coord::new(7, 0, 7)));
    let (alone, seen) = a_star_debug(start, start, &cells, &index).expect("a path");
    assert_eq!(alone, vec![start]);
    assert!(seen.contains(start));
    assert!(!seen.contains(Coord::new(1, 0, 0)));
}

#[test]
fn start_that_cannot_be_crossed_leads_nowhere() {
    let (index, mut cells) = square(3, MoveCost(10));
    cells.insert(0, MoveCost::infinite());
    let start = Coord::new(0, 0, 0);
    assert_eq!(find_path(start, Coord::new(1, 0, 0), &cells, &index, 100).err(), Some(PathError::Unreachable));
}

#[test]
fn search_crosses_a_larger_field() {
    let (index, mut cells) = square(12, MoveCost(10));
    for z in 0..11 {
        cells.insert((z * 12 + 5) as u64, MoveCost::infinite());
    }
    let start = Coord::new(0, 0, 0);
    let goal = Coord::new(11, 0, 0);
    let path = a_star(start, goal, &cells, &index).expect("a path");
    assert_eq!(path.first(), Some(&start));
    assert_eq!(path.last(), Some(&goal));
    for pair in path.windows(2) {
        assert!(adjacent(pair[0], pair[1]));
    }
    assert!(path.contains(&Coord::new(5, 0, 11)));
    for c in &path {
        let id = index.get_by_id(c).expect("a cell");
        assert!(!cells.get(id).unwrap().is_infinite());
    }
}

#[test]
fn debug_search_returns_the_path_of_the_plain_search() {
    let (index, mut cells) = square(7, MoveCost(10));
    for id in [9u64, 10, 16, 23, 24, 30, 37] {
        cells.insert(id, MoveCost::infinite());
    }
    cells.insert(3, MoveCost(15));
    cells.insert(45, MoveCost(0));
    for (sx, sz, gx, gz) in [(0, 0, 6, 6), (6, 0, 0, 6), (3, 3, 0, 0), (0, 6, 6, 0), (1, 1, 5, 5), (0, 0, 2, 1)] {
        let start = Coord::new(sx, 0, sz);
        let goal = Coord::new(gx, 0, gz);
        let plain = a_star(start, goal, &cells, &index);
        let debug = a_star_debug(start, goal, &cells, &index).map(|found| found.0);
        assert_eq!(plain, debug);
        let bounded = find_path(start, goal, &cells, &index, 1_000_000).ok().map(|found| found.0);
        assert_eq!(plain, bounded);
    }
}

#[test]
fn equal_scores_are_taken_in_a_fixed_order() {
    let (index, cells) = square(3, MoveCost(0));
    let start = Coord::new(1, 0, 1);
    let first = a_star(start, Coord::new(1, 0, 0), &cells, &index);
    for _ in 0..5 {
        assert_eq!(a_star(start, Coord::new(1, 0, 0), &cells, &index), first);
    }
    assert_eq!(first, Some(vec![start, Coord::new(1, 0, 0)]));
    let corner = a_star(Coord::new(0, 0, 0), Coord::new(2, 0, 2), &cells, &index).expect("a path");
    assert_eq!(a_star(Coord::new(0, 0, 0), Coord::new(2, 0, 2), &cells, &index), Some(corner));
}

#[test]
fn three_waypoints_across_a_field_of_any_equal_cost() {
    for cost in [1u16, 2, 3, 6, 7, 8, 10, 15, 100, 1000, 65534] {
        let (index, cells) = square(3, MoveCost(cost));
        let start = Coord::new(0, 0, 0);
        let goal = Coord::new(2, 0, 0);
        let path = a_star(start, goal, &cells, &index).expect("a path");
        assert_eq!(path, vec![start, Coord::new(1, 0, 0), goal]);
        for c in &path {
            assert!(index.get_by_id(c).is_some());
        }
    }
}
