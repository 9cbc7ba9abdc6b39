use gridwalk::coord::Coord;
use gridwalk::grid_index::{CellIdToEntity, CostField};
use gridwalk::path_finding::MoveCost;

#[test]
fn empty_index_knows_nothing() {
    let index = CellIdToEntity::new();
    assert_eq!(index.get_by_id(&Coord::new(0, 0, 0)), None);
    assert_eq!(index.get_by_entity(0), None);
    let other = CellIdToEntity::default();
    assert_eq!(other.get_by_entity(7), None);
}

#[test]
fn inserted_cell_is_found_both_ways() {
    let mut index = CellIdToEntity::new();
    let place = Coord::new(4, 0, -9);
    assert_eq!(index.insert(place, 17), None);
    assert_eq!(index.get_by_id(&place), Some(17));
    assert_eq!(index.get_by_entity(17), Some(place));
}

#[test]
fn overwrite_evicts_the_old_cell_in_both_directions() {
    let mut index = CellIdToEntity::new();
    let place = Coord::new(1, 0, 1);
    index.insert(place, 1);
    assert_eq!(index.insert(place, 2), Some(1));
    assert_eq!(index.get_by_id(&place), Some(2));
    assert_eq!(index.get_by_entity(2), Some(place));
    assert_eq!(index.get_by_entity(1), None);
}

#[test]
fn cell_put_elsewhere_leaves_its_old_place() {
    let mut index = CellIdToEntity::new();
    let first = Coord::new(0, 0, 0);
    let second = Coord::new(5, 0, 5);
    index.insert(first, 9);
    assert_eq!(index.insert(second, 9), None);
    assert_eq!(index.get_by_id(&first), None);
    assert_eq!(index.get_by_id(&second), Some(9));
    assert_eq!(index.get_by_entity(9), Some(second));
}

#[test]
fn same_pair_twice_reports_the_occupant_and_changes_nothing() {
    let mut index = CellIdToEntity::new();
    let place = Coord::new(2, 0, 3);
    index.insert(place, 5);
    assert_eq!(index.insert(place, 5), Some(5));
    assert_eq!(index.get_by_id(&place), Some(5));
    assert_eq!(index.get_by_entity(5), Some(place));
}

#[test]
fn removed_cell_is_gone_both_ways() {
    let mut index = CellIdToEntity::new();
    let place = Coord::new(-3, 0, 8);
    index.insert(place, 40);
    index.insert(Coord::new(0, 0, 0), 41);
    assert_eq!(index.remove(40), Some(place));
    assert_eq!(index.get_by_id(&place), None);
    assert_eq!(index.get_by_entity(40), None);
    assert_eq!(index.get_by_entity(41), Some(Coord::new(0, 0, 0)));
}

#[test]
fn removing_an_unknown_cell_changes_nothing() {
    let mut index = CellIdToEntity::new();
    let place = Coord::new(1, 0, 2);
    index.insert(place, 3);
    assert_eq!(index.remove(99), None);
    assert_eq!(index.get_by_id(&place), Some(3));
    assert_eq!(index.get_by_entity(3), Some(place));
    assert_eq!(index.remove(3), Some(place));
    assert_eq!(index.remove(3), None);
    assert_eq!(index.get_by_id(&place), None);
}

#[test]
fn lookups_agree_after_mixed_inserts_and_removes() {
    let mut index = CellIdToEntity::new();
    let cells: Vec<Coord> = (0..6).map(|i| Coord::new(i, 0, -i)).collect();
    index.insert(cells[0], 10);
    index.insert(cells[1], 11);
    index.insert(cells[1], 12);
    index.insert(cells[2], 10);
    index.remove(11);
    index.insert(cells[3], 13);
    index.remove(12);
    index.insert(cells[4], 13);
    index.insert(cells[5], 14);
    index.insert(cells[5], 10);
    for c in &cells {
        if let Some(id) = index.get_by_id(c) {
            assert_eq!(index.get_by_entity(id), Some(*c));
        }
    }
    for id in 9..16 {
        if let Some(c) = index.get_by_entity(id) {
            assert_eq!(index.get_by_id(&c), Some(id));
        }
    }
    assert_eq!(index.get_by_id(&cells[5]), Some(10));
    assert_eq!(index.get_by_id(&cells[2]), None);
    assert_eq!(index.get_by_entity(14), None);
    assert_eq!(index.get_by_id(&cells[4]), Some(13));
    assert_eq!(index.get_by_id(&cells[3]), None);
}

#[test]
fn cost_field_keeps_the_last_cost() {
    let mut cells = CostField::new();
    assert_eq!(cells.get(1), None);
    assert_eq!(cells.insert(1, MoveCost(10)), None);
    assert_eq!(cells.insert(1, MoveCost(15)), Some(MoveCost(10)));
    assert_eq!(cells.get(1), Some(MoveCost(15)));
    assert_eq!(cells.remove(1), Some(MoveCost(15)));
    assert_eq!(cells.remove(1), None);
    assert_eq!(cells.get(1), None);
}

#[test]
fn default_cost_is_ten() {
    assert_eq!(MoveCost::default(), MoveCost(10));
    assert!(!MoveCost::default().is_infinite());
    assert!(MoveCost::infinite().is_infinite());
    assert_eq!(MoveCost::infinite(), MoveCost(u16::MAX));
}
