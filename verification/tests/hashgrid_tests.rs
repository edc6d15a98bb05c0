use graph_layout::hashgrid::Array3e;
use graph_layout::hashgrid::GridError;
use graph_layout::hashgrid::HashGrid;

fn grid() -> HashGrid<i32> {
    match HashGrid::<i32>::new(((0, 0), (100, 100)), 10) {
        Ok(g) => g,
        Err(_) => panic!("a valid region was refused"),
    }
}

#[test]
fn bucket_holds_three_in_order() {
    let mut b: Array3e<i32> = Array3e::new();
    assert!(b.is_empty());
    assert_eq!(b.insert(5), Ok(()));
    assert_eq!(b.insert(6), Ok(()));
    assert_eq!(b.insert(7), Ok(()));
    assert_eq!(b.len(), 3);
    assert_eq!(b.insert(8), Err(()));
    assert_eq!(b.len(), 3);
    assert_eq!(b.index(0), 5);
    assert_eq!(b.index(1), 6);
    assert_eq!(b.index(2), 7);
}

#[test]
fn bucket_remove_closes_gap() {
    let mut b: Array3e<i32> = Array3e::new();
    let _ = b.insert(5);
    let _ = b.insert(6);
    let _ = b.insert(7);
    assert_eq!(b.remove(0), Ok(()));
    assert_eq!(b.len(), 2);
    assert_eq!(b.index(0), 6);
    assert_eq!(b.index(1), 7);
    assert_eq!(b.remove(2), Err(()));
    assert_eq!(b.remove(1), Ok(()));
    assert_eq!(b.len(), 1);
    assert_eq!(b.index(0), 6);
}

#[test]
fn bucket_remove_element_takes_first_match() {
    let mut b: Array3e<i32> = Array3e::new();
    let _ = b.insert(4);
    let _ = b.insert(9);
    let _ = b.insert(4);
    assert!(b.contains(&9));
    assert_eq!(b.remove_element(&4), Ok(()));
    assert_eq!(b.len(), 2);
    assert_eq!(b.index(0), 9);
    assert_eq!(b.index(1), 4);
    assert_eq!(b.remove_element(&1), Err(()));
    assert_eq!(b.len(), 2);
}

#[test]
fn bucket_remove_end_drops_last() {
    let mut b: Array3e<i32> = Array3e::new();
    assert_eq!(b.remove_end(), Err(()));
    let _ = b.insert(1);
    let _ = b.insert(2);
    assert_eq!(b.remove_end(), Ok(()));
    assert_eq!(b.len(), 1);
    assert_eq!(b.index(0), 1);
    assert_eq!(b.remove_end(), Ok(()));
    assert!(b.is_empty());
}

#[test]
fn new_refuses_zero_cell_side_and_inverted_region() {
    assert!(matches!(HashGrid::<i32>::new(((0, 0), (10, 10)), 0), Err(GridError::InvalidRegion)));
    assert!(matches!(HashGrid::<i32>::new(((5, 0), (4, 10)), 1), Err(GridError::InvalidRegion)));
    assert!(matches!(HashGrid::<i32>::new(((0, 5), (10, 4)), 1), Err(GridError::InvalidRegion)));
    assert!(HashGrid::<i32>::new(((0, 0), (0, 0)), 1).is_ok());
}

#[test]
fn insert_then_remove_leaves_cells_empty() {
    let mut g = grid();
    assert!(g.insert_rectangle((50, 50), (20, 20), &7).is_ok());
    assert!(g.contains_key(&7));
    assert_eq!(g.get_element((50, 50)), Some(7));
    assert_eq!(g.get_element((40, 40)), Some(7));
    assert_eq!(g.get_element((60, 60)), Some(7));
    assert_eq!(g.get_element((69, 69)), Some(7));
    assert_eq!(g.get_element((39, 50)), None);
    assert_eq!(g.get_element((70, 50)), None);
    assert!(g.remove_rectangle((50, 50), (20, 20), &7).is_ok());
    assert_eq!(g.get_element((50, 50)), None);
    assert_eq!(g.get_element((40, 40)), None);
    assert_eq!(g.get_element((60, 60)), None);
    assert!(!g.contains_key(&7));
}

#[test]
fn overlapping_insert_reports_first_key() {
    let mut g = grid();
    assert!(g.insert_rectangle((50, 50), (20, 20), &1).is_ok());
    match g.insert_rectangle((60, 60), (20, 20), &2) {
        Err(GridError::Collision(found)) => {
            assert!(found.contains(&1));
            assert_eq!(found.len(), 1);
        },
        _ => panic!("a collision was expected"),
    }
    assert!(g.contains_key(&1));
    assert!(!g.contains_key(&2));
    assert_eq!(g.get_element((75, 75)), None);
    assert_eq!(g.get_element((50, 50)), Some(1));
}

#[test]
fn insert_outside_region_is_out_of_bounds() {
    let mut g = grid();
    assert!(matches!(g.insert_rectangle((95, 50), (20, 20), &1), Err(GridError::OutOfBounds)));
    assert!(matches!(g.insert_rectangle((5, 50), (20, 20), &1), Err(GridError::OutOfBounds)));
    assert!(!g.contains_key(&1));
    assert_eq!(g.get_element((90, 50)), None);
    assert!(matches!(g.remove_rectangle((95, 50), (20, 20), &1), Err(GridError::OutOfBounds)));
}

#[test]
fn insert_of_present_key_is_refused() {
    let mut g = grid();
    assert!(g.insert_rectangle((15, 15), (10, 10), &3).is_ok());
    assert!(matches!(g.insert_rectangle((75, 75), (10, 10), &3), Err(GridError::DuplicateKey)));
    assert_eq!(g.get_element((75, 75)), None);
}

#[test]
fn move_rectangle_carries_key_over() {
    let mut g = grid();
    assert!(g.insert_rectangle((20, 20), (10, 10), &4).is_ok());
    assert!(g.move_rectangle((20, 20), (10, 10), (70, 70)).is_ok());
    assert_eq!(g.get_element((20, 20)), None);
    assert_eq!(g.get_element((15, 15)), None);
    assert_eq!(g.get_element((70, 70)), Some(4));
    assert_eq!(g.get_element((65, 65)), Some(4));
    assert_eq!(g.get_element((75, 75)), Some(4));
    assert!(g.contains_key(&4));
}

#[test]
fn move_rectangle_onto_itself_keeps_it() {
    let mut g = grid();
    assert!(g.insert_rectangle((50, 50), (20, 20), &4).is_ok());
    assert!(g.move_rectangle((50, 50), (20, 20), (55, 50)).is_ok());
    assert_eq!(g.get_element((45, 50)), Some(4));
    assert_eq!(g.get_element((65, 50)), Some(4));
}

#[test]
fn move_rectangle_reports_blockers_and_changes_nothing() {
    let mut g = grid();
    assert!(g.insert_rectangle((20, 20), (10, 10), &4).is_ok());
    assert!(g.insert_rectangle((70, 70), (10, 10), &5).is_ok());
    match g.move_rectangle((20, 20), (10, 10), (65, 65)) {
        Err(GridError::Collision(found)) => {
            assert!(found.contains(&5));
            assert!(!found.contains(&4));
        },
        _ => panic!("a collision was expected"),
    }
    assert_eq!(g.get_element((20, 20)), Some(4));
    assert_eq!(g.get_element((70, 70)), Some(5));
    assert_eq!(g.get_element((55, 55)), None);
}

#[test]
fn move_rectangle_from_empty_cell_is_vacant() {
    let mut g = grid();
    assert!(matches!(g.move_rectangle((20, 20), (10, 10), (70, 70)), Err(GridError::Vacant)));
    assert!(matches!(g.move_rectangle((20, 20), (10, 10), (98, 70)), Err(GridError::OutOfBounds)));
}

#[test]
fn insert_element_fills_one_cell_up_to_three() {
    let mut g = grid();
    assert!(g.insert_element((33, 47), &1).is_ok());
    assert!(g.insert_element((33, 47), &2).is_ok());
    assert!(g.insert_element((39, 40), &3).is_ok());
    assert!(matches!(g.insert_element((30, 49), &4), Err(GridError::CellFull)));
    assert!(matches!(g.insert_element((101, 49), &4), Err(GridError::OutOfBounds)));
    assert!(matches!(g.insert_element((-1, 49), &4), Err(GridError::OutOfBounds)));
    assert_eq!(g.get_element((35, 45)), Some(1));
    assert_eq!(g.get_element((29, 45)), None);
    assert_eq!(g.get_element((200, 45)), None);
    assert!(!g.contains_key(&1));
}

#[test]
fn grid_dimensions_keeps_occupants_in_place() {
    let mut g = grid();
    assert!(g.insert_rectangle((15, 15), (10, 10), &9).is_ok());
    assert!(matches!(g.insert_rectangle((-20, -20), (10, 10), &8), Err(GridError::OutOfBounds)));
    assert!(g.grid_dimensions((-25, -25), (130, 100)).is_ok());
    assert_eq!(g.get_element((15, 15)), Some(9));
    assert_eq!(g.get_element((10, 10)), Some(9));
    assert_eq!(g.get_element((20, 20)), Some(9));
    assert_eq!(g.get_element((9, 15)), None);
    assert_eq!(g.get_element((-5, -5)), None);
    assert!(g.insert_rectangle((-20, -20), (10, 10), &8).is_ok());
    assert_eq!(g.get_element((-20, -20)), Some(8));
    assert!(g.insert_rectangle((125, 50), (10, 10), &7).is_ok());
    assert_eq!(g.get_element((130, 50)), Some(7));
    assert!(g.contains_key(&9));
}

#[test]
fn grid_dimensions_inside_region_changes_nothing() {
    let mut g = grid();
    assert!(g.insert_rectangle((15, 15), (10, 10), &9).is_ok());
    assert!(g.grid_dimensions((10, 10), (50, 50)).is_ok());
    assert_eq!(g.get_element((15, 15)), Some(9));
    assert!(matches!(g.insert_rectangle((100, 100), (10, 10), &1), Err(GridError::OutOfBounds)));
}
