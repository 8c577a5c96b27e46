use othello::board::Board;
use othello::cell::{Cell, CellState};

fn fresh(size: usize) -> Board {
    let mut b = Board::new(size);
    b.init();
    b
}

#[test]
fn init_places_center_cross() {
    let b = fresh(8);
    assert!(b.get_state(3, 3) == CellState::WHITE);
    assert!(b.get_state(4, 4) == CellState::WHITE);
    assert!(b.get_state(3, 4) == CellState::BLACK);
    assert!(b.get_state(4, 3) == CellState::BLACK);
    assert_eq!(b.count_stones(&CellState::WHITE), 2);
    assert_eq!(b.count_stones(&CellState::BLACK), 2);
    assert_eq!(b.count_stones(&CellState::EMPTY), 60);
}

#[test]
fn can_put_needs_a_run_then_own_stone() {
    // Row 0: W B B B _ : a run of three closed by white.
    let mut b = Board::new(8);
    b.put(0, 0, &CellState::WHITE);
    b.put(0, 1, &CellState::BLACK);
    b.put(0, 2, &CellState::BLACK);
    b.put(0, 3, &CellState::BLACK);
    assert!(b.can_put(0, 4, &CellState::WHITE));
    assert!(!b.can_put(0, 4, &CellState::BLACK));
    assert!(!b.can_put(0, 3, &CellState::WHITE));
}

#[test]
fn can_put_run_of_one() {
    let mut b = Board::new(8);
    b.put(2, 2, &CellState::BLACK);
    b.put(3, 3, &CellState::WHITE);
    assert!(b.can_put(1, 1, &CellState::WHITE));
    assert!(b.can_put(4, 4, &CellState::BLACK));
    assert!(!b.can_put(1, 2, &CellState::WHITE));
}

#[test]
fn can_put_no_run_does_not_qualify() {
    // Own stone adjacent with nothing between.
    let mut b = Board::new(8);
    b.put(0, 0, &CellState::WHITE);
    assert!(!b.can_put(0, 1, &CellState::WHITE));
    // Run not closed: off the board.
    let mut b2 = Board::new(4);
    b2.put(0, 1, &CellState::BLACK);
    b2.put(0, 2, &CellState::BLACK);
    b2.put(0, 3, &CellState::BLACK);
    assert!(!b2.can_put(0, 0, &CellState::WHITE));
    // Run not closed: an empty cell after it.
    let mut b3 = Board::new(8);
    b3.put(0, 1, &CellState::BLACK);
    assert!(!b3.can_put(0, 0, &CellState::WHITE));
}

#[test]
fn put_flips_single_intervening_stone() {
    let mut b = fresh(8);
    assert!(b.can_put(4, 2, &CellState::WHITE));
    b.put(4, 2, &CellState::WHITE);
    assert!(b.get_state(4, 2) == CellState::WHITE);
    assert!(b.get_state(4, 3) == CellState::WHITE);
    assert!(b.get_state(3, 4) == CellState::BLACK);
    assert!(b.get_state(3, 3) == CellState::WHITE);
    assert!(b.get_state(4, 4) == CellState::WHITE);
    assert_eq!(b.count_stones(&CellState::WHITE), 4);
    assert_eq!(b.count_stones(&CellState::BLACK), 1);
}

#[test]
fn put_flips_in_several_directions() {
    // White at (2, 2) closes three runs of one black stone each:
    // westward, northward and north-westward.
    let mut b = Board::new(5);
    b.put(0, 2, &CellState::WHITE);
    b.put(1, 2, &CellState::BLACK);
    b.put(2, 0, &CellState::WHITE);
    b.put(2, 1, &CellState::BLACK);
    b.put(0, 0, &CellState::WHITE);
    b.put(1, 1, &CellState::BLACK);
    b.put(2, 2, &CellState::WHITE);
    assert!(b.get_state(1, 2) == CellState::WHITE);
    assert!(b.get_state(2, 1) == CellState::WHITE);
    assert!(b.get_state(1, 1) == CellState::WHITE);
    assert_eq!(b.count_stones(&CellState::BLACK), 0);
    assert_eq!(b.count_stones(&CellState::WHITE), 7);
}

#[test]
fn counts_add_up_to_cell_count() {
    let mut b = fresh(6);
    b.put(3, 1, &CellState::WHITE);
    let w = b.count_stones(&CellState::WHITE);
    let k = b.count_stones(&CellState::BLACK);
    let e = b.count_stones(&CellState::EMPTY);
    assert_eq!(w + k + e, 36);
    assert_eq!(e, 31);
}

#[test]
fn ended_only_when_full() {
    let b = fresh(2);
    assert!(b.ended());
    let b8 = fresh(8);
    assert!(!b8.ended());
    let empty = Board::new(3);
    assert!(!empty.ended());
    assert_eq!(empty.get_size(), 3);
}

#[test]
fn cells_cursor_walks_row_major() {
    let b = fresh(2);
    let mut it = b.all_cells();
    assert!(it.next() == Some(CellState::WHITE));
    assert!(it.next() == Some(CellState::BLACK));
    assert!(it.next() == Some(CellState::BLACK));
    assert!(it.next() == Some(CellState::WHITE));
    assert!(it.next().is_none());
    assert!(it.next().is_none());
}

#[test]
fn duplicate_is_independent() {
    let b = fresh(8);
    let mut c = b.duplicate();
    c.put(4, 2, &CellState::WHITE);
    assert!(b.get_state(4, 2) == CellState::EMPTY);
    assert!(b.get_state(4, 3) == CellState::BLACK);
    assert!(c.get_state(4, 3) == CellState::WHITE);
}

#[test]
fn cell_and_state_glyphs() {
    assert_eq!(CellState::EMPTY.to_string(), " ");
    assert_eq!(CellState::WHITE.to_string(), "o");
    assert_eq!(CellState::BLACK.to_string(), "x");
    let mut cell = Cell::new();
    assert!(cell.is_empty());
    assert_eq!(cell.to_string(), " ");
    cell.set_state(&CellState::BLACK);
    assert!(!cell.is_empty());
    assert_eq!(cell.to_string(), "x");
    assert!(CellState::BLACK.have_same_state(&cell));
    assert!(!CellState::WHITE.have_same_state(&cell));
    assert!(CellState::WHITE.have_another_color(&cell));
    assert!(!CellState::BLACK.have_another_color(&cell));
    assert!(!CellState::WHITE.have_another_color(&Cell::new()));
}
