use othello::cell::CellState;
use othello::game::{Game, MoveError};
use othello::search::{search_draw, search_draw_from};

fn replay(size: usize, trace: &[(usize, usize)]) -> Game {
    let mut g = Game::with_size(size);
    for &(r, c) in trace {
        assert!(g.put(r, c).is_ok());
    }
    g
}

#[test]
fn fresh_game_legal_moves_row_major() {
    let g = Game::new();
    assert_eq!(g.availabe_cells(), vec![(3, 5), (4, 6), (5, 3), (6, 4)]);
    assert!(g.next_player() == CellState::WHITE);
    assert!(!g.ended());
    assert!(!g.is_draw());
}

#[test]
fn put_switches_player() {
    let mut g = Game::new();
    assert_eq!(g.put(5, 3), Ok(()));
    assert!(g.next_player() == CellState::BLACK);
    assert_eq!(g.board().count_stones(&CellState::WHITE), 4);
    assert_eq!(g.board().count_stones(&CellState::BLACK), 1);
}

#[test]
fn illegal_put_is_rejected_and_changes_nothing() {
    let mut g = Game::new();
    assert_eq!(g.put(1, 1), Err(MoveError::IllegalMove));
    assert_eq!(g.put(4, 4), Err(MoveError::IllegalMove));
    assert_eq!(g.put(0, 3), Err(MoveError::IllegalMove));
    assert_eq!(g.put(9, 3), Err(MoveError::IllegalMove));
    assert!(!g.can_put(0, 0));
    assert!(g.can_put(3, 5));
    assert!(g.next_player() == CellState::WHITE);
    assert_eq!(g.availabe_cells().len(), 4);
}

#[test]
fn full_board_with_equal_counts_is_draw() {
    let g = Game::with_size(2);
    assert!(g.ended());
    assert!(g.is_draw());
    assert!(g.availabe_cells().is_empty());
}

#[test]
fn search_on_two_by_two_returns_empty_trace() {
    let g = Game::with_size(2);
    assert_eq!(search_draw_from(&g), Some(vec![]));
}

#[test]
fn search_on_four_by_four() {
    let g = Game::with_size(4);
    match search_draw_from(&g) {
        Some(trace) => {
            let end = replay(4, &trace);
            assert!(end.ended());
            assert!(end.is_draw());
        }
        None => {}
    }
}

#[test]
fn search_on_eight_by_eight_finds_draw() {
    let trace = search_draw().expect("a draw exists on the standard board");
    let end = replay(8, &trace);
    assert!(end.ended());
    assert!(end.is_draw());
    assert_eq!(end.board().count_stones(&CellState::WHITE), 32);
}

#[test]
fn duplicate_game_is_independent() {
    let g = Game::new();
    let mut h = g.duplicate();
    assert!(h.put(3, 5).is_ok());
    assert!(g.next_player() == CellState::WHITE);
    assert_eq!(g.availabe_cells().len(), 4);
    assert_eq!(g.get_size(), 8);
}

#[test]
fn fresh_game_is_not_stuck() {
    let g = Game::new();
    assert!(!g.is_stuck());
    let full = Game::with_size(2);
    assert!(!full.is_stuck());
}

fn other(p: CellState) -> CellState {
    if p == CellState::WHITE { CellState::BLACK } else { CellState::WHITE }
}

#[test]
fn turn_stays_only_when_opponent_cannot_move() {
    let trace = search_draw().expect("a draw exists on the standard board");
    let mut g = Game::new();
    for &(r, c) in trace.iter() {
        let p = g.next_player();
        assert!(g.put(r, c).is_ok());
        let q = other(p);
        let mut opponent_moves = 0;
        for i in 0..8 {
            for j in 0..8 {
                if g.board().can_put(i, j, &q) {
                    opponent_moves += 1;
                }
            }
        }
        if opponent_moves == 0 {
            assert!(g.next_player() == p);
        } else {
            assert!(g.next_player() == q);
            assert!(!g.availabe_cells().is_empty());
        }
    }
    assert!(g.availabe_cells().is_empty());
}
