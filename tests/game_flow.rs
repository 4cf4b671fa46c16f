use othello::board::{Board, Loc};
use othello::cell::Cell;
use othello::game::Game;
use othello::movement::{CellChange, Movement};

fn three_entry_board() -> Board {
    let mut board = Board::new(8, 8);
    board.apply_change(CellChange::new(Cell::White, Loc::new(5, 4)));
    board
}

#[test]
fn catch_up_drains_all_due_steps() {
    let mut game = Game::new(three_entry_board());
    assert_eq!(game.check_move(0), Cell::Black);
    let mv = game.get_player_movement(Loc::new(6, 4));
    assert!(mv.is_valid());
    assert!(game.begin_movement(mv));
    assert_eq!(game.check_move(350), Cell::White);
    let board = game.to_board();
    assert_eq!(board.cell_at(Loc::new(6, 4)), Cell::Black);
    assert_eq!(board.cell_at(Loc::new(5, 4)), Cell::Black);
    assert_eq!(board.cell_at(Loc::new(4, 4)), Cell::Black);
}

#[test]
fn steps_follow_the_tick() {
    let mut game = Game::new(three_entry_board());
    let mv = game.get_player_movement(Loc::new(6, 4));
    assert!(game.begin_movement(mv));
    // Steps are due at 0 and 100: two of three are played.
    assert_eq!(game.check_move(150), Cell::Empty);
    assert_eq!(game.to_board().cell_at(Loc::new(5, 4)), Cell::Black);
    assert_eq!(game.to_board().cell_at(Loc::new(4, 4)), Cell::White);
    // Nothing more is due before 200.
    assert_eq!(game.check_move(199), Cell::Empty);
    assert_eq!(game.to_board().cell_at(Loc::new(4, 4)), Cell::White);
    assert_eq!(game.check_move(200), Cell::White);
    assert_eq!(game.to_board().cell_at(Loc::new(4, 4)), Cell::Black);
}

#[test]
fn immediate_movement_plays_at_once() {
    let mut game = Game::new(Board::new(8, 8));
    let mv = game.get_player_movement(Loc::new(3, 2));
    assert!(game.begin_immediate_movement(mv, 5000));
    assert_eq!(game.check_move(5000), Cell::Empty);
    assert_eq!(game.to_board().cell_at(Loc::new(3, 2)), Cell::Black);
    assert_eq!(game.to_board().cell_at(Loc::new(3, 3)), Cell::White);
    assert_eq!(game.check_move(5100), Cell::White);
    assert_eq!(game.to_board().cell_at(Loc::new(3, 3)), Cell::Black);
}

#[test]
fn movement_refused_while_one_is_in_flight() {
    let mut game = Game::new(Board::new(8, 8));
    let first = game.get_player_movement(Loc::new(3, 2));
    let second = game.get_player_movement(Loc::new(2, 3));
    assert!(game.begin_immediate_movement(first, 1000));
    assert!(!game.begin_movement(second));
    assert!(!game.begin_movement(Movement::default()));
}

#[test]
fn invalid_movement_is_refused() {
    let mut game = Game::new(Board::new(8, 8));
    let mv = game.get_player_movement(Loc::new(4, 4));
    assert!(!mv.is_valid());
    assert!(!game.begin_movement(mv));
    assert_eq!(game.check_move(1000), Cell::Black);
    assert_eq!(game.to_board().count_cells(Cell::Black), 2);
    assert_eq!(game.to_board().count_cells(Cell::White), 2);
}

#[test]
fn movement_for_another_board_is_refused() {
    let mut game = Game::new(Board::new(4, 4));
    let big = Board::new(12, 12);
    let mv = Movement::new(&big, Loc::new(5, 4), Cell::Black);
    assert!(mv.is_valid());
    assert!(!game.begin_movement(mv));
}

#[test]
fn ai_takes_best_move() {
    let mut board = Board::new(8, 8);
    board.apply_change(CellChange::new(Cell::White, Loc::new(1, 1)));
    board.apply_change(CellChange::new(Cell::Black, Loc::new(2, 2)));
    let mut game = Game::new(board);
    let mv = game.get_ai_movement();
    assert_eq!(mv.get_score(game.to_board()), 201);
    assert!(game.begin_immediate_movement(mv, 0));
    assert_eq!(game.check_move(100), Cell::White);
    assert_eq!(game.to_board().cell_at(Loc::new(0, 0)), Cell::Black);
    assert_eq!(game.to_board().cell_at(Loc::new(1, 1)), Cell::Black);
}

#[test]
fn turn_stays_when_opponent_cannot_move() {
    // On a 4x4 board black takes the only white piece; white then has no
    // piece and no move, so black keeps the turn.
    let mut board = Board::new(4, 4);
    board.apply_change(CellChange::new(Cell::Black, Loc::new(2, 2)));
    let mut game = Game::new(board);
    assert!(game.has_any_moves(Cell::Black));
    assert!(game.has_any_moves(Cell::White));
    let mv = game.get_player_movement(Loc::new(0, 0));
    assert!(mv.is_valid());
    assert!(game.begin_movement(mv));
    assert_eq!(game.check_move(1000), Cell::Black);
    assert!(game.to_board().is_game_over());
    assert_eq!(game.to_board().count_cells(Cell::White), 0);
    assert!(!game.has_any_moves(Cell::White));
    assert!(!game.get_ai_movement().is_valid());
}

#[test]
fn player_movement_matches_board_movement() {
    let game = Game::new(Board::new(8, 8));
    let board = Board::new(8, 8);
    let mut a = game.get_player_movement(Loc::new(5, 4));
    let mut b = Movement::new(&board, Loc::new(5, 4), Cell::Black);
    let mut x = Board::new(8, 8);
    let mut y = Board::new(8, 8);
    a.play_all(&mut x);
    b.play_all(&mut y);
    assert_eq!(x.cell_at(Loc::new(4, 4)), Cell::Black);
    assert_eq!(y.cell_at(Loc::new(4, 4)), Cell::Black);
}
