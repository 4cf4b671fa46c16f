use othello::board::{Board, Loc};
use othello::cell::Cell;
use othello::movement::{CellChange, Movement};

fn at(board: &Board, x: usize, y: usize) -> Cell {
    board.cell_at(Loc::new(x, y))
}

fn total(board: &Board) -> usize {
    board.count_cells(Cell::Empty) + board.count_cells(Cell::White) + board.count_cells(Cell::Black)
}

#[test]
fn new_board_has_center_pattern() {
    let board = Board::new(8, 8);
    assert_eq!(board.get_width(), 8);
    assert_eq!(board.get_height(), 8);
    assert_eq!(at(&board, 4, 4), Cell::White);
    assert_eq!(at(&board, 3, 3), Cell::White);
    assert_eq!(at(&board, 4, 3), Cell::Black);
    assert_eq!(at(&board, 3, 4), Cell::Black);
    assert_eq!(at(&board, 0, 0), Cell::Empty);
    assert_eq!(board.count_cells(Cell::White), 2);
    assert_eq!(board.count_cells(Cell::Black), 2);
    assert_eq!(board.count_cells(Cell::Empty), 60);
    assert!(!board.is_game_over());
}

#[test]
fn new_board_on_odd_sizes_uses_integer_center() {
    let board = Board::new(5, 3);
    let center = board.get_board_center();
    assert_eq!(center, Loc::new(2, 1));
    assert_eq!(at(&board, 2, 1), Cell::White);
    assert_eq!(at(&board, 1, 0), Cell::White);
    assert_eq!(at(&board, 2, 0), Cell::Black);
    assert_eq!(at(&board, 1, 1), Cell::Black);
    assert_eq!(at(&board, 4, 2), Cell::Empty);
    assert_eq!(total(&board), 15);
}

#[test]
fn counts_cover_board_after_every_apply() {
    let mut board = Board::new(8, 8);
    assert_eq!(total(&board), 64);
    let changes = [
        CellChange::new(Cell::Black, Loc::new(0, 0)),
        CellChange::new(Cell::White, Loc::new(0, 0)),
        CellChange::new(Cell::Empty, Loc::new(4, 4)),
        CellChange::new(Cell::Black, Loc::new(7, 7)),
    ];
    for change in changes {
        assert!(board.apply_change(change));
        assert_eq!(total(&board), 64);
    }
    assert_eq!(board.count_cells(Cell::White), 2);
    assert_eq!(board.count_cells(Cell::Black), 3);
    assert_eq!(board.count_cells(Cell::Empty), 59);
}

#[test]
fn apply_change_reports_no_write_for_same_cell() {
    let mut board = Board::new(8, 8);
    assert!(!board.apply_change(CellChange::new(Cell::White, Loc::new(4, 4))));
    assert_eq!(at(&board, 4, 4), Cell::White);
    assert!(board.apply_change(CellChange::new(Cell::Black, Loc::new(4, 4))));
    assert_eq!(at(&board, 4, 4), Cell::Black);
    assert_eq!(board.count_cells(Cell::Black), 3);
    assert_eq!(board.count_cells(Cell::White), 1);
}

#[test]
fn offset_within_stays_in_range() {
    let board = Board::new(8, 8);
    assert_eq!(board.offset_within(Loc::new(0, 0), 1, 1), Some(Loc::new(1, 1)));
    assert_eq!(board.offset_within(Loc::new(0, 0), -1, 0), None);
    assert_eq!(board.offset_within(Loc::new(7, 3), 1, 0), None);
    assert_eq!(board.offset_within(Loc::new(3, 7), 0, 1), None);
    assert_eq!(board.offset_within(Loc::new(3, 3), 4, -3), Some(Loc::new(7, 0)));
    assert_eq!(Loc::new(2, 2).offset_within(isize::MIN, 0, 8, 8), None);
    assert_eq!(Loc::new(2, 2).offset_within(isize::MAX, 0, 8, 8), None);
}

#[test]
fn offset_round_trip_returns_to_start() {
    let start = Loc::new(2, 5);
    let there = start.offset_within(3, -4, 8, 8).unwrap();
    assert_eq!(there, Loc::new(5, 1));
    assert_eq!(there.offset_within(-3, 4, 8, 8), Some(start));
    // Leaving the board gives nothing even though the inverse is in range.
    assert_eq!(Loc::new(7, 0).offset_within(1, 0, 8, 8), None);
    assert_eq!(Loc::new(0, 0).offset_within(0, -1, 8, 8), None);
}

#[test]
fn locations_scan_row_by_row() {
    let board = Board::new(3, 2);
    let locs = board.locations();
    assert_eq!(
        locs,
        vec![
            Loc::new(0, 0),
            Loc::new(1, 0),
            Loc::new(2, 0),
            Loc::new(0, 1),
            Loc::new(1, 1),
            Loc::new(2, 1),
        ]
    );
}

#[test]
fn cells_from_runs_to_the_edge() {
    let board = Board::new(8, 8);
    assert_eq!(
        board.cells_from(Loc::new(5, 2), 1, -1),
        vec![Loc::new(5, 2), Loc::new(6, 1), Loc::new(7, 0)]
    );
    assert_eq!(board.cells_from(Loc::new(0, 0), -1, 0), vec![Loc::new(0, 0)]);
    assert_eq!(board.cells_from(Loc::new(1, 6), 0, 2), vec![Loc::new(1, 6)]);
    assert_eq!(board.cells_from(Loc::new(1, 1), 0, 3), vec![Loc::new(1, 1), Loc::new(1, 4), Loc::new(1, 7)]);
}

#[test]
fn four_opening_moves_each_capture_one() {
    let board = Board::new(8, 8);
    let moves = board.find_valid_moves(Cell::Black);
    assert_eq!(moves.len(), 4);
    for mv in &moves {
        assert!(mv.is_valid());
        // captures + 100, none on an edge
        assert_eq!(mv.get_score(&board), 101);
    }
    // Equal scores keep the order of a row-by-row scan.
    let expected = [Loc::new(3, 2), Loc::new(2, 3), Loc::new(5, 4), Loc::new(4, 5)];
    for (mv, loc) in moves.iter().zip(expected.iter()) {
        let mut copy = Board::new(8, 8);
        let mut m = mv.clone();
        m.play_all(&mut copy);
        assert_eq!(copy.cell_at(*loc), Cell::Black);
        assert_eq!(copy.count_cells(Cell::Black), 4);
        assert_eq!(copy.count_cells(Cell::White), 1);
    }
}

#[test]
fn valid_moves_are_sorted_by_score() {
    let mut board = Board::new(8, 8);
    // A corner move for black at (0, 0) capturing (1, 1).
    board.apply_change(CellChange::new(Cell::White, Loc::new(1, 1)));
    board.apply_change(CellChange::new(Cell::Black, Loc::new(2, 2)));
    let moves = board.find_valid_moves(Cell::Black);
    assert!(moves.len() > 1);
    assert_eq!(moves[0].get_score(&board), 201);
    let mut scores: Vec<usize> = moves.iter().map(|m| m.get_score(&board)).collect();
    let listed = scores.clone();
    scores.sort_by(|a, b| b.cmp(a));
    assert_eq!(listed, scores);
    let mut copy = Board::new(8, 8);
    copy.apply_change(CellChange::new(Cell::White, Loc::new(1, 1)));
    copy.apply_change(CellChange::new(Cell::Black, Loc::new(2, 2)));
    let mut best = moves[0].clone();
    best.play_all(&mut copy);
    assert_eq!(copy.cell_at(Loc::new(0, 0)), Cell::Black);
    assert_eq!(copy.cell_at(Loc::new(1, 1)), Cell::Black);
}

#[test]
fn edge_moves_score_lower() {
    let mut board = Board::new(8, 8);
    board.apply_change(CellChange::new(Cell::White, Loc::new(1, 3)));
    board.apply_change(CellChange::new(Cell::White, Loc::new(2, 3)));
    let mv = Movement::new(&board, Loc::new(0, 3), Cell::Black);
    assert!(mv.is_valid());
    // three captures, plus 100, minus 100 on an edge
    assert_eq!(mv.get_score(&board), 3);
    assert_eq!(Movement::default().get_score(&board), 0);
}

#[test]
fn full_board_is_terminal() {
    let board = Board::new(2, 2);
    assert!(board.is_game_over());
    assert!(board.find_valid_moves(Cell::Black).is_empty());
    assert!(board.find_valid_moves(Cell::White).is_empty());
    assert_eq!(board.count_cells(Cell::Empty), 0);
}

#[test]
fn terminal_iff_both_players_lack_moves() {
    let mut board = Board::new(4, 4);
    assert!(!board.is_game_over());
    assert!(!board.find_valid_moves(Cell::Black).is_empty());
    // Make every piece black: nobody can capture anything.
    board.apply_change(CellChange::new(Cell::Black, Loc::new(2, 2)));
    assert!(!board.is_game_over());
    board.apply_change(CellChange::new(Cell::Black, Loc::new(1, 1)));
    assert!(board.is_game_over());
    assert!(board.find_valid_moves(Cell::Black).is_empty());
    assert!(board.find_valid_moves(Cell::White).is_empty());
    // One white piece again gives moves back.
    board.apply_change(CellChange::new(Cell::White, Loc::new(1, 1)));
    assert!(!board.is_game_over());
    assert!(!board.find_valid_moves(Cell::White).is_empty() || !board.find_valid_moves(Cell::Black).is_empty());
}

#[test]
fn empty_cell_has_no_moves() {
    let board = Board::new(8, 8);
    assert!(board.find_valid_moves(Cell::Empty).is_empty());
}
