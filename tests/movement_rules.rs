use othello::board::{Board, Loc};
use othello::cell::Cell;
use othello::movement::{CellChange, Movement};

fn snapshot(board: &Board) -> Vec<Cell> {
    board.locations().into_iter().map(|l| board.cell_at(l)).collect()
}

#[test]
fn placing_above_flips_exactly_one() {
    let mut board = Board::new(8, 8);
    let before = snapshot(&board);
    let mut mv = Movement::new(&board, Loc::new(3, 2), Cell::Black);
    assert!(mv.is_valid());
    mv.play_all(&mut board);
    assert!(!mv.is_valid());
    assert_eq!(board.cell_at(Loc::new(3, 2)), Cell::Black);
    assert_eq!(board.cell_at(Loc::new(3, 3)), Cell::Black);
    let after = snapshot(&board);
    let changed: Vec<usize> = (0..64).filter(|&i| before[i] != after[i]).collect();
    assert_eq!(changed, vec![2 * 8 + 3, 3 * 8 + 3]);
    assert_eq!(board.count_cells(Cell::Black), 4);
    assert_eq!(board.count_cells(Cell::White), 1);
}

#[test]
fn occupied_cell_gives_invalid_movement() {
    let mut board = Board::new(8, 8);
    let before = snapshot(&board);
    let mut mv = Movement::new(&board, Loc::new(4, 4), Cell::Black);
    assert!(!mv.is_valid());
    assert!(!mv.play_one(&mut board));
    assert_eq!(snapshot(&board), before);
    assert_eq!(board.count_cells(Cell::Black), 2);
    assert_eq!(board.count_cells(Cell::White), 2);
    assert!(!board.is_game_over());
}

#[test]
fn placement_without_capture_is_invalid() {
    let board = Board::new(8, 8);
    assert!(!Movement::new(&board, Loc::new(0, 0), Cell::Black).is_valid());
    assert!(!Movement::new(&board, Loc::new(2, 2), Cell::Black).is_valid());
    assert!(!Movement::new(&board, Loc::new(3, 2), Cell::Empty).is_valid());
    assert!(!Movement::new(&board, Loc::new(9, 2), Cell::Black).is_valid());
}

#[test]
fn valid_iff_some_ray_brackets() {
    let board = Board::new(8, 8);
    let mut valid = Vec::new();
    for loc in board.locations() {
        if Movement::new(&board, loc, Cell::White).is_valid() {
            valid.push(loc);
        }
    }
    assert_eq!(valid, vec![Loc::new(4, 2), Loc::new(5, 3), Loc::new(2, 4), Loc::new(3, 5)]);
}

#[test]
fn run_ending_on_empty_brackets_nothing() {
    let mut board = Board::new(8, 8);
    // White run (5,4),(4,4) then black (3,4): black at (6,4) captures two.
    board.apply_change(CellChange::new(Cell::White, Loc::new(5, 4)));
    let mut mv = Movement::new(&board, Loc::new(6, 4), Cell::Black);
    assert!(mv.is_valid());
    mv.play_all(&mut board);
    assert_eq!(board.cell_at(Loc::new(5, 4)), Cell::Black);
    assert_eq!(board.cell_at(Loc::new(4, 4)), Cell::Black);
    assert_eq!(board.cell_at(Loc::new(3, 3)), Cell::White);
    // A white run that ends on an empty cell is not captured.
    let mut other = Board::new(8, 8);
    other.apply_change(CellChange::new(Cell::White, Loc::new(3, 4)));
    assert!(!Movement::new(&other, Loc::new(2, 4), Cell::Black).is_valid());
}

#[test]
fn only_bracketed_rays_capture() {
    let mut board = Board::new(8, 8);
    board.apply_change(CellChange::new(Cell::White, Loc::new(5, 4)));
    board.apply_change(CellChange::new(Cell::Black, Loc::new(5, 3)));
    let mut mv = Movement::new(&board, Loc::new(5, 5), Cell::Black);
    assert!(mv.is_valid());
    // Up the column (5,4) is bracketed by (5,3); the diagonal run
    // (4,4), (3,3) ends on an empty cell and stays white.
    assert_eq!(mv.get_score(&board), 101);
    mv.play_all(&mut board);
    assert_eq!(board.cell_at(Loc::new(5, 4)), Cell::Black);
    assert_eq!(board.cell_at(Loc::new(4, 4)), Cell::White);
}

#[test]
fn play_one_steps_match_play_all() {
    let mut stepped = Board::new(8, 8);
    stepped.apply_change(CellChange::new(Cell::White, Loc::new(5, 4)));
    let mut whole = Board::new(8, 8);
    whole.apply_change(CellChange::new(Cell::White, Loc::new(5, 4)));

    let mut one = Movement::new(&stepped, Loc::new(6, 4), Cell::Black);
    let mut all = one.clone();
    let mut steps = 0;
    while one.play_one(&mut stepped) {
        steps += 1;
    }
    assert_eq!(steps, 3);
    all.play_all(&mut whole);
    assert!(!one.is_valid());
    assert!(!all.is_valid());
    assert_eq!(snapshot(&stepped), snapshot(&whole));
    assert_eq!(stepped.count_cells(Cell::Black), whole.count_cells(Cell::Black));
    assert_eq!(stepped.is_game_over(), whole.is_game_over());
}

#[test]
fn play_one_writes_placement_first() {
    let mut board = Board::new(8, 8);
    let mut mv = Movement::new(&board, Loc::new(3, 2), Cell::Black);
    assert!(mv.play_one(&mut board));
    assert_eq!(board.cell_at(Loc::new(3, 2)), Cell::Black);
    assert_eq!(board.cell_at(Loc::new(3, 3)), Cell::White);
    assert!(mv.is_valid());
    assert!(mv.play_one(&mut board));
    assert_eq!(board.cell_at(Loc::new(3, 3)), Cell::Black);
    assert!(!mv.is_valid());
    assert!(!mv.play_one(&mut board));
}

#[test]
fn cell_change_holds_its_fields() {
    let ch = CellChange::new(Cell::White, Loc::new(1, 2));
    assert_eq!(ch.cell, Cell::White);
    assert_eq!(ch.loc, Loc::new(1, 2));
}
