use othello::cell::Cell;

#[test]
fn flipped_swaps_players() {
    assert_eq!(Cell::Black.flipped(), Cell::White);
    assert_eq!(Cell::White.flipped(), Cell::Black);
    assert_eq!(Cell::Empty.flipped(), Cell::Empty);
}

#[test]
fn to_str_gives_each_symbol() {
    assert_eq!(Cell::Empty.to_str(), " ");
    assert_eq!(Cell::White.to_str(), "\u{25CB}");
    assert_eq!(Cell::Black.to_str(), "\u{25CF}");
}
