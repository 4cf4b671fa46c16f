use vstd::prelude::*;

verus! {

/// The state of one square of the board.
#[derive(Clone, Copy, PartialEq, Eq, Structural, Debug, Hash)]
pub enum Cell {
    Empty,
    White,
    Black,
}

impl Cell {
    /// The other player's colour; `Empty` stays `Empty`.
    pub open spec fn opponent(self) -> Cell {
        match self {
            Cell::Empty => Cell::Empty,
            Cell::White => Cell::Black,
            Cell::Black => Cell::White,
        }
    }

    /// The text shown for a cell.
    pub open spec fn text(self) -> Seq<char> {
        match self {
            Cell::Empty => seq![' '],
            Cell::White => seq!['\u{25CB}'],
            Cell::Black => seq!['\u{25CF}'],
        }
    }

    /// Returns the text to display for a cell.
    pub fn to_str(self) -> (r: &'static str)
        ensures
            r@ == self.text(),
    {
        proof {
            reveal_strlit(" ");
            reveal_strlit("\u{25CB}");
            reveal_strlit("\u{25CF}");
        }
        match self {
            Cell::Empty => " ",
            Cell::White => "\u{25CB}",
            Cell::Black => "\u{25CF}",
        }
    }

    /// The cell of the other player.
    pub fn flipped(self) -> (r: Cell)
        ensures
            r == self.opponent(),
    {
        match self {
            Cell::Black => Cell::White,
            Cell::White => Cell::Black,
            Cell::Empty => Cell::Empty,
        }
    }
}

} // verus!
