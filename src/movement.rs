use vstd::prelude::*;

use crate::board::{offset_spec, Board, BoardState, Loc, MAX_SIDE};
use crate::cell::Cell;

verus! {

/// The most entries a movement can hold: its placement and fewer than
/// `MAX_SIDE` captures along each of the eight directions.
pub const MAX_ENTRIES: usize = 8 * MAX_SIDE + 1;

/// This contains a cell to write into a location
/// and the location to put it.
#[derive(Clone, Copy, PartialEq, Eq, Structural, Debug)]
pub struct CellChange {
    pub cell: Cell,
    pub loc: Loc,
}

impl CellChange {
    pub fn new(cell: Cell, loc: Loc) -> (r: CellChange)
        ensures
            r.cell == cell,
            r.loc == loc,
    {
        CellChange { cell, loc }
    }
}

/// The eight compass directions, in the order in which they are scanned.
pub open spec fn compass(i: int) -> (int, int) {
    if i == 0 {
        (-1, -1)
    } else if i == 1 {
        (-1, 0)
    } else if i == 2 {
        (-1, 1)
    } else if i == 3 {
        (0, -1)
    } else if i == 4 {
        (0, 1)
    } else if i == 5 {
        (1, -1)
    } else if i == 6 {
        (1, 0)
    } else {
        (1, 1)
    }
}

/// Column and row reached from `start` after `k` steps of `(dx, dy)`.
pub open spec fn ray_x(start: Loc, dx: int, k: int) -> int {
    start.x + k * dx
}

pub open spec fn ray_y(start: Loc, dy: int, k: int) -> int {
    start.y + k * dy
}

pub open spec fn ray_loc(start: Loc, dx: int, dy: int, k: int) -> Loc {
    Loc { x: ray_x(start, dx, k) as usize, y: ray_y(start, dy, k) as usize }
}

/// What the board holds `k` steps from `start`; `None` past its edge.
pub open spec fn ray_cell(b: BoardState, start: Loc, dx: int, dy: int, k: int) -> Option<Cell> {
    if b.contains(ray_x(start, dx, k), ray_y(start, dy, k)) {
        Some(b.get(ray_x(start, dx, k), ray_y(start, dy, k)))
    } else {
        None
    }
}

/// The `n` cells after `start` in direction `(dx, dy)` hold the opponent of
/// the player `c`, and the cell after them holds `c`.
pub open spec fn brackets(b: BoardState, start: Loc, dx: int, dy: int, c: Cell, n: int) -> bool {
    &&& c != Cell::Empty
    &&& 0 <= n
    &&& forall|k: int| 1 <= k <= n ==> #[trigger] ray_cell(b, start, dx, dy, k) == Some(c.opponent())
    &&& ray_cell(b, start, dx, dy, n + 1) == Some(c)
}

/// The cells that `c` captures along one direction from `start`, near to far.
pub open spec fn ray_captures(b: BoardState, start: Loc, dx: int, dy: int, c: Cell) -> Seq<Loc> {
    if exists|n: int| brackets(b, start, dx, dy, c, n) {
        let n = choose|n: int| brackets(b, start, dx, dy, c, n);
        Seq::new(n as nat, |i: int| ray_loc(start, dx, dy, i + 1))
    } else {
        Seq::empty()
    }
}

/// The captures along the first `d` directions, one direction after another.
pub open spec fn captures_upto(b: BoardState, start: Loc, c: Cell, d: int) -> Seq<Loc>
    decreases d,
{
    if d <= 0 {
        Seq::empty()
    } else {
        captures_upto(b, start, c, d - 1) + ray_captures(
            b,
            start,
            compass(d - 1).0,
            compass(d - 1).1,
            c,
        )
    }
}

/// Every cell that placing `c` at `start` would flip, in scan order.
pub open spec fn captures(b: BoardState, start: Loc, c: Cell) -> Seq<Loc> {
    captures_upto(b, start, c, 8)
}

/// The writes of placing `c` at `loc`: the placement and then every capture;
/// empty when the location is off the board, taken, or captures nothing.
pub open spec fn movement_spec(b: BoardState, loc: Loc, c: Cell) -> Seq<CellChange> {
    if b.contains_loc(loc) && b.at(loc) == Cell::Empty && captures(b, loc, c).len() > 0 {
        seq![CellChange { cell: c, loc }] + captures(b, loc, c).map_values(
            |l: Loc| CellChange { cell: c, loc: l },
        )
    } else {
        Seq::empty()
    }
}

/// The player `c` has at least one legal move.
pub open spec fn has_move(b: BoardState, c: Cell) -> bool {
    exists|loc: Loc| b.contains_loc(loc) && #[trigger] movement_spec(b, loc, c).len() > 0
}

/// The preference for a movement: its captures plus 100, with 100 more on a
/// corner and 100 less on the rest of the edge; 0 for an empty movement.
pub open spec fn score_of(b: BoardState, entries: Seq<CellChange>) -> int {
    if entries.len() == 0 {
        0
    } else {
        let loc = entries[0].loc;
        let x_edge = loc.x == 0 || loc.x == b.width - 1;
        let y_edge = loc.y == 0 || loc.y == b.height - 1;
        let base = entries.len() - 1 + 100;
        if x_edge && y_edge {
            base + 100
        } else if x_edge || y_edge {
            base - 100
        } else {
            base
        }
    }
}

/// `l1` comes before `l2` in a scan of the board, row by row.
pub open spec fn scan_before(l1: Loc, l2: Loc) -> bool {
    l1.y < l2.y || (l1.y == l2.y && l1.x < l2.x)
}

/// `m1` is listed before `m2`: it scores higher, or scores the same and
/// its placement comes first in the scan.
pub open spec fn ranks_before(b: BoardState, m1: Seq<CellChange>, m2: Seq<CellChange>) -> bool {
    score_of(b, m1) > score_of(b, m2) || (score_of(b, m1) == score_of(b, m2) && scan_before(
        m1[0].loc,
        m2[0].loc,
    ))
}

/// `ms` lists each legal move of `c` once, best score first, ties in scan order.
pub open spec fn ranked_moves(b: BoardState, c: Cell, ms: Seq<Seq<CellChange>>) -> bool {
    &&& forall|i: int|
        0 <= i < ms.len() ==> {
            &&& (#[trigger] ms[i]).len() > 0
            &&& b.contains_loc(ms[i][0].loc)
            &&& ms[i] == movement_spec(b, ms[i][0].loc, c)
        }
    &&& forall|loc: Loc|
        b.contains_loc(loc) && #[trigger] movement_spec(b, loc, c).len() > 0 ==> exists|i: int|
            0 <= i < ms.len() && (#[trigger] ms[i])[0].loc == loc
    &&& forall|i: int, j: int|
        0 <= i < j < ms.len() ==> ranks_before(b, #[trigger] ms[i], #[trigger] ms[j])
}

/// Steps of a unit direction are linear in the number of steps.
proof fn lemma_unit_step(k: int, d: int)
    requires
        -1 <= d <= 1,
    ensures
        (k + 1) * d == k * d + d,
        d == 1 ==> k * d == k,
        d == -1 ==> k * d == -k,
        d == 0 ==> k * d == 0,
{
    assert((k + 1) * d == k * d + d) by (nonlinear_arith);
    assert(d == -1 ==> k * d == -k) by (nonlinear_arith);
}

/// A ray in a unit direction leaves the board in fewer than `MAX_SIDE` steps.
proof fn lemma_ray_bound(b: BoardState, start: Loc, dx: int, dy: int, k: int)
    requires
        b.shaped(),
        b.contains_loc(start),
        -1 <= dx <= 1,
        -1 <= dy <= 1,
        dx != 0 || dy != 0,
        0 <= k,
        b.contains(ray_x(start, dx, k), ray_y(start, dy, k)),
    ensures
        k < MAX_SIDE,
{
    lemma_unit_step(k, dx);
    lemma_unit_step(k, dy);
}

/// At most one run length brackets along a ray.
proof fn lemma_brackets_unique(
    b: BoardState,
    start: Loc,
    dx: int,
    dy: int,
    c: Cell,
    n1: int,
    n2: int,
)
    requires
        brackets(b, start, dx, dy, c, n1),
        brackets(b, start, dx, dy, c, n2),
    ensures
        n1 == n2,
{
    if n1 < n2 {
        assert(ray_cell(b, start, dx, dy, n1 + 1) == Some(c.opponent()));
    } else if n2 < n1 {
        assert(ray_cell(b, start, dx, dy, n2 + 1) == Some(c.opponent()));
    }
}

/// A ray whose first `k` cells are the opponent's and whose next cell is
/// neither player's own nor the opponent's brackets nothing.
proof fn lemma_no_bracket(b: BoardState, start: Loc, dx: int, dy: int, c: Cell, k: int)
    requires
        c != Cell::Empty,
        0 <= k,
        forall|j: int| 1 <= j <= k ==> #[trigger] ray_cell(b, start, dx, dy, j) == Some(c.opponent()),
        ray_cell(b, start, dx, dy, k + 1) != Some(c),
        ray_cell(b, start, dx, dy, k + 1) != Some(c.opponent()),
    ensures
        ray_captures(b, start, dx, dy, c) == Seq::<Loc>::empty(),
{
    assert forall|n: int| !brackets(b, start, dx, dy, c, n) by {
        if brackets(b, start, dx, dy, c, n) {
            if n < k {
                assert(ray_cell(b, start, dx, dy, n + 1) == Some(c.opponent()));
            } else if n > k {
                assert(ray_cell(b, start, dx, dy, k + 1) == Some(c.opponent()));
            }
        }
    }
}

/// The captures along one ray are fewer than `MAX_SIDE` and all on the board.
proof fn lemma_ray_captures_fit(b: BoardState, start: Loc, dx: int, dy: int, c: Cell)
    requires
        b.shaped(),
        b.contains_loc(start),
        -1 <= dx <= 1,
        -1 <= dy <= 1,
        dx != 0 || dy != 0,
    ensures
        ray_captures(b, start, dx, dy, c).len() < MAX_SIDE,
        forall|i: int|
            0 <= i < ray_captures(b, start, dx, dy, c).len() ==> b.contains_loc(
                #[trigger] ray_captures(b, start, dx, dy, c)[i],
            ),
{
    if exists|n: int| brackets(b, start, dx, dy, c, n) {
        let n = choose|n: int| brackets(b, start, dx, dy, c, n);
        assert(ray_cell(b, start, dx, dy, n + 1) == Some(c));
        lemma_ray_bound(b, start, dx, dy, n + 1);
        let rc = ray_captures(b, start, dx, dy, c);
        assert forall|i: int| 0 <= i < rc.len() implies b.contains_loc(#[trigger] rc[i]) by {
            assert(rc[i] == ray_loc(start, dx, dy, i + 1));
            assert(ray_cell(b, start, dx, dy, i + 1) == Some(c.opponent()));
        }
    }
}

/// The captures along the first `d` directions number at most `d * MAX_SIDE`
/// and all lie on the board.
proof fn lemma_captures_fit(b: BoardState, start: Loc, c: Cell, d: int)
    requires
        b.shaped(),
        b.contains_loc(start),
        0 <= d <= 8,
    ensures
        captures_upto(b, start, c, d).len() <= d * MAX_SIDE,
        forall|i: int|
            0 <= i < captures_upto(b, start, c, d).len() ==> b.contains_loc(
                #[trigger] captures_upto(b, start, c, d)[i],
            ),
    decreases d,
{
    if d > 0 {
        lemma_captures_fit(b, start, c, d - 1);
        let (dx, dy) = compass(d - 1);
        lemma_ray_captures_fit(b, start, dx, dy, c);
        let prev = captures_upto(b, start, c, d - 1);
        let ray = ray_captures(b, start, dx, dy, c);
        assert forall|i: int|
            0 <= i < captures_upto(b, start, c, d).len() implies b.contains_loc(
                #[trigger] captures_upto(b, start, c, d)[i],
            ) by {
            if i >= prev.len() {
                assert(captures_upto(b, start, c, d)[i] == ray[i - prev.len()]);
            } else {
                assert(captures_upto(b, start, c, d)[i] == prev[i]);
            }
        }
    }
}

/// A legal movement fits on its board and within `MAX_ENTRIES`.
pub proof fn lemma_movement_fits(b: BoardState, loc: Loc, c: Cell)
    requires
        b.shaped(),
    ensures
        movement_spec(b, loc, c).len() <= MAX_ENTRIES,
        b.fits(movement_spec(b, loc, c)),
{
    let m = movement_spec(b, loc, c);
    if b.contains_loc(loc) {
        lemma_captures_fit(b, loc, c, 8);
        if m.len() > 0 {
            let caps = captures(b, loc, c);
            assert forall|i: int| 0 <= i < m.len() implies b.contains_loc(#[trigger] m[i].loc) by {
                if i > 0 {
                    assert(m[i].loc == caps[i - 1]);
                }
            }
        }
    }
}

/// The empty cell captures nothing along any direction.
proof fn lemma_empty_captures(b: BoardState, start: Loc, d: int)
    ensures
        captures_upto(b, start, Cell::Empty, d).len() == 0,
    decreases d,
{
    if d > 0 {
        lemma_empty_captures(b, start, d - 1);
    }
}

/// The empty cell is no player: it never has a move.
pub proof fn lemma_no_empty_moves(b: BoardState)
    ensures
        !has_move(b, Cell::Empty),
{
    assert forall|loc: Loc| #[trigger] movement_spec(b, loc, Cell::Empty).len() == 0 by {
        lemma_empty_captures(b, loc, 8);
    }
}

/// A ray captures something exactly when it brackets a non-empty run.
proof fn lemma_ray_nonempty(b: BoardState, start: Loc, dx: int, dy: int, c: Cell)
    ensures
        ray_captures(b, start, dx, dy, c).len() > 0 <==> exists|n: int|
            1 <= n && #[trigger] brackets(b, start, dx, dy, c, n),
{
    if exists|n: int| 1 <= n && #[trigger] brackets(b, start, dx, dy, c, n) {
        let n = choose|n: int| 1 <= n && #[trigger] brackets(b, start, dx, dy, c, n);
        let n0 = choose|n: int| brackets(b, start, dx, dy, c, n);
        lemma_brackets_unique(b, start, dx, dy, c, n, n0);
    }
}

/// The first `d` directions capture something exactly when one of them
/// brackets a non-empty run.
proof fn lemma_captures_nonempty(b: BoardState, start: Loc, c: Cell, d: int)
    requires
        0 <= d <= 8,
    ensures
        captures_upto(b, start, c, d).len() > 0 <==> exists|i: int, n: int|
            0 <= i < d && 1 <= n && #[trigger] brackets(
                b,
                start,
                compass(i).0,
                compass(i).1,
                c,
                n,
            ),
    decreases d,
{
    if d > 0 {
        lemma_captures_nonempty(b, start, c, d - 1);
        lemma_ray_nonempty(b, start, compass(d - 1).0, compass(d - 1).1, c);
        if exists|i: int, n: int|
            0 <= i < d && 1 <= n && #[trigger] brackets(
                b,
                start,
                compass(i).0,
                compass(i).1,
                c,
                n,
            ) {
            let (i, n) = choose|i: int, n: int|
                0 <= i < d && 1 <= n && #[trigger] brackets(
                    b,
                    start,
                    compass(i).0,
                    compass(i).1,
                    c,
                    n,
                );
            if i < d - 1 {
                assert(captures_upto(b, start, c, d - 1).len() > 0);
            }
        }
    }
}

/// A placement of a player's cell on the board is legal exactly when the
/// cell is empty and at least one of the eight directions from it brackets
/// a non-empty run of the opponent's cells with the player's own.
pub proof fn lemma_legal_iff_bracketed(b: BoardState, loc: Loc, c: Cell)
    requires
        b.contains_loc(loc),
        c == Cell::White || c == Cell::Black,
    ensures
        movement_spec(b, loc, c).len() > 0 <==> (b.at(loc) == Cell::Empty && exists|i: int, n: int|
            0 <= i < 8 && 1 <= n && #[trigger] brackets(
                b,
                loc,
                compass(i).0,
                compass(i).1,
                c,
                n,
            )),
{
    lemma_captures_nonempty(b, loc, c, 8);
}

/// The direction scanned at position `i`.
fn compass_step(i: usize) -> (r: (isize, isize))
    requires
        i < 8,
    ensures
        r.0 as int == compass(i as int).0,
        r.1 as int == compass(i as int).1,
{
    match i {
        0 => (-1, -1),
        1 => (-1, 0),
        2 => (-1, 1),
        3 => (0, -1),
        4 => (0, 1),
        5 => (1, -1),
        6 => (1, 0),
        _ => (1, 1),
    }
}

/// Contains a move, which is a vec of cell changes to be
/// made to execute the move. The move may be invalid,
/// if it contains no changes to make.
#[derive(Clone)]
pub struct Movement {
    flips: Vec<CellChange>,
}

impl View for Movement {
    type V = Seq<CellChange>;

    closed spec fn view(&self) -> Seq<CellChange> {
        self.flips@
    }
}

impl Default for Movement {
    /// The invalid movement, which has nothing to play.
    fn default() -> (r: Movement)
        ensures
            r@.len() == 0,
    {
        Movement { flips: Vec::new() }
    }
}

impl Movement {
    /// Constructs a movement for a location on the board; the move may be
    /// invalid, if the location is not empty or would flip no other cells.
    pub fn new(board: &Board, loc: Loc, cell: Cell) -> (r: Movement)
        requires
            board@.shaped(),
        ensures
            r@ == movement_spec(board@, loc, cell),
            r@.len() <= MAX_ENTRIES,
    {
        proof {
            lemma_movement_fits(board@, loc, cell);
        }
        if loc.x < board.get_width() && loc.y < board.get_height() && board.cell_at(loc)
            == Cell::Empty {
            let caps = Movement::find_flippable_around(board, loc, cell);
            let mut flips: Vec<CellChange> = Vec::new();
            if caps.len() > 0 {
                let ghost head = seq![CellChange { cell, loc }];
                let ghost all = caps@.map_values(|l: Loc| CellChange { cell, loc: l });
                flips.push(CellChange::new(cell, loc));
                let mut i: usize = 0;
                while i < caps.len()
                    invariant
                        i <= caps.len(),
                        all == caps@.map_values(|l: Loc| CellChange { cell, loc: l }),
                        flips@ == head + all.take(i as int),
                    decreases caps.len() - i,
                {
                    flips.push(CellChange::new(cell, caps[i]));
                    i += 1;
                    assert(all.take(i as int) =~= all.take(i - 1).push(all[i - 1]));
                }
                assert(all.take(i as int) =~= all);
            }
            Movement { flips }
        } else {
            Movement { flips: Vec::new() }
        }
    }

    /// True if this is a valid, move false if not.
    pub fn is_valid(&self) -> (r: bool)
        ensures
            r == (self@.len() > 0),
    {
        self.flips.len() > 0
    }

    /// Plays a move; it flips the cells indicated by the move. If this move
    /// is invalid, this method does nothing. It removes the flip that it
    /// performs, so that the movement may become invalid.
    ///
    /// This returns true if it flips something, false if was invalid.
    pub fn play_one(&mut self, board: &mut Board) -> (r: bool)
        requires
            old(board).wf(),
            old(self)@.len() > 0 ==> old(board)@.contains_loc(old(self)@[0].loc),
        ensures
            final(board).wf(),
            r == (old(self)@.len() > 0),
            r ==> final(self)@ == old(self)@.drop_first() && final(board)@ == old(board)@.applied(
                old(self)@[0],
            ),
            !r ==> final(self)@ == old(self)@ && final(board)@ == old(board)@,
    {
        if self.flips.len() == 0 {
            false
        } else {
            board.apply_change(self.flips[0]);
            let mut rest: Vec<CellChange> = Vec::new();
            let mut i: usize = 1;
            while i < self.flips.len()
                invariant
                    1 <= i <= self.flips.len(),
                    rest@ == self.flips@.subrange(1, i as int),
                decreases self.flips.len() - i,
            {
                rest.push(self.flips[i]);
                i += 1;
                assert(rest@ =~= self.flips@.subrange(1, i as int));
            }
            self.flips = rest;
            assert(self.flips@ =~= old(self)@.drop_first());
            true
        }
    }

    /// Plays every remaining entry, one after another, leaving the movement
    /// invalid.
    pub fn play_all(&mut self, board: &mut Board)
        requires
            old(board).wf(),
            old(board)@.fits(old(self)@),
        ensures
            final(board).wf(),
            final(self)@.len() == 0,
            final(board)@ == old(board)@.applied_all(old(self)@),
    {
        while self.is_valid()
            invariant
                board.wf(),
                board@.fits(self@),
                board@.applied_all(self@) == old(board)@.applied_all(old(self)@),
            decreases self@.len(),
        {
            let ghost before = self@;
            self.play_one(board);
            assert(board@.fits(self@)) by {
                assert forall|i: int| 0 <= i < self@.len() implies board@.contains_loc(
                    #[trigger] self@[i].loc,
                ) by {
                    assert(self@[i] == before[i + 1]);
                }
            }
        }
    }

    /// Every entry writes a cell of 'board'.
    pub(crate) fn fits_on(&self, board: &Board) -> (r: bool)
        ensures
            r == board@.fits(self@),
    {
        let mut i: usize = 0;
        while i < self.flips.len()
            invariant
                i <= self.flips.len(),
                forall|j: int| 0 <= j < i ==> board@.contains_loc(#[trigger] self@[j].loc),
            decreases self.flips.len() - i,
        {
            let loc = self.flips[i].loc;
            if loc.x >= board.get_width() || loc.y >= board.get_height() {
                return false;
            }
            i += 1;
        }
        true
    }

    /// Returns a score for this move; moves with higher scores
    /// are preferred. This returns 0 for invalid moves.
    pub fn get_score(&self, board: &Board) -> (r: usize)
        requires
            board@.shaped(),
            self@.len() <= MAX_ENTRIES,
        ensures
            r as int == score_of(board@, self@),
    {
        if self.is_valid() {
            let mut score = self.flips.len() - 1 + 100;
            let loc = self.flips[0].loc;
            let x_edge = loc.x == 0 || loc.x == board.get_width() - 1;
            let y_edge = loc.y == 0 || loc.y == board.get_height() - 1;
            if x_edge && y_edge {
                score += 100;
            } else if x_edge || y_edge {
                score -= 100;
            }
            score
        } else {
            0
        }
    }

    /// Returns all locations on the board that would be flipped by placing
    /// 'cell' at 'start'. If the location indicated is not empty this returns
    /// an empty vector.
    fn find_flippable_around(board: &Board, start: Loc, cell: Cell) -> (r: Vec<Loc>)
        requires
            board@.shaped(),
            board@.contains_loc(start),
        ensures
            r@ == if board@.at(start) == Cell::Empty {
                captures(board@, start, cell)
            } else {
                Seq::empty()
            },
    {
        let mut found: Vec<Loc> = Vec::new();
        if board.cell_at(start) != Cell::Empty {
            return found;
        }
        let mut i: usize = 0;
        while i < 8
            invariant
                i <= 8,
                board@.shaped(),
                board@.contains_loc(start),
                found@ == captures_upto(board@, start, cell, i as int),
            decreases 8 - i,
        {
            let (dx, dy) = compass_step(i);
            let mut ray = Movement::find_flippable(board, cell, start, dx, dy);
            found.append(&mut ray);
            i += 1;
        }
        found
    }

    /// Finds the cells holding the opponent of 'cell' after 'start' (not
    /// including 'start'!) in the direction (dx, dy), up to a cell holding
    /// 'cell'. If the run is not closed by such a cell, this returns an
    /// empty vector.
    fn find_flippable(board: &Board, cell: Cell, start: Loc, dx: isize, dy: isize) -> (r: Vec<
        Loc,
    >)
        requires
            board@.shaped(),
            board@.contains_loc(start),
            -1 <= dx <= 1,
            -1 <= dy <= 1,
            dx != 0 || dy != 0,
        ensures
            r@ == ray_captures(board@, start, dx as int, dy as int, cell),
    {
        let ghost b = board@;
        let ghost (ddx, ddy) = (dx as int, dy as int);
        let mut run: Vec<Loc> = Vec::new();
        if cell == Cell::Empty {
            return run;
        }
        let mut cur = start;
        let ghost mut k: int = 0;
        assert(ray_x(start, ddx, 0) == start.x && ray_y(start, ddy, 0) == start.y);
        loop
            invariant
                b == board@,
                b.shaped(),
                b.contains_loc(start),
                -1 <= dx <= 1,
                -1 <= dy <= 1,
                dx != 0 || dy != 0,
                ddx == dx,
                ddy == dy,
                cell != Cell::Empty,
                0 <= k < MAX_SIDE,
                cur.x == ray_x(start, ddx, k),
                cur.y == ray_y(start, ddy, k),
                b.contains(ray_x(start, ddx, k), ray_y(start, ddy, k)),
                run@ == Seq::new(k as nat, |i: int| ray_loc(start, ddx, ddy, i + 1)),
                forall|j: int|
                    1 <= j <= k ==> #[trigger] ray_cell(b, start, ddx, ddy, j) == Some(
                        cell.opponent(),
                    ),
            decreases MAX_SIDE - k,
        {
            proof {
                lemma_unit_step(k, ddx);
                lemma_unit_step(k, ddy);
            }
            match board.offset_within(cur, dx, dy) {
                None => {
                    proof {
                        assert(ray_cell(b, start, ddx, ddy, k + 1) == None::<Cell>);
                        lemma_no_bracket(b, start, ddx, ddy, cell, k);
                    }
                    return Vec::new();
                },
                Some(next) => {
                    let v = board.cell_at(next);
                    assert(ray_cell(b, start, ddx, ddy, k + 1) == Some(v));
                    if v == Cell::Empty {
                        proof {
                            lemma_no_bracket(b, start, ddx, ddy, cell, k);
                        }
                        return Vec::new();
                    } else if v == cell {
                        proof {
                            assert(brackets(b, start, ddx, ddy, cell, k));
                            let n = choose|n: int| brackets(b, start, ddx, ddy, cell, n);
                            lemma_brackets_unique(b, start, ddx, ddy, cell, n, k);
                        }
                        return run;
                    } else {
                        run.push(next);
                        cur = next;
                        proof {
                            lemma_ray_bound(b, start, ddx, ddy, k + 1);
                            assert(run@ =~= Seq::new(
                                (k + 1) as nat,
                                |i: int| ray_loc(start, ddx, ddy, i + 1),
                            ));
                            k = k + 1;
                        }
                    }
                },
            }
        }
    }
}

} // verus!
