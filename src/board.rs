use vstd::prelude::*;

use crate::cell::Cell;
use crate::movement::{
    has_move, lemma_movement_fits, ray_loc, ray_x, ray_y, lemma_no_empty_moves, movement_spec, ranked_moves, ranks_before, score_of, CellChange,
    Movement, MAX_ENTRIES,
};

verus! {

/// The largest number of columns, or of rows, that a board may have.
pub const MAX_SIDE: usize = 32768;

/// Represents a position on the board.
#[derive(Clone, Copy, PartialEq, Eq, Structural, Debug)]
pub struct Loc {
    pub x: usize,
    pub y: usize,
}

/// The location `(loc.x + dx, loc.y + dy)` when it lies in a `width` by
/// `height` grid, and `None` when it does not.
pub open spec fn offset_spec(loc: Loc, dx: int, dy: int, width: int, height: int) -> Option<Loc> {
    let x = loc.x + dx;
    let y = loc.y + dy;
    if 0 <= x < width && 0 <= y < height {
        Some(Loc { x: x as usize, y: y as usize })
    } else {
        None
    }
}

impl Loc {
    /// Creates a new Loc with the given co-ordinates.
    pub fn new(x: usize, y: usize) -> (r: Loc)
        ensures
            r.x == x,
            r.y == y,
    {
        Loc { x, y }
    }

    /// This adds a delta to a location, and returns the new location so long as
    /// it is in the indicated range; if not it returns None. It can have an x
    /// co-ordinate from 0 to width-1, and y can go from 0 to height-1.
    pub fn offset_within(self, dx: isize, dy: isize, width: usize, height: usize) -> (r: Option<
        Loc,
    >)
        ensures
            r == offset_spec(self, dx as int, dy as int, width as int, height as int),
    {
        let x = self.x as i128 + dx as i128;
        let y = self.y as i128 + dy as i128;
        if 0 <= x && x < width as i128 && 0 <= y && y < height as i128 {
            Some(Loc::new(x as usize, y as usize))
        } else {
            None
        }
    }
}

/// The mathematical content of a board: its size and its cells, row by row.
pub ghost struct BoardState {
    pub width: int,
    pub height: int,
    pub cells: Seq<Cell>,
}

/// How many times `c` occurs in `s`.
pub open spec fn count_of(s: Seq<Cell>, c: Cell) -> nat
    decreases s.len(),
{
    if s.len() == 0 {
        0
    } else {
        count_of(s.drop_last(), c) + if s.last() == c {
            1nat
        } else {
            0nat
        }
    }
}

/// The cell at `(x, y)` of a new `width` by `height` board: the four center
/// cells alternate, everything else is empty.
pub open spec fn start_cell(width: int, height: int, x: int, y: int) -> Cell {
    let cx = width / 2;
    let cy = height / 2;
    if (x == cx && y == cy) || (x == cx - 1 && y == cy - 1) {
        Cell::White
    } else if (x == cx && y == cy - 1) || (x == cx - 1 && y == cy) {
        Cell::Black
    } else {
        Cell::Empty
    }
}

impl BoardState {
    pub open spec fn contains(self, x: int, y: int) -> bool {
        0 <= x < self.width && 0 <= y < self.height
    }

    pub open spec fn contains_loc(self, loc: Loc) -> bool {
        self.contains(loc.x as int, loc.y as int)
    }

    /// Position of `(x, y)` in the row-major cell sequence.
    pub open spec fn index_of(self, x: int, y: int) -> int {
        y * self.width + x
    }

    pub open spec fn get(self, x: int, y: int) -> Cell {
        self.cells[self.index_of(x, y)]
    }

    pub open spec fn at(self, loc: Loc) -> Cell {
        self.get(loc.x as int, loc.y as int)
    }

    /// The size is within bounds and the cells fill the grid exactly.
    pub open spec fn shaped(self) -> bool {
        &&& 1 <= self.width <= MAX_SIDE
        &&& 1 <= self.height <= MAX_SIDE
        &&& self.cells.len() == self.width * self.height
    }

    pub open spec fn count(self, c: Cell) -> nat {
        count_of(self.cells, c)
    }

    /// The board after writing one cell.
    pub open spec fn applied(self, ch: CellChange) -> BoardState {
        BoardState {
            width: self.width,
            height: self.height,
            cells: self.cells.update(self.index_of(ch.loc.x as int, ch.loc.y as int), ch.cell),
        }
    }

    /// The board after writing each change in turn.
    pub open spec fn applied_all(self, chs: Seq<CellChange>) -> BoardState
        decreases chs.len(),
    {
        if chs.len() == 0 {
            self
        } else {
            self.applied(chs[0]).applied_all(chs.drop_first())
        }
    }

    /// Every change writes a cell of this board.
    pub open spec fn fits(self, chs: Seq<CellChange>) -> bool {
        forall|i: int| 0 <= i < chs.len() ==> self.contains_loc(#[trigger] chs[i].loc)
    }

    /// Neither player has a legal move.
    pub open spec fn is_terminal(self) -> bool {
        !has_move(self, Cell::White) && !has_move(self, Cell::Black)
    }
}

/// Distinct cells of a grid have distinct row-major positions, all within it.
pub proof fn lemma_index(width: int, height: int, x1: int, y1: int, x2: int, y2: int)
    requires
        0 <= x1 < width,
        0 <= y1 < height,
        0 <= x2 < width,
        0 <= y2 < height,
    ensures
        0 <= y1 * width + x1 < width * height,
        y1 * width + x1 == y2 * width + x2 ==> x1 == x2 && y1 == y2,
{
    assert(0 <= y1 * width + x1 < width * height) by (nonlinear_arith)
        requires
            0 <= x1 < width,
            0 <= y1 < height,
    ;
    if y1 < y2 {
        assert(y1 * width + x1 < y2 * width + x2) by (nonlinear_arith)
            requires
                0 <= x1 < width,
                0 <= x2,
                y1 < y2,
        ;
    } else if y2 < y1 {
        assert(y2 * width + x2 < y1 * width + x1) by (nonlinear_arith)
            requires
                0 <= x2 < width,
                0 <= x1,
                y2 < y1,
        ;
    }
}

/// Replaying a sequence of changes in two parts, the first `k` and then the
/// rest, leaves the same board as replaying it whole.
pub proof fn lemma_applied_split(b: BoardState, chs: Seq<CellChange>, k: int)
    requires
        0 <= k <= chs.len(),
    ensures
        b.applied_all(chs) == b.applied_all(chs.take(k)).applied_all(chs.skip(k)),
    decreases k,
{
    if k > 0 {
        lemma_applied_split(b.applied(chs[0]), chs.drop_first(), k - 1);
        assert(chs.take(k).drop_first() =~= chs.drop_first().take(k - 1));
        assert(chs.drop_first().skip(k - 1) =~= chs.skip(k));
        assert(chs.take(k)[0] == chs[0]);
    } else {
        assert(chs.skip(0) =~= chs);
    }
}

/// Replaying one more change extends a replay by one write.
pub proof fn lemma_applied_push(b: BoardState, chs: Seq<CellChange>, ch: CellChange)
    ensures
        b.applied_all(chs.push(ch)) == b.applied_all(chs).applied(ch),
    decreases chs.len(),
{
    let s = chs.push(ch);
    if chs.len() == 0 {
        assert(s.drop_first() =~= Seq::<CellChange>::empty());
        assert(s[0] == ch);
        assert(b.applied(ch).applied_all(s.drop_first()) == b.applied(ch));
    } else {
        lemma_applied_push(b.applied(chs[0]), chs.drop_first(), ch);
        assert(s.drop_first() =~= chs.drop_first().push(ch));
        assert(s[0] == chs[0]);
    }
}

/// The counts of the three kinds of cell add up to the number of cells.
pub proof fn lemma_count_total(s: Seq<Cell>)
    ensures
        count_of(s, Cell::Empty) + count_of(s, Cell::White) + count_of(s, Cell::Black) == s.len(),
    decreases s.len(),
{
    if s.len() > 0 {
        lemma_count_total(s.drop_last());
    }
}

/// Every cell of a well-formed board is counted once: the counts of empty,
/// white and black cells add up to width times height.
pub proof fn lemma_counts_cover_board(b: BoardState)
    requires
        b.shaped(),
    ensures
        b.count(Cell::Empty) + b.count(Cell::White) + b.count(Cell::Black) == b.width * b.height,
{
    lemma_count_total(b.cells);
}

/// Offsetting an in-range location by a delta and then by the inverse delta
/// returns the location when the first offset stays in range; when the
/// first offset would leave the grid it gives no location, whatever the
/// inverse would give.
pub proof fn lemma_offset_round_trip(loc: Loc, dx: int, dy: int, width: usize, height: usize)
    requires
        loc.x < width,
        loc.y < height,
    ensures
        offset_spec(loc, dx, dy, width as int, height as int) matches Some(m) ==> offset_spec(
            m,
            -dx,
            -dy,
            width as int,
            height as int,
        ) == Some(loc),
        !(0 <= loc.x + dx < width && 0 <= loc.y + dy < height) ==> offset_spec(
            loc,
            dx,
            dy,
            width as int,
            height as int,
        ) is None,
{
}

/// Playing a movement one entry at a time, in order, passes through the
/// boards of its prefixes: after `k` entries the board is that of the first
/// `k`, what is left is the rest, and playing the rest from there ends on
/// the board that playing the movement whole gives.
pub proof fn lemma_play_in_steps(b: BoardState, chs: Seq<CellChange>, k: int)
    requires
        0 <= k < chs.len(),
    ensures
        b.applied_all(chs.take(k)).applied(chs[k]) == b.applied_all(chs.take(k + 1)),
        chs.skip(k).drop_first() == chs.skip(k + 1),
        b.applied_all(chs.take(k)).applied_all(chs.skip(k)) == b.applied_all(chs),
        b.applied_all(chs.take(chs.len() as int)) == b.applied_all(chs),
{
    lemma_applied_split(b, chs, k);
    lemma_applied_push(b, chs.take(k), chs[k]);
    assert(chs.take(k).push(chs[k]) =~= chs.take(k + 1));
    assert(chs.skip(k).drop_first() =~= chs.skip(k + 1));
    assert(chs.take(chs.len() as int) =~= chs);
}

/// A board is terminal exactly when the ranked lists of valid moves of both
/// players are empty.
pub proof fn lemma_terminal_iff_no_moves(
    b: BoardState,
    whites: Seq<Seq<CellChange>>,
    blacks: Seq<Seq<CellChange>>,
)
    requires
        ranked_moves(b, Cell::White, whites),
        ranked_moves(b, Cell::Black, blacks),
    ensures
        b.is_terminal() <==> (whites.len() == 0 && blacks.len() == 0),
{
    lemma_ranked_empty(b, Cell::White, whites);
    lemma_ranked_empty(b, Cell::Black, blacks);
}

/// Two points of one ray on the board, one step and `k` steps from its
/// start, are fewer than `MAX_SIDE` steps apart.
proof fn lemma_ray_span(b: BoardState, start: Loc, dx: int, dy: int, k: int)
    requires
        b.shaped(),
        dx != 0 || dy != 0,
        1 <= k,
        b.contains(ray_x(start, dx, 1), ray_y(start, dy, 1)),
        b.contains(ray_x(start, dx, k), ray_y(start, dy, k)),
    ensures
        k - 1 < MAX_SIDE,
{
    let j = k - 1;
    assert(ray_x(start, dx, k) - ray_x(start, dx, 1) == j * dx) by (nonlinear_arith)
        requires
            j == k - 1,
            ray_x(start, dx, k) == start.x + k * dx,
            ray_x(start, dx, 1) == start.x + 1 * dx,
    ;
    assert(ray_y(start, dy, k) - ray_y(start, dy, 1) == j * dy) by (nonlinear_arith)
        requires
            j == k - 1,
            ray_y(start, dy, k) == start.y + k * dy,
            ray_y(start, dy, 1) == start.y + 1 * dy,
    ;
    if dx != 0 {
        assert(j <= j * dx || j <= -(j * dx)) by (nonlinear_arith)
            requires
                dx != 0,
                j >= 0,
        ;
    } else {
        assert(j <= j * dy || j <= -(j * dy)) by (nonlinear_arith)
            requires
                dy != 0,
                j >= 0,
        ;
    }
}

/// Holds the state of play; the board is essentially a two dimensional
/// array of cells, but also caches some values used for scoring.
pub struct Board {
    width: usize,
    height: usize,
    cells: Vec<Cell>,
    empty_count: usize,
    white_count: usize,
    black_count: usize,
    game_over: bool,
}

impl View for Board {
    type V = BoardState;

    closed spec fn view(&self) -> BoardState {
        BoardState { width: self.width as int, height: self.height as int, cells: self.cells@ }
    }
}

/// Position of `(x, y)` in the row-major cells of a `width` by `height` grid.
fn cell_index(width: usize, height: usize, x: usize, y: usize) -> (r: usize)
    requires
        x < width <= MAX_SIDE,
        y < height <= MAX_SIDE,
    ensures
        r as int == y * width + x,
        r < width * height,
{
    proof {
        lemma_index(width as int, height as int, x as int, y as int, x as int, y as int);
        assert(width * height <= MAX_SIDE * MAX_SIDE) by (nonlinear_arith)
            requires
                width <= MAX_SIDE,
                height <= MAX_SIDE,
        ;
    }
    y * width + x
}

impl Board {
    /// The cached counts and game-over flag agree with the cells.
    pub closed spec fn caches_fresh(&self) -> bool {
        &&& self.empty_count == self@.count(Cell::Empty)
        &&& self.white_count == self@.count(Cell::White)
        &&& self.black_count == self@.count(Cell::Black)
        &&& self.game_over == self@.is_terminal()
    }

    pub open spec fn wf(&self) -> bool {
        self@.shaped() && self.caches_fresh()
    }

    /// Creates a new board with the usual pattern of initial
    /// cells- mostly empty.
    pub fn new(width: usize, height: usize) -> (r: Board)
        requires
            2 <= width <= MAX_SIDE,
            2 <= height <= MAX_SIDE,
        ensures
            r.wf(),
            r@.width == width,
            r@.height == height,
            forall|x: int, y: int|
                r@.contains(x, y) ==> #[trigger] r@.get(x, y) == start_cell(
                    width as int,
                    height as int,
                    x,
                    y,
                ),
    {
        assert(width * height <= MAX_SIDE * MAX_SIDE) by (nonlinear_arith)
            requires
                width <= MAX_SIDE,
                height <= MAX_SIDE,
        ;
        let n = width * height;
        let mut cells: Vec<Cell> = Vec::new();
        while cells.len() < n
            invariant
                cells.len() <= n,
                forall|i: int| 0 <= i < cells.len() ==> cells@[i] == Cell::Empty,
            decreases n - cells.len(),
        {
            cells.push(Cell::Empty);
        }
        let cx = width / 2;
        let cy = height / 2;
        let i0 = cell_index(width, height, cx, cy);
        let i1 = cell_index(width, height, cx - 1, cy - 1);
        let i2 = cell_index(width, height, cx, cy - 1);
        let i3 = cell_index(width, height, cx - 1, cy);
        cells[i0] = Cell::White;
        cells[i1] = Cell::White;
        cells[i2] = Cell::Black;
        cells[i3] = Cell::Black;
        let mut board = Board {
            width,
            height,
            cells,
            empty_count: 0,
            white_count: 0,
            black_count: 0,
            game_over: false,
        };
        assert forall|x: int, y: int| board@.contains(x, y) implies #[trigger] board@.get(x, y)
            == start_cell(width as int, height as int, x, y) by {
            let (w, h) = (width as int, height as int);
            lemma_index(w, h, x, y, cx as int, cy as int);
            lemma_index(w, h, x, y, cx - 1, cy - 1);
            lemma_index(w, h, x, y, cx as int, cy - 1);
            lemma_index(w, h, x, y, cx - 1, cy as int);
        }
        board.update_board_info();
        board
    }

    /// The width of the board.
    pub fn get_width(&self) -> (r: usize)
        ensures
            r == self@.width,
    {
        self.width
    }

    /// The height of the board.
    pub fn get_height(&self) -> (r: usize)
        ensures
            r == self@.height,
    {
        self.height
    }

    /// The center location in the board.
    pub fn get_board_center(&self) -> (r: Loc)
        ensures
            r.x == self@.width / 2,
            r.y == self@.height / 2,
    {
        Loc::new(self.width / 2, self.height / 2)
    }

    /// This adds a delta to a location, and returns the new location so long as
    /// it is in the board; if not it returns None.
    pub fn offset_within(&self, loc: Loc, dx: isize, dy: isize) -> (r: Option<Loc>)
        ensures
            r == offset_spec(loc, dx as int, dy as int, self@.width, self@.height),
    {
        loc.offset_within(dx, dy, self.width, self.height)
    }

    /// Returns all the locations that are in the board, row by row.
    pub fn locations(&self) -> (r: Vec<Loc>)
        requires
            self@.shaped(),
        ensures
            r@.len() == self@.width * self@.height,
            forall|i: int|
                0 <= i < r@.len() ==> (#[trigger] r@[i]).x == i % self@.width && r@[i].y == i
                    / self@.width,
    {
        let width = self.get_width();
        let height = self.get_height();
        let ghost w = width as int;
        let mut r: Vec<Loc> = Vec::new();
        let mut y: usize = 0;
        while y < height
            invariant
                w == self@.width,
                width == w,
                height == self@.height,
                self@.shaped(),
                y <= height,
                r@.len() == y * w,
                forall|i: int|
                    0 <= i < r@.len() ==> (#[trigger] r@[i]).x == i % w && r@[i].y == i / w,
            decreases height - y,
        {
            let mut x: usize = 0;
            while x < width
                invariant
                    w == self@.width,
                    width == w,
                    height == self@.height,
                    self@.shaped(),
                    y < height,
                    x <= width,
                    r@.len() == y * w + x,
                    forall|i: int|
                        0 <= i < r@.len() ==> (#[trigger] r@[i]).x == i % w && r@[i].y == i / w,
                decreases width - x,
            {
                proof {
                    vstd::arithmetic::div_mod::lemma_fundamental_div_mod_converse(
                        y * w + x,
                        w,
                        y as int,
                        x as int,
                    );
                }
                r.push(Loc::new(x, y));
                assert(r@[y * w + x].x == (y * w + x) % w && r@[y * w + x].y == (y * w + x) / w);
                x += 1;
            }
            assert(y * w + w == (y + 1) * w) by (nonlinear_arith);
            y += 1;
        }
        assert(height * w == w * height) by (nonlinear_arith);
        r
    }

    /// Returns the locations starting from 'start' and stepping by
    /// (dx, dy), up to the last one before the edge of the board.
    pub fn cells_from(&self, start: Loc, dx: isize, dy: isize) -> (r: Vec<Loc>)
        requires
            self@.shaped(),
            dx != 0 || dy != 0,
        ensures
            r@.len() >= 1,
            r@[0] == start,
            forall|k: int|
                1 <= k < r@.len() ==> #[trigger] r@[k] == ray_loc(start, dx as int, dy as int, k)
                    && self@.contains(ray_x(start, dx as int, k), ray_y(start, dy as int, k)),
            !self@.contains(
                ray_x(start, dx as int, r@.len() as int),
                ray_y(start, dy as int, r@.len() as int),
            ),
    {
        let ghost (ddx, ddy) = (dx as int, dy as int);
        let mut r: Vec<Loc> = Vec::new();
        r.push(start);
        let mut cur = start;
        assert(ray_x(start, ddx, 0) == start.x && ray_y(start, ddy, 0) == start.y);
        loop
            invariant
                self@.shaped(),
                dx != 0 || dy != 0,
                ddx == dx,
                ddy == dy,
                1 <= r@.len() <= MAX_SIDE + 1,
                r@[0] == start,
                cur.x == ray_x(start, ddx, r@.len() - 1),
                cur.y == ray_y(start, ddy, r@.len() - 1),
                forall|k: int|
                    1 <= k < r@.len() ==> #[trigger] r@[k] == ray_loc(start, ddx, ddy, k)
                        && self@.contains(ray_x(start, ddx, k), ray_y(start, ddy, k)),
            ensures
                r@.len() >= 1,
                r@[0] == start,
                forall|k: int|
                    1 <= k < r@.len() ==> #[trigger] r@[k] == ray_loc(start, ddx, ddy, k)
                        && self@.contains(ray_x(start, ddx, k), ray_y(start, ddy, k)),
                !self@.contains(
                    ray_x(start, ddx, r@.len() as int),
                    ray_y(start, ddy, r@.len() as int),
                ),
            decreases MAX_SIDE + 1 - r@.len(),
        {
            let ghost k = r@.len() as int;
            assert(k * ddx == (k - 1) * ddx + ddx) by (nonlinear_arith);
            assert(k * ddy == (k - 1) * ddy + ddy) by (nonlinear_arith);
            match self.offset_within(cur, dx, dy) {
                None => {
                    break ;
                },
                Some(next) => {
                    assert(next.x == ray_x(start, ddx, k) && next.y == ray_y(start, ddy, k));
                    assert(self@.contains(ray_x(start, ddx, k), ray_y(start, ddy, k)));
                    proof {
                        if k >= 2 {
                            assert(r@[1] == ray_loc(start, ddx, ddy, 1));
                            lemma_ray_span(self@, start, ddx, ddy, k);
                        }
                    }
                    r.push(next);
                    cur = next;
                    assert(r@[k] == ray_loc(start, ddx, ddy, k));
                },
            }
        }
        r
    }

    /// True if the game is over and no moves can be made.
    pub fn is_game_over(&self) -> (r: bool)
        requires
            self.wf(),
        ensures
            r == self@.is_terminal(),
    {
        self.game_over
    }

    /// This counts the number of board cells whose value is 'cell'.
    pub fn count_cells(&self, cell: Cell) -> (r: usize)
        requires
            self.wf(),
        ensures
            r == self@.count(cell),
    {
        match cell {
            Cell::Empty => self.empty_count,
            Cell::White => self.white_count,
            Cell::Black => self.black_count,
        }
    }

    /// The cell at a location of the board.
    pub fn cell_at(&self, loc: Loc) -> (r: Cell)
        requires
            self@.shaped(),
            self@.contains_loc(loc),
        ensures
            r == self@.at(loc),
    {
        let idx = cell_index(self.width, self.height, loc.x, loc.y);
        self.cells[idx]
    }

    /// Applies a cell change to the board and returns true if any
    /// changes were made. If so, it also updates the board info.
    pub fn apply_change(&mut self, change: CellChange) -> (r: bool)
        requires
            old(self).wf(),
            old(self)@.contains_loc(change.loc),
        ensures
            final(self).wf(),
            final(self)@ == old(self)@.applied(change),
            r == (old(self)@.at(change.loc) != change.cell),
    {
        let idx = cell_index(self.width, self.height, change.loc.x, change.loc.y);
        if self.cells[idx] != change.cell {
            self.cells[idx] = change.cell;
            self.update_board_info();
            true
        } else {
            assert(self.cells@.update(idx as int, change.cell) =~= self.cells@);
            false
        }
    }

    /// Recomputes the cached counts by a scan of the cells, and the game-over
    /// flag from the moves of both players.
    fn update_board_info(&mut self)
        requires
            old(self)@.shaped(),
        ensures
            final(self)@ == old(self)@,
            final(self).wf(),
    {
        let mut empty: usize = 0;
        let mut white: usize = 0;
        let mut black: usize = 0;
        let mut i: usize = 0;
        while i < self.cells.len()
            invariant
                i <= self.cells.len(),
                empty + white + black == i,
                empty == count_of(self.cells@.take(i as int), Cell::Empty),
                white == count_of(self.cells@.take(i as int), Cell::White),
                black == count_of(self.cells@.take(i as int), Cell::Black),
            decreases self.cells.len() - i,
        {
            assert(self.cells@.take(i + 1).drop_last() =~= self.cells@.take(i as int));
            match self.cells[i] {
                Cell::Empty => empty += 1,
                Cell::White => white += 1,
                Cell::Black => black += 1,
            }
            i += 1;
        }
        assert(self.cells@.take(i as int) =~= self.cells@);
        self.empty_count = empty;
        self.white_count = white;
        self.black_count = black;
        let no_white = self.collect_valid_moves(Cell::White).len() == 0;
        let no_black = self.collect_valid_moves(Cell::Black).len() == 0;
        self.game_over = no_white && no_black;
    }
}

} // verus!

verus! {

/// `l` comes before column `x` of row `y` in a scan of the board.
spec fn processed(l: Loc, y: int, x: int) -> bool {
    l.y < y || (l.y == y && l.x < x)
}

/// `ms` ranks the legal moves of `c` at the locations scanned before
/// column `x` of row `y`.
spec fn ranked_prefix(b: BoardState, c: Cell, ms: Seq<Seq<CellChange>>, y: int, x: int) -> bool {
    &&& forall|i: int|
        0 <= i < ms.len() ==> {
            &&& (#[trigger] ms[i]).len() > 0
            &&& b.contains_loc(ms[i][0].loc)
            &&& ms[i] == movement_spec(b, ms[i][0].loc, c)
            &&& processed(ms[i][0].loc, y, x)
        }
    &&& forall|loc: Loc|
        b.contains_loc(loc) && processed(loc, y, x) && #[trigger] movement_spec(b, loc, c).len()
            > 0 ==> exists|i: int| 0 <= i < ms.len() && (#[trigger] ms[i])[0].loc == loc
    &&& forall|i: int, j: int|
        0 <= i < j < ms.len() ==> ranks_before(b, #[trigger] ms[i], #[trigger] ms[j])
}

proof fn lemma_prefix_skip(b: BoardState, c: Cell, ms: Seq<Seq<CellChange>>, loc: Loc)
    requires
        ranked_prefix(b, c, ms, loc.y as int, loc.x as int),
        movement_spec(b, loc, c).len() == 0,
    ensures
        ranked_prefix(b, c, ms, loc.y as int, loc.x + 1),
{
    let (y, x) = (loc.y as int, loc.x as int);
    assert forall|l: Loc|
        b.contains_loc(l) && processed(l, y, x + 1) && #[trigger] movement_spec(b, l, c).len()
            > 0 implies exists|i: int| 0 <= i < ms.len() && (#[trigger] ms[i])[0].loc == l by {
        assert(l != loc);
        assert(processed(l, y, x));
    }
}

proof fn lemma_insert_ordered(
    b: BoardState,
    c: Cell,
    ms: Seq<Seq<CellChange>>,
    loc: Loc,
    p: int,
    m: Seq<CellChange>,
)
    requires
        ranked_prefix(b, c, ms, loc.y as int, loc.x as int),
        m.len() > 0,
        m[0].loc == loc,
        0 <= p <= ms.len(),
        forall|q: int| 0 <= q < p ==> score_of(b, #[trigger] ms[q]) >= score_of(b, m),
        p < ms.len() ==> score_of(b, ms[p]) < score_of(b, m),
    ensures
        forall|i: int, j: int|
            0 <= i < j < ms.insert(p, m).len() ==> ranks_before(
                b,
                #[trigger] ms.insert(p, m)[i],
                #[trigger] ms.insert(p, m)[j],
            ),
{
    let (y, x) = (loc.y as int, loc.x as int);
    let ns = ms.insert(p, m);
    ms.insert_ensures(p, m);
    assert forall|i: int, j: int| 0 <= i < j < ns.len() implies ranks_before(
        b,
        #[trigger] ns[i],
        #[trigger] ns[j],
    ) by {
        if j < p {
            assert(ns[i] == ms[i] && ns[j] == ms[j]);
            assert(ranks_before(b, ms[i], ms[j]));
        } else if j == p {
            assert(ns[i] == ms[i]);
            assert(processed(ms[i][0].loc, y, x));
            assert(score_of(b, ms[i]) >= score_of(b, m));
        } else if i == p {
            assert(ns[j] == ms[j - 1]);
            if j - 1 > p {
                assert(ranks_before(b, ms[p], ms[j - 1]));
            }
        } else if i < p {
            assert(ns[i] == ms[i] && ns[j] == ms[j - 1]);
            assert(ranks_before(b, ms[i], ms[j - 1]));
        } else {
            assert(ns[i] == ms[i - 1] && ns[j] == ms[j - 1]);
            assert(ranks_before(b, ms[i - 1], ms[j - 1]));
        }
    }
}

proof fn lemma_prefix_insert(
    b: BoardState,
    c: Cell,
    ms: Seq<Seq<CellChange>>,
    loc: Loc,
    p: int,
    m: Seq<CellChange>,
)
    requires
        b.contains_loc(loc),
        ranked_prefix(b, c, ms, loc.y as int, loc.x as int),
        m == movement_spec(b, loc, c),
        m.len() > 0,
        0 <= p <= ms.len(),
        forall|q: int| 0 <= q < p ==> score_of(b, #[trigger] ms[q]) >= score_of(b, m),
        p < ms.len() ==> score_of(b, ms[p]) < score_of(b, m),
    ensures
        ranked_prefix(b, c, ms.insert(p, m), loc.y as int, loc.x + 1),
{
    let (y, x) = (loc.y as int, loc.x as int);
    let ns = ms.insert(p, m);
    ms.insert_ensures(p, m);
    assert(m[0].loc == loc);
    lemma_insert_ordered(b, c, ms, loc, p, m);
    assert forall|i: int| 0 <= i < ns.len() implies {
        &&& (#[trigger] ns[i]).len() > 0
        &&& b.contains_loc(ns[i][0].loc)
        &&& ns[i] == movement_spec(b, ns[i][0].loc, c)
        &&& processed(ns[i][0].loc, y, x + 1)
    } by {
        if i < p {
            assert(ns[i] == ms[i]);
        } else if i > p {
            assert(ns[i] == ms[i - 1]);
        }
    }
    assert forall|l: Loc|
        b.contains_loc(l) && processed(l, y, x + 1) && #[trigger] movement_spec(b, l, c).len()
            > 0 implies exists|i: int| 0 <= i < ns.len() && (#[trigger] ns[i])[0].loc == l by {
        if l == loc {
            assert(ns[p][0].loc == l);
        } else {
            assert(processed(l, y, x));
            let i = choose|i: int| 0 <= i < ms.len() && (#[trigger] ms[i])[0].loc == l;
            if i < p {
                assert(ns[i] == ms[i]);
            } else {
                assert(ns[i + 1] == ms[i]);
            }
        }
    }
}

proof fn lemma_prefix_row_done(b: BoardState, c: Cell, ms: Seq<Seq<CellChange>>, y: int)
    requires
        ranked_prefix(b, c, ms, y, b.width),
    ensures
        ranked_prefix(b, c, ms, y + 1, 0),
{
    assert forall|l: Loc|
        b.contains_loc(l) && processed(l, y + 1, 0) && #[trigger] movement_spec(b, l, c).len()
            > 0 implies exists|i: int| 0 <= i < ms.len() && (#[trigger] ms[i])[0].loc == l by {
        assert(processed(l, y, b.width));
    }
}

/// A ranked list is empty exactly when the player has no legal move.
proof fn lemma_ranked_empty(b: BoardState, c: Cell, ms: Seq<Seq<CellChange>>)
    requires
        ranked_moves(b, c, ms),
    ensures
        ms.len() == 0 <==> !has_move(b, c),
{
    if ms.len() > 0 {
        assert(movement_spec(b, ms[0][0].loc, c).len() > 0);
    }
}

impl Board {
    /// Every legal move of 'cell', best first, whatever the cached flag says.
    fn collect_valid_moves(&self, cell: Cell) -> (r: Vec<Movement>)
        requires
            self@.shaped(),
        ensures
            ranked_moves(self@, cell, r@.map_values(|m: Movement| m@)),
            r@.len() == 0 <==> !has_move(self@, cell),
    {
        let ghost b = self@;
        let mut valid: Vec<Movement> = Vec::new();
        let ghost mut ms: Seq<Seq<CellChange>> = Seq::empty();
        assert(ms =~= valid@.map_values(|m: Movement| m@));
        let mut y: usize = 0;
        while y < self.height
            invariant
                b == self@,
                b.shaped(),
                y <= b.height,
                ms == valid@.map_values(|m: Movement| m@),
                ranked_prefix(b, cell, ms, y as int, 0),
            decreases b.height - y,
        {
            let mut x: usize = 0;
            while x < self.width
                invariant
                    b == self@,
                    b.shaped(),
                    y < b.height,
                    x <= b.width,
                    ms == valid@.map_values(|m: Movement| m@),
                    ranked_prefix(b, cell, ms, y as int, x as int),
                decreases b.width - x,
            {
                let loc = Loc::new(x, y);
                let mv = Movement::new(self, loc, cell);
                if mv.is_valid() {
                    let s = mv.get_score(self);
                    let ghost m = mv@;
                    proof {
                        assert forall|q: int| 0 <= q < valid@.len() implies (
                        #[trigger] valid@[q])@.len() <= MAX_ENTRIES by {
                            assert(ms[q] == valid@[q]@);
                            lemma_movement_fits(b, ms[q][0].loc, cell);
                        }
                    }
                    let mut p: usize = 0;
                    while p < valid.len() && valid[p].get_score(self) >= s
                        invariant
                            b == self@,
                            b.shaped(),
                            p <= valid.len(),
                            ms == valid@.map_values(|m: Movement| m@),
                            forall|q: int|
                                0 <= q < valid@.len() ==> (#[trigger] valid@[q])@.len()
                                    <= MAX_ENTRIES,
                            s as int == score_of(b, m),
                            forall|q: int| 0 <= q < p ==> score_of(b, #[trigger] ms[q]) >= s,
                        decreases valid.len() - p,
                    {
                        p += 1;
                    }
                    proof {
                        lemma_prefix_insert(b, cell, ms, loc, p as int, m);
                    }
                    valid.insert(p, mv);
                    proof {
                        ms = ms.insert(p as int, m);
                        assert(ms =~= valid@.map_values(|m: Movement| m@));
                    }
                } else {
                    proof {
                        lemma_prefix_skip(b, cell, ms, loc);
                    }
                }
                x += 1;
            }
            proof {
                lemma_prefix_row_done(b, cell, ms, y as int);
            }
            y += 1;
        }
        proof {
            lemma_ranked_empty(b, cell, ms);
        }
        valid
    }

    /// Returns all valid moves for 'cell', each once. They are ordered so
    /// the one with the best score is first, ties in scan order; the AI
    /// chooses this move. Once the game is over there are none.
    pub fn find_valid_moves(&self, cell: Cell) -> (r: Vec<Movement>)
        requires
            self.wf(),
        ensures
            ranked_moves(self@, cell, r@.map_values(|m: Movement| m@)),
            r@.len() == 0 <==> !has_move(self@, cell),
    {
        if !self.game_over {
            self.collect_valid_moves(cell)
        } else {
            let r: Vec<Movement> = Vec::new();
            proof {
                lemma_no_empty_moves(self@);
                assert(r@.map_values(|m: Movement| m@) =~= Seq::<Seq<CellChange>>::empty());
            }
            r
        }
    }
}

} // verus!
