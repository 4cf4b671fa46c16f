use vstd::prelude::*;

use crate::board::{lemma_applied_push, Board, BoardState, Loc};
use crate::cell::Cell;
use crate::movement::{has_move, movement_spec, ranked_moves, ranks_before, CellChange, Movement};

verus! {

/// Milliseconds between two steps of a movement that is played out.
pub const TICK_MS: u64 = 100;

/// The mathematical content of a game.
pub ghost struct GameState {
    pub board: BoardState,
    /// The player to move next.
    pub turn: Cell,
    /// The writes of the movement in flight, still to be played.
    pub pending: Seq<CellChange>,
    /// The clock reading, in milliseconds, at which the next step is due.
    pub next_time: int,
}

/// How many steps are due at `now` when the first is due at `from`: one
/// for each tick boundary `from + k * TICK_MS` that `now` has reached.
pub open spec fn due_steps(from: int, now: int) -> int {
    if now < from {
        0
    } else {
        (now - from) / TICK_MS as int + 1
    }
}

pub open spec fn min_int(a: int, b: int) -> int {
    if a <= b {
        a
    } else {
        b
    }
}

/// The game after a check at clock reading `now`: every due step of the
/// movement in flight is played, and when it runs out the turn passes to
/// the opponent if the opponent has a move.
pub open spec fn after_check(g: GameState, now: int) -> GameState {
    let n = g.pending.len() as int;
    if n == 0 {
        g
    } else {
        let due = due_steps(g.next_time, now);
        let played = min_int(due, n);
        let board = g.board.applied_all(g.pending.take(played));
        let turn = if played == n && has_move(board, g.turn.opponent()) {
            g.turn.opponent()
        } else {
            g.turn
        };
        GameState {
            board,
            turn,
            pending: g.pending.skip(played),
            next_time: g.next_time + TICK_MS * min_int(due, n + 1),
        }
    }
}

/// Whose turn a game reports: nobody's while a movement is in flight.
pub open spec fn reported_turn(g: GameState) -> Cell {
    if g.pending.len() > 0 {
        Cell::Empty
    } else {
        g.turn
    }
}

/// `m` is the movement of `c` that ranks first among its legal moves.
pub open spec fn is_best_move(b: BoardState, c: Cell, m: Seq<CellChange>) -> bool {
    &&& m.len() > 0
    &&& b.contains_loc(m[0].loc)
    &&& m == movement_spec(b, m[0].loc, c)
    &&& forall|loc: Loc|
        b.contains_loc(loc) && loc != m[0].loc && #[trigger] movement_spec(b, loc, c).len() > 0
            ==> ranks_before(b, m, movement_spec(b, loc, c))
}

/// Steps due between two tick boundaries.
proof fn lemma_due(from: int, now: int, k: int)
    requires
        0 <= k,
        from + TICK_MS * k <= now,
    ensures
        now < from + TICK_MS * (k + 1) ==> due_steps(from, now) == k + 1,
        due_steps(from, now) >= k + 1,
{
    let q = (now - from) / 100;
    vstd::arithmetic::div_mod::lemma_fundamental_div_mod(now - from, 100);
    assert((now - from) == 100 * q + (now - from) % 100);
    if now < from + TICK_MS * (k + 1) {
        vstd::arithmetic::div_mod::lemma_fundamental_div_mod_converse(
            now - from,
            100,
            k,
            now - from - 100 * k,
        );
    }
}

/// Holds the board, whose turn it is, and the movement being played out.
pub struct Game {
    board: Board,
    next_move: Cell,
    ongoing_movement: Movement,
    next_move_time: u64,
}

impl View for Game {
    type V = GameState;

    closed spec fn view(&self) -> GameState {
        GameState {
            board: self.board@,
            turn: self.next_move,
            pending: self.ongoing_movement@,
            next_time: self.next_move_time as int,
        }
    }
}

impl Game {
    /// The board is well formed and the movement in flight writes its cells.
    pub closed spec fn wf(&self) -> bool {
        self.board.wf() && self.board@.fits(self.ongoing_movement@)
    }

    /// Starts a game on 'board', black to move, with the clock at zero.
    pub fn new(board: Board) -> (r: Game)
        requires
            board.wf(),
        ensures
            r.wf(),
            r@ == (GameState {
                board: board@,
                turn: Cell::Black,
                pending: Seq::empty(),
                next_time: 0,
            }),
    {
        let ongoing_movement = Movement::default();
        assert(ongoing_movement@ =~= Seq::<CellChange>::empty());
        Game { board, next_move: Cell::Black, ongoing_movement, next_move_time: 0 }
    }

    /// Provides an immutable reference to the board.
    pub fn to_board(&self) -> (r: &Board)
        requires
            self.wf(),
        ensures
            r.wf(),
            r@ == self@.board,
    {
        &self.board
    }

    /// True if 'cell' has a legal move on the board.
    pub fn has_any_moves(&mut self, cell: Cell) -> (r: bool)
        requires
            old(self).wf(),
        ensures
            *final(self) == *old(self),
            r == has_move(old(self)@.board, cell),
    {
        let board = &self.board;
        !board.find_valid_moves(cell).is_empty()
    }

    /// Checks the game state and returns the cell of the player whose move
    /// it now is, where 'now' is the clock reading in milliseconds. This also
    /// plays the steps of an ongoing movement that are due, one per tick, so
    /// it can change the game state. If any steps are pending when it
    /// returns, it returns Empty: nobody can move until they clear.
    pub fn check_move(&mut self, now: u64) -> (r: Cell)
        requires
            old(self).wf(),
            now <= u64::MAX - TICK_MS,
        ensures
            final(self).wf(),
            final(self)@ == after_check(old(self)@, now as int),
            r == reported_turn(final(self)@),
    {
        if self.ongoing_movement.is_valid() {
            let ghost g0 = self@;
            let ghost n = g0.pending.len() as int;
            let ghost mut k: int = 0;
            assert(g0.pending.take(0) =~= Seq::<CellChange>::empty());
            assert(g0.pending.skip(0) =~= g0.pending);
            loop
                invariant_except_break
                    self@.next_time == g0.next_time + TICK_MS * k,
                invariant
                    self.wf(),
                    n == g0.pending.len(),
                    n > 0,
                    now <= u64::MAX - TICK_MS,
                    0 <= k <= n,
                    self@.board == g0.board.applied_all(g0.pending.take(k)),
                    self@.pending == g0.pending.skip(k),
                    k > 0 ==> g0.next_time + TICK_MS * (k - 1) <= now,
                    self@.turn == if k == n && has_move(self@.board, g0.turn.opponent()) {
                        g0.turn.opponent()
                    } else {
                        g0.turn
                    },
                ensures
                    self.wf(),
                    self@ == after_check(g0, now as int),
                decreases n - k,
            {
                if now < self.next_move_time {
                    proof {
                        if k > 0 {
                            lemma_due(g0.next_time, now as int, k - 1);
                        }
                        assert(self@ == after_check(g0, now as int));
                    }
                    break ;
                }
                self.next_move_time = self.next_move_time + TICK_MS;
                let ghost before = self@;
                if !self.ongoing_movement.play_one(&mut self.board) {
                    proof {
                        lemma_due(g0.next_time, now as int, k);
                        assert(self@ == after_check(g0, now as int));
                    }
                    break ;
                }
                proof {
                    lemma_applied_push(g0.board, g0.pending.take(k), g0.pending[k]);
                    assert(g0.pending.take(k).push(g0.pending[k]) =~= g0.pending.take(k + 1));
                    assert(before.pending.drop_first() =~= g0.pending.skip(k + 1));
                    assert forall|i: int| 0 <= i < self@.pending.len() implies self@.board.contains_loc(
                        #[trigger] self@.pending[i].loc,
                    ) by {
                        assert(self@.pending[i] == before.pending[i + 1]);
                    }
                    k = k + 1;
                }
                if !self.ongoing_movement.is_valid() {
                    let f = self.next_move.flipped();
                    if !self.board.find_valid_moves(f).is_empty() {
                        self.next_move = f;
                    }
                }
            }
        }
        if self.ongoing_movement.is_valid() {
            Cell::Empty
        } else {
            self.next_move
        }
    }

    /// Constructs a movement for a move at the location indicated. This
    /// can result in an invalid move, if 'loc' is not a valid location
    /// or it is not anyone's turn.
    pub fn get_player_movement(&self, loc: Loc) -> (r: Movement)
        requires
            self.wf(),
        ensures
            r@ == if self@.turn != Cell::Empty {
                movement_spec(self@.board, loc, self@.turn)
            } else {
                Seq::empty()
            },
    {
        if self.next_move != Cell::Empty {
            Movement::new(&self.board, loc, self.next_move)
        } else {
            Movement::default()
        }
    }

    /// Constructs a movement for the current player: the best of its legal
    /// moves. It is invalid if it is not anyone's turn, or the current
    /// player has no valid moves.
    pub fn get_ai_movement(&self) -> (r: Movement)
        requires
            self.wf(),
        ensures
            self@.turn != Cell::Empty && has_move(self@.board, self@.turn) ==> is_best_move(
                self@.board,
                self@.turn,
                r@,
            ),
            !(self@.turn != Cell::Empty && has_move(self@.board, self@.turn)) ==> r@.len() == 0,
    {
        if self.next_move != Cell::Empty {
            let mut valid = self.board.find_valid_moves(self.next_move);
            if valid.len() > 0 {
                let ghost ms = valid@.map_values(|m: Movement| m@);
                let best = valid.remove(0);
                proof {
                    let b = self@.board;
                    let c = self@.turn;
                    assert(ms[0] == best@);
                    assert forall|loc: Loc|
                        b.contains_loc(loc) && loc != best@[0].loc && #[trigger] movement_spec(
                            b,
                            loc,
                            c,
                        ).len() > 0 implies ranks_before(b, best@, movement_spec(b, loc, c)) by {
                        let i = choose|i: int| 0 <= i < ms.len() && (#[trigger] ms[i])[0].loc == loc;
                        assert(i != 0);
                        assert(ranks_before(b, ms[0], ms[i]));
                    }
                }
                best
            } else {
                Movement::default()
            }
        } else {
            Movement::default()
        }
    }

    /// This plays a move. The move will play out over time, and
    /// it will switch to a new player's turn only when complete.
    ///
    /// This returns false if the movement is invalid, if another movement
    /// is ongoing, or if the movement writes outside this board. In this
    /// case no new movement is begun.
    pub fn begin_movement(&mut self, mv: Movement) -> (r: bool)
        requires
            old(self).wf(),
        ensures
            final(self).wf(),
            r == (old(self)@.pending.len() == 0 && mv@.len() > 0 && old(self)@.board.fits(mv@)),
            r ==> final(self)@ == (GameState { pending: mv@, ..old(self)@ }),
            !r ==> final(self)@ == old(self)@,
    {
        if self.ongoing_movement.is_valid() {
            false
        } else if mv.is_valid() && mv.fits_on(&self.board) {
            self.ongoing_movement = mv;
            true
        } else {
            false
        }
    }

    /// This plays a move, like begin_movement, and restarts the clock of
    /// the playback at 'now', so the first step is due at once.
    pub fn begin_immediate_movement(&mut self, mv: Movement, now: u64) -> (r: bool)
        requires
            old(self).wf(),
        ensures
            final(self).wf(),
            r == (old(self)@.pending.len() == 0 && mv@.len() > 0 && old(self)@.board.fits(mv@)),
            r ==> final(self)@ == (GameState { pending: mv@, next_time: now as int, ..old(self)@ }),
            !r ==> final(self)@ == old(self)@,
    {
        if self.begin_movement(mv) {
            self.next_move_time = now;
            true
        } else {
            false
        }
    }
}

} // verus!
