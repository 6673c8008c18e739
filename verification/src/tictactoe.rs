//! A perfect-information grid game on a three-by-three board: two
//! players alternate marks, and three equal marks on a row, column or
//! diagonal win. A cell holds `Some(p)` once player `p` marked it and is
//! never re-playable.

use crate::game::Game;
use crate::game::GameError;
use crate::score::MoveScore;
use vstd::prelude::*;

verus! {

/// Outcome token of one grid-game move: the mover completed a line, the
/// board filled without a winner, or play continues.
#[derive(Debug, Clone, Copy, PartialEq, Eq, Structural)]
pub enum WinState {
    Win,
    Draw,
    Continue,
}

/// Whether the three cells `a`, `m`, `c` hold the same player's mark.
pub open spec fn line_won(b: Seq<Option<bool>>, a: int, m: int, c: int) -> bool {
    b[a] is Some && b[m] == b[a] && b[c] == b[a]
}

/// Whether any of the eight lines is complete.
pub open spec fn spec_win(b: Seq<Option<bool>>) -> bool {
    ||| line_won(b, 0, 1, 2)
    ||| line_won(b, 3, 4, 5)
    ||| line_won(b, 6, 7, 8)
    ||| line_won(b, 0, 3, 6)
    ||| line_won(b, 1, 4, 7)
    ||| line_won(b, 2, 5, 8)
    ||| line_won(b, 0, 4, 8)
    ||| line_won(b, 2, 4, 6)
}

/// Whether every cell is marked.
pub open spec fn board_full(b: Seq<Option<bool>>) -> bool {
    forall|i: int| 0 <= i < 9 ==> (#[trigger] b[i]) is Some
}

/// The state a board is in: a completed line wins (even when two lines
/// complete at once, the game reports one terminal outcome), a full
/// board without one is a draw, anything else continues.
pub open spec fn spec_end_state(b: Seq<Option<bool>>) -> WinState {
    if spec_win(b) {
        WinState::Win
    } else if board_full(b) {
        WinState::Draw
    } else {
        WinState::Continue
    }
}

/// The grid game position: nine cells, whose turn it is, and whether the
/// game has terminated.
#[derive(Debug)]
pub struct TicTacToe {
    pub board: Vec<Option<bool>>,
    pub first_player_turn: bool,
    pub game_ended: bool,
}

impl TicTacToe {
    /// Structural invariant: exactly nine cells.
    pub open spec fn wf(&self) -> bool {
        self.board@.len() == 9
    }

    /// The empty board, first player to move.
    pub fn new() -> (r: Self)
        ensures
            r.wf(),
            forall|i: int| 0 <= i < 9 ==> (#[trigger] r.board@[i]) is None,
            r.first_player_turn,
            !r.game_ended,
    {
        let mut board: Vec<Option<bool>> = Vec::new();
        let mut i: usize = 0;
        while i < 9
            invariant
                i <= 9,
                board@.len() == i,
                forall|k: int| 0 <= k < i ==> (#[trigger] board@[k]) is None,
            decreases 9 - i,
        {
            board.push(None);
            i = i + 1;
        }
        TicTacToe { board, first_player_turn: true, game_ended: false }
    }

    /// Hands the turn to the other player.
    pub fn next_player(&mut self)
        ensures
            final(self).board@ == old(self).board@,
            final(self).game_ended == old(self).game_ended,
            final(self).first_player_turn == !old(self).first_player_turn,
    {
        self.first_player_turn = !self.first_player_turn;
    }

    fn line_complete(&self, a: usize, m: usize, c: usize) -> (r: bool)
        requires
            self.wf(),
            a < 9,
            m < 9,
            c < 9,
        ensures
            r == line_won(self.board@, a as int, m as int, c as int),
    {
        match (self.board[a], self.board[m], self.board[c]) {
            (Some(x), Some(y), Some(z)) => x == y && y == z,
            _ => false,
        }
    }

    /// What state the current board is in.
    pub fn end_state(&self) -> (r: WinState)
        requires
            self.wf(),
        ensures
            r == spec_end_state(self.board@),
    {
        if self.line_complete(0, 1, 2) || self.line_complete(3, 4, 5) || self.line_complete(
            6,
            7,
            8,
        ) || self.line_complete(0, 3, 6) || self.line_complete(1, 4, 7) || self.line_complete(
            2,
            5,
            8,
        ) || self.line_complete(0, 4, 8) || self.line_complete(2, 4, 6) {
            return WinState::Win;
        }
        let mut i: usize = 0;
        while i < 9
            invariant
                self.wf(),
                !spec_win(self.board@),
                i <= 9,
                forall|k: int| 0 <= k < i ==> (#[trigger] self.board@[k]) is Some,
            decreases 9 - i,
        {
            if self.board[i].is_none() {
                return WinState::Continue;
            }
            i = i + 1;
        }
        WinState::Draw
    }
}

impl Game for TicTacToe {
    type Move = usize;

    type GameState = WinState;

    type Player = bool;

    fn is_perfect_information() -> (r: bool)
        ensures
            r,
    {
        true
    }

    fn duplicate(&self) -> (g: Self)
        ensures
            g.board@ == self.board@,
            g.first_player_turn == self.first_player_turn,
            g.game_ended == self.game_ended,
    {
        let mut board: Vec<Option<bool>> = Vec::new();
        let mut i: usize = 0;
        let n = self.board.len();
        while i < n
            invariant
                n == self.board@.len(),
                i <= n,
                board@ == self.board@.subrange(0, i as int),
            decreases n - i,
        {
            board.push(self.board[i]);
            i = i + 1;
        }
        proof {
            assert(board@ == self.board@.subrange(0, self.board@.len() as int));
            assert(self.board@.subrange(0, self.board@.len() as int) == self.board@);
        }
        TicTacToe {
            board,
            first_player_turn: self.first_player_turn,
            game_ended: self.game_ended,
        }
    }

    fn clone_move(m: &usize) -> (r: usize)
        ensures
            r == *m,
    {
        *m
    }

    fn moves_equal(a: &usize, b: &usize) -> (r: bool)
        ensures
            r == (*a == *b),
    {
        *a == *b
    }

    open spec fn spec_placeholder() -> usize {
        0
    }

    fn placeholder_move() -> usize {
        0
    }

    /// All positions of empty cells, in increasing order: a cell already
    /// marked is never offered again.
    fn possible_moves(&self) -> (r: Vec<usize>)
        ensures
            self.wf() ==> {
                &&& forall|k: int|
                    0 <= k < r@.len() ==> (#[trigger] r@[k]) < 9 && self.board@[r@[k] as int]
                        is None
                &&& forall|i: int|
                    0 <= i < 9 && self.board@[i] is None ==> r@.contains(i as usize)
                &&& forall|k1: int, k2: int|
                    0 <= k1 < k2 < r@.len() ==> (#[trigger] r@[k1]) < (#[trigger] r@[k2])
            },
    {
        let mut r: Vec<usize> = Vec::new();
        if self.board.len() != 9 {
            return r;
        }
        let mut i: usize = 0;
        while i < 9
            invariant
                self.board@.len() == 9,
                i <= 9,
                forall|k: int|
                    0 <= k < r@.len() ==> (#[trigger] r@[k]) < i && self.board@[r@[k] as int]
                        is None,
                forall|j: int| 0 <= j < i && self.board@[j] is None ==> r@.contains(j as usize),
                forall|k1: int, k2: int|
                    0 <= k1 < k2 < r@.len() ==> (#[trigger] r@[k1]) < (#[trigger] r@[k2]),
            decreases 9 - i,
        {
            if self.board[i].is_none() {
                let ghost r_before = r@;
                r.push(i);
                proof {
                    assert forall|j: int|
                        0 <= j < i + 1 && self.board@[j] is None implies r@.contains(j as usize)
                        by {
                        if j < i {
                            assert(r_before.contains(j as usize));
                            let w = choose|w: int|
                                0 <= w < r_before.len() && r_before[w] == j as usize;
                            assert(r@[w] == j as usize);
                        } else {
                            assert(r@[r@.len() - 1] == j as usize);
                        }
                    }
                }
            }
            i = i + 1;
        }
        r
    }

    /// Marks `movement` for the player to move. Refused exactly when the
    /// game already ended (`GameAlreadyEnded`) or the move is not among
    /// the legal ones — an out-of-range position or an already marked
    /// cell, both `InvalidMove`; a refused move changes nothing. On
    /// success the outcome of the new board is returned, the game
    /// terminates unless play continues, and the turn passes only when
    /// it does.
    fn place_move(&mut self, movement: usize) -> (r: Result<WinState, GameError>)
        ensures
            old(self).wf() ==> {
                &&& final(self).wf()
                &&& old(self).game_ended ==> r == Err::<WinState, GameError>(
                    GameError::GameAlreadyEnded,
                ) && *final(self) == *old(self)
                &&& (!old(self).game_ended && (movement >= 9 || (movement < 9
                    && old(self).board@[movement as int] is Some))) ==> r == Err::<
                    WinState,
                    GameError,
                >(GameError::InvalidMove) && *final(self) == *old(self)
                &&& (!old(self).game_ended && movement < 9 && old(self).board@[movement as int]
                    is None) ==> {
                    &&& final(self).board@ == old(self).board@.update(
                        movement as int,
                        Some(old(self).first_player_turn),
                    )
                    &&& r == Ok::<WinState, GameError>(spec_end_state(final(self).board@))
                    &&& final(self).game_ended == (spec_end_state(final(self).board@)
                        != WinState::Continue)
                    &&& final(self).first_player_turn == (if spec_end_state(final(self).board@)
                        == WinState::Continue {
                        !old(self).first_player_turn
                    } else {
                        old(self).first_player_turn
                    })
                }
            },
    {
        if self.game_ended {
            return Err(GameError::GameAlreadyEnded);
        }
        if self.board.len() != 9 || movement >= 9 {
            return Err(GameError::InvalidMove);
        }
        if self.board[movement].is_some() {
            return Err(GameError::InvalidMove);
        }
        let mark = self.first_player_turn;
        let slot = &mut self.board[movement];
        *slot = Some(mark);
        let end_state = self.end_state();
        match end_state {
            WinState::Continue => {
                self.next_player();
            },
            _ => {
                self.game_ended = true;
            },
        }
        Ok(end_state)
    }

    /// Interprets an outcome for `player`, in half-point units: a win is
    /// worth two to the player who made the winning move and minus six
    /// to the other; a draw one to either; a continuing game carries no
    /// score. The mover is still the player to move, since a terminal
    /// move does not pass the turn.
    fn score_state(&self, state: WinState, player: &bool) -> (r: MoveScore)
        ensures
            state == WinState::Win && self.first_player_turn == *player ==> r
                == MoveScore::Terminal(2),
            state == WinState::Win && self.first_player_turn != *player ==> r
                == MoveScore::Terminal(-6i64),
            state == WinState::Draw ==> r == MoveScore::Terminal(1),
            state == WinState::Continue ==> r == MoveScore::Unscored,
    {
        match state {
            WinState::Win => MoveScore::Terminal(
                if self.first_player_turn == *player {
                    2
                } else {
                    -6
                },
            ),
            WinState::Draw => MoveScore::Terminal(1),
            WinState::Continue => MoveScore::Unscored,
        }
    }
}

} // verus!
