//! The game contract: the capability set any game must provide to be
//! searched, and the errors a game can report.

use crate::score::MoveScore;
use vstd::prelude::*;

verus! {

/// Why a game refused an operation.
#[derive(Debug, Clone, Copy, PartialEq, Eq, Structural)]
pub enum GameError {
    /// The move is not presently legal.
    InvalidMove,
    /// A mutation was attempted after the game terminated.
    GameAlreadyEnded,
    /// An out-of-range position or slot was named.
    InvalidPosition,
    /// The draw pile could not supply the cards a move requires.
    OutOfCards,
}

/// The capability set a game exposes to the search engine. The engine is
/// generic over this trait and knows nothing of a game's internals.
pub trait Game: Sized {
    /// A move a player can make: plain data, cheap to copy.
    type Move;

    /// The opaque outcome token a successful `place_move` returns; only
    /// `score_state` interprets it.
    type GameState;

    /// An evaluation perspective: whose gain the scores measure.
    type Player;

    /// Whether the set of legal moves at a fixed tree position is
    /// guaranteed identical across independent clones of the position.
    /// False when hidden state, resampled per clone, can change which
    /// moves are legal at a node that was already expanded.
    fn is_perfect_information() -> bool;

    /// A fully independent, mutation-safe copy of the position; each
    /// search iteration works on such a copy.
    fn duplicate(&self) -> Self;

    /// A copy of a move, equal to the original.
    fn clone_move(m: &Self::Move) -> (r: Self::Move)
        ensures
            r == *m,
    ;

    /// Whether two moves are the same move; the engine compares moves
    /// when it reconciles a node's children with the currently-true
    /// move set.
    fn moves_equal(a: &Self::Move, b: &Self::Move) -> (r: bool)
        ensures
            r == (*a == *b),
    ;

    /// The "no move" value, at the specification level.
    spec fn spec_placeholder() -> Self::Move;

    /// The "no move" value carried by the root of a search tree, which
    /// stands for the position before any move under consideration.
    fn placeholder_move() -> (r: Self::Move)
        ensures
            r == Self::spec_placeholder(),
    ;

    /// All legal moves for the player to move in the current state; empty
    /// exactly when the game has no legal continuation.
    fn possible_moves(&self) -> Vec<Self::Move>;

    /// Applies `movement` for the current player, mutating the game in
    /// place; on success returns the outcome token, otherwise says why
    /// the move was refused.
    fn place_move(&mut self, movement: Self::Move) -> Result<Self::GameState, GameError>;

    /// Interprets an outcome token from the given perspective: `Terminal`
    /// exactly when the game has ended, and the score to credit at this
    /// step.
    fn score_state(&self, state: Self::GameState, player: &Self::Player) -> MoveScore;
}

} // verus!
