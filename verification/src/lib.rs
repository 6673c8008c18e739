//! A Monte Carlo Tree Search engine for turn-based games, generic over
//! a small game contract, with two bundled games: a perfect-information
//! grid game and a card game of imperfect information whose legal moves
//! at a revisited tree position can differ between simulations.

use vstd::prelude::*;

mod engine;
mod game;
mod rng;
mod score;
mod tictactoe;
mod tree;
mod uct;
mod uno;

pub use engine::Mcts;
pub use engine::SearchError;
pub use game::Game;
pub use game::GameError;
pub use rng::rng_below;
pub use rng::rng_clone;
pub use rng::rng_from_seed;
pub use score::sat_add;
pub use score::MoveScore;
pub use tictactoe::TicTacToe;
pub use tictactoe::WinState;
pub use tree::McNode;
pub use tree::MctsTree;
pub use uct::isqrt;
pub use uct::ln_fp;
pub use uct::uct;
pub use uno::Card;
pub use uno::Colour;
pub use uno::GameState;
pub use uno::PlayerMove;
pub use uno::Uno;

verus! {

} // verus!
