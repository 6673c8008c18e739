use mcts_engine::rng_from_seed;
use mcts_engine::Game;
use mcts_engine::GameError;
use mcts_engine::Mcts;
use mcts_engine::MoveScore;
use mcts_engine::SearchError;

/// A game that offers no move at all while claiming play continues:
/// a contract defect the engine must surface, not swallow.
#[derive(Clone)]
struct Stuck;

impl Game for Stuck {
    type Move = u8;
    type GameState = ();
    type Player = ();

    fn is_perfect_information() -> bool {
        true
    }

    fn duplicate(&self) -> Self {
        Stuck
    }

    fn clone_move(m: &u8) -> u8 {
        *m
    }

    fn moves_equal(a: &u8, b: &u8) -> bool {
        a == b
    }

    fn spec_placeholder() -> u8 {
        0
    }

    fn placeholder_move() -> u8 {
        0
    }

    fn possible_moves(&self) -> Vec<u8> {
        Vec::new()
    }

    fn place_move(&mut self, _movement: u8) -> Result<(), GameError> {
        Ok(())
    }

    fn score_state(&self, _state: (), _player: &()) -> MoveScore {
        MoveScore::Unscored
    }
}

/// A game that advertises a move and then refuses it.
#[derive(Clone)]
struct Liar;

impl Game for Liar {
    type Move = u8;
    type GameState = ();
    type Player = ();

    fn is_perfect_information() -> bool {
        true
    }

    fn duplicate(&self) -> Self {
        Liar
    }

    fn clone_move(m: &u8) -> u8 {
        *m
    }

    fn moves_equal(a: &u8, b: &u8) -> bool {
        a == b
    }

    fn spec_placeholder() -> u8 {
        0
    }

    fn placeholder_move() -> u8 {
        0
    }

    fn possible_moves(&self) -> Vec<u8> {
        vec![1]
    }

    fn place_move(&mut self, _movement: u8) -> Result<(), GameError> {
        Err(GameError::InvalidMove)
    }

    fn score_state(&self, _state: (), _player: &()) -> MoveScore {
        MoveScore::Unscored
    }
}

/// A game that never terminates: one move, always legal, never scored
/// terminal, so a rollout can only run out of budget.
#[derive(Clone)]
struct Endless;

impl Game for Endless {
    type Move = u8;
    type GameState = ();
    type Player = ();

    fn is_perfect_information() -> bool {
        true
    }

    fn duplicate(&self) -> Self {
        Endless
    }

    fn clone_move(m: &u8) -> u8 {
        *m
    }

    fn moves_equal(a: &u8, b: &u8) -> bool {
        a == b
    }

    fn spec_placeholder() -> u8 {
        0
    }

    fn placeholder_move() -> u8 {
        0
    }

    fn possible_moves(&self) -> Vec<u8> {
        vec![1]
    }

    fn place_move(&mut self, _movement: u8) -> Result<(), GameError> {
        Ok(())
    }

    fn score_state(&self, _state: (), _player: &()) -> MoveScore {
        MoveScore::NonTerminal(0)
    }
}

#[test]
fn a_moveless_open_position_aborts_the_decision() {
    let mut eng: Mcts<Stuck> = Mcts::new(());
    let mut rng = rng_from_seed(1);
    assert_eq!(eng.best_move(&Stuck, 5, &mut rng), Err(SearchError::NoLegalMoves));
}

#[test]
fn a_refused_legal_move_aborts_the_decision() {
    let mut eng: Mcts<Liar> = Mcts::new(());
    let mut rng = rng_from_seed(1);
    assert_eq!(
        eng.best_move(&Liar, 5, &mut rng),
        Err(SearchError::GameFault(GameError::InvalidMove))
    );
}

#[test]
fn an_endless_rollout_runs_out_of_budget() {
    let mut eng: Mcts<Endless> = Mcts::new(());
    let mut rng = rng_from_seed(1);
    assert_eq!(eng.best_move(&Endless, 1, &mut rng), Err(SearchError::RolloutLimitReached));
}
