use mcts_engine::Game;
use mcts_engine::GameError;
use mcts_engine::MoveScore;
use mcts_engine::TicTacToe;
use mcts_engine::WinState;

#[test]
fn possible_moves_never_offers_a_marked_cell() {
    let mut game = TicTacToe::new();
    assert_eq!(game.possible_moves(), (0..9).collect::<Vec<usize>>());
    game.place_move(4).unwrap();
    let moves = game.possible_moves();
    assert_eq!(moves.len(), 8);
    assert!(!moves.contains(&4));
    game.place_move(0).unwrap();
    let moves = game.possible_moves();
    assert_eq!(moves.len(), 7);
    assert!(!moves.contains(&4));
    assert!(!moves.contains(&0));
}

#[test]
fn double_diagonal_win_reports_one_terminal_outcome() {
    // The first player gathers the corners and finishes in the centre,
    // completing 0-4-8 and 2-4-6 at the same instant; the game must
    // report exactly one terminal outcome and not stumble over the
    // double win.
    let mut game = TicTacToe::new();
    for m in [0, 1, 8, 3, 2, 5, 6, 7] {
        assert!(matches!(game.place_move(m), Ok(WinState::Continue)));
    }
    let outcome = game.place_move(4).unwrap();
    assert!(matches!(outcome, WinState::Win));
    assert!(game.game_ended);
    // The winner is still the player to move.
    assert!(game.first_player_turn);
    assert_eq!(game.score_state(outcome, &true), MoveScore::Terminal(2));
    assert_eq!(game.score_state(outcome, &false), MoveScore::Terminal(-6));
}

#[test]
fn centre_opening_line_stays_open() {
    // Five half-board moves that complete no line yet: both diagonals
    // still run through cells of both players, so play continues.
    let mut game = TicTacToe::new();
    for m in [4, 0, 8, 2, 6] {
        assert!(matches!(game.place_move(m), Ok(WinState::Continue)));
    }
    assert!(!game.game_ended);
}

#[test]
fn place_move_error_kinds() {
    let mut game = TicTacToe::new();
    game.place_move(4).unwrap();
    // Re-playing a marked cell is an invalid move.
    assert_eq!(game.place_move(4), Err(GameError::InvalidMove));
    // So is an out-of-range position: it is absent from the legal set.
    assert_eq!(game.place_move(9), Err(GameError::InvalidMove));
    assert_eq!(game.place_move(1000), Err(GameError::InvalidMove));
    // After termination every move is refused as such.
    let mut won = TicTacToe::new();
    for m in [0, 3, 1, 4, 2] {
        won.place_move(m).unwrap();
    }
    assert!(won.game_ended);
    assert_eq!(won.place_move(5), Err(GameError::GameAlreadyEnded));
    assert_eq!(won.place_move(0), Err(GameError::GameAlreadyEnded));
}

#[test]
fn draw_is_terminal_with_half_point() {
    // 0 1 2 / 3 4 5 / 6 7 8 filled without three in a row:
    // A:0 B:1 A:2 B:4 A:3 B:5 A:7 B:6 A:8 — check the final state.
    let mut game = TicTacToe::new();
    let seq = [0, 1, 2, 4, 3, 5, 7, 6, 8];
    let mut last = WinState::Continue;
    for m in seq {
        last = game.place_move(m).unwrap();
    }
    assert!(matches!(last, WinState::Draw));
    assert_eq!(game.score_state(last, &true), MoveScore::Terminal(1));
    assert_eq!(game.score_state(last, &false), MoveScore::Terminal(1));
}

#[test]
fn end_state_continue_while_open() {
    let mut game = TicTacToe::new();
    assert!(matches!(game.end_state(), WinState::Continue));
    game.place_move(0).unwrap();
    assert!(matches!(game.end_state(), WinState::Continue));
}

#[test]
fn duplicate_is_independent() {
    let mut game = TicTacToe::new();
    game.place_move(3).unwrap();
    let mut copy = game.duplicate();
    copy.place_move(5).unwrap();
    // The original is untouched by moves on the copy.
    assert!(game.possible_moves().contains(&5));
    assert!(!copy.possible_moves().contains(&5));
}
