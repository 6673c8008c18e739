use mcts_engine::rng_from_seed;
use mcts_engine::Card;
use mcts_engine::Colour;
use mcts_engine::Game;
use mcts_engine::GameError;
use mcts_engine::GameState;
use mcts_engine::Mcts;
use mcts_engine::MoveScore;
use mcts_engine::PlayerMove;
use mcts_engine::Uno;

/// A deterministic little game: every deck card is the same red one, so
/// the deal cannot vary; the caller then rewrites hands and stack top.
fn fixed_game(players: usize) -> Uno {
    let deck = vec![Card::Number(Colour::Red, 1); 4 + 2 * players];
    Uno::new(deck, players, 1, rng_from_seed(5)).unwrap()
}

#[test]
fn player_move_accessors() {
    assert_eq!(PlayerMove::Number(Colour::Red, 5).as_card(), Some(Card::Number(Colour::Red, 5)));
    assert_eq!(PlayerMove::Wild(Colour::Green, 4).as_card(), Some(Card::Wild(4)));
    assert_eq!(PlayerMove::ActionDraw.as_card(), None);
    assert_eq!(PlayerMove::Skip(Colour::Blue).colour(), Some(Colour::Blue));
    assert_eq!(PlayerMove::ActionDraw.colour(), None);
    assert!(PlayerMove::Number(Colour::Red, 5).is_number());
    assert!(!PlayerMove::Reverse(Colour::Red).is_number());
}

#[test]
fn standard_deal_shape() {
    let game = Uno::standard_deck(3, rng_from_seed(1)).unwrap();
    assert_eq!(game.player_cards.len(), 3);
    for hand in &game.player_cards {
        assert_eq!(hand.len(), 7);
    }
    assert_eq!(game.player_turn, 0);
    assert!(!game.ended);
    assert!(matches!(game.last_play, PlayerMove::Number(_, _)));
    assert_eq!(game.card_purgatory.len(), 1);
    // The flipped card is the recorded last play.
    if let PlayerMove::Number(c, n) = game.last_play {
        assert_eq!(game.card_purgatory[0], Card::Number(c, n));
    }
    // Every dealt card left the 104-card standard deck: three hands of
    // seven plus the flip.
    assert_eq!(game.deck.len(), 104 - 3 * 7 - 1);
}

#[test]
fn a_wild_stacks_onto_a_pending_draw() {
    let mut game = fixed_game(2);
    game.player_cards[0] = vec![Card::Wild(4), Card::Number(Colour::Green, 8)];
    game.last_play = PlayerMove::Draw(Colour::Red, 2);
    game.place_move(PlayerMove::Wild(Colour::Blue, 4)).unwrap();
    // The summed debt rides on the stack top, in the colour named.
    assert_eq!(game.last_play, PlayerMove::Wild(Colour::Blue, 6));
    assert_eq!(game.player_cards[0].len(), 1);
    assert_eq!(game.card_purgatory.last(), Some(&Card::Wild(4)));
}

#[test]
fn illegal_and_post_win_moves_are_refused() {
    let mut game = fixed_game(2);
    assert_eq!(game.last_play, PlayerMove::Number(Colour::Red, 1));
    // A card nobody holds is not a legal move.
    assert_eq!(
        game.place_move(PlayerMove::Number(Colour::Blue, 9)),
        Err(GameError::InvalidMove)
    );
    // Drawing while holding a playable card is hoarding, also refused.
    assert_eq!(game.place_move(PlayerMove::ActionDraw), Err(GameError::InvalidMove));
    // Playing the one card in hand wins at once.
    let outcome = game.place_move(PlayerMove::Number(Colour::Red, 1)).unwrap();
    assert!(matches!(outcome, GameState::Win));
    assert!(game.ended);
    assert_eq!(game.score_state(outcome, &0), MoveScore::Terminal(2));
    assert_eq!(game.score_state(outcome, &1), MoveScore::Terminal(0));
    // After termination every move fails as such.
    assert_eq!(
        game.place_move(PlayerMove::Number(Colour::Red, 1)),
        Err(GameError::GameAlreadyEnded)
    );
}

#[test]
fn too_small_a_deck_cannot_deal() {
    let deck = vec![Card::Number(Colour::Red, 1)];
    assert!(matches!(Uno::new(deck, 1, 2, rng_from_seed(1)), Err(GameError::OutOfCards)));
}

#[test]
fn possible_moves_follow_colour_and_number() {
    let mut game = fixed_game(1);
    game.player_cards[0] = vec![
        Card::Number(Colour::Blue, 3),
        Card::Number(Colour::Red, 7),
        Card::Skip(Colour::Red),
        Card::Skip(Colour::Green),
    ];
    game.last_play = PlayerMove::Number(Colour::Red, 3);
    let moves = game.possible_moves();
    // Red cards fit by colour, the blue 3 by number; the green skip
    // does not fit at all.
    assert!(moves.contains(&PlayerMove::Number(Colour::Red, 7)));
    assert!(moves.contains(&PlayerMove::Skip(Colour::Red)));
    assert!(moves.contains(&PlayerMove::Number(Colour::Blue, 3)));
    assert!(!moves.contains(&PlayerMove::Skip(Colour::Green)));
    assert!(!moves.contains(&PlayerMove::ActionDraw));
    assert_eq!(moves.len(), 3);
}

#[test]
fn wild_card_offers_all_four_colours() {
    let mut game = fixed_game(1);
    game.player_cards[0] = vec![Card::Wild(4), Card::Number(Colour::Green, 2)];
    game.last_play = PlayerMove::Number(Colour::Red, 3);
    let moves = game.possible_moves();
    for c in [Colour::Red, Colour::Yellow, Colour::Green, Colour::Blue] {
        assert!(moves.contains(&PlayerMove::Wild(c, 4)));
    }
    assert_eq!(moves.len(), 4);
}

#[test]
fn a_last_card_must_be_a_number() {
    // With one card left, only a numbered card may be played; a lone
    // wild forces a draw.
    let mut game = fixed_game(1);
    game.player_cards[0] = vec![Card::Wild(0)];
    game.last_play = PlayerMove::Number(Colour::Red, 3);
    assert_eq!(game.possible_moves(), vec![PlayerMove::ActionDraw]);
}

#[test]
fn drawing_is_offered_only_without_a_playable_card() {
    let mut game = fixed_game(1);
    game.player_cards[0] = vec![Card::Skip(Colour::Green), Card::Number(Colour::Blue, 9)];
    game.last_play = PlayerMove::Number(Colour::Red, 3);
    let moves = game.possible_moves();
    assert_eq!(moves, vec![PlayerMove::ActionDraw]);
    // Drawing succeeds, keeps the game open and grows the hand.
    let outcome = game.place_move(PlayerMove::ActionDraw).unwrap();
    assert!(matches!(outcome, GameState::Continue));
    assert_eq!(game.player_cards[0].len(), 3);
}

#[test]
fn reconciliation_adds_exactly_the_missing_move() {
    // A node was expanded when the legal moves were {play red 5, draw};
    // a later sample also allows the blue 2. The engine must add only
    // that move as a new child, keeping the old children's statistics.
    let mut eng: Mcts<Uno> = Mcts::new(0);
    eng.tree.add_child(0, PlayerMove::Number(Colour::Red, 5)).unwrap();
    eng.tree.add_child(0, PlayerMove::ActionDraw).unwrap();
    eng.backpropagate(
        &vec![(0usize, MoveScore::Unscored), (1usize, MoveScore::NonTerminal(3))],
        4,
    );
    let truth = vec![
        PlayerMove::Number(Colour::Red, 5),
        PlayerMove::Number(Colour::Blue, 2),
        PlayerMove::ActionDraw,
    ];
    let existing = eng.tree.children_of(0).unwrap();
    let diff = eng.diff_existing_children(&existing, &truth).unwrap();
    assert_eq!(diff, vec![PlayerMove::Number(Colour::Blue, 2)]);
    let added = eng.expand_new_children(0, diff);
    assert_eq!(added, vec![3]);
    assert_eq!(eng.tree.children_of(0).unwrap(), vec![1, 2, 3]);
    // The pre-existing statistics survive untouched.
    assert_eq!(eng.tree.nodes[1].visits, 1);
    assert_eq!(eng.tree.nodes[1].score, 7);
    assert_eq!(eng.tree.nodes[2].visits, 0);
    assert_eq!(eng.tree.nodes[3].placement_move, PlayerMove::Number(Colour::Blue, 2));
    assert_eq!(eng.tree.nodes[3].visits, 0);
    // With nothing missing there is nothing to reconcile.
    let covered = vec![PlayerMove::Number(Colour::Red, 5), PlayerMove::ActionDraw];
    assert!(eng
        .diff_existing_children(&eng.tree.children_of(0).unwrap(), &covered)
        .is_none());
}

#[test]
fn uno_search_recommends_a_legal_move() {
    let game = Uno::standard_deck(2, rng_from_seed(12)).unwrap();
    let mut eng: Mcts<Uno> = Mcts::new(0);
    let mut rng = rng_from_seed(7);
    let m = eng.best_move(&game, 40, &mut rng).unwrap();
    assert!(game.possible_moves().contains(&m));
}

#[test]
fn uno_search_same_seed_same_recommendation() {
    let game = Uno::standard_deck(2, rng_from_seed(21)).unwrap();
    let mut eng1: Mcts<Uno> = Mcts::new(0);
    let mut rng1 = rng_from_seed(42);
    let m1 = eng1.best_move(&game, 32, &mut rng1).unwrap();
    let mut eng2: Mcts<Uno> = Mcts::new(0);
    let mut rng2 = rng_from_seed(42);
    let m2 = eng2.best_move(&game, 32, &mut rng2).unwrap();
    assert_eq!(m1, m2);
}

#[test]
fn reverse_flips_direction_and_wraps_the_turn() {
    let mut game = fixed_game(3);
    game.player_cards[0] = vec![Card::Reverse(Colour::Red), Card::Number(Colour::Green, 1)];
    game.last_play = PlayerMove::Number(Colour::Red, 9);
    assert!(!game.reversed);
    game.place_move(PlayerMove::Reverse(Colour::Red)).unwrap();
    assert!(game.reversed);
    // Reversed play from seat 0 wraps to the last seat.
    assert_eq!(game.player_turn, 2);
}

#[test]
fn skip_jumps_a_seat() {
    let mut game = fixed_game(3);
    game.player_cards[0] = vec![Card::Skip(Colour::Red), Card::Number(Colour::Green, 1)];
    game.last_play = PlayerMove::Number(Colour::Red, 9);
    game.place_move(PlayerMove::Skip(Colour::Red)).unwrap();
    assert_eq!(game.player_turn, 2);
}

#[test]
fn a_pending_draw_two_is_paid_by_drawing() {
    let mut game = fixed_game(2);
    game.player_cards[0] = vec![Card::Number(Colour::Green, 7), Card::Number(Colour::Green, 8)];
    game.last_play = PlayerMove::Draw(Colour::Red, 2);
    // Nothing green fits a red draw-two, so the player must draw, and
    // the pending two cards arrive at once.
    assert_eq!(game.possible_moves(), vec![PlayerMove::ActionDraw]);
    game.place_move(PlayerMove::ActionDraw).unwrap();
    assert_eq!(game.player_cards[0].len(), 4);
    assert_eq!(game.player_turn, 1);
}

#[test]
fn stacking_a_draw_two_grows_the_debt() {
    let mut game = fixed_game(2);
    game.player_cards[0] = vec![Card::Draw(Colour::Red, 2), Card::Number(Colour::Green, 8)];
    game.last_play = PlayerMove::Draw(Colour::Red, 2);
    game.place_move(PlayerMove::Draw(Colour::Red, 2)).unwrap();
    // The stacked debt is recorded on the stack top.
    assert_eq!(game.last_play, PlayerMove::Draw(Colour::Red, 4));
    assert_eq!(game.player_cards[0].len(), 1);
}
