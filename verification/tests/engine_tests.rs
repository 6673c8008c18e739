use mcts_engine::rng_from_seed;
use mcts_engine::Game;
use mcts_engine::Mcts;
use mcts_engine::MoveScore;
use mcts_engine::SearchError;
use mcts_engine::TicTacToe;

#[test]
fn tree_add_child_grows_and_rejects_bad_parent() {
    let mut eng: Mcts<TicTacToe> = Mcts::new(true);
    assert_eq!(eng.tree.len(), 1);
    assert_eq!(eng.tree.add_child(0, 4), Some(1));
    assert_eq!(eng.tree.add_child(0, 5), Some(2));
    assert_eq!(eng.tree.add_child(1, 6), Some(3));
    assert_eq!(eng.tree.add_child(99, 7), None);
    assert_eq!(eng.tree.len(), 4);
    assert_eq!(eng.tree.children_of(0), Some(vec![1, 2]));
    assert_eq!(eng.tree.children_of(1), Some(vec![3]));
    assert_eq!(eng.tree.children_of(3), Some(vec![]));
    assert_eq!(eng.tree.children_of(99), None);
    let node = eng.tree.node(3).unwrap();
    assert_eq!(node.placement_move, 6);
    assert_eq!(node.visits, 0);
    assert_eq!(node.score, 0);
    assert!(eng.tree.node(4).is_none());
}

#[test]
fn backpropagation_compounds_credit_toward_the_root() {
    // Path of three nodes with step scores 0 (root), 3, 5 and a rollout
    // contribution of 7: the leaf is credited 7 + 5 = 12, the middle
    // node 7 + 5 + 3 = 15, and the root the same 15 (its own step score
    // is the empty placeholder).
    let mut eng: Mcts<TicTacToe> = Mcts::new(true);
    eng.tree.add_child(0, 4).unwrap();
    eng.tree.add_child(1, 5).unwrap();
    let path = vec![
        (0usize, MoveScore::Unscored),
        (1usize, MoveScore::NonTerminal(3)),
        (2usize, MoveScore::Terminal(5)),
    ];
    eng.backpropagate(&path, 7);
    assert_eq!(eng.tree.nodes[2].score, 12);
    assert_eq!(eng.tree.nodes[1].score, 15);
    assert_eq!(eng.tree.nodes[0].score, 15);
    assert_eq!(eng.tree.nodes[0].visits, 1);
    assert_eq!(eng.tree.nodes[1].visits, 1);
    assert_eq!(eng.tree.nodes[2].visits, 1);
    // A second pass accumulates rather than resets.
    eng.backpropagate(&path, 1);
    assert_eq!(eng.tree.nodes[2].score, 12 + 6);
    assert_eq!(eng.tree.nodes[0].score, 15 + 9);
    assert_eq!(eng.tree.nodes[0].visits, 2);
}

#[test]
fn unvisited_children_are_visited_before_any_revisit() {
    // Nine legal opening moves and a budget larger than that: after the
    // search every root child must have been visited at least once.
    let game = TicTacToe::new();
    let mut eng: Mcts<TicTacToe> = Mcts::new(true);
    let mut rng = rng_from_seed(5);
    eng.best_move(&game, 20, &mut rng).unwrap();
    let kids = eng.tree.children_of(0).unwrap();
    assert_eq!(kids.len(), 9);
    for c in kids {
        assert!(eng.tree.node(c).unwrap().visits >= 1);
    }
    // Every iteration passes through the root exactly once.
    assert_eq!(eng.tree.node(0).unwrap().visits, 20);
}

#[test]
fn pick_best_child_prefers_the_unvisited() {
    let mut eng: Mcts<TicTacToe> = Mcts::new(true);
    eng.tree.add_child(0, 4).unwrap();
    eng.tree.add_child(0, 5).unwrap();
    // Give the first child a visit with a decent score; the second
    // stays unvisited and must win the priority comparison.
    let path = vec![(0usize, MoveScore::Unscored), (1usize, MoveScore::NonTerminal(10))];
    eng.backpropagate(&path, 10);
    assert_eq!(eng.pick_best_child(0), Some(2));
}

#[test]
fn recommendation_is_a_root_child_move_with_top_visits() {
    let game = TicTacToe::new();
    let mut eng: Mcts<TicTacToe> = Mcts::new(true);
    let mut rng = rng_from_seed(11);
    let m = eng.best_move(&game, 200, &mut rng).unwrap();
    let kids = eng.tree.children_of(0).unwrap();
    let moves: Vec<usize> = kids.iter().map(|c| eng.tree.node(*c).unwrap().placement_move).collect();
    assert!(moves.contains(&m));
    // Its visit count matches best_descendant, and no child saw more.
    let (c, v) = eng.best_descendant().unwrap();
    assert_eq!(eng.tree.node(c).unwrap().placement_move, m);
    for k in kids {
        assert!(eng.tree.node(k).unwrap().visits <= v);
    }
}

#[test]
fn best_descendant_tie_goes_to_the_first_child() {
    let mut eng: Mcts<TicTacToe> = Mcts::new(true);
    eng.tree.add_child(0, 7).unwrap();
    eng.tree.add_child(0, 8).unwrap();
    eng.backpropagate(&vec![(0usize, MoveScore::Unscored), (1usize, MoveScore::Terminal(1))], 0);
    eng.backpropagate(&vec![(0usize, MoveScore::Unscored), (2usize, MoveScore::Terminal(1))], 0);
    let (c, v) = eng.best_descendant().unwrap();
    assert_eq!(c, 1);
    assert_eq!(v, 1);
}

#[test]
fn zero_budget_recommends_nothing() {
    let game = TicTacToe::new();
    let mut eng: Mcts<TicTacToe> = Mcts::new(true);
    let mut rng = rng_from_seed(3);
    assert_eq!(eng.best_move(&game, 0, &mut rng), Err(SearchError::NothingExplored));
}

#[test]
fn same_seed_same_recommendation() {
    let game = TicTacToe::new();
    let mut eng1: Mcts<TicTacToe> = Mcts::new(true);
    let mut rng1 = rng_from_seed(42);
    let m1 = eng1.best_move(&game, 64, &mut rng1).unwrap();
    let mut eng2: Mcts<TicTacToe> = Mcts::new(true);
    let mut rng2 = rng_from_seed(42);
    let m2 = eng2.best_move(&game, 64, &mut rng2).unwrap();
    assert_eq!(m1, m2);
}

#[test]
fn search_plays_out_a_whole_game_sensibly() {
    // Bot-vs-bot self-play must reach a terminal state within nine
    // moves, never stepping on an occupied cell.
    let mut game = TicTacToe::new();
    let mut rng = rng_from_seed(9);
    let mut steps = 0;
    while !game.game_ended {
        let player = game.first_player_turn;
        let mut eng: Mcts<TicTacToe> = Mcts::new(player);
        let m = eng.best_move(&game, 150, &mut rng).unwrap();
        game.place_move(m).unwrap();
        steps += 1;
        assert!(steps <= 9);
    }
}
