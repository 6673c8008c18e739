use mcts_engine::isqrt;
use mcts_engine::ln_fp;
use mcts_engine::rng_below;
use mcts_engine::rng_from_seed;
use mcts_engine::sat_add;
use mcts_engine::uct;
use mcts_engine::MoveScore;

#[test]
fn isqrt_exact_values() {
    assert_eq!(isqrt(0), 0);
    assert_eq!(isqrt(1), 1);
    assert_eq!(isqrt(15), 3);
    assert_eq!(isqrt(16), 4);
    assert_eq!(isqrt(24), 4);
    assert_eq!(isqrt(25), 5);
    assert_eq!(isqrt(u64::MAX), 4294967295);
}

#[test]
fn ln_fp_exact_values() {
    // ln(1) = 0 in any scale.
    assert_eq!(ln_fp(1), 0);
    // ln(2) in 16-bit fixed point, rounded down.
    assert_eq!(ln_fp(2), 45426);
    // Interpolated halfway between 2 and 4: 1.5 * ln2 in fixed point.
    assert_eq!(ln_fp(3), 68139);
    // Exactly two octaves.
    assert_eq!(ln_fp(4), 90852);
    assert_eq!(ln_fp(0), 0);
}

#[test]
fn uct_unvisited_child_priority_is_greatest() {
    // A never-visited child always gets the top priority, whatever the
    // totals say.
    assert_eq!(uct(0, 0, 0), i64::MAX);
    assert_eq!(uct(-100, 0, 17), i64::MAX);
    // And any visited child scores no higher.
    assert!(uct(5, 3, 17) < i64::MAX);
    assert!(uct(i64::MAX, 1, u64::MAX) <= i64::MAX);
}

#[test]
fn uct_exact_fixed_point_values() {
    // One visit, parent total one: the exploration term is zero and the
    // priority is the score in 16-bit fixed point.
    assert_eq!(uct(2, 1, 1), 2 * 65536);
    assert_eq!(uct(-2, 1, 1), -2 * 65536);
    assert_eq!(uct(0, 1, 1), 0);
    // More visits divide the exploitation term, truncating toward zero.
    assert_eq!(uct(2, 4, 1), 65536 / 2);
}

#[test]
fn uct_exploration_grows_with_parent_total() {
    let lonely = uct(0, 1, 1);
    let crowded = uct(0, 1, 1000);
    assert!(crowded > lonely);
}

#[test]
fn sat_add_clamps_at_the_ends() {
    assert_eq!(sat_add(1, 2), 3);
    assert_eq!(sat_add(i64::MAX, 1), i64::MAX);
    assert_eq!(sat_add(i64::MIN, -1), i64::MIN);
    assert_eq!(sat_add(i64::MAX, i64::MIN), -1);
}

#[test]
fn move_score_accessors() {
    assert!(MoveScore::Terminal(3).is_terminal());
    assert!(!MoveScore::NonTerminal(3).is_terminal());
    assert!(!MoveScore::Unscored.is_terminal());
    assert_eq!(MoveScore::Terminal(3).score(), 3);
    assert_eq!(MoveScore::NonTerminal(-4).score(), -4);
    assert_eq!(MoveScore::Unscored.score(), 0);
}

#[test]
fn rng_below_stays_in_range() {
    let mut rng = rng_from_seed(1);
    for bound in 1..50u64 {
        let v = rng_below(&mut rng, bound);
        assert!(v < bound);
    }
    // A bound of one leaves no choice at all.
    assert_eq!(rng_below(&mut rng, 1), 0);
}

#[test]
fn rng_same_seed_same_draws() {
    let mut a = rng_from_seed(99);
    let mut b = rng_from_seed(99);
    for _ in 0..20 {
        assert_eq!(rng_below(&mut a, 1000), rng_below(&mut b, 1000));
    }
}

#[test]
fn rng_different_seeds_differ() {
    let mut a = rng_from_seed(1);
    let mut b = rng_from_seed(2);
    let mut same = true;
    for _ in 0..20 {
        if rng_below(&mut a, 1000000) != rng_below(&mut b, 1000000) {
            same = false;
        }
    }
    assert!(!same);
}
