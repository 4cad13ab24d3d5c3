use mcts::model::GameState;
use mcts::nim::NimState;
use mcts::score::{isqrt, ln_fp, log2_fp, ucb1_fp};

#[test]
fn isqrt_exact_values() {
    assert_eq!(isqrt(0), 0);
    assert_eq!(isqrt(1), 1);
    assert_eq!(isqrt(15), 3);
    assert_eq!(isqrt(16), 4);
    assert_eq!(isqrt(17), 4);
    assert_eq!(isqrt(u64::MAX), 4294967295);
}

#[test]
fn log2_fp_on_powers_of_two() {
    assert_eq!(log2_fp(1), 0);
    assert_eq!(log2_fp(2), 65536);
    assert_eq!(log2_fp(4), 131072);
    assert_eq!(log2_fp(1024), 10 * 65536);
}

#[test]
fn log2_fp_is_monotone_nearby() {
    let a = log2_fp(5);
    let b = log2_fp(6);
    assert!(2 * 65536 < a);
    assert!(a < b);
    assert!(b < 3 * 65536);
}

#[test]
fn ln_fp_exact_values() {
    assert_eq!(ln_fp(1), 0);
    // log2(2) = 1.0 in Q16, scaled by ln(2) in Q16
    assert_eq!(ln_fp(2), 45426);
    assert_eq!(ln_fp(4), 2 * 45426);
}

#[test]
fn ucb1_with_one_parent_visit_is_the_mean() {
    // ln(1) = 0, so the exploration term vanishes
    assert_eq!(ucb1_fp(3, 1, 1), 3 * 65536);
    assert_eq!(ucb1_fp(-5, 1, 1), -5 * 65536);
    // 7/2 in Q16: 3 * 65536 + (1 * 65536) / 2
    assert_eq!(ucb1_fp(7, 2, 1), 229376);
}

#[test]
fn ucb1_exploration_grows_with_parent_visits() {
    let a = ucb1_fp(0, 1, 2);
    let b = ucb1_fp(0, 1, 8);
    assert!(0 < a);
    assert!(a < b);
}

#[test]
fn nim_actions_and_terminal() {
    assert_eq!(NimState::new(0).get_actions(), Vec::<u64>::new());
    assert_eq!(NimState::new(3).get_actions(), vec![1, 2, 3]);
    assert_eq!(NimState::new(100).get_actions(), vec![1, 2, 3, 4, 5, 6, 7, 8, 9, 10]);
    assert_eq!(NimState::new(0).is_terminal(), Some(1));
    assert_eq!(NimState::new(2).is_terminal(), None);
    assert_eq!(NimState::new(9).get_next_state(4).heap, 5);
}
