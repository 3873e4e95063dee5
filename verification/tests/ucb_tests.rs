use mcts_search::ucb::{score_lt_exec, ucb_bonus};

#[test]
fn bonus_is_zero_for_an_unrevisited_parent() {
    // ln(1) is zero, so the exploration bonus vanishes whatever the
    // exploration constant.
    assert_eq!(ucb_bonus(65536, 1, 1), 0);
    assert_eq!(ucb_bonus(999999, 1, 1), 0);
}

#[test]
fn bonus_is_zero_without_exploration() {
    assert_eq!(ucb_bonus(0, 100, 3), 0);
}

#[test]
fn bonus_shrinks_as_the_child_is_revisited() {
    let c = 65536;
    let b1 = ucb_bonus(c, 100, 1);
    let b2 = ucb_bonus(c, 100, 10);
    let b3 = ucb_bonus(c, 100, 100);
    assert!(b1 > b2);
    assert!(b2 > b3);
    assert!(b1 > 0);
}

#[test]
fn score_comparison_orders_averages() {
    // Averages 5/1 and 3/1, no bonus: 3 < 5 and not 5 < 3.
    assert!(score_lt_exec(3, 1, 0, 5, 1, 0));
    assert!(!score_lt_exec(5, 1, 0, 3, 1, 0));
}

#[test]
fn score_comparison_is_exact_on_ties() {
    // 4/2 equals 2/1: neither side is strictly below the other.
    assert!(!score_lt_exec(4, 2, 0, 2, 1, 0));
    assert!(!score_lt_exec(2, 1, 0, 4, 2, 0));
}

#[test]
fn score_comparison_includes_the_bonus() {
    // Equal averages: the larger bonus wins.
    assert!(score_lt_exec(1, 1, 0, 1, 1, 5));
    assert!(!score_lt_exec(1, 1, 5, 1, 1, 0));
}
