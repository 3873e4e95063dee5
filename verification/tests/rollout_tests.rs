use mcts_search::evaluations_tree::EvaluationsTree;
use mcts_search::rollout_strategy::{get_rollout_value, rollout_strategy};
use mcts_search::state_array::{make_mutation, ArrayOp, StateArray};
use mcts_search::types::Evaluator;
use mcts_search::visited::VisitedStates;

fn first_coord_eval() -> EvaluationsTree {
    EvaluationsTree::Leaf([1, 0, 0, 0, 0, 0])
}

#[test]
fn rollout_never_regresses_below_start() {
    let eval = first_coord_eval();
    let muts = vec![
        make_mutation(0, ArrayOp::AddOne),
        make_mutation(0, ArrayOp::SubOne),
        make_mutation(0, ArrayOp::DivideTwo),
    ];
    let visited = VisitedStates::new();
    for depth in 0..6 {
        let s = StateArray([10, 0, 0, 0, 0, 0]);
        let r = rollout_strategy(s, &muts, &eval, depth, 3277, &visited);
        assert!(r >= eval.evaluate(s));
    }
}

#[test]
fn rollout_with_no_depth_is_the_evaluation() {
    let eval = first_coord_eval();
    let muts = vec![make_mutation(0, ArrayOp::AddOne)];
    let visited = VisitedStates::new();
    let s = StateArray([123, 0, 0, 0, 0, 0]);
    assert_eq!(rollout_strategy(s, &muts, &eval, 0, 0, &visited), 123);
}

#[test]
fn lookahead_with_no_depth_is_the_evaluation() {
    let eval = first_coord_eval();
    let muts = vec![make_mutation(0, ArrayOp::AddOne)];
    let visited = VisitedStates::new();
    let s = StateArray([55, 0, 0, 0, 0, 0]);
    assert_eq!(get_rollout_value(s, &muts, &eval, 0, 0, &visited), 55);
}

#[test]
fn lookahead_takes_the_best_candidate() {
    let eval = first_coord_eval();
    let muts = vec![
        make_mutation(0, ArrayOp::AddOne),
        make_mutation(0, ArrayOp::SubOne),
    ];
    let visited = VisitedStates::new();
    let s = StateArray([10, 0, 0, 0, 0, 0]);
    // Candidates score 11 and 9; the best improvement wins.
    assert_eq!(get_rollout_value(s, &muts, &eval, 1, 0, &visited), 11);
}

#[test]
fn lookahead_discounts_no_change_scores() {
    let eval = first_coord_eval();
    let muts = vec![
        make_mutation(0, ArrayOp::AddOne),
        make_mutation(0, ArrayOp::SubOne),
    ];
    let visited = VisitedStates::new();
    let s = StateArray([10, 0, 0, 0, 0, 0]);
    // The best candidate scores 11, but a candidate equal to the caller's
    // starting value never counts as progress.
    assert_eq!(get_rollout_value(s, &muts, &eval, 1, 11, &visited), 10);
}

#[test]
fn lookahead_discounts_visited_states() {
    let eval = first_coord_eval();
    let muts = vec![
        make_mutation(0, ArrayOp::AddOne),
        make_mutation(0, ArrayOp::SubOne),
    ];
    let mut visited = VisitedStates::new();
    visited.insert(StateArray([11, 0, 0, 0, 0, 0]));
    let s = StateArray([10, 0, 0, 0, 0, 0]);
    // The candidate scoring 11 is already visited; no other candidate
    // improves on the state's own score.
    assert_eq!(get_rollout_value(s, &muts, &eval, 1, 0, &visited), 10);
}

#[test]
fn visited_states_membership() {
    let mut visited: VisitedStates<StateArray> = VisitedStates::new();
    assert_eq!(visited.len(), 0);
    let a = StateArray([1, 0, 0, 0, 0, 0]);
    let b = StateArray([2, 0, 0, 0, 0, 0]);
    assert!(!visited.contains(&a));
    visited.insert(a);
    assert!(visited.contains(&a));
    assert!(!visited.contains(&b));
    visited.insert(b);
    assert!(visited.contains(&b));
    assert_eq!(visited.len(), 2);
}
