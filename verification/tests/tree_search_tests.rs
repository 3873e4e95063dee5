use mcts_search::evaluations_tree::EvaluationsTree;
use mcts_search::state_array::{make_mutation, ArrayOp, StateArray};
use mcts_search::tree_search::{search, SearchTree};
use mcts_search::types::{Evaluator, State};

fn first_coordinate() -> EvaluationsTree {
    EvaluationsTree::Leaf([1, 0, 0, 0, 0, 0])
}

const UCT_ONE: u32 = 65536;

#[test]
fn three_iterations_build_root_and_both_children() {
    // Root state, one incrementing and one decrementing move on the first
    // coordinate, and a score equal to that coordinate.
    let s0 = StateArray([10, 0, 0, 0, 0, 0]);
    let eval = first_coordinate();
    let muts = vec![
        make_mutation(0, ArrayOp::AddOne),
        make_mutation(0, ArrayOp::SubOne),
    ];
    let mut tree = SearchTree::new(s0, muts);

    for _ in 0..3 {
        tree.run_iteration(&eval, 2, 3277, UCT_ONE);
    }

    // Exactly the root and its two children exist, and the best state is
    // the incrementing child (the higher score).
    assert_eq!(tree.get_tree_size(), 3);
    assert_eq!(tree.best_state(&eval), StateArray([11, 0, 0, 0, 0, 0]));
}

#[test]
fn unvisited_sibling_is_simulated_before_revisits() {
    let s0 = StateArray([10, 0, 0, 0, 0, 0]);
    let eval = first_coordinate();
    let muts = vec![
        make_mutation(0, ArrayOp::AddOne),
        make_mutation(0, ArrayOp::SubOne),
    ];
    let mut tree = SearchTree::new(s0, muts);

    for _ in 0..3 {
        tree.run_iteration(&eval, 2, 3277, UCT_ONE);
    }

    // Iteration 1 simulates the root itself, iteration 2 expands and
    // simulates the first child, and iteration 3 must take the still
    // unvisited second child rather than revisit the first.
    assert_eq!(tree.node_visits(0), 3);
    assert_eq!(tree.node_visits(1), 1);
    assert_eq!(tree.node_visits(2), 1);
}

#[test]
fn exhausted_expansion_marks_the_root_terminal() {
    // A single-state universe: the only move clamps back onto the root
    // state, which is already visited.
    let s0 = StateArray([50000, 0, 0, 0, 0, 0]);
    let eval = first_coordinate();
    let muts = vec![make_mutation(0, ArrayOp::AddOne)];
    let mut tree = SearchTree::new(s0, muts);

    for n in 1..=5 {
        tree.run_iteration(&eval, 2, 3277, UCT_ONE);
        assert_eq!(tree.get_tree_size(), 1);
        assert_eq!(tree.node_visits(0), n);
    }
}

#[test]
fn terminal_penalty_values_are_exact() {
    let s0 = StateArray([50000, 0, 0, 0, 0, 0]);
    let eval = first_coordinate();
    let muts = vec![make_mutation(0, ArrayOp::AddOne)];
    let mut tree = SearchTree::new(s0, muts);

    // The first iteration simulates the root: every reachable state equals
    // the root, so the rollout returns its score exactly.
    assert_eq!(tree.run_iteration(&eval, 2, 3277, UCT_ONE), 50000);
    // Expansion then finds only duplicates: the penalty is the negative
    // running average damped by the next visit count, truncating.
    assert_eq!(tree.run_iteration(&eval, 2, 3277, UCT_ONE), -25000);
    // Totals so far: 50000 - 25000 = 25000 over 2 visits.
    assert_eq!(tree.run_iteration(&eval, 2, 3277, UCT_ONE), -4166);
}

#[test]
fn root_visit_count_equals_the_iteration_count() {
    let s0 = StateArray([0, 0, 0, 0, 0, 0]);
    let eval = first_coordinate();
    let mut tree = SearchTree::new(s0, StateArray::get_possible_mutations());

    for n in 1..=25u32 {
        tree.run_iteration(&eval, 3, 3277, UCT_ONE);
        assert_eq!(tree.node_visits(0), n);
    }
}

#[test]
fn no_two_nodes_carry_equal_states() {
    let s0 = StateArray([7, -3, 20, 0, 1, 2]);
    let eval = EvaluationsTree::Leaf([1, 1, 1, 1, 1, 1]);
    let mut tree = SearchTree::new(s0, StateArray::get_possible_mutations());

    for _ in 0..8 {
        tree.run_iteration(&eval, 2, 3277, UCT_ONE);
    }

    let n = tree.get_tree_size() as usize;
    assert!(n > 1);
    let states: Vec<StateArray> = (0..n).map(|i| tree.node_state(i)).collect();
    for i in 0..n {
        for j in (i + 1)..n {
            assert_ne!(states[i], states[j]);
        }
    }
}

#[test]
fn zero_loops_returns_the_start_state_and_a_single_node() {
    let s0 = StateArray([42, -1, 0, 0, 0, 17]);
    let eval = first_coordinate();
    let (best, size) = search(s0, &eval, 0, 3, 3277, UCT_ONE);
    assert_eq!(best, s0);
    assert_eq!(size, 1);
}

#[test]
fn search_never_returns_a_state_below_the_start() {
    let s0 = StateArray::random_state();
    let eval = mcts_search::evaluations_tree::build_evaluations_tree(6);
    let (best, size) = search(s0, &eval, 40, 3, 3277, UCT_ONE);
    assert!(size >= 1);
    assert!(eval.evaluate(best) >= eval.evaluate(s0));
}

#[test]
fn search_climbs_a_simple_gradient() {
    // With the score equal to the first coordinate, a short search must
    // strictly improve on the start.
    let s0 = StateArray([10, 0, 0, 0, 0, 0]);
    let eval = first_coordinate();
    let muts = vec![
        make_mutation(0, ArrayOp::AddOne),
        make_mutation(0, ArrayOp::SubOne),
        make_mutation(0, ArrayOp::MultiplyTwo),
    ];
    let mut tree = SearchTree::new(s0, muts);
    for _ in 0..30 {
        tree.run_iteration(&eval, 3, 3277, UCT_ONE);
    }
    let best = tree.best_state(&eval);
    assert!(eval.evaluate(best) > 10);
}
