use mcts_search::evaluations_tree::{build_evaluations_tree, new_random_leaf, EvaluationsTree};
use mcts_search::state_array::StateArray;
use mcts_search::types::Evaluator;
use mcts_search::utils::{dot_product, random_array, random_below_u32, random_below_usize, random_in_range};

#[test]
fn dot_product_exact_value() {
    let r = dot_product([1, 2, 3], [4, 5, 6]);
    assert_eq!(r, 32);
}

#[test]
fn dot_product_handles_negatives() {
    let r = dot_product([-1, 2, -3, 4, -5, 6], [6, 5, 4, 3, 2, 1]);
    assert_eq!(r, -6 + 10 - 12 + 12 - 10 + 6);
}

#[test]
fn leaf_scores_by_dot_product() {
    let tree = EvaluationsTree::Leaf([1, 2, 3, 4, 5, 6]);
    let s = StateArray([1, 1, 1, 1, 1, 1]);
    assert_eq!(tree.evaluate(s), 21);
}

#[test]
fn node_routes_on_threshold() {
    let tree = EvaluationsTree::Node {
        left: Box::new(EvaluationsTree::Leaf([1, 0, 0, 0, 0, 0])),
        right: Box::new(EvaluationsTree::Leaf([0, 1, 0, 0, 0, 0])),
        value: 10,
        index: 0,
    };
    // Coordinate 0 at most 10: score by the left leaf (first coordinate).
    assert_eq!(tree.evaluate(StateArray([7, 99, 0, 0, 0, 0])), 7);
    // Coordinate 0 above 10: score by the right leaf (second coordinate).
    assert_eq!(tree.evaluate(StateArray([11, 99, 0, 0, 0, 0])), 99);
}

#[test]
fn evaluator_is_deterministic_on_equal_states() {
    let tree = build_evaluations_tree(5);
    for _ in 0..10 {
        let s = StateArray([17, -40000, 123, 0, 49999, -5]);
        let t = StateArray([17, -40000, 123, 0, 49999, -5]);
        assert_eq!(tree.evaluate(s), tree.evaluate(t));
    }
}

#[test]
fn random_leaf_and_tree_evaluate_within_reason() {
    // Weights lie in [-500, 500) and coordinates in [-50000, 50000], so a
    // score can never leave 6 * 500 * 50000 in magnitude.
    let leaf = new_random_leaf();
    let tree = build_evaluations_tree(3);
    let s = StateArray([-50000, 50000, -50000, 50000, -50000, 50000]);
    let bound = 6 * 500 * 50000;
    assert!(leaf.evaluate(s).abs() <= bound);
    assert!(tree.evaluate(s).abs() <= bound);
}

fn measured_depth(tree: &EvaluationsTree) -> usize {
    match tree {
        EvaluationsTree::Leaf(_) => 0,
        EvaluationsTree::Node { left, right, .. } => {
            let dl = measured_depth(left);
            let dr = measured_depth(right);
            assert_eq!(dl, dr);
            1 + dl
        }
    }
}

#[test]
fn built_tree_is_complete_with_the_requested_depth() {
    assert_eq!(measured_depth(&build_evaluations_tree(0)), 0);
    assert_eq!(measured_depth(&build_evaluations_tree(1)), 1);
    assert_eq!(measured_depth(&build_evaluations_tree(4)), 4);
}

#[test]
fn random_array_respects_bounds() {
    let a: [i32; 6] = random_array(-3, 4);
    for k in 0..6 {
        assert!(a[k] >= -3 && a[k] < 4);
    }
}

#[test]
fn random_draws_respect_bounds() {
    // A one-element range forces the only possible value.
    assert_eq!(random_in_range(5, 6), 5);
    assert_eq!(random_below_usize(1), 0);
    assert_eq!(random_below_u32(1), 0);
    for _ in 0..20 {
        let v = random_in_range(-2, 3);
        assert!(v >= -2 && v < 3);
        assert!(random_below_usize(7) < 7);
        assert!(random_below_u32(9) < 9);
    }
}
