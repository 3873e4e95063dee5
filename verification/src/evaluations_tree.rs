//! The demonstration evaluator: a randomly generated balanced binary
//! decision tree.  Each internal node routes on one state coordinate against
//! a threshold; each leaf scores by a fixed weight vector dotted with the
//! state.

use vstd::prelude::*;

use crate::constants::{NODE_VALUE_MAX, NODE_VALUE_MIN, STATE_SIZE};
use crate::state_array::StateArray;
use crate::types::{Evaluator, State};
use crate::utils::{dot_prefix, dot_product, random_array, random_below_usize, random_in_range};

verus! {

/// A binary decision tree over state vectors.
pub enum EvaluationsTree {
    /// Scores a state by the dot product of this weight vector with it.
    Leaf([i32; STATE_SIZE]),
    /// Routes to `left` when the chosen coordinate is at most `value`, and
    /// to `right` otherwise.
    Node { left: Box<EvaluationsTree>, right: Box<EvaluationsTree>, value: i32, index: usize },
}

/// Well-formedness: every routing index addresses a real coordinate and
/// every leaf weight lies in the node-value domain, so that scores fit the
/// result type.
pub open spec fn tree_wf(tree: EvaluationsTree) -> bool
    decreases tree,
{
    match tree {
        EvaluationsTree::Leaf(weights) => forall|k: int|
            0 <= k < STATE_SIZE ==> NODE_VALUE_MIN <= #[trigger] weights[k] <= NODE_VALUE_MAX,
        EvaluationsTree::Node { left, right, value: _, index } => index < STATE_SIZE && tree_wf(
            *left,
        ) && tree_wf(*right),
    }
}

/// Whether a tree is a complete binary decision tree of exactly the given
/// depth: every path from the root passes through `depth` routing nodes and
/// ends in one leaf.
pub open spec fn tree_complete(tree: EvaluationsTree, depth: nat) -> bool
    decreases tree,
{
    match tree {
        EvaluationsTree::Leaf(_) => depth == 0,
        EvaluationsTree::Node { left, right, value: _, index: _ } => depth > 0 && tree_complete(
            *left,
            (depth - 1) as nat,
        ) && tree_complete(*right, (depth - 1) as nat),
    }
}

/// The score a tree assigns to a state: a pure function of the two values.
pub open spec fn tree_evaluate_spec(tree: EvaluationsTree, state: StateArray) -> int
    decreases tree,
{
    match tree {
        EvaluationsTree::Leaf(weights) => dot_prefix(weights, state.0, STATE_SIZE as int),
        EvaluationsTree::Node { left, right, value, index } => if state.0[index as int] <= value {
            tree_evaluate_spec(*left, state)
        } else {
            tree_evaluate_spec(*right, state)
        },
    }
}

/// Every prefix of the leaf dot product is bounded by the product of the
/// coordinate bounds, so no partial sum can overflow.
proof fn lemma_dot_prefix_bound(weights: [i32; STATE_SIZE], state: StateArray, k: int)
    requires
        forall|j: int|
            0 <= j < STATE_SIZE ==> NODE_VALUE_MIN <= #[trigger] weights[j] <= NODE_VALUE_MAX,
        state.valid(),
        0 <= k <= STATE_SIZE,
    ensures
        -(k * 25000000) <= dot_prefix(weights, state.0, k) <= k * 25000000,
    decreases k,
{
    if k > 0 {
        lemma_dot_prefix_bound(weights, state, k - 1);
        let w = weights[k - 1] as int;
        let s = state.0[k - 1] as int;
        assert(-25000000 <= w * s <= 25000000) by (nonlinear_arith)
            requires
                -500 <= w <= 500,
                -50000 <= s <= 50000,
        {}
    }
}

impl EvaluationsTree {
    /// Scores a state by descending from this tree's root to a leaf.
    pub fn evaluate_tree(&self, state: StateArray) -> (r: i32)
        requires
            tree_wf(*self),
            state.valid(),
        ensures
            r as int == tree_evaluate_spec(*self, state),
        decreases *self,
    {
        match self {
            EvaluationsTree::Leaf(weights) => {
                proof {
                    assert forall|k: int| 0 <= k <= STATE_SIZE implies i64::MIN <= #[trigger] dot_prefix(
                        *weights,
                        state.0,
                        k,
                    ) <= i64::MAX by {
                        lemma_dot_prefix_bound(*weights, state, k);
                    }
                    lemma_dot_prefix_bound(*weights, state, STATE_SIZE as int);
                }
                dot_product(*weights, state.0) as i32
            },
            EvaluationsTree::Node { left, right, value, index } => {
                if state.0[*index] <= *value {
                    left.evaluate_tree(state)
                } else {
                    right.evaluate_tree(state)
                }
            },
        }
    }
}

impl Evaluator<StateArray> for EvaluationsTree {
    open spec fn wf(&self) -> bool {
        tree_wf(*self)
    }

    open spec fn evaluate_spec(&self, state: StateArray) -> int {
        tree_evaluate_spec(*self, state)
    }

    fn evaluate(&self, state: StateArray) -> (r: i32) {
        self.evaluate_tree(state)
    }
}

/// Builds a leaf with a fresh random weight vector.
pub fn new_random_leaf() -> (t: EvaluationsTree)
    ensures
        tree_wf(t),
        tree_complete(t, 0),
{
    EvaluationsTree::Leaf(random_array(NODE_VALUE_MIN, NODE_VALUE_MAX))
}

/// Builds an internal node over the two subtrees, routing on a random
/// coordinate against a random threshold.
fn new_random_node(left: EvaluationsTree, right: EvaluationsTree) -> (t: EvaluationsTree)
    requires
        tree_wf(left),
        tree_wf(right),
    ensures
        tree_wf(t),
        forall|d: nat|
            tree_complete(left, d) && tree_complete(right, d) ==> #[trigger] tree_complete(
                t,
                d + 1,
            ),
{
    let index = random_below_usize(STATE_SIZE);
    let value = random_in_range(NODE_VALUE_MIN, NODE_VALUE_MAX - 1);

    EvaluationsTree::Node { left: Box::new(left), right: Box::new(right), value, index }
}

/// Builds a random balanced decision tree of the given depth: a single leaf
/// at depth zero, and a random node over two recursive builds otherwise.
/// Only the thresholds, routing coordinates and leaf weights are random;
/// the shape is a complete binary tree of exactly the given depth.
pub fn build_evaluations_tree(depth: usize) -> (t: EvaluationsTree)
    ensures
        tree_wf(t),
        tree_complete(t, depth as nat),
    decreases depth,
{
    if depth == 0 {
        new_random_leaf()
    } else {
        let left = build_evaluations_tree(depth - 1);
        let right = build_evaluations_tree(depth - 1);

        let t = new_random_node(left, right);
        proof {
            assert(tree_complete(t, ((depth - 1) as nat) + 1));
        }
        t
    }
}

} // verus!
