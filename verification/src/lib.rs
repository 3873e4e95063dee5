//! A Monte Carlo Tree Search (MCTS) engine for maximizing an opaque integer
//! scoring function over an abstract state space.
//!
//! The engine is generic over the state representation, the set of legal
//! moves ("mutations"), and the scoring function ("evaluator").  Selection
//! uses the UCB1 rule, rendered in fixed-point integer arithmetic; value
//! estimates for unexpanded nodes come from an epsilon-greedy hill-climbing
//! rollout policy.

pub mod constants;
pub mod evaluations_tree;
pub mod rollout_strategy;
pub mod state_array;
pub mod tree_search;
pub mod types;
pub mod ucb;
pub mod utils;
pub mod visited;

