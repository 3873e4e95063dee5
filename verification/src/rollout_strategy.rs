//! The rollout policy: an epsilon-greedy hill-climbing simulation that
//! cheaply estimates the best score reachable from a state without building
//! tree nodes.
//!
//! Each step ranks every mutation by a short fixed-depth lookahead, usually
//! follows the best one, and with probability controlled by
//! `rollout_epsilon` follows a uniformly random one instead (a larger
//! epsilon means a greedier rollout).  The returned estimate never drops
//! below the evaluation of the starting state.

use vstd::prelude::*;

use crate::constants::{EPSILON_ONE, HEURISTIC_SEARCH_DEPTH};
use crate::types::{Evaluator, State};
use crate::utils::{random_below_u32, random_below_usize};
use crate::visited::VisitedStates;

verus! {

/// Whether consecutive entries of `path` are one legal move apart: each
/// next state is some mutation of the set applied to the one before.
pub open spec fn is_mutation_path<T: State>(mutations: Seq<T::Mutation>, path: Seq<T>) -> bool
    decreases path.len(),
{
    path.len() <= 1 || ((exists|j: int|
        0 <= j < mutations.len() && path[1] == path[0].apply_spec(#[trigger] mutations[j]))
        && is_mutation_path(mutations, path.drop_first()))
}

/// Whether `to` can be produced from `from` by finitely many (possibly
/// zero) applications of moves from the set.
pub open spec fn reachable_by<T: State>(mutations: Seq<T::Mutation>, from: T, to: T) -> bool {
    exists|path: Seq<T>|
        path.len() >= 1 && path[0] == from && path[path.len() - 1] == to && is_mutation_path(
            mutations,
            path,
        )
}

/// Every state reaches itself, by the empty move sequence.
pub proof fn lemma_reachable_refl<T: State>(mutations: Seq<T::Mutation>, state: T)
    ensures
        reachable_by(mutations, state, state),
{
    let path = seq![state];
    assert(path.len() == 1 && path[0] == state && path[path.len() - 1] == state
        && is_mutation_path(mutations, path));
}

/// A legal move appended to a legal path keeps it legal.
proof fn lemma_mutation_path_push<T: State>(mutations: Seq<T::Mutation>, path: Seq<T>, next: T)
    requires
        path.len() >= 1,
        is_mutation_path(mutations, path),
        exists|j: int|
            0 <= j < mutations.len() && next == path[path.len() - 1].apply_spec(
                #[trigger] mutations[j],
            ),
    ensures
        is_mutation_path(mutations, path.push(next)),
    decreases path.len(),
{
    let p = path.push(next);
    if path.len() == 1 {
        assert(p[1] == next && p[0] == path[0]);
        assert(p.drop_first() =~= seq![next]);
        assert(is_mutation_path(mutations, p.drop_first()));
    } else {
        assert(p.drop_first() =~= path.drop_first().push(next));
        assert(path.drop_first()[path.drop_first().len() - 1] == path[path.len() - 1]);
        lemma_mutation_path_push(mutations, path.drop_first(), next);
        assert(p[1] == path[1] && p[0] == path[0]);
    }
}

/// One more legal move keeps a state reachable.
pub proof fn lemma_reachable_step<T: State>(mutations: Seq<T::Mutation>, from: T, mid: T, to: T)
    requires
        reachable_by(mutations, from, mid),
        exists|j: int|
            0 <= j < mutations.len() && to == mid.apply_spec(#[trigger] mutations[j]),
    ensures
        reachable_by(mutations, from, to),
{
    let path = choose|path: Seq<T>|
        path.len() >= 1 && path[0] == from && path[path.len() - 1] == mid && is_mutation_path(
            mutations,
            path,
        );
    lemma_mutation_path_push(mutations, path, to);
    let full = path.push(to);
    assert(full.len() >= 1 && full[0] == from && full[full.len() - 1] == to && is_mutation_path(
        mutations,
        full,
    ));
}

/// The greatest evaluator score among the states of `path`.
pub open spec fn path_max_eval<T: State, E: Evaluator<T>>(evaluator: E, path: Seq<T>) -> int
    decreases path.len(),
{
    if path.len() <= 1 {
        evaluator.evaluate_spec(path[0])
    } else {
        let rest = path_max_eval(evaluator, path.drop_first());
        if evaluator.evaluate_spec(path[0]) >= rest {
            evaluator.evaluate_spec(path[0])
        } else {
            rest
        }
    }
}

/// The value of the lookahead helper: with no depth left, the state's own
/// evaluation; otherwise the result of scanning every mutation.
pub open spec fn rollout_value_spec<T: State, E: Evaluator<T>>(
    evaluator: E,
    state: T,
    mutations: Seq<T::Mutation>,
    depth: nat,
    start_value: int,
    visited: Seq<T>,
) -> int
    decreases depth, 1nat, 0nat,
{
    if depth == 0 {
        evaluator.evaluate_spec(state)
    } else {
        rollout_scan_spec(evaluator, state, mutations, depth, mutations.len(), start_value, visited)
    }
}

/// The lookahead helper after scanning the first `k` mutations: the best
/// deeper value found so far, counting a candidate as an improvement only
/// when it beats the current best, differs from the caller's starting
/// value, and does not land on an already-visited state.
pub open spec fn rollout_scan_spec<T: State, E: Evaluator<T>>(
    evaluator: E,
    state: T,
    mutations: Seq<T::Mutation>,
    depth: nat,
    k: nat,
    start_value: int,
    visited: Seq<T>,
) -> int
    decreases depth, 0nat, k,
{
    if k == 0 {
        evaluator.evaluate_spec(state)
    } else {
        let prev = rollout_scan_spec(
            evaluator,
            state,
            mutations,
            depth,
            (k - 1) as nat,
            start_value,
            visited,
        );
        let candidate = state.apply_spec(mutations[k - 1]);
        let v = if depth == 0 {
            evaluator.evaluate_spec(candidate)
        } else {
            rollout_value_spec(
                evaluator,
                candidate,
                mutations,
                (depth - 1) as nat,
                start_value,
                visited,
            )
        };
        if v > prev && v != start_value && !visited.contains(candidate) {
            v
        } else {
            prev
        }
    }
}

/// The fixed-depth lookahead helper: the best evaluation reachable from
/// `state` within `depth` further plies, discounting moves that revisit a
/// state in `previous_states` and moves whose score merely equals
/// `start_value` (a move that does not change the score is never treated as
/// progress).
pub fn get_rollout_value<T: State, E: Evaluator<T>>(
    state: T,
    mutations: &Vec<T::Mutation>,
    evaluator: &E,
    depth: usize,
    start_value: i32,
    previous_states: &VisitedStates<T>,
) -> (r: i32)
    requires
        evaluator.wf(),
        state.valid(),
    ensures
        r as int == rollout_value_spec(
            *evaluator,
            state,
            mutations@,
            depth as nat,
            start_value as int,
            previous_states@,
        ),
        r as int >= evaluator.evaluate_spec(state),
    decreases depth,
{
    let mut best_value = evaluator.evaluate(state);

    if depth == 0 {
        return best_value;
    }

    let mut m: usize = 0;
    while m < mutations.len()
        invariant
            evaluator.wf(),
            state.valid(),
            1 <= depth,
            m <= mutations@.len(),
            best_value as int == rollout_scan_spec(
                *evaluator,
                state,
                mutations@,
                depth as nat,
                m as nat,
                start_value as int,
                previous_states@,
            ),
            best_value as int >= evaluator.evaluate_spec(state),
        decreases mutations@.len() - m,
    {
        let new_state = state.apply(mutations[m]);
        let v = get_rollout_value(
            new_state,
            mutations,
            evaluator,
            depth - 1,
            start_value,
            previous_states,
        );
        if v > best_value && v != start_value && !previous_states.contains(&new_state) {
            best_value = v;
        }
        m += 1;
    }

    best_value
}

/// One rollout from `state`: estimates the best score reachable within
/// `depth` plies.  The result is exactly the greatest evaluator score seen
/// along one simulated path of `depth` legal moves from `state` — so it
/// never regresses below the starting state's own evaluation, and with no
/// depth it is exactly that evaluation.
pub fn rollout_strategy<T: State, E: Evaluator<T>>(
    state: T,
    mutations: &Vec<T::Mutation>,
    evaluator: &E,
    depth: usize,
    rollout_epsilon: u32,
    previous_states: &VisitedStates<T>,
) -> (r: i32)
    requires
        evaluator.wf(),
        state.valid(),
        mutations@.len() > 0,
    ensures
        r as int >= evaluator.evaluate_spec(state),
        depth == 0 ==> r as int == evaluator.evaluate_spec(state),
        exists|path: Seq<T>|
            path.len() == depth + 1 && path[0] == state && is_mutation_path(mutations@, path)
                && r as int == path_max_eval(*evaluator, path),
    decreases depth,
{
    let start_value = evaluator.evaluate(state);

    if depth == 0 {
        proof {
            let path = seq![state];
            assert(path.len() == depth + 1 && path[0] == state && is_mutation_path(
                mutations@,
                path,
            ) && start_value as int == path_max_eval(*evaluator, path));
        }
        return start_value;
    }

    let mut best_value: i32 = i32::MIN;
    let mut best_mutation: usize = 0;
    let mut m: usize = 0;

    while m < mutations.len()
        invariant
            evaluator.wf(),
            state.valid(),
            m <= mutations@.len(),
            mutations@.len() > 0,
            best_mutation < mutations@.len(),
        decreases mutations@.len() - m,
    {
        let new_state = state.apply(mutations[m]);
        let new_state_value = get_rollout_value(
            new_state,
            mutations,
            evaluator,
            HEURISTIC_SEARCH_DEPTH,
            start_value,
            previous_states,
        );
        if new_state_value > best_value {
            best_value = new_state_value;
            best_mutation = m;
        }
        m += 1;
    }

    let draw = random_below_u32(EPSILON_ONE);
    if rollout_epsilon <= draw {
        best_mutation = random_below_usize(mutations.len());
    }

    let next_state = state.apply(mutations[best_mutation]);
    let recursive_value = rollout_strategy(
        next_state,
        mutations,
        evaluator,
        depth - 1,
        rollout_epsilon,
        previous_states,
    );

    let result = if start_value >= recursive_value {
        start_value
    } else {
        recursive_value
    };
    proof {
        let tail = choose|p: Seq<T>|
            p.len() == (depth - 1) + 1 && p[0] == next_state && is_mutation_path(mutations@, p)
                && recursive_value as int == path_max_eval(*evaluator, p);
        let full = seq![state] + tail;
        assert(full.drop_first() =~= tail);
        assert(full[0] == state && full[1] == tail[0]);
        assert(full[1] == full[0].apply_spec(mutations@[best_mutation as int]));
        assert(is_mutation_path(mutations@, full));
        assert(path_max_eval(*evaluator, full) == if evaluator.evaluate_spec(state)
            >= path_max_eval(*evaluator, tail) {
            evaluator.evaluate_spec(state)
        } else {
            path_max_eval(*evaluator, tail)
        });
        assert(full.len() == depth + 1 && full[0] == state && is_mutation_path(mutations@, full)
            && result as int == path_max_eval(*evaluator, full));
    }
    result
}

} // verus!
