//! The abstractions that decouple the search engine from any one problem
//! instance: a searchable point (`State`), its legal moves, and the scoring
//! oracle (`Evaluator`).

use vstd::prelude::*;

verus! {

/// One point in the search space: an opaque, immutable, copyable value.
///
/// A state type brings its own move representation (`Mutation`), a valid
/// domain (`valid`), and a fixed, enumerable, never-empty move set.  All
/// transitions produce a new state; nothing is mutated in place.
pub trait State: Copy + Sized {
    /// The representation of one legal move for this state type.
    type Mutation: Copy;

    /// Whether the value lies in the state type's valid domain.
    spec fn valid(self) -> bool;

    /// The mathematical meaning of applying a move: a pure function from
    /// state to state, total over the valid domain.
    spec fn apply_spec(self, m: Self::Mutation) -> Self;

    /// The complete, fixed move set for this state type, in enumeration
    /// order.
    spec fn mutation_seq() -> Seq<Self::Mutation>;

    /// Applies one move, producing a new state.  Results stay in the valid
    /// domain: implementations clamp or saturate rather than fail.
    fn apply(self, m: Self::Mutation) -> (r: Self)
        requires
            self.valid(),
        ensures
            r == self.apply_spec(m),
            r.valid(),
    ;

    /// Decides equality of two states.
    fn eq_state(&self, other: &Self) -> (r: bool)
        ensures
            r == (*self == *other),
    ;

    /// Enumerates the move set; the result is never empty.
    fn get_possible_mutations() -> (ms: Vec<Self::Mutation>)
        ensures
            ms@ == Self::mutation_seq(),
            ms@.len() > 0,
    ;

    /// Draws a fresh random state within the valid domain.
    fn random_state() -> (s: Self)
        ensures
            s.valid(),
    ;
}

/// The scoring oracle the search optimizes against: a pure, deterministic,
/// possibly expensive function from state to integer score.
///
/// The engine treats the oracle as a black box; the score of a state is
/// pinned by `evaluate_spec`, a mathematical function of the evaluator value
/// and the state alone.
pub trait Evaluator<T: State> {
    /// Whether this evaluator value is well formed; `evaluate` may only be
    /// called on well-formed evaluators.
    spec fn wf(&self) -> bool;

    /// The score of a state: a function of the evaluator and the state, and
    /// of nothing else.
    spec fn evaluate_spec(&self, state: T) -> int;

    /// Scores a state.
    fn evaluate(&self, state: T) -> (r: i32)
        requires
            self.wf(),
            state.valid(),
        ensures
            r as int == self.evaluate_spec(state),
    ;
}

/// Scoring is deterministic: two calls on equal states yield equal scores,
/// because every score equals `evaluate_spec`, a function of the evaluator
/// and the state value alone.
pub proof fn lemma_evaluator_deterministic<T: State, E: Evaluator<T>>(
    evaluator: &E,
    state0: T,
    state1: T,
)
    requires
        state0 == state1,
    ensures
        evaluator.evaluate_spec(state0) == evaluator.evaluate_spec(state1),
{
}

} // verus!
