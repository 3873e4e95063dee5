//! The set of state values already produced during one search run.  It is
//! owned by the search tree for the duration of one run, prunes mutation
//! targets that would revisit an existing node, and biases the rollout
//! policy away from explored states.

use vstd::prelude::*;

use crate::types::State;

verus! {

/// No two entries of the sequence are equal.
pub open spec fn distinct_seq<T>(s: Seq<T>) -> bool {
    forall|i: int, j: int| 0 <= i < j < s.len() ==> s[i] != s[j]
}

/// Pushing an entry that is not yet present keeps a sequence free of
/// duplicates.
pub proof fn lemma_distinct_push<T>(s: Seq<T>, x: T)
    requires
        distinct_seq(s),
        !s.contains(x),
    ensures
        distinct_seq(s.push(x)),
{
    assert forall|i: int, j: int| 0 <= i < j < s.push(x).len() implies s.push(x)[i] != s.push(x)[j] by {
        if j < s.len() {
            assert(s.push(x)[i] == s[i] && s.push(x)[j] == s[j]);
        } else {
            assert(s.push(x)[j] == x && s.push(x)[i] == s[i]);
            assert(s.contains(s[i])) by {
                assert(s[i] == s[i]);
            }
        }
    }
}

/// An insertion-ordered collection of previously produced states, with
/// membership decided by state equality.
pub struct VisitedStates<T: State> {
    items: Vec<T>,
}

impl<T: State> View for VisitedStates<T> {
    type V = Seq<T>;

    closed spec fn view(&self) -> Seq<T> {
        self.items@
    }
}

impl<T: State> VisitedStates<T> {
    /// Creates an empty set.
    pub fn new() -> (v: Self)
        ensures
            v@ == Seq::<T>::empty(),
    {
        VisitedStates { items: Vec::new() }
    }

    /// The number of states recorded so far.
    pub fn len(&self) -> (n: usize)
        ensures
            n == self@.len(),
    {
        self.items.len()
    }

    /// Whether an equal state has been recorded before.
    pub fn contains(&self, state: &T) -> (r: bool)
        ensures
            r == self@.contains(*state),
    {
        let mut k: usize = 0;
        let mut found: bool = false;

        while k < self.items.len()
            invariant
                k <= self.items.len(),
                found == (exists|j: int| 0 <= j < k && self.items@[j] == *state),
            decreases self.items.len() - k,
        {
            if self.items[k].eq_state(state) {
                found = true;
            }
            k += 1;
        }

        found
    }

    /// Records a state not yet present.
    pub fn insert(&mut self, state: T)
        requires
            !old(self)@.contains(state),
        ensures
            final(self)@ == old(self)@.push(state),
    {
        self.items.push(state);
    }
}

} // verus!
