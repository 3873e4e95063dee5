//! The MCTS node graph and search driver: selection by fixed-point UCB1,
//! one-node-at-a-time expansion with duplicate-state suppression, value
//! estimation by the rollout policy, and backpropagation of every estimate
//! along the whole selection path to the root.
//!
//! Nodes live in an arena: a node's children are arena indices, and a child
//! is always created after its parent, so child indices strictly exceed the
//! parent's.  A node's value statistics are kept exactly, as the total of
//! all backpropagated values over the visit count.

use vstd::prelude::*;

use crate::rollout_strategy::{
    is_mutation_path, lemma_reachable_refl, lemma_reachable_step, path_max_eval, reachable_by,
    rollout_strategy,
};
use crate::types::{Evaluator, State};
use crate::ucb::{
    lemma_div_below, lemma_div_le, lemma_div_le_self, lemma_rational_le_lt_trans, lemma_rational_lt_trans, score_lt,
    score_lt_exec, score_num, ucb_bonus, ucb_bonus_spec,
};
use crate::visited::{distinct_seq, lemma_distinct_push, VisitedStates};

verus! {

/// One node of the search graph.  The running average of backpropagated
/// values is represented exactly: it is `total_evaluation / times_visited`.
struct TreeSearchNode<T: State> {
    state: T,
    times_visited: u32,
    total_evaluation: i64,
    children: Vec<usize>,
}

/// The search tree of one run: the node arena, the set of every state
/// materialized so far, and the move set enumerated once at the start.
pub struct SearchTree<T: State> {
    nodes: Vec<TreeSearchNode<T>>,
    visited: VisitedStates<T>,
    mutations: Vec<T::Mutation>,
}

impl<T: State> SearchTree<T> {
    /// The number of materialized nodes, root included.
    pub closed spec fn size_spec(self) -> nat {
        self.nodes@.len()
    }

    /// The state the tree was rooted at.
    pub closed spec fn root_state(self) -> T {
        self.nodes@[0].state
    }

    /// How often node `i` has received a backpropagated value.
    pub closed spec fn visits_of(self, i: int) -> nat {
        self.nodes@[i].times_visited as nat
    }

    /// The total of the values backpropagated through node `i`.
    pub closed spec fn total_of(self, i: int) -> int {
        self.nodes@[i].total_evaluation as int
    }

    /// The arena indices of node `i`'s children, in creation order.
    pub closed spec fn children_of(self, i: int) -> Seq<usize> {
        self.nodes@[i].children@
    }

    /// The states of all materialized nodes, in creation order.
    pub closed spec fn states_seq(self) -> Seq<T> {
        self.nodes@.map(|i: int, n: TreeSearchNode<T>| n.state)
    }

    /// The recorded visited states.
    pub closed spec fn visited_seq(self) -> Seq<T> {
        self.visited@
    }

    /// The move set this run searches over.
    pub closed spec fn mutations_spec(self) -> Seq<T::Mutation> {
        self.mutations@
    }

    /// Well-formedness of one node: a valid state, exact and bounded value
    /// statistics, a visit count never above the root's, and a strictly
    /// increasing list of child indices that all point past this node
    /// (children are created after their parent).  A node acquires children
    /// only once it has been visited.
    spec fn node_wf(self, i: int) -> bool {
        let n = self.nodes@[i];
        &&& n.state.valid()
        &&& n.times_visited <= self.nodes@[0].times_visited
        &&& i32::MIN * (n.times_visited as int) <= n.total_evaluation as int <= i32::MAX * (
        n.times_visited as int)
        &&& (n.children@.len() > 0 ==> n.times_visited >= 1)
        &&& forall|k: int|
            0 <= k < n.children@.len() ==> i < ((#[trigger] n.children@[k]) as int)
                && ((n.children@[k]) as int) < self.nodes@.len()
        &&& forall|k1: int, k2: int|
            0 <= k1 < k2 < n.children@.len() ==> n.children@[k1] < n.children@[k2]
    }

    /// Well-formedness of the whole tree: at least the root exists, every
    /// node is well formed, the visited set holds exactly the node states
    /// in creation order, no two node states are equal, and the move set is
    /// not empty.
    pub closed spec fn wf(self) -> bool {
        &&& self.nodes@.len() >= 1
        &&& forall|i: int| 0 <= i < self.nodes@.len() ==> self.node_wf(i)
        &&& self.visited@ == self.states_seq()
        &&& distinct_seq(self.states_seq())
        &&& self.mutations@.len() > 0
    }

    /// Creates a tree holding only the root, which is unvisited, and
    /// records the root state as visited.
    pub fn new(state: T, mutations: Vec<T::Mutation>) -> (tree: Self)
        requires
            state.valid(),
            mutations@.len() > 0,
        ensures
            tree.wf(),
            tree.size_spec() == 1,
            tree.root_state() == state,
            tree.visits_of(0) == 0,
            tree.total_of(0) == 0,
            tree.children_of(0).len() == 0,
            tree.states_seq() == seq![state],
            tree.visited_seq() == seq![state],
            tree.mutations_spec() == mutations@,
    {
        let mut nodes: Vec<TreeSearchNode<T>> = Vec::new();
        nodes.push(
            TreeSearchNode { state, times_visited: 0, total_evaluation: 0, children: Vec::new() },
        );
        let mut visited = VisitedStates::new();
        visited.insert(state);
        let tree = SearchTree { nodes, visited, mutations };
        proof {
            assert(tree.visited@ =~= tree.states_seq());
            assert(tree.states_seq() =~= seq![state]);
        }
        tree
    }

    /// The number of materialized nodes, root included.
    pub fn get_tree_size(&self) -> (n: u32)
        requires
            self.wf(),
            self.size_spec() <= u32::MAX as nat,
        ensures
            n as nat == self.size_spec(),
            n >= 1,
    {
        self.nodes.len() as u32
    }

    /// How often node `i` has received a backpropagated value (the root is
    /// node 0 and is on every backpropagation path).
    pub fn node_visits(&self, i: usize) -> (n: u32)
        requires
            self.wf(),
            i < self.size_spec(),
        ensures
            n as nat == self.visits_of(i as int),
    {
        self.nodes[i].times_visited
    }

    /// The state of node `i`.
    pub fn node_state(&self, i: usize) -> (s: T)
        requires
            self.wf(),
            i < self.size_spec(),
        ensures
            s == self.states_seq()[i as int],
    {
        self.nodes[i].state
    }

    /// Folds one backpropagated value into node `i`'s running statistics:
    /// one more visit, and the value added to the running total (keeping
    /// the average exact).  The root is updated first on any path, so every
    /// other node stays strictly below the root's count.
    fn update_average(&mut self, i: usize, value: i32)
        requires
            old(self).wf(),
            i < old(self).size_spec(),
            i == 0 ==> old(self).visits_of(0) < u32::MAX as nat,
            i != 0 ==> old(self).visits_of(i as int) < old(self).visits_of(0),
        ensures
            final(self).wf(),
            final(self).size_spec() == old(self).size_spec(),
            final(self).states_seq() == old(self).states_seq(),
            final(self).visited_seq() == old(self).visited_seq(),
            final(self).mutations_spec() == old(self).mutations_spec(),
            final(self).visits_of(i as int) == old(self).visits_of(i as int) + 1,
            final(self).total_of(i as int) == old(self).total_of(i as int) + value,
            final(self).children_of(i as int) == old(self).children_of(i as int),
            final(self).nodes@[i as int].state == old(self).nodes@[i as int].state,
            forall|j: int|
                0 <= j < old(self).size_spec() && j != i ==> final(self).nodes@[j] == old(
                    self,
                ).nodes@[j],
    {
        proof {
            let n = self.nodes@[i as int];
            assert(self.node_wf(i as int));
            // The grown total still lies between the visit-scaled value bounds.
            assert(i32::MIN * ((n.times_visited + 1) as int) <= n.total_evaluation as int
                + value <= i32::MAX * ((n.times_visited + 1) as int)) by (nonlinear_arith)
                requires
                    i32::MIN * (n.times_visited as int) <= n.total_evaluation as int <= i32::MAX * (
                    n.times_visited as int),
                    i32::MIN <= value as int <= i32::MAX,
            {}
        }
        let node = &mut self.nodes[i];
        node.times_visited = node.times_visited + 1;
        node.total_evaluation = node.total_evaluation + (value as i64);
        proof {
            assert(final(self).states_seq() =~= old(self).states_seq());
            assert forall|j: int| 0 <= j < self.nodes@.len() implies self.node_wf(j) by {
                assert(old(self).node_wf(j));
            }
        }
    }

    /// Whether, at node `parent`, the child at position `ka` scores
    /// strictly below the child at position `kb` under the fixed-point
    /// UCB1 rule.
    pub closed spec fn node_score_lt(self, parent: int, ka: int, kb: int, uct: nat) -> bool {
        let p = self.nodes@[parent];
        let a = self.nodes@[p.children@[ka] as int];
        let b = self.nodes@[p.children@[kb] as int];
        score_lt(
            a.total_evaluation as int,
            a.times_visited as int,
            ucb_bonus_spec(uct, p.times_visited as nat, a.times_visited as nat) as int,
            b.total_evaluation as int,
            b.times_visited as int,
            ucb_bonus_spec(uct, p.times_visited as nat, b.times_visited as nat) as int,
        )
    }

    /// Picks which child of `parent` the selection step descends into.
    ///
    /// A child that has never been visited has an effectively infinite
    /// score: the first such child is chosen, and no visited child can be
    /// selected while an unvisited sibling remains.  Otherwise the child
    /// with the greatest UCB1 score is chosen, ties broken by the earliest
    /// position.
    pub fn best_ucb_score_index(&self, parent: usize, uct_exploration: u32) -> (best: usize)
        requires
            self.wf(),
            parent < self.size_spec(),
            self.children_of(parent as int).len() > 0,
        ensures
            best < self.children_of(parent as int).len(),
            (exists|k: int|
                0 <= k < self.children_of(parent as int).len() && self.visits_of(
                    self.children_of(parent as int)[k] as int,
                ) == 0) ==> (self.visits_of(self.children_of(parent as int)[best as int] as int)
                == 0 && forall|k: int|
                0 <= k < best ==> self.visits_of(self.children_of(parent as int)[k] as int) > 0),
            (forall|k: int|
                0 <= k < self.children_of(parent as int).len() ==> self.visits_of(
                    self.children_of(parent as int)[k] as int,
                ) > 0) ==> ((forall|j: int|
                0 <= j < best ==> self.node_score_lt(
                    parent as int,
                    j,
                    best as int,
                    uct_exploration as nat,
                )) && (forall|j: int|
                best <= j < self.children_of(parent as int).len() ==> !self.node_score_lt(
                    parent as int,
                    best as int,
                    j,
                    uct_exploration as nat,
                ))),
    {
        let ghost pidx = parent as int;
        let ghost uct = uct_exploration as nat;
        let children_len = self.nodes[parent].children.len();
        let parent_visits = self.nodes[parent].times_visited;
        proof {
            assert(self.node_wf(pidx));
        }

        let mut k: usize = 0;
        while k < children_len
            invariant
                self.wf(),
                parent < self.size_spec(),
                children_len == self.children_of(pidx).len(),
                pidx == parent as int,
                k <= children_len,
                forall|j: int|
                    0 <= j < k ==> self.visits_of(#[trigger] self.children_of(pidx)[j] as int) > 0,
            decreases children_len - k,
        {
            let c = self.nodes[parent].children[k];
            proof {
                assert(self.node_wf(pidx));
            }
            if self.nodes[c].times_visited == 0 {
                return k;
            }
            k += 1;
        }

        // Every child has been visited: take the exact fixed-point UCB1
        // argmax, keeping the earliest position on ties.
        let c0 = self.nodes[parent].children[0];
        let mut best: usize = 0;
        let mut best_total = self.nodes[c0].total_evaluation;
        let mut best_visits = self.nodes[c0].times_visited;
        let mut best_bonus = ucb_bonus(uct_exploration, parent_visits, best_visits);
        let mut j: usize = 1;

        while j < children_len
            invariant
                self.wf(),
                parent < self.size_spec(),
                children_len == self.children_of(pidx).len(),
                children_len > 0,
                pidx == parent as int,
                uct == uct_exploration as nat,
                parent_visits == self.nodes@[pidx].times_visited,
                parent_visits >= 1,
                forall|q: int|
                    0 <= q < children_len ==> self.visits_of(
                        #[trigger] self.children_of(pidx)[q] as int,
                    ) > 0,
                best < j <= children_len,
                best_total == self.nodes@[self.children_of(pidx)[best as int] as int].total_evaluation,
                best_visits == self.nodes@[self.children_of(pidx)[best as int] as int].times_visited,
                best_visits >= 1,
                best_bonus as nat == ucb_bonus_spec(uct, parent_visits as nat, best_visits as nat),
                best_bonus < 0x1000000000,
                forall|q: int| 0 <= q < best ==> self.node_score_lt(pidx, q, best as int, uct),
                forall|q: int| best <= q < j ==> !self.node_score_lt(pidx, best as int, q, uct),
            decreases children_len - j,
        {
            let cj = self.nodes[parent].children[j];
            proof {
                assert(self.node_wf(pidx));
                assert(self.node_wf(cj as int));
                assert(self.node_wf(self.children_of(pidx)[best as int] as int));
            }
            let cj_total = self.nodes[cj].total_evaluation;
            let cj_visits = self.nodes[cj].times_visited;
            let cj_bonus = ucb_bonus(uct_exploration, parent_visits, cj_visits);
            if score_lt_exec(best_total, best_visits, best_bonus, cj_total, cj_visits, cj_bonus) {
                proof {
                    let ghost old_best = best as int;
                    assert forall|q: int| 0 <= q < j implies self.node_score_lt(
                        pidx,
                        q,
                        j as int,
                        uct,
                    ) by {
                        let p = self.nodes@[pidx];
                        let nq = self.nodes@[p.children@[q] as int];
                        let nb = self.nodes@[p.children@[old_best] as int];
                        let nj = self.nodes@[p.children@[j as int] as int];
                        let numq = score_num(
                            nq.total_evaluation as int,
                            nq.times_visited as int,
                            ucb_bonus_spec(uct, p.times_visited as nat, nq.times_visited as nat) as int,
                        );
                        let numb = score_num(
                            nb.total_evaluation as int,
                            nb.times_visited as int,
                            ucb_bonus_spec(uct, p.times_visited as nat, nb.times_visited as nat) as int,
                        );
                        let numj = score_num(
                            nj.total_evaluation as int,
                            nj.times_visited as int,
                            ucb_bonus_spec(uct, p.times_visited as nat, nj.times_visited as nat) as int,
                        );
                        assert(self.visits_of(p.children@[q] as int) > 0);
                        assert(self.node_score_lt(pidx, old_best, j as int, uct));
                        if q < old_best {
                            assert(self.node_score_lt(pidx, q, old_best, uct));
                            lemma_rational_lt_trans(
                                numq,
                                nq.times_visited as int,
                                numb,
                                nb.times_visited as int,
                                numj,
                                nj.times_visited as int,
                            );
                        } else if q > old_best {
                            assert(!self.node_score_lt(pidx, old_best, q, uct));
                            lemma_rational_le_lt_trans(
                                numq,
                                nq.times_visited as int,
                                numb,
                                nb.times_visited as int,
                                numj,
                                nj.times_visited as int,
                            );
                        }
                    }
                }
                best = j;
                best_total = cj_total;
                best_visits = cj_visits;
                best_bonus = cj_bonus;
            }
            j += 1;
        }

        best
    }

    /// The states an expansion of `state` accepts, scanning the first `k`
    /// mutations in order: each candidate is kept unless it equals an
    /// already-visited state or an earlier accepted candidate.
    pub open spec fn expansion_states(state: T, mutations: Seq<T::Mutation>, visited: Seq<T>, k: int) -> Seq<
        T,
    >
        decreases k,
    {
        if k <= 0 {
            Seq::empty()
        } else {
            let prev = Self::expansion_states(state, mutations, visited, k - 1);
            let candidate = state.apply_spec(mutations[k - 1]);
            if (visited + prev).contains(candidate) {
                prev
            } else {
                prev.push(candidate)
            }
        }
    }

    /// Every accepted expansion state is one move away from the expanded
    /// state.
    proof fn lemma_expansion_states_are_successors(
        state: T,
        mutations: Seq<T::Mutation>,
        visited: Seq<T>,
        k: int,
    )
        requires
            0 <= k <= mutations.len(),
        ensures
            forall|x: T|
                Self::expansion_states(state, mutations, visited, k).contains(x) ==> exists|j: int|
                    0 <= j < mutations.len() && x == state.apply_spec(#[trigger] mutations[j]),
        decreases k,
    {
        if k > 0 {
            Self::lemma_expansion_states_are_successors(state, mutations, visited, k - 1);
            let prev = Self::expansion_states(state, mutations, visited, k - 1);
            let cur = Self::expansion_states(state, mutations, visited, k);
            let candidate = state.apply_spec(mutations[k - 1]);
            assert forall|x: T| cur.contains(x) implies exists|j: int|
                0 <= j < mutations.len() && x == state.apply_spec(#[trigger] mutations[j]) by {
                if (visited + prev).contains(candidate) {
                    assert(cur == prev);
                    assert(prev.contains(x));
                } else {
                    let q = choose|q: int| 0 <= q < cur.len() && cur[q] == x;
                    if q < prev.len() {
                        assert(prev[q] == x);
                        assert(prev.contains(x));
                    } else {
                        assert(x == candidate);
                        assert(x == state.apply_spec(mutations[k - 1]));
                    }
                }
            }
        }
    }

    /// Materializes the children of `leaf`: one candidate per mutation,
    /// skipping every candidate state already visited, inserting the
    /// accepted ones into the visited set at once so that no two siblings
    /// of one expansion can carry equal states.  Returns how many children
    /// were accepted; their arena indices are exactly the next `added`
    /// positions after the old arena end, in mutation order.
    fn expand(&mut self, leaf: usize) -> (added: usize)
        requires
            old(self).wf(),
            leaf < old(self).size_spec(),
            old(self).children_of(leaf as int).len() == 0,
            old(self).visits_of(leaf as int) >= 1,
        ensures
            final(self).wf(),
            final(self).mutations_spec() == old(self).mutations_spec(),
            added <= old(self).mutations_spec().len(),
            final(self).size_spec() == old(self).size_spec() + added,
            forall|i: int|
                0 <= i < old(self).size_spec() && i != leaf ==> final(self).nodes@[i] == old(
                    self,
                ).nodes@[i],
            final(self).states_seq().take(old(self).size_spec() as int) == old(self).states_seq(),
            final(self).nodes@[leaf as int].state == old(self).nodes@[leaf as int].state,
            final(self).visits_of(leaf as int) == old(self).visits_of(leaf as int),
            final(self).total_of(leaf as int) == old(self).total_of(leaf as int),
            final(self).children_of(leaf as int).len() == added,
            forall|k: int|
                0 <= k < added ==> ((#[trigger] final(self).children_of(leaf as int)[k]) as int)
                    == old(self).size_spec() + k,
            forall|i: int|
                old(self).size_spec() <= i < final(self).size_spec() ==> final(self).visits_of(i)
                    == 0 && final(self).total_of(i) == 0 && final(self).children_of(i).len() == 0,
            final(self).states_seq() == old(self).states_seq() + Self::expansion_states(
                old(self).nodes@[leaf as int].state,
                old(self).mutations@,
                old(self).states_seq(),
                old(self).mutations@.len() as int,
            ),
    {
        let ghost pre = *self;
        let leaf_state = self.nodes[leaf].state;
        let old_len = self.nodes.len();
        proof {
            assert(pre.node_wf(leaf as int));
            assert(pre.states_seq() + Self::expansion_states(
                leaf_state,
                pre.mutations@,
                pre.states_seq(),
                0,
            ) =~= pre.states_seq());
        }
        let mut m: usize = 0;

        while m < self.mutations.len()
            invariant
                pre.wf(),
                pre.node_wf(leaf as int),
                leaf < old_len,
                old_len == pre.nodes@.len(),
                old_len <= self.nodes@.len(),
                m <= self.mutations@.len(),
                self.mutations@ == pre.mutations@,
                self.visited@ == self.states_seq(),
                distinct_seq(self.states_seq()),
                leaf_state == pre.nodes@[leaf as int].state,
                leaf_state.valid(),
                pre.children_of(leaf as int).len() == 0,
                self.nodes@.len() - old_len <= m,
                forall|i: int|
                    0 <= i < old_len && i != leaf ==> self.nodes@[i] == pre.nodes@[i],
                self.nodes@[leaf as int].state == pre.nodes@[leaf as int].state,
                self.nodes@[leaf as int].times_visited == pre.nodes@[leaf as int].times_visited,
                self.nodes@[leaf as int].total_evaluation == pre.nodes@[
                    leaf as int
                ].total_evaluation,
                self.nodes@[leaf as int].children@.len() == self.nodes@.len() - old_len,
                forall|k: int|
                    0 <= k < self.nodes@[leaf as int].children@.len() ==> (
                    #[trigger] self.nodes@[leaf as int].children@[k]) as int == old_len + k,
                forall|i: int|
                    old_len <= i < self.nodes@.len() ==> (#[trigger] self.nodes@[i]).times_visited
                        == 0 && self.nodes@[i].total_evaluation == 0 && self.nodes@[
                        i
                    ].children@.len() == 0 && self.nodes@[i].state.valid(),
                self.states_seq() == pre.states_seq() + Self::expansion_states(
                    leaf_state,
                    pre.mutations@,
                    pre.states_seq(),
                    m as int,
                ),
            decreases self.mutations@.len() - m,
        {
            let ghost prev = Self::expansion_states(
                leaf_state,
                pre.mutations@,
                pre.states_seq(),
                m as int,
            );
            let mu = self.mutations[m];
            let child_state = leaf_state.apply(mu);
            if !self.visited.contains(&child_state) {
                let ghost states_before = self.states_seq();
                let child_idx = self.nodes.len();
                self.visited.insert(child_state);
                self.nodes.push(
                    TreeSearchNode {
                        state: child_state,
                        times_visited: 0,
                        total_evaluation: 0,
                        children: Vec::new(),
                    },
                );
                let leaf_node = &mut self.nodes[leaf];
                leaf_node.children.push(child_idx);
                proof {
                    assert(self.states_seq() =~= states_before.push(child_state));
                    lemma_distinct_push(states_before, child_state);
                    assert(self.visited@ =~= self.states_seq());
                    assert(self.states_seq() =~= pre.states_seq() + prev.push(child_state));
                    assert(Self::expansion_states(
                        leaf_state,
                        pre.mutations@,
                        pre.states_seq(),
                        m as int + 1,
                    ) == prev.push(child_state));
                }
            } else {
                proof {
                    assert((pre.states_seq() + prev).contains(child_state));
                    assert(Self::expansion_states(
                        leaf_state,
                        pre.mutations@,
                        pre.states_seq(),
                        m as int + 1,
                    ) == prev);
                }
            }
            m += 1;
        }

        let added = self.nodes.len() - old_len;
        proof {
            assert forall|i: int| 0 <= i < self.nodes@.len() implies self.node_wf(i) by {
                if i < old_len && i != leaf {
                    assert(pre.node_wf(i));
                    assert(self.nodes@[i] == pre.nodes@[i]);
                    assert(self.nodes@[0].times_visited == pre.nodes@[0].times_visited);
                }
            }
            assert(self.states_seq().take(old_len as int) =~= pre.states_seq());
        }
        added
    }

    /// Whether `sel` is a root-to-leaf descent of this tree: strictly
    /// increasing arena indices starting at the root, each one a child of
    /// the one before, ending at the first node without children.
    pub open spec fn is_selection_path(self, sel: Seq<usize>) -> bool {
        &&& sel.len() >= 1
        &&& sel[0] == 0usize
        &&& forall|a: int| 0 <= a < sel.len() ==> ((#[trigger] sel[a]) as int) < self.size_spec()
        &&& forall|a: int, b: int| 0 <= a < b < sel.len() ==> sel[a] < sel[b]
        &&& forall|a: int|
            0 <= a < sel.len() - 1 ==> self.children_of((#[trigger] sel[a]) as int).contains(
                sel[a + 1],
            )
        &&& self.children_of(sel[sel.len() - 1] as int).len() == 0
    }

    /// Whether step `a` of the descent `sel` obeys the selection rule in
    /// the tree `pre`: the child entered sits at some position `k` of the
    /// parent's list such that, if any sibling is unvisited, `k` is the
    /// first unvisited position, and otherwise `k` is the earliest position
    /// with the greatest fixed-point UCB1 score.
    pub open spec fn selection_step_ok(pre: Self, sel: Seq<usize>, a: int, uct: nat) -> bool {
        let parent = sel[a] as int;
        let kids = pre.children_of(parent);
        exists|k: int|
            0 <= k < kids.len() && kids[k] == sel[a + 1] && ((exists|u: int|
                0 <= u < kids.len() && pre.visits_of(#[trigger] kids[u] as int) == 0) ==> (
            pre.visits_of(kids[k] as int) == 0 && forall|u: int|
                0 <= u < k ==> pre.visits_of(#[trigger] kids[u] as int) > 0)) && ((forall|u: int|
                0 <= u < kids.len() ==> pre.visits_of(#[trigger] kids[u] as int) > 0) ==> ((
            forall|j: int| 0 <= j < k ==> pre.node_score_lt(parent, j, k, uct)) && (forall|j: int|
                k <= j < kids.len() ==> !pre.node_score_lt(parent, k, j, uct))))
    }

    /// The statistics of every node on `sel` absorb one more visit and this
    /// iteration's value, while every other pre-existing node keeps its
    /// visit count, value total and child list.
    pub open spec fn backpropagated_along(pre: Self, post: Self, sel: Seq<usize>, value: int) -> bool {
        &&& forall|a: int|
            0 <= a < sel.len() ==> post.visits_of((#[trigger] sel[a]) as int) == pre.visits_of(
                sel[a] as int,
            ) + 1 && post.total_of(sel[a] as int) == pre.total_of(sel[a] as int) + value
        &&& forall|i: int|
            0 <= i < pre.size_spec() && !sel.contains(i as usize) ==> #[trigger] post.visits_of(i)
                == pre.visits_of(i) && post.total_of(i) == pre.total_of(i) && post.children_of(i)
                == pre.children_of(i)
    }

    /// Everything one iteration does, witnessed by its selection path
    /// `sel`.  The node at the path's end is the first childless one.
    ///
    /// - A never-visited leaf is its own simulation target: nothing is
    ///   materialized, the value is a rollout estimate of the leaf's own
    ///   state (never below that state's score), and it is folded into
    ///   exactly the nodes of `sel`.
    /// - A visited leaf is expanded: its duplicate-free candidate states
    ///   are appended to the arena in mutation order.  When no candidate
    ///   survives, the leaf is terminal: no child is linked, and the exact
    ///   penalty of its running average is folded into `sel`.  Otherwise
    ///   the fresh nodes become exactly the leaf's children, the first of
    ///   them is the simulation target (the value is a rollout estimate of
    ///   its state), and the value is folded into `sel` and the target.
    pub open spec fn iteration_effect_on_path<E: Evaluator<T>>(
        pre: Self,
        post: Self,
        evaluator: E,
        value: int,
        depth: nat,
        uct: nat,
        sel: Seq<usize>,
    ) -> bool {
        let leaf = sel[sel.len() - 1] as int;
        &&& pre.is_selection_path(sel)
        &&& (forall|a: int| 0 <= a < sel.len() - 1 ==> Self::selection_step_ok(pre, sel, a, uct))
        &&& post.mutations_spec() == pre.mutations_spec()
        &&& Self::backpropagated_along(pre, post, sel, value)
        &&& if pre.visits_of(leaf) == 0 {
            &&& post.states_seq() == pre.states_seq()
            &&& post.size_spec() == pre.size_spec()
            &&& (forall|i: int|
                0 <= i < pre.size_spec() ==> #[trigger] post.children_of(i) == pre.children_of(i))
            &&& value >= evaluator.evaluate_spec(pre.states_seq()[leaf])
            &&& Self::is_rollout_estimate(pre, evaluator, value, depth, pre.states_seq()[leaf])
        } else {
            let expansion = Self::expansion_states(
                pre.states_seq()[leaf],
                pre.mutations_spec(),
                pre.states_seq(),
                pre.mutations_spec().len() as int,
            );
            &&& post.states_seq() == pre.states_seq() + expansion
            &&& post.size_spec() == pre.size_spec() + expansion.len()
            &&& if expansion.len() == 0 {
                &&& value == penalty_spec(pre.total_of(leaf), pre.visits_of(leaf) as int)
                &&& (forall|i: int|
                    0 <= i < pre.size_spec() ==> #[trigger] post.children_of(i)
                        == pre.children_of(i))
            } else {
                &&& post.children_of(leaf).len() == expansion.len()
                &&& (forall|k: int|
                    0 <= k < expansion.len() ==> ((#[trigger] post.children_of(leaf)[k]) as int)
                        == pre.size_spec() + k)
                &&& (forall|i: int|
                    0 <= i < pre.size_spec() && i != leaf ==> #[trigger] post.children_of(i)
                        == pre.children_of(i))
                &&& value >= evaluator.evaluate_spec(expansion[0])
                &&& Self::is_rollout_estimate(pre, evaluator, value, depth, expansion[0])
                &&& post.visits_of(pre.size_spec() as int) == 1
                &&& post.total_of(pre.size_spec() as int) == value
                &&& (forall|i: int|
                    pre.size_spec() < i < post.size_spec() ==> #[trigger] post.visits_of(i) == 0
                        && post.total_of(i) == 0 && post.children_of(i).len() == 0)
            }
        }
    }

    /// Everything one iteration does: for some root-to-leaf selection path,
    /// the leaf is simulated or expanded and the value is folded into
    /// exactly that path's statistics.
    pub open spec fn iteration_effect<E: Evaluator<T>>(
        pre: Self,
        post: Self,
        evaluator: E,
        value: int,
        depth: nat,
        uct: nat,
    ) -> bool {
        exists|sel: Seq<usize>|
            Self::iteration_effect_on_path(pre, post, evaluator, value, depth, uct, sel)
    }

    /// Whether `value` is a rollout estimate of `from`: the greatest
    /// evaluator score along some path of `depth` legal moves out of
    /// `from`.  Which path was walked depends on the rollout's random
    /// draws; that some such path justifies the value does not.
    pub open spec fn is_rollout_estimate<E: Evaluator<T>>(
        pre: Self,
        evaluator: E,
        value: int,
        depth: nat,
        from: T,
    ) -> bool {
        exists|rp: Seq<T>|
            rp.len() == depth + 1 && rp[0] == from && is_mutation_path(pre.mutations_spec(), rp)
                && value == path_max_eval(evaluator, rp)
    }

    /// Runs one complete MCTS cycle: descends from the root by UCB1 to the
    /// first node without children, expands it (unless it has never been
    /// visited, in which case it is simulated as itself), estimates the
    /// target's value with one rollout — or, when every candidate child
    /// was a duplicate, assigns the terminal penalty — and backpropagates
    /// that value through every node on the path, root included.
    ///
    /// Every call increments the root's visit count by exactly one, keeps
    /// every existing node's state, and grows the tree by at most one
    /// expansion (at most one node per mutation).  The whole of what one
    /// call does — the selection path obeying the UCB1 rule, the expansion
    /// or the exact terminal penalty, the rollout characterization of the
    /// value, and the statistics folded into exactly that path — is pinned
    /// by `iteration_effect`.
    pub fn run_iteration<E: Evaluator<T>>(
        &mut self,
        evaluator: &E,
        rollout_depth: usize,
        rollout_epsilon: u32,
        uct_exploration: u32,
    ) -> (value: i32)
        requires
            old(self).wf(),
            evaluator.wf(),
            old(self).visits_of(0) < u32::MAX as nat,
        ensures
            final(self).wf(),
            final(self).mutations_spec() == old(self).mutations_spec(),
            final(self).visits_of(0) == old(self).visits_of(0) + 1,
            final(self).root_state() == old(self).root_state(),
            old(self).size_spec() <= final(self).size_spec() <= old(self).size_spec() + old(
                self,
            ).mutations_spec().len(),
            final(self).states_seq().take(old(self).size_spec() as int) == old(self).states_seq(),
            old(self).visits_of(0) == 0 ==> final(self).size_spec() == old(self).size_spec(),
            final(self).total_of(0) == old(self).total_of(0) + value,
            Self::iteration_effect(
                *old(self),
                *final(self),
                *evaluator,
                value as int,
                rollout_depth as nat,
                uct_exploration as nat,
            ),
    {
        let ghost pre = *self;

        // Selection: descend along the UCB1-best children to the first
        // node that has none, recording the path.
        let mut path: Vec<usize> = Vec::new();
        path.push(0);
        let mut idx: usize = 0;

        while self.nodes[idx].children.len() > 0
            invariant
                *self == pre,
                pre.wf(),
                idx < self.size_spec(),
                path@.len() >= 1,
                path@[0] == 0,
                path@[path@.len() - 1] == idx,
                forall|a: int, b: int| 0 <= a < b < path@.len() ==> path@[a] < path@[b],
                forall|a: int|
                    0 <= a < path@.len() ==> ((#[trigger] path@[a]) as int) < self.size_spec(),
                forall|a: int|
                    0 <= a < path@.len() - 1 ==> pre.children_of(
                        (#[trigger] path@[a]) as int,
                    ).contains(path@[a + 1]),
                forall|a: int|
                    0 <= a < path@.len() - 1 ==> Self::selection_step_ok(
                        pre,
                        path@,
                        a,
                        uct_exploration as nat,
                    ),
            decreases self.size_spec() - idx,
        {
            let k = self.best_ucb_score_index(idx, uct_exploration);
            proof {
                assert(self.node_wf(idx as int));
            }
            let c = self.nodes[idx].children[k];
            proof {
                assert(pre.children_of(idx as int)[k as int] == c);
                assert(pre.children_of(idx as int).contains(c));
            }
            let ghost path_before = path@;
            idx = c;
            path.push(idx);
            proof {
                // The recorded step obeys the selection rule, with the
                // chosen position as witness; earlier steps are untouched
                // by the push.
                assert forall|a: int| 0 <= a < path@.len() - 1 implies Self::selection_step_ok(
                    pre,
                    path@,
                    a,
                    uct_exploration as nat,
                ) by {
                    if a < path@.len() - 2 {
                        assert(path@[a] == path_before[a] && path@[a + 1] == path_before[a + 1]);
                        assert(Self::selection_step_ok(pre, path_before, a, uct_exploration as nat));
                        let kw = choose|kw: int|
                            0 <= kw < pre.children_of(path_before[a] as int).len()
                                && pre.children_of(path_before[a] as int)[kw] == path_before[a + 1]
                                && ((exists|u: int|
                                0 <= u < pre.children_of(path_before[a] as int).len()
                                    && pre.visits_of(
                                    #[trigger] pre.children_of(path_before[a] as int)[u] as int,
                                ) == 0) ==> (pre.visits_of(
                                pre.children_of(path_before[a] as int)[kw] as int,
                            ) == 0 && forall|u: int|
                                0 <= u < kw ==> pre.visits_of(
                                    #[trigger] pre.children_of(path_before[a] as int)[u] as int,
                                ) > 0)) && ((forall|u: int|
                                0 <= u < pre.children_of(path_before[a] as int).len()
                                    ==> pre.visits_of(
                                    #[trigger] pre.children_of(path_before[a] as int)[u] as int,
                                ) > 0) ==> ((forall|j: int|
                                0 <= j < kw ==> pre.node_score_lt(
                                    path_before[a] as int,
                                    j,
                                    kw,
                                    uct_exploration as nat,
                                )) && (forall|j: int|
                                kw <= j < pre.children_of(path_before[a] as int).len()
                                    ==> !pre.node_score_lt(
                                    path_before[a] as int,
                                    kw,
                                    j,
                                    uct_exploration as nat,
                                ))));
                        assert(pre.children_of(path@[a] as int)[kw] == path@[a + 1]);
                    } else {
                        assert(path@[a] == path_before[path_before.len() - 1]);
                        assert(path@[a + 1] == c);
                        assert(pre.children_of(path@[a] as int)[k as int] == c);
                    }
                }
            }
        }

        let leaf = idx;
        let ghost sel = path@;
        proof {
            assert(pre.is_selection_path(sel));
            assert(sel.contains(sel[sel.len() - 1]));
        }

        // Expansion: a never-visited leaf is its own simulation target;
        // otherwise materialize its children and target the first one, or
        // mark the leaf terminal when every candidate was a duplicate.
        let mut terminal = false;
        let mut target = leaf;
        let size_before = self.nodes.len();
        if self.nodes[leaf].times_visited > 0 {
            proof {
                // A visited leaf means the root has been visited too, since
                // no count exceeds the root's.
                assert(self.node_wf(leaf as int));
                assert(pre.visits_of(0) >= 1);
            }
            let added = self.expand(leaf);
            if added > 0 {
                target = size_before;
                path.push(target);
            } else {
                terminal = true;
            }
        }

        let ghost mid = *self;
        proof {
            assert(mid.states_seq().take(pre.size_spec() as int) == pre.states_seq());
        }

        // Simulation: estimate the target's value by one rollout, or take
        // the terminal penalty in place of a rollout.
        let value: i32 = if terminal {
            proof {
                assert(self.node_wf(leaf as int));
            }
            penalty_value(self.nodes[leaf].total_evaluation, self.nodes[leaf].times_visited)
        } else {
            proof {
                assert(self.node_wf(target as int));
            }
            rollout_strategy(
                self.nodes[target].state,
                &self.mutations,
                evaluator,
                rollout_depth,
                rollout_epsilon,
                &self.visited,
            )
        };

        // Backpropagation: fold the value into every node on the path,
        // root first, so the root's count stays the maximum throughout.
        let mut p: usize = 0;
        while p < path.len()
            invariant
                self.wf(),
                mid.wf(),
                self.size_spec() == mid.size_spec(),
                self.states_seq() == mid.states_seq(),
                self.mutations_spec() == mid.mutations_spec(),
                self.nodes@[0].state == mid.nodes@[0].state,
                p <= path.len(),
                path@.len() >= 1,
                path@[0] == 0,
                forall|a: int, b: int| 0 <= a < b < path@.len() ==> path@[a] < path@[b],
                forall|a: int|
                    0 <= a < path@.len() ==> ((#[trigger] path@[a]) as int) < self.size_spec(),
                self.visits_of(0) == if p > 0 {
                    mid.visits_of(0) + 1
                } else {
                    mid.visits_of(0)
                },
                mid.visits_of(0) < u32::MAX as nat,
                forall|a: int|
                    p <= a < path@.len() ==> self.nodes@[(#[trigger] path@[a]) as int]
                        == mid.nodes@[path@[a] as int],
                forall|a: int|
                    0 <= a < p ==> self.visits_of((#[trigger] path@[a]) as int) == mid.visits_of(
                        path@[a] as int,
                    ) + 1 && self.total_of(path@[a] as int) == mid.total_of(path@[a] as int)
                        + value && self.children_of(path@[a] as int) == mid.children_of(
                        path@[a] as int,
                    ),
                forall|i: int|
                    0 <= i < self.size_spec() && !path@.contains(i as usize)
                        ==> #[trigger] self.nodes@[i] == mid.nodes@[i],
            decreases path@.len() - p,
        {
            let i = path[p];
            proof {
                if i != 0 {
                    assert(mid.node_wf(i as int));
                    assert(self.visits_of(i as int) == mid.visits_of(i as int));
                }
            }
            self.update_average(i, value);
            proof {
                assert(path@[p as int] == i);
                assert(path@.contains(i));
            }
            p += 1;
        }

        proof {
            vstd::std_specs::vec::axiom_spec_len(&self.nodes);
            self.lemma_iteration_assembly(
                pre,
                mid,
                *evaluator,
                value as int,
                rollout_depth as nat,
                uct_exploration as nat,
                sel,
                path@,
                leaf,
                target,
                terminal,
            );
        }
        value
    }

    /// Assembles the per-phase facts of one iteration — selection in `pre`,
    /// expansion from `pre` to `mid`, backpropagation from `mid` to `self`
    /// — into the public iteration effect.
    proof fn lemma_iteration_assembly<E: Evaluator<T>>(
        &self,
        pre: Self,
        mid: Self,
        evaluator: E,
        value: int,
        depth: nat,
        uct: nat,
        sel: Seq<usize>,
        path: Seq<usize>,
        leaf: usize,
        target: usize,
        terminal: bool,
    )
        requires
            pre.wf(),
            mid.wf(),
            self.wf(),
            pre.is_selection_path(sel),
            forall|a: int| 0 <= a < sel.len() - 1 ==> Self::selection_step_ok(pre, sel, a, uct),
            leaf == sel[sel.len() - 1],
            // how the path extends the selection
            (terminal || target == leaf) ==> path == sel,
            (!terminal && target != leaf) ==> path == sel.push(target) && target
                == pre.size_spec(),
            // what expansion did (nothing unless the leaf was visited)
            pre.visits_of(leaf as int) == 0 ==> mid == pre && !terminal && target == leaf,
            pre.visits_of(leaf as int) > 0 ==> {
                &&& mid.states_seq() == pre.states_seq() + Self::expansion_states(
                    pre.nodes@[leaf as int].state,
                    pre.mutations@,
                    pre.states_seq(),
                    pre.mutations@.len() as int,
                )
                &&& mid.mutations_spec() == pre.mutations_spec()
                &&& (forall|i: int|
                    0 <= i < pre.size_spec() && i != leaf ==> mid.nodes@[i] == pre.nodes@[i])
                &&& mid.nodes@[leaf as int].state == pre.nodes@[leaf as int].state
                &&& mid.visits_of(leaf as int) == pre.visits_of(leaf as int)
                &&& mid.total_of(leaf as int) == pre.total_of(leaf as int)
                &&& mid.children_of(leaf as int).len() == mid.size_spec() - pre.size_spec()
                &&& (forall|k: int|
                    0 <= k < mid.children_of(leaf as int).len() ==> ((#[trigger] mid.children_of(
                        leaf as int,
                    )[k]) as int) == pre.size_spec() + k)
                &&& (forall|i: int|
                    pre.size_spec() <= i < mid.size_spec() ==> mid.visits_of(i) == 0
                        && mid.total_of(i) == 0 && mid.children_of(i).len() == 0)
                &&& (terminal <==> mid.size_spec() == pre.size_spec())
                &&& (!terminal ==> target == pre.size_spec() && target != leaf)
            },
            // what the value is
            terminal ==> pre.visits_of(leaf as int) > 0 && value == penalty_spec(
                mid.total_of(leaf as int),
                mid.visits_of(leaf as int) as int,
            ),
            !terminal ==> (target as int) < mid.size_spec() && value
                >= evaluator.evaluate_spec(mid.nodes@[target as int].state),
            !terminal ==> exists|rp: Seq<T>|
                rp.len() == depth + 1 && rp[0] == mid.nodes@[target as int].state
                    && is_mutation_path(mid.mutations_spec(), rp) && value == path_max_eval(
                    evaluator,
                    rp,
                ),
            // what backpropagation did
            self.size_spec() <= usize::MAX,
            self.size_spec() == mid.size_spec(),
            self.states_seq() == mid.states_seq(),
            self.mutations_spec() == mid.mutations_spec(),
            forall|a: int|
                0 <= a < path.len() ==> self.visits_of((#[trigger] path[a]) as int)
                    == mid.visits_of(path[a] as int) + 1 && self.total_of(path[a] as int)
                    == mid.total_of(path[a] as int) + value && self.children_of(path[a] as int)
                    == mid.children_of(path[a] as int),
            forall|i: int|
                0 <= i < self.size_spec() && !path.contains(i as usize)
                    ==> #[trigger] self.nodes@[i] == mid.nodes@[i],
        ensures
            Self::iteration_effect(pre, *self, evaluator, value, depth, uct),
            self.total_of(0) == pre.total_of(0) + value,
    {
        let leafi = leaf as int;
        let n = sel.len();
        assert(sel.contains(leaf)) by {
            assert(sel[n - 1] == leaf);
        }
        assert(forall|a: int| 0 <= a < n ==> path[a] == sel[a]);
        assert(pre.states_seq().len() == pre.size_spec());
        assert(mid.states_seq().len() == mid.size_spec());
        assert(pre.states_seq()[leafi] == pre.nodes@[leafi].state);

        // Old nodes off the selection path kept their whole node through
        // expansion and backpropagation.
        assert forall|i: int| 0 <= i < pre.size_spec() && !sel.contains(i as usize) implies {
            &&& self.visits_of(i) == pre.visits_of(i)
            &&& self.total_of(i) == pre.total_of(i)
            &&& self.children_of(i) == pre.children_of(i)
        } by {
            assert(i != leafi);
            assert(!path.contains(i as usize)) by {
                if path.contains(i as usize) {
                    let a = choose|a: int| 0 <= a < path.len() && path[a] == i as usize;
                    if a < n {
                        assert(sel[a] == i as usize);
                        assert(sel.contains(i as usize));
                    } else {
                        assert(path[a] == target);
                    }
                }
            }
            assert(self.nodes@[i] == mid.nodes@[i]);
            if pre.visits_of(leafi) > 0 {
                assert(mid.nodes@[i] == pre.nodes@[i]);
            }
        }

        // Selection-path nodes took exactly one visit and this value.
        assert forall|a: int| 0 <= a < n implies {
            &&& self.visits_of((#[trigger] sel[a]) as int) == pre.visits_of(sel[a] as int) + 1
            &&& self.total_of(sel[a] as int) == pre.total_of(sel[a] as int) + value
            &&& self.children_of(sel[a] as int) == mid.children_of(sel[a] as int)
        } by {
            assert(path[a] == sel[a]);
            if pre.visits_of(leafi) > 0 && sel[a] as int != leafi {
                assert(mid.nodes@[sel[a] as int] == pre.nodes@[sel[a] as int]);
            }
        }
        assert(Self::backpropagated_along(pre, *self, sel, value));
        assert(self.total_of(0) == pre.total_of(0) + value) by {
            assert(sel[0] == 0usize);
        }

        if pre.visits_of(leafi) == 0 {
            // The leaf was its own simulation target; nothing materialized.
            assert(self.states_seq() == pre.states_seq());
            assert forall|i: int| 0 <= i < pre.size_spec() implies #[trigger] self.children_of(i)
                == pre.children_of(i) by {
                if sel.contains(i as usize) {
                    let a = choose|a: int| 0 <= a < n && sel[a] == i as usize;
                    assert(path[a] == i as usize);
                    assert(self.children_of(path[a] as int) == mid.children_of(path[a] as int));
                } else {
                    assert(!path.contains(i as usize));
                    assert(self.nodes@[i] == mid.nodes@[i]);
                }
            }
            assert(value >= evaluator.evaluate_spec(pre.states_seq()[leafi]));
            assert(mid.mutations_spec() == pre.mutations_spec());
            assert(Self::is_rollout_estimate(pre, evaluator, value, depth, pre.states_seq()[leafi]));
            assert(Self::iteration_effect_on_path(pre, *self, evaluator, value, depth, uct, sel));
        } else {
            let expansion = Self::expansion_states(
                pre.states_seq()[leafi],
                pre.mutations_spec(),
                pre.states_seq(),
                pre.mutations_spec().len() as int,
            );
            assert(mid.states_seq() == pre.states_seq() + expansion);
            assert(mid.size_spec() == pre.size_spec() + expansion.len());
            if terminal {
                assert(expansion.len() == 0);
                assert(value == penalty_spec(pre.total_of(leafi), pre.visits_of(leafi) as int));
                assert forall|i: int|
                    0 <= i < pre.size_spec() implies #[trigger] self.children_of(i)
                    == pre.children_of(i) by {
                    if sel.contains(i as usize) {
                        let a = choose|a: int| 0 <= a < n && sel[a] == i as usize;
                        assert(path[a] == i as usize);
                        assert(self.children_of(path[a] as int) == mid.children_of(
                            path[a] as int,
                        ));
                        if i == leafi {
                            assert(mid.children_of(i) =~= pre.children_of(i));
                        } else {
                            assert(mid.nodes@[i] == pre.nodes@[i]);
                        }
                    } else {
                        assert(!path.contains(i as usize));
                        assert(self.nodes@[i] == mid.nodes@[i]);
                        assert(i != leafi);
                        assert(mid.nodes@[i] == pre.nodes@[i]);
                    }
                }
                assert(Self::iteration_effect_on_path(
                    pre,
                    *self,
                    evaluator,
                    value,
                    depth,
                    uct,
                    sel,
                ));
            } else {
                assert(target == pre.size_spec() && target != leaf);
                assert(expansion.len() > 0);
                // The value estimates the first new child, the simulation
                // target.
                assert(mid.nodes@[target as int].state == mid.states_seq()[target as int]);
                assert((pre.states_seq() + expansion)[pre.size_spec() as int] == expansion[0]);
                assert(value >= evaluator.evaluate_spec(expansion[0]));
                // The target absorbed exactly the first visit and value.
                assert(path[path.len() - 1] == target);
                assert(self.visits_of(target as int) == 1 && self.total_of(target as int)
                    == value);
                // The other fresh nodes are untouched unvisited leaves.
                assert forall|i: int| pre.size_spec() < i < self.size_spec() implies {
                    &&& #[trigger] self.visits_of(i) == 0
                    &&& self.total_of(i) == 0
                    &&& self.children_of(i).len() == 0
                } by {
                    assert(!path.contains(i as usize)) by {
                        if path.contains(i as usize) {
                            let a = choose|a: int| 0 <= a < path.len() && path[a] == i as usize;
                            if a < n {
                                assert(path[a] == sel[a]);
                                assert((sel[a] as int) < pre.size_spec());
                            } else {
                                assert(path[a] == target);
                            }
                        }
                    }
                    assert(self.nodes@[i] == mid.nodes@[i]);
                    assert(mid.visits_of(i) == 0 && mid.total_of(i) == 0 && mid.children_of(
                        i,
                    ).len() == 0);
                }
                // Pre-existing nodes other than the leaf kept their children.
                assert forall|i: int|
                    0 <= i < pre.size_spec() && i != leafi implies #[trigger] self.children_of(i)
                    == pre.children_of(i) by {
                    if sel.contains(i as usize) {
                        let a = choose|a: int| 0 <= a < n && sel[a] == i as usize;
                        assert(path[a] == i as usize);
                        assert(self.children_of(path[a] as int) == mid.children_of(
                            path[a] as int,
                        ));
                        assert(mid.nodes@[i] == pre.nodes@[i]);
                    } else {
                        assert(!path.contains(i as usize)) by {
                            if path.contains(i as usize) {
                                let a = choose|a: int|
                                    0 <= a < path.len() && path[a] == i as usize;
                                if a < n {
                                    assert(path[a] == sel[a]);
                                    assert(sel.contains(i as usize));
                                } else {
                                    assert(path[a] == target);
                                }
                            }
                        }
                        assert(self.nodes@[i] == mid.nodes@[i]);
                        assert(mid.nodes@[i] == pre.nodes@[i]);
                    }
                }
                assert(self.children_of(leafi) == mid.children_of(leafi));
                assert(self.children_of(leafi).len() == expansion.len());
                assert forall|k: int| 0 <= k < expansion.len() implies ((#[trigger] self.children_of(
                    leafi,
                )[k]) as int) == pre.size_spec() + k by {
                    assert(self.children_of(leafi)[k] == mid.children_of(leafi)[k]);
                    assert(((mid.children_of(leafi)[k]) as int) == pre.size_spec() + k);
                }
                assert(self.visits_of(pre.size_spec() as int) == 1 && self.total_of(
                    pre.size_spec() as int,
                ) == value);
                assert(Self::is_rollout_estimate(pre, evaluator, value, depth, expansion[0]));
                assert(Self::iteration_effect_on_path(
                    pre,
                    *self,
                    evaluator,
                    value,
                    depth,
                    uct,
                    sel,
                ));
            }
        }
    }

    /// The states of the subtree rooted at node `i`, in pre-order: the
    /// node's own state first, then the subtrees of its children in
    /// creation order.
    pub closed spec fn preorder_states(self, i: int) -> Seq<T>
        decreases self.size_spec() - i, 1nat, 0nat,
    {
        if 0 <= i < self.nodes@.len() {
            seq![self.nodes@[i].state] + self.preorder_kids(
                i,
                self.nodes@[i].children@.len() as int,
            )
        } else {
            Seq::empty()
        }
    }

    /// The states of the subtrees of the first `k` children of node `i`,
    /// concatenated in order.
    spec fn preorder_kids(self, i: int, k: int) -> Seq<T>
        decreases self.size_spec() - i, 0nat, k,
    {
        if 0 <= i < self.nodes@.len() && 0 < k <= self.nodes@[i].children@.len() {
            let c = self.nodes@[i].children@[k - 1] as int;
            self.preorder_kids(i, k - 1) + (if i < c < self.nodes@.len() {
                self.preorder_states(c)
            } else {
                Seq::empty()
            })
        } else {
            Seq::empty()
        }
    }

    /// Every state of a pre-order walk is the state of some materialized
    /// node.
    proof fn lemma_preorder_in_states(self, i: int)
        requires
            self.wf(),
            0 <= i < self.size_spec(),
        ensures
            forall|x: T|
                self.preorder_states(i).contains(x) ==> #[trigger] self.states_seq().contains(x),
        decreases self.size_spec() - i, 1nat, 0nat,
    {
        self.lemma_preorder_kids_in_states(i, self.children_of(i).len() as int);
        let po = self.preorder_states(i);
        let kids = self.preorder_kids(i, self.children_of(i).len() as int);
        assert forall|x: T| po.contains(x) implies #[trigger] self.states_seq().contains(x) by {
            let q = choose|q: int| 0 <= q < po.len() && po[q] == x;
            if q == 0 {
                assert(self.states_seq()[i] == self.nodes@[i].state);
                assert(self.states_seq().contains(x)) by {
                    assert(self.states_seq()[i] == x);
                }
            } else {
                assert(kids[q - 1] == x);
                assert(kids.contains(x));
            }
        }
    }

    /// Every state of the first `k` child subtrees' pre-order walks is the
    /// state of some materialized node.
    proof fn lemma_preorder_kids_in_states(self, i: int, k: int)
        requires
            self.wf(),
            0 <= i < self.size_spec(),
            0 <= k <= self.children_of(i).len(),
        ensures
            forall|x: T|
                self.preorder_kids(i, k).contains(x) ==> #[trigger] self.states_seq().contains(x),
        decreases self.size_spec() - i, 0nat, k,
    {
        if k > 0 {
            self.lemma_preorder_kids_in_states(i, k - 1);
            assert(self.node_wf(i));
            let c = self.children_of(i)[k - 1] as int;
            assert(i < c < self.size_spec());
            self.lemma_preorder_in_states(c);
            let left = self.preorder_kids(i, k - 1);
            let right = self.preorder_states(c);
            assert(self.preorder_kids(i, k) == left + right);
            assert forall|x: T| self.preorder_kids(i, k).contains(x) implies #[trigger] self.states_seq().contains(
                x,
            ) by {
                let q = choose|q: int| 0 <= q < (left + right).len() && (left + right)[q] == x;
                if q < left.len() {
                    assert(left[q] == x);
                    assert(left.contains(x));
                } else {
                    assert(right[q - left.len()] == x);
                    assert(right.contains(x));
                }
            }
        }
    }

    /// The state of every child of node `i` appears in `i`'s pre-order
    /// walk.
    proof fn lemma_child_state_in_preorder(self, i: int, k: int)
        requires
            self.wf(),
            0 <= i < self.size_spec(),
            0 <= k < self.children_of(i).len(),
        ensures
            self.preorder_states(i).contains(
                self.states_seq()[self.children_of(i)[k] as int],
            ),
    {
        self.lemma_child_state_in_kids(i, k, self.children_of(i).len() as int);
        let x = self.states_seq()[self.children_of(i)[k] as int];
        let kids = self.preorder_kids(i, self.children_of(i).len() as int);
        let po = self.preorder_states(i);
        let q = choose|q: int| 0 <= q < kids.len() && kids[q] == x;
        assert(po[q + 1] == x);
        assert(po.contains(x));
    }

    /// The state of child `k` of node `i` appears among the first `q` child
    /// subtrees' walks, for every `q` past `k`.
    proof fn lemma_child_state_in_kids(self, i: int, k: int, q: int)
        requires
            self.wf(),
            0 <= i < self.size_spec(),
            0 <= k < q <= self.children_of(i).len(),
        ensures
            self.preorder_kids(i, q).contains(
                self.states_seq()[self.children_of(i)[k] as int],
            ),
        decreases q,
    {
        assert(self.node_wf(i));
        let c = self.children_of(i)[k] as int;
        assert(i < c < self.size_spec());
        let x = self.states_seq()[c];
        assert(x == self.nodes@[c].state);
        if q == k + 1 {
            let left = self.preorder_kids(i, k);
            let right = self.preorder_states(c);
            assert(self.preorder_kids(i, q) == left + right);
            assert(right[0] == self.nodes@[c].state);
            assert(self.preorder_kids(i, q)[left.len() as int] == x);
            assert(self.preorder_kids(i, q).contains(x));
        } else {
            self.lemma_child_state_in_kids(i, k, q - 1);
            let left = self.preorder_kids(i, q - 1);
            let cq = self.children_of(i)[q - 1] as int;
            assert(i < cq < self.size_spec());
            assert(self.preorder_kids(i, q) == left + self.preorder_states(cq));
            let w = choose|w: int| 0 <= w < left.len() && left[w] == x;
            assert(self.preorder_kids(i, q)[w] == x);
            assert(self.preorder_kids(i, q).contains(x));
        }
    }

    /// The first-encountered best state in the subtree rooted at `i`: the
    /// state with the maximum evaluator score, ties resolved in favor of
    /// the earliest position of the pre-order walk.
    fn best_in_subtree<E: Evaluator<T>>(&self, i: usize, evaluator: &E) -> (r: T)
        requires
            self.wf(),
            evaluator.wf(),
            i < self.size_spec(),
        ensures
            first_max_of(*evaluator, self.preorder_states(i as int), r),
            r.valid(),
        decreases self.size_spec() - i,
    {
        let mut best = self.nodes[i].state;
        let children_len = self.nodes[i].children.len();
        proof {
            assert(self.node_wf(i as int));
            assert(self.preorder_kids(i as int, 0) =~= Seq::<T>::empty());
            let po0 = seq![self.nodes@[i as int].state] + self.preorder_kids(i as int, 0);
            assert(po0[0] == best);
            assert(first_max_of(*evaluator, po0, best));
        }
        let mut k: usize = 0;

        while k < children_len
            invariant
                self.wf(),
                evaluator.wf(),
                i < self.size_spec(),
                children_len == self.nodes@[i as int].children@.len(),
                k <= children_len,
                best.valid(),
                first_max_of(
                    *evaluator,
                    seq![self.nodes@[i as int].state] + self.preorder_kids(i as int, k as int),
                    best,
                ),
            decreases children_len - k,
        {
            proof {
                assert(self.node_wf(i as int));
            }
            let c = self.nodes[i].children[k];
            let child_best = self.best_in_subtree(c, evaluator);
            let e_child = evaluator.evaluate(child_best);
            let e_best = evaluator.evaluate(best);
            proof {
                let po_old = seq![self.nodes@[i as int].state] + self.preorder_kids(
                    i as int,
                    k as int,
                );
                let po_c = self.preorder_states(c as int);
                lemma_first_max_append(*evaluator, po_old, po_c, best, child_best);
                assert(self.preorder_kids(i as int, k as int + 1) == self.preorder_kids(
                    i as int,
                    k as int,
                ) + po_c);
                assert(seq![self.nodes@[i as int].state] + self.preorder_kids(
                    i as int,
                    k as int + 1,
                ) =~= po_old + po_c);
            }
            if e_child > e_best {
                best = child_best;
            }
            k += 1;
        }

        proof {
            assert(self.preorder_states(i as int) == seq![self.nodes@[i as int].state]
                + self.preorder_kids(i as int, children_len as int));
        }
        best
    }

    /// The best state discovered anywhere in the materialized tree: the
    /// maximum evaluator score over the root and every descendant, with
    /// ties resolved in favor of the first encounter in a pre-order walk.
    /// The result never scores below the root's own state, and a tree of
    /// one node yields the root state itself.
    pub fn best_state<E: Evaluator<T>>(&self, evaluator: &E) -> (r: T)
        requires
            self.wf(),
            evaluator.wf(),
        ensures
            first_max_of(*evaluator, self.preorder_states(0), r),
            evaluator.evaluate_spec(r) >= evaluator.evaluate_spec(self.root_state()),
            r.valid(),
            self.states_seq().contains(r),
            self.size_spec() == 1 ==> r == self.root_state(),
    {
        let r = self.best_in_subtree(0, evaluator);
        proof {
            let po = self.preorder_states(0);
            assert(po[0] == self.root_state());
            let ridx = choose|idx: int|
                0 <= idx < po.len() && po[idx] == r && (forall|j: int|
                    0 <= j < idx ==> evaluator.evaluate_spec(#[trigger] po[j])
                        < evaluator.evaluate_spec(r)) && (forall|j: int|
                    0 <= j < po.len() ==> evaluator.evaluate_spec(#[trigger] po[j])
                        <= evaluator.evaluate_spec(r));
            assert(po.contains(r)) by {
                assert(po[ridx] == r);
            }
            self.lemma_preorder_in_states(0);
            if self.size_spec() == 1 {
                assert(self.node_wf(0));
                if self.nodes@[0].children@.len() > 0 {
                    assert(0 < (self.nodes@[0].children@[0] as int) < 1);
                }
                assert(self.preorder_kids(0, 0) =~= Seq::<T>::empty());
                assert(po =~= seq![self.root_state()]);
            }
        }
        r
    }
}

/// One search run never materializes two equal states: the visited set
/// holds no duplicate entries, no two nodes carry equal states, and in
/// particular no two sibling children of one node do.
pub proof fn lemma_no_duplicate_states<T: State>(tree: SearchTree<T>)
    requires
        tree.wf(),
    ensures
        distinct_seq(tree.visited_seq()),
        distinct_seq(tree.states_seq()),
        forall|i: int, k1: int, k2: int|
            0 <= i < tree.size_spec() && 0 <= k1 < k2 < tree.children_of(i).len()
                ==> tree.states_seq()[#[trigger] tree.children_of(i)[k1] as int]
                != tree.states_seq()[#[trigger] tree.children_of(i)[k2] as int],
{
    assert forall|i: int, k1: int, k2: int|
        0 <= i < tree.size_spec() && 0 <= k1 < k2 < tree.children_of(i).len()
            implies tree.states_seq()[#[trigger] tree.children_of(i)[k1] as int]
            != tree.states_seq()[#[trigger] tree.children_of(i)[k2] as int] by {
        assert(tree.node_wf(i));
        assert(tree.children_of(i)[k1] < tree.children_of(i)[k2]);
    }
}

/// The search driver: enumerates the move set once, runs `loops` MCTS
/// iterations from `start_state`, and returns the best state discovered
/// together with the number of materialized nodes.
///
/// The returned state never scores below the starting state; the tree
/// holds at least one and at most `1 + loops * |moves|` nodes.  A budget of
/// zero iterations returns the starting state unchanged with a tree of one
/// node.  From two iterations on, the root's expansion has happened and is
/// deterministic, so the tree holds at least the root plus every distinct
/// one-move successor of the start, and the result scores at least each of
/// those successors — whatever the random draws of the rollouts.
pub fn search<T: State, E: Evaluator<T>>(
    start_state: T,
    evaluator: &E,
    loops: u32,
    rollout_depth: usize,
    rollout_epsilon: u32,
    uct_exploration: u32,
) -> (result: (T, u32))
    requires
        start_state.valid(),
        evaluator.wf(),
        1 + (loops as nat) * T::mutation_seq().len() <= u32::MAX as nat,
    ensures
        evaluator.evaluate_spec(result.0) >= evaluator.evaluate_spec(start_state),
        result.0.valid(),
        result.1 >= 1,
        result.1 as nat <= 1 + (loops as nat) * T::mutation_seq().len(),
        reachable_by(T::mutation_seq(), start_state, result.0),
        loops == 0 ==> result.0 == start_state && result.1 == 1,
        loops >= 2 ==> result.1 as nat >= 1 + SearchTree::<T>::expansion_states(
            start_state,
            T::mutation_seq(),
            seq![start_state],
            T::mutation_seq().len() as int,
        ).len(),
        loops >= 2 ==> forall|q: int|
            0 <= q < SearchTree::<T>::expansion_states(
                start_state,
                T::mutation_seq(),
                seq![start_state],
                T::mutation_seq().len() as int,
            ).len() ==> evaluator.evaluate_spec(result.0) >= evaluator.evaluate_spec(
                #[trigger] SearchTree::<T>::expansion_states(
                    start_state,
                    T::mutation_seq(),
                    seq![start_state],
                    T::mutation_seq().len() as int,
                )[q],
            ),
{
    let ghost expansion = SearchTree::<T>::expansion_states(
        start_state,
        T::mutation_seq(),
        seq![start_state],
        T::mutation_seq().len() as int,
    );
    let mutations = T::get_possible_mutations();
    let mut base_node = SearchTree::new(start_state, mutations);
    let mut loop_number: u32 = 0;
    proof {
        lemma_reachable_refl(T::mutation_seq(), start_state);
    }

    while loop_number < loops
        invariant
            base_node.wf(),
            evaluator.wf(),
            loop_number <= loops,
            base_node.root_state() == start_state,
            base_node.visits_of(0) == loop_number as nat,
            base_node.mutations_spec() == T::mutation_seq(),
            base_node.size_spec() <= 1 + (loop_number as nat) * T::mutation_seq().len(),
            1 + (loops as nat) * T::mutation_seq().len() <= u32::MAX as nat,
            expansion == SearchTree::<T>::expansion_states(
                start_state,
                T::mutation_seq(),
                seq![start_state],
                T::mutation_seq().len() as int,
            ),
            loop_number <= 1 ==> base_node.size_spec() == 1 && base_node.states_seq()
                == seq![start_state],
            loop_number >= 2 ==> base_node.size_spec() >= 1 + expansion.len()
                && base_node.states_seq().take(1 + expansion.len() as int) == seq![start_state]
                + expansion,
            loop_number >= 2 && expansion.len() > 0 ==> base_node.children_of(0).len()
                == expansion.len() && (forall|k: int|
                0 <= k < expansion.len() ==> ((#[trigger] base_node.children_of(0)[k]) as int) == 1
                    + k),
            forall|i: int|
                0 <= i < base_node.size_spec() ==> reachable_by(
                    T::mutation_seq(),
                    start_state,
                    #[trigger] base_node.states_seq()[i],
                ),
        decreases loops - loop_number,
    {
        proof {
            let l = T::mutation_seq().len();
            assert((loop_number as nat) * l <= (loops as nat) * l) by (nonlinear_arith)
                requires
                    (loop_number as nat) <= (loops as nat),
                    l >= 0,
            {}
            assert(((loop_number + 1) as nat) * l == (loop_number as nat) * l + l)
                by (nonlinear_arith)
            {}
        }
        let ghost pre_tree = base_node;
        let value = base_node.run_iteration(evaluator, rollout_depth, rollout_epsilon, uct_exploration);
        proof {
            let sel = choose|sel: Seq<usize>|
                SearchTree::<T>::iteration_effect_on_path(
                    pre_tree,
                    base_node,
                    *evaluator,
                    value as int,
                    rollout_depth as nat,
                    uct_exploration as nat,
                    sel,
                );
            let nsel = sel.len();
            let leafi = sel[nsel - 1] as int;
            if loop_number <= 1 {
                // In a one-node tree the selection path can only be the
                // root itself.
                assert(nsel == 1) by {
                    if nsel >= 2 {
                        assert((sel[0] as int) < 1);
                        assert((sel[1] as int) < 1);
                        assert(sel[0] < sel[1]);
                    }
                }
                assert(leafi == 0);
                assert(pre_tree.states_seq()[0] == start_state);
            }
            if loop_number == 0 {
                // The unvisited root is simulated as itself.
                assert(base_node.states_seq() == pre_tree.states_seq());
            } else if loop_number == 1 {
                // The second iteration expands the root: its candidate set
                // is a pure function of the start state and the move set.
                assert(pre_tree.visits_of(0) == 1);
                let inner = SearchTree::<T>::expansion_states(
                    pre_tree.states_seq()[leafi],
                    pre_tree.mutations_spec(),
                    pre_tree.states_seq(),
                    pre_tree.mutations_spec().len() as int,
                );
                assert(inner == expansion);
                assert(base_node.states_seq() == seq![start_state] + expansion);
                assert(base_node.size_spec() == 1 + expansion.len());
                assert(base_node.states_seq().take(1 + expansion.len() as int) =~= seq![
                    start_state
                ] + expansion);
                if expansion.len() > 0 {
                    assert(base_node.children_of(0).len() == expansion.len());
                }
            } else {
                // Later iterations keep the root's children and the state
                // prefix: the root is never re-expanded once it has
                // children, and states are only appended.
                if expansion.len() > 0 {
                    let inner = SearchTree::<T>::expansion_states(
                        pre_tree.states_seq()[leafi],
                        pre_tree.mutations_spec(),
                        pre_tree.states_seq(),
                        pre_tree.mutations_spec().len() as int,
                    );
                    if pre_tree.visits_of(leafi) == 0 {
                        assert(base_node.children_of(0) == pre_tree.children_of(0));
                    } else if inner.len() == 0 {
                        assert(base_node.children_of(0) == pre_tree.children_of(0));
                    } else {
                        assert(leafi != 0) by {
                            if leafi == 0 {
                                assert(pre_tree.children_of(0).len() == 0);
                            }
                        }
                        assert(base_node.children_of(0) == pre_tree.children_of(0));
                    }
                }
                assert forall|q: int| 0 <= q < 1 + expansion.len() implies base_node.states_seq()[q]
                    == (seq![start_state] + expansion)[q] by {
                    assert(base_node.states_seq().take(pre_tree.size_spec() as int)[q]
                        == pre_tree.states_seq()[q]);
                    assert(pre_tree.states_seq().take(1 + expansion.len() as int)[q]
                        == (seq![start_state] + expansion)[q]);
                }
                assert(base_node.states_seq().take(1 + expansion.len() as int) =~= seq![
                    start_state
                ] + expansion);
            }
            // Every state, old or freshly expanded, stays reachable from
            // the start by legal moves.
            assert forall|i: int| 0 <= i < base_node.size_spec() implies reachable_by(
                T::mutation_seq(),
                start_state,
                #[trigger] base_node.states_seq()[i],
            ) by {
                if i < pre_tree.size_spec() {
                    assert(base_node.states_seq().take(pre_tree.size_spec() as int)[i]
                        == pre_tree.states_seq()[i]);
                    assert(base_node.states_seq()[i] == pre_tree.states_seq()[i]);
                    assert(reachable_by(
                        T::mutation_seq(),
                        start_state,
                        pre_tree.states_seq()[i],
                    ));
                } else {
                    let inner = SearchTree::<T>::expansion_states(
                        pre_tree.states_seq()[leafi],
                        pre_tree.mutations_spec(),
                        pre_tree.states_seq(),
                        pre_tree.mutations_spec().len() as int,
                    );
                    assert(pre_tree.visits_of(leafi) != 0);
                    assert(base_node.states_seq()[i] == inner[i - pre_tree.size_spec()]);
                    assert(inner.contains(inner[i - pre_tree.size_spec()]));
                    SearchTree::<T>::lemma_expansion_states_are_successors(
                        pre_tree.states_seq()[leafi],
                        pre_tree.mutations_spec(),
                        pre_tree.states_seq(),
                        pre_tree.mutations_spec().len() as int,
                    );
                    assert(reachable_by(
                        T::mutation_seq(),
                        start_state,
                        pre_tree.states_seq()[leafi],
                    ));
                    lemma_reachable_step(
                        T::mutation_seq(),
                        start_state,
                        pre_tree.states_seq()[leafi],
                        base_node.states_seq()[i],
                    );
                }
            }
        }
        loop_number += 1;
    }

    proof {
        let l = T::mutation_seq().len();
        assert((loop_number as nat) * l <= (loops as nat) * l) by (nonlinear_arith)
            requires
                (loop_number as nat) <= (loops as nat),
                l >= 0,
        {}
    }
    let best_state = base_node.best_state(evaluator);
    let tree_size = base_node.get_tree_size();

    proof {
        assert(base_node.states_seq().contains(best_state));
        let bw = choose|w: int|
            0 <= w < base_node.states_seq().len() && base_node.states_seq()[w] == best_state;
        assert(reachable_by(T::mutation_seq(), start_state, base_node.states_seq()[bw]));
        if loops >= 2 {
            assert forall|q: int| 0 <= q < expansion.len() implies evaluator.evaluate_spec(
                best_state,
            ) >= evaluator.evaluate_spec(#[trigger] expansion[q]) by {
                // The successor occupies arena slot 1 + q, a child of the
                // root, so the pre-order walk that best_state maximizes
                // over includes it.
                assert(base_node.states_seq().take(1 + expansion.len() as int)[q + 1]
                    == expansion[q]);
                assert(base_node.states_seq()[q + 1] == expansion[q]);
                assert((base_node.children_of(0)[q] as int) == 1 + q);
                base_node.lemma_child_state_in_preorder(0, q);
                let po = base_node.preorder_states(0);
                assert(po.contains(expansion[q]));
                let w = choose|w: int| 0 <= w < po.len() && po[w] == expansion[q];
                let ridx = choose|idx: int|
                    0 <= idx < po.len() && po[idx] == best_state && (forall|j: int|
                        0 <= j < idx ==> evaluator.evaluate_spec(#[trigger] po[j])
                            < evaluator.evaluate_spec(best_state)) && (forall|j: int|
                        0 <= j < po.len() ==> evaluator.evaluate_spec(#[trigger] po[j])
                            <= evaluator.evaluate_spec(best_state));
                assert(evaluator.evaluate_spec(po[w]) <= evaluator.evaluate_spec(best_state));
            }
        }
    }
    (best_state, tree_size)
}

/// Whether `r` is the value at the first position of `po` that achieves
/// the maximum evaluator score over `po`.
pub open spec fn first_max_of<T: State, E: Evaluator<T>>(evaluator: E, po: Seq<T>, r: T) -> bool {
    exists|idx: int|
        0 <= idx < po.len() && po[idx] == r && (forall|j: int|
            0 <= j < idx ==> evaluator.evaluate_spec(#[trigger] po[j])
                < evaluator.evaluate_spec(r)) && (forall|j: int|
            0 <= j < po.len() ==> evaluator.evaluate_spec(#[trigger] po[j])
                <= evaluator.evaluate_spec(r))
}

/// The first maximum of a concatenation is the better of the two first
/// maxima, preferring the left one on ties.
proof fn lemma_first_max_append<T: State, E: Evaluator<T>>(
    evaluator: E,
    s1: Seq<T>,
    s2: Seq<T>,
    r1: T,
    r2: T,
)
    requires
        first_max_of(evaluator, s1, r1),
        first_max_of(evaluator, s2, r2),
    ensures
        first_max_of(
            evaluator,
            s1 + s2,
            if evaluator.evaluate_spec(r2) > evaluator.evaluate_spec(r1) {
                r2
            } else {
                r1
            },
        ),
{
    let s = s1 + s2;
    let idx1 = choose|idx: int|
        0 <= idx < s1.len() && s1[idx] == r1 && (forall|j: int|
            0 <= j < idx ==> evaluator.evaluate_spec(#[trigger] s1[j])
                < evaluator.evaluate_spec(r1)) && (forall|j: int|
            0 <= j < s1.len() ==> evaluator.evaluate_spec(#[trigger] s1[j])
                <= evaluator.evaluate_spec(r1));
    let idx2 = choose|idx: int|
        0 <= idx < s2.len() && s2[idx] == r2 && (forall|j: int|
            0 <= j < idx ==> evaluator.evaluate_spec(#[trigger] s2[j])
                < evaluator.evaluate_spec(r2)) && (forall|j: int|
            0 <= j < s2.len() ==> evaluator.evaluate_spec(#[trigger] s2[j])
                <= evaluator.evaluate_spec(r2));
    if evaluator.evaluate_spec(r2) > evaluator.evaluate_spec(r1) {
        let idx = s1.len() + idx2;
        assert(s[idx] == r2);
        assert forall|j: int| 0 <= j < idx implies evaluator.evaluate_spec(#[trigger] s[j])
            < evaluator.evaluate_spec(r2) by {
            if j < s1.len() {
                assert(s[j] == s1[j]);
            } else {
                assert(s[j] == s2[j - s1.len()]);
            }
        }
        assert forall|j: int| 0 <= j < s.len() implies evaluator.evaluate_spec(#[trigger] s[j])
            <= evaluator.evaluate_spec(r2) by {
            if j < s1.len() {
                assert(s[j] == s1[j]);
            } else {
                assert(s[j] == s2[j - s1.len()]);
            }
        }
        assert(first_max_of(evaluator, s, r2));
    } else {
        assert(s[idx1] == r1);
        assert forall|j: int| 0 <= j < idx1 implies evaluator.evaluate_spec(#[trigger] s[j])
            < evaluator.evaluate_spec(r1) by {
            assert(s[j] == s1[j]);
        }
        assert forall|j: int| 0 <= j < s.len() implies evaluator.evaluate_spec(#[trigger] s[j])
            <= evaluator.evaluate_spec(r1) by {
            if j < s1.len() {
                assert(s[j] == s1[j]);
            } else {
                assert(s[j] == s2[j - s1.len()]);
            }
        }
        assert(first_max_of(evaluator, s, r1));
    }
}

/// The penalty assigned to a terminal node (one whose every candidate child
/// is a duplicate): the negative of its current average, damped by the next
/// visit count, so that a dead end discourages reselection without a
/// separate node kind.  Divisions truncate toward zero.
pub open spec fn penalty_spec(total: int, visits: int) -> int {
    if total >= 0 {
        -((total / visits) / (visits + 1))
    } else {
        ((-total) / visits) / (visits + 1)
    }
}

/// The terminal-node penalty, executable form, computed over magnitudes so
/// that every division has non-negative operands.
fn penalty_value(total: i64, visits: u32) -> (r: i32)
    requires
        visits >= 1,
        i32::MIN * (visits as int) <= (total as int) <= i32::MAX * (visits as int),
    ensures
        r as int == penalty_spec(total as int, visits as int),
{
    if total >= 0 {
        proof {
            assert((total as int) < 0x80000000 * (visits as int)) by (nonlinear_arith)
                requires
                    (total as int) <= i32::MAX * (visits as int),
                    visits >= 1,
            {}
            lemma_div_below(total as int, visits as int, 0x80000000);
            lemma_div_below((total as int) / (visits as int), (visits as int) + 1, 0x80000000);
        }
        let avg = (total as u64) / (visits as u64);
        let p = avg / ((visits as u64) + 1);
        -(p as i32)
    } else {
        proof {
            assert((-(total as int)) <= 0x80000000 * (visits as int)) by (nonlinear_arith)
                requires
                    i32::MIN * (visits as int) <= (total as int),
                    visits >= 1,
            {}
            assert((-(total as int)) < 0x80000000 * ((visits as int) + 1)) by (nonlinear_arith)
                requires
                    (-(total as int)) <= 0x80000000 * (visits as int),
                    visits >= 1,
            {}
            lemma_div_below(-(total as int), (visits as int) + 1, 0x80000000);
            lemma_div_le((-(total as int)) / (visits as int), -(total as int), (visits as int) + 1);
            lemma_div_le_self(-(total as int), visits as int);
        }
        let mag = (-total) as u64;
        let avg = mag / (visits as u64);
        let p = avg / ((visits as u64) + 1);
        p as i32
    }
}

} // verus!
