use crate::board::{Board, GameOutcome};
use crate::mcts::{MctsAction, MonteCarloTreeSearch};
use crate::random::RandomGenerator;
use crate::selection::{gives_one_rank, UcbScorer};
use vstd::prelude::*;

verus! {

impl<T: Board, K: RandomGenerator, S: UcbScorer> MonteCarloTreeSearch<T, K, S> {
    /// A step keeps the invariant of the search, its scorer and its
    /// setting, and a reproducible generator stays reproducible.
    pub proof fn lemma_step_keeps(&self, before: &Self)
        requires
            self.came_from(before),
        ensures
            self.wf(),
            self.scorer() == before.scorer(),
            self.pruning() == before.pruning(),
            before.random().is_reproducible() ==> self.random().is_reproducible(),
    {
        self.lemma_came_from(before);
        self.lemma_drew_from(before);
    }

    /// Two searches in the same state are in the same phase.
    pub proof fn lemma_same_phase(&self, other: &Self)
        requires
            self.same_as(other),
        ensures
            self.at_rest() == other.at_rest(),
            self.action() is EverythingIsCalculated == other.action() is EverythingIsCalculated,
    {
    }

    /// A step keeps two searches in the same state, if the generator is
    /// reproducible and the scorer gives the same rank whenever it is asked
    /// the same.
    pub proof fn lemma_steps_alike(&self, other: &Self, before: &Self, before_other: &Self)
        requires
            before.wf(),
            before_other.wf(),
            before.same_as(before_other),
            before.random().is_reproducible(),
            gives_one_rank(before.scorer()),
            self.came_from(before),
            other.came_from(before_other),
        ensures
            self.same_as(other),
    {
        let tree = before.tree();
        let tree_other = before_other.tree();
        assert(before.action_fits() && before_other.action_fits());
        match before.action() {
            MctsAction::Selection { R, RP } => {
                self.lemma_selection_facts(before);
                other.lemma_selection_facts(before_other);
                match other.action() {
                    MctsAction::Expansion { L } => {
                        tree.lemma_closed_alike(&tree_other, L as int);
                        tree.lemma_descents_alike(
                            &tree_other,
                            before.scorer(),
                            R as int,
                            L as int,
                        );
                    },
                    _ => {
                        tree.lemma_closed_alike(&tree_other, R as int);
                        tree.lemma_closed_alike(&tree_other, 0);
                    },
                }
                assert(before.leads_to(other.action()));
                before.lemma_selection_is_determined(self.action(), other.action());
            },
            MctsAction::Expansion { L } => {
                self.lemma_expansion_facts(before, L);
                other.lemma_expansion_facts(before_other, L);
                let leaf = L as int;
                assert(tree.node(leaf) == tree_other.node(leaf));
                if tree.node(leaf).outcome == GameOutcome::InProgress && tree.node(
                    leaf,
                ).board.available_moves().len() > 0 {
                    self.tree().lemma_expansions_alike(&other.tree(), &tree, &tree_other, leaf);
                    assert(self.tree().children_of(leaf) == other.tree().children_of(leaf));
                }
                assert(self.action()->AC@ =~= other.action()->AC@);
            },
            MctsAction::Simulation { C, AC } => {
                self.lemma_playout_facts(before, C);
                other.lemma_playout_facts(before_other, C);
                assert(tree.node(C as int) == tree_other.node(C as int));
            },
            MctsAction::Backpropagation { C, result } => {
                self.lemma_update_facts(before, C, result);
                other.lemma_update_facts(before_other, C, result);
                assert(tree.shaped());
                self.tree().lemma_backpropagations_alike(
                    &other.tree(),
                    &tree,
                    &tree_other,
                    C as int,
                    result,
                    before.pruning(),
                );
                tree.lemma_way_up_alike(&tree_other, C as int);
                assert(self.action()->RP@ =~= other.action()->RP@);
            },
            MctsAction::EverythingIsCalculated => {
                self.lemma_came_from(before);
                other.lemma_came_from(before_other);
            },
        }
    }

    /// A run of two steps or more begins with a step after which the
    /// search is not at rest, and goes on from there with one step less.
    pub proof fn lemma_run_begins(&self, before: &Self, n: nat) -> (first: Self)
        requires
            self.ran_from(before, n),
            n >= 2,
        ensures
            first.came_from(before),
            !first.at_rest(),
            self.ran_from(&first, (n - 1) as nat),
        decreases n,
    {
        let mid = choose|mid: Self|
            mid.ran_from(before, (n - 1) as nat) && !mid.at_rest() && #[trigger] self.came_from(
                &mid,
            );
        if n == 2 {
            assert(self.ran_from(&mid, 1));
            mid
        } else {
            let first = mid.lemma_run_begins(before, (n - 1) as nat);
            assert(mid.ran_from(&first, (n - 2) as nat) && !mid.at_rest() && self.came_from(&mid));
            assert(self.ran_from(&first, (n - 1) as nat));
            first
        }
    }

    /// Two runs to the next rest from searches in the same state end in
    /// the same state, if the generator is reproducible and the scorer
    /// gives the same rank whenever it is asked the same.
    pub proof fn lemma_runs_alike(
        &self,
        other: &Self,
        before: &Self,
        before_other: &Self,
        n: nat,
        m: nat,
    )
        requires
            before.wf(),
            before_other.wf(),
            before.same_as(before_other),
            before.random().is_reproducible(),
            gives_one_rank(before.scorer()),
            n >= 1,
            m >= 1,
            self.ran_from(before, n),
            other.ran_from(before_other, m),
            self.at_rest(),
            other.at_rest(),
        ensures
            self.same_as(other),
        decreases n,
    {
        if n == 1 && m == 1 {
            self.lemma_steps_alike(other, before, before_other);
        } else if n == 1 {
            let first = other.lemma_run_begins(before_other, m);
            self.lemma_steps_alike(&first, before, before_other);
            self.lemma_same_phase(&first);
        } else if m == 1 {
            let first = self.lemma_run_begins(before, n);
            first.lemma_steps_alike(other, before, before_other);
            first.lemma_same_phase(other);
        } else {
            let first = self.lemma_run_begins(before, n);
            let first_other = other.lemma_run_begins(before_other, m);
            first.lemma_steps_alike(&first_other, before, before_other);
            first.lemma_step_keeps(before);
            first_other.lemma_step_keeps(before_other);
            self.lemma_runs_alike(
                other,
                &first,
                &first_other,
                (n - 1) as nat,
                (m - 1) as nat,
            );
        }
    }

    /// An iteration keeps two searches in the same state, if the generator
    /// is reproducible and the scorer gives the same rank whenever it is
    /// asked the same.
    pub proof fn lemma_iteration_alike(&self, other: &Self, before: &Self, before_other: &Self)
        requires
            before.wf(),
            before_other.wf(),
            before.same_as(before_other),
            before.random().is_reproducible(),
            gives_one_rank(before.scorer()),
            self.iterated_from(before),
            other.iterated_from(before_other),
        ensures
            self.same_as(other),
    {
        before.lemma_same_phase(before_other);
        if !(before.action() is EverythingIsCalculated) {
            let n = choose|n: nat| 1 <= n <= 4 && #[trigger] self.ran_from(before, n);
            let m = choose|m: nat| 1 <= m <= 4 && #[trigger] other.ran_from(before_other, m);
            self.lemma_runs_alike(other, before, before_other, n, m);
        }
    }

    /// Iterations keep the invariant of the search and its scorer, and a
    /// reproducible generator stays reproducible.
    pub proof fn lemma_iterations_keep(&self, before: &Self, n: nat)
        requires
            before.wf(),
            self.iterations_from(before, n),
        ensures
            self.wf(),
            self.scorer() == before.scorer(),
            before.random().is_reproducible() ==> self.random().is_reproducible(),
        decreases n,
    {
        if n > 0 {
            let mid = choose|mid: Self|
                mid.iterations_from(before, (n - 1) as nat) && #[trigger] self.iterated_from(&mid);
            mid.lemma_iterations_keep(before, (n - 1) as nat);
        }
    }

    /// The same number of iterations keeps two searches in the same state,
    /// if the generator is reproducible and the scorer gives the same rank
    /// whenever it is asked the same.
    pub proof fn lemma_iterations_alike(
        &self,
        other: &Self,
        before: &Self,
        before_other: &Self,
        n: nat,
    )
        requires
            before.wf(),
            before_other.wf(),
            before.same_as(before_other),
            before.random().is_reproducible(),
            gives_one_rank(before.scorer()),
            self.iterations_from(before, n),
            other.iterations_from(before_other, n),
        ensures
            self.same_as(other),
        decreases n,
    {
        if n > 0 {
            let mid = choose|mid: Self|
                mid.iterations_from(before, (n - 1) as nat) && #[trigger] self.iterated_from(&mid);
            let mid_other = choose|mid: Self|
                mid.iterations_from(before_other, (n - 1) as nat) && #[trigger] other.iterated_from(
                    &mid,
                );
            mid.lemma_iterations_alike(&mid_other, before, before_other, (n - 1) as nat);
            mid.lemma_iterations_keep(before, (n - 1) as nat);
            mid_other.lemma_iterations_keep(before_other, (n - 1) as nat);
            self.lemma_iteration_alike(other, &mid, &mid_other);
        }
    }

    /// Two new searches from the same board, with the same setting, the
    /// same scorer and the same generator, are in the same state.
    pub proof fn lemma_new_searches_alike(&self, other: &Self, board: T, pruning: bool)
        requires
            self.wf(),
            other.wf(),
            self.is_initial(board, pruning),
            other.is_initial(board, pruning),
            self.random() == other.random(),
            self.scorer() == other.scorer(),
        ensures
            self.same_as(other),
    {
        let a = self.tree().node(0);
        let b = other.tree().node(0);
        assert(a.matches_board() && b.matches_board());
        assert(a.board == b.board);
        assert(a == b);
        assert(self.tree().nodes() =~= other.tree().nodes());
        assert(self.action()->RP@ =~= other.action()->RP@);
    }

    /// The search is reproducible: two new searches from the same board,
    /// with the same setting, with the same scorer, which gives the same
    /// rank whenever it is asked the same, and with reproducible generators
    /// in the same state, are in the same state after the same number of
    /// iterations. Their trees hold the same nodes with the same links, and
    /// have the same text.
    pub proof fn lemma_same_runs(
        &self,
        other: &Self,
        start: &Self,
        start_other: &Self,
        board: T,
        pruning: bool,
        n: nat,
    )
        requires
            start.wf(),
            start_other.wf(),
            start.is_initial(board, pruning),
            start_other.is_initial(board, pruning),
            start.random() == start_other.random(),
            start.random().is_reproducible(),
            start.scorer() == start_other.scorer(),
            gives_one_rank(start.scorer()),
            self.iterated_times_from(start, n as int),
            other.iterated_times_from(start_other, n as int),
        ensures
            self.same_as(other),
            self.tree().subtree_text(0) == other.tree().subtree_text(0),
    {
        start.lemma_new_searches_alike(start_other, board, pruning);
        self.lemma_iterations_alike(other, start, start_other, n);
        self.tree().lemma_text_alike(&other.tree(), 0);
    }
}

} // verus!
