use crate::board::{Board, GameOutcome};
use crate::search_tree::SearchTree;
use crate::selection::{leads, Priority, UcbScorer};
use vstd::prelude::*;

verus! {

impl<T: Board> SearchTree<T> {
    /// Trees that hold the same nodes with the same links have the same
    /// way up from every node.
    pub proof fn lemma_way_up_alike(&self, other: &Self, i: int)
        requires
            self.same_as(other),
            0 <= i < self.size(),
        ensures
            self.path_up(i) == other.path_up(i),
        decreases i,
    {
        if i > 0 {
            assert(self.parent_of(i) == other.parent_of(i));
            match self.parent_of(i) {
                Some(p) => {
                    if 0 <= p < i {
                        self.lemma_way_up_alike(other, p);
                    }
                },
                None => {},
            }
        }
    }

    /// A step that a descent can take in one of two trees that hold the
    /// same nodes with the same links, it can take in the other.
    pub proof fn lemma_steps_alike<S: UcbScorer>(&self, other: &Self, scorer: S, i: int, c: int)
        requires
            self.same_as(other),
            0 <= i < self.size(),
            other.steps_to(scorer, i, c),
        ensures
            self.steps_to(scorer, i, c),
    {
        let (priorities, k) = choose|priorities: Seq<Priority>, k: int|
            other.are_priorities_of(scorer, i, priorities) && #[trigger] leads(priorities, k)
                && other.children_of(i)[k] == c;
        assert(self.children_of(i) == other.children_of(i));
        assert forall|j: int| 0 <= j < priorities.len() implies self.is_priority_of(
            scorer,
            i,
            self.children_of(i)[j],
            #[trigger] priorities[j],
        ) by {
            assert(other.is_priority_of(scorer, i, other.children_of(i)[j], priorities[j]));
        }
        assert(self.are_priorities_of(scorer, i, priorities) && leads(priorities, k)
            && self.children_of(i)[k] == c);
    }

    /// A node at which a descent can arrive in one of two trees that hold
    /// the same nodes with the same links, it can arrive at in the other.
    pub proof fn lemma_descents_alike<S: UcbScorer>(
        &self,
        other: &Self,
        scorer: S,
        from: int,
        to: int,
    )
        requires
            self.same_as(other),
            0 <= to < self.size(),
            other.descends(scorer, from, to),
        ensures
            self.descends(scorer, from, to),
        decreases to,
    {
        if to != from {
            assert(self.parent_of(to) == other.parent_of(to));
            let p = other.parent_of(to)->Some_0;
            self.lemma_steps_alike(other, scorer, p, to);
            self.lemma_descents_alike(other, scorer, from, p);
        }
    }

    /// Two trees that hold the same nodes with the same links agree on
    /// whether a node has a child to descend into.
    pub proof fn lemma_closed_alike(&self, other: &Self, i: int)
        requires
            self.same_as(other),
            0 <= i < self.size(),
        ensures
            self.is_closed(i) == other.is_closed(i),
            self.children_of(i) == other.children_of(i),
    {
        assert(self.children_of(i) == other.children_of(i));
    }

    /// After the same backpropagation in two trees that held the same
    /// nodes with the same links, the nodes at the place number `k` of the
    /// way up are the same.
    proof fn lemma_alike_on_the_way(
        &self,
        other: &Self,
        before: &Self,
        before_other: &Self,
        child: int,
        outcome: GameOutcome,
        pruning: bool,
        k: int,
    )
        requires
            before.shaped(),
            before.same_as(before_other),
            0 <= child < before.size(),
            self.backpropagated_from(before, child, outcome, pruning),
            other.backpropagated_from(before_other, child, outcome, pruning),
            0 <= k < before.path_up(child).len(),
        ensures
            self.node(before.path_up(child)[k]) == other.node(before.path_up(child)[k]),
        decreases k,
    {
        let way = before.path_up(child);
        before.lemma_path_up(child);
        before.lemma_way_up_alike(before_other, child);
        let i = way[k];
        if k > 0 {
            self.lemma_alike_on_the_way(
                other,
                before,
                before_other,
                child,
                outcome,
                pruning,
                k - 1,
            );
        }
        assert(before.children_of(i) == before_other.children_of(i));
        assert(self.children_of(i) == before.children_of(i));
        assert(other.children_of(i) == before_other.children_of(i));
        assert forall|j: int| 0 <= j < before.children_of(i).len() implies self.node(
            before.children_of(i)[j],
        ) == other.node(before.children_of(i)[j]) by {
            let c = before.children_of(i)[j];
            assert(i < c < before.size());
            assert(before.parent_of(c) == Some(i));
            if way.contains(c) {
                before.lemma_child_on_the_way(child, k, c);
            } else {
                assert(self.node(c) == before.node(c));
                assert(other.node(c) == before_other.node(c));
            }
        }
        assert(self.child_bounds(i) =~= other.child_bounds(i));
        assert(self.child_flags(i) =~= other.child_flags(i));
        assert(way.contains(i));
        assert(before.node(i) == before_other.node(i));
        assert(self.node(i) == self.counted_node(before, i, outcome, pruning));
        assert(other.node(i) == other.counted_node(before_other, i, outcome, pruning));
    }

    /// The same backpropagation in two trees that hold the same nodes with
    /// the same links leaves two trees that hold the same nodes with the
    /// same links.
    pub proof fn lemma_backpropagations_alike(
        &self,
        other: &Self,
        before: &Self,
        before_other: &Self,
        child: int,
        outcome: GameOutcome,
        pruning: bool,
    )
        requires
            before.shaped(),
            before.same_as(before_other),
            0 <= child < before.size(),
            self.backpropagated_from(before, child, outcome, pruning),
            other.backpropagated_from(before_other, child, outcome, pruning),
        ensures
            self.same_as(other),
    {
        let way = before.path_up(child);
        before.lemma_way_up_alike(before_other, child);
        assert forall|i: int| 0 <= i < self.size() implies self.nodes()[i] == other.nodes()[i] by {
            if way.contains(i) {
                let k = choose|k: int| 0 <= k < way.len() && way[k] == i;
                self.lemma_alike_on_the_way(
                    other,
                    before,
                    before_other,
                    child,
                    outcome,
                    pruning,
                    k,
                );
            } else {
                assert(self.node(i) == before.node(i));
                assert(other.node(i) == before_other.node(i));
            }
        }
        assert(self.nodes() =~= other.nodes());
        assert forall|i: int| 0 <= i < self.size() implies #[trigger] self.parent_of(i)
            == other.parent_of(i) by {
            assert(before.parent_of(i) == before_other.parent_of(i));
        }
        assert forall|i: int| 0 <= i < self.size() implies #[trigger] self.children_of(i)
            == other.children_of(i) by {
            assert(before.children_of(i) == before_other.children_of(i));
        }
    }

    /// The same expansion, with the same ids, in two trees that hold the
    /// same nodes with the same links leaves two trees that hold the same
    /// nodes with the same links.
    pub proof fn lemma_expansions_alike(
        &self,
        other: &Self,
        before: &Self,
        before_other: &Self,
        leaf: int,
    )
        requires
            before.same_as(before_other),
            0 <= leaf < before.size(),
            self.expanded_from(before, leaf),
            other.expanded_from(before_other, leaf),
            forall|k: int|
                0 <= k < before.node(leaf).board.available_moves().len() ==> (#[trigger] self.node(
                    before.size() + k,
                )).id == other.node(before.size() + k).id,
        ensures
            self.same_as(other),
    {
        let moves = before.node(leaf).board.available_moves();
        let base = before.size() as int;
        assert(before.node(leaf) == before_other.node(leaf));
        assert forall|i: int| 0 <= i < self.size() implies self.nodes()[i] == other.nodes()[i] by {
            if i < base {
                assert(self.node(i) == before.node(i));
                assert(other.node(i) == before_other.node(i));
            } else {
                let k = i - base;
                assert(self.is_child_by(before, leaf, base + k, moves[k]));
                assert(other.is_child_by(before_other, leaf, base + k, moves[k]));
                assert(self.node(base + k).id == other.node(base + k).id);
                assert(self.node(i).board == other.node(i).board);
            }
        }
        assert(self.nodes() =~= other.nodes());
        assert forall|i: int| 0 <= i < self.size() implies #[trigger] self.parent_of(i)
            == other.parent_of(i) by {
            if i < base {
                assert(self.parent_of(i) == before.parent_of(i));
                assert(other.parent_of(i) == before_other.parent_of(i));
                assert(before.parent_of(i) == before_other.parent_of(i));
            } else {
                let k = i - base;
                assert(self.is_child_by(before, leaf, base + k, moves[k]));
                assert(other.is_child_by(before_other, leaf, base + k, moves[k]));
            }
        }
        assert forall|i: int| 0 <= i < self.size() implies #[trigger] self.children_of(i)
            == other.children_of(i) by {
            if i < base {
                if i != leaf {
                    assert(self.children_of(i) == before.children_of(i));
                    assert(other.children_of(i) == before_other.children_of(i));
                    assert(before.children_of(i) == before_other.children_of(i));
                }
            } else {
                let k = i - base;
                assert(self.is_child_by(before, leaf, base + k, moves[k]));
                assert(other.is_child_by(before_other, leaf, base + k, moves[k]));
            }
        }
    }

    /// Trees that hold the same nodes with the same links have the same
    /// text below every node.
    pub proof fn lemma_text_alike(&self, other: &Self, i: int)
        requires
            self.same_as(other),
        ensures
            self.subtree_text(i) == other.subtree_text(i),
        decreases self.size() - i, 1nat, 0nat,
    {
        if 0 <= i < self.size() {
            assert(self.children_of(i) == other.children_of(i));
            self.lemma_children_text_alike(other, i, self.children_of(i).len());
        }
    }

    /// Trees that hold the same nodes with the same links have the same
    /// text below the first `k` children of every node.
    pub proof fn lemma_children_text_alike(&self, other: &Self, i: int, k: nat)
        requires
            self.same_as(other),
        ensures
            self.children_text(i, k) == other.children_text(i, k),
        decreases self.size() - i, 0nat, k,
    {
        if k > 0 && 0 <= i < self.size() {
            assert(self.children_of(i) == other.children_of(i));
            let c = self.children_of(i)[k - 1];
            self.lemma_children_text_alike(other, i, (k - 1) as nat);
            if i < c < self.size() {
                self.lemma_text_alike(other, c);
            }
        }
    }
}

} // verus!
