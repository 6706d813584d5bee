use crate::board::{Board, Bound, GameOutcome};
use crate::bounds::{derived_bound, derived_calculated};
use crate::mcts_node::MctsNode;
use crate::search_tree::{same_ids, SearchTree};
use vstd::prelude::*;

verus! {

impl<T: Board> SearchTree<T> {
    /// The bound that node `i` gets when a playout is counted at it: derived
    /// from what the node held in `before` and from the bounds that its
    /// children hold in `self`.
    pub open spec fn settled_bound(&self, before: &Self, i: int, pruning: bool) -> Bound {
        derived_bound(
            pruning,
            before.node(i).bound,
            before.node(i).outcome,
            before.node(i).current_player,
            self.child_bounds(i),
        )
    }

    /// Whether node `i` counts as fully calculated when a playout is counted
    /// at it: derived from its bound and from the flags that its children
    /// hold in `self`.
    pub open spec fn settled_flag(&self, before: &Self, i: int, pruning: bool) -> bool {
        derived_calculated(
            self.settled_bound(before, i, pruning),
            before.node(i).outcome,
            self.child_flags(i),
        )
    }

    /// What node `i` of `before` becomes when a playout with the given
    /// outcome is counted at it and its children are as in `self`.
    pub open spec fn counted_node(
        &self,
        before: &Self,
        i: int,
        outcome: GameOutcome,
        pruning: bool,
    ) -> MctsNode<T> {
        before.node(i).visited(
            outcome,
            self.settled_bound(before, i, pruning),
            self.settled_flag(before, i, pruning),
        )
    }

    /// Whether `self` is `before` after the outcome of a playout from node
    /// `child` has been carried up to the root. The links are the same. A
    /// node that is not on the way from `child` to the root is unchanged. A
    /// node on the way has one more visit, one more win or draw if that was
    /// the outcome, the bound that follows from its children as they now
    /// are, and its flag set if it is now fully calculated.
    pub open spec fn backpropagated_from(
        &self,
        before: &Self,
        child: int,
        outcome: GameOutcome,
        pruning: bool,
    ) -> bool {
        &&& self.links() == before.links()
        &&& self.size() == before.size()
        &&& forall|i: int|
            0 <= i < self.size() && !before.path_up(child).contains(i) ==> #[trigger] self.node(i)
                == before.node(i)
        &&& forall|i: int|
            0 <= i < self.size() && before.path_up(child).contains(i) ==> #[trigger] self.node(i)
                == self.counted_node(before, i, outcome, pruning)
    }

    /// The way from node `i` up to the root starts at `i`, ends at the root,
    /// goes from each node to its parent, and the positions on it fall.
    pub proof fn lemma_path_up(&self, i: int)
        requires
            self.shaped(),
            0 <= i < self.size(),
        ensures
            self.path_up(i).len() >= 1,
            self.path_up(i)[0] == i,
            self.path_up(i).last() == 0,
            forall|a: int| 0 <= a < self.path_up(i).len() ==> 0 <= #[trigger] self.path_up(i)[a] <= i,
            forall|a: int|
                0 <= a < self.path_up(i).len() - 1 ==> self.parent_of(#[trigger] self.path_up(i)[a])
                    == Some(self.path_up(i)[a + 1]) && self.path_up(i)[a + 1] < self.path_up(
                    i,
                )[a],
            forall|a: int, b: int|
                0 <= a < b < self.path_up(i).len() ==> #[trigger] self.path_up(i)[b]
                    < #[trigger] self.path_up(i)[a],
        decreases i,
    {
        if i > 0 {
            let p = self.parent_of(i)->Some_0;
            assert(self.parent_of(i) is Some && 0 <= p < i);
            self.lemma_path_up(p);
            let rest = self.path_up(p);
            let whole = self.path_up(i);
            assert(whole == seq![i] + rest);
            assert(whole[0] == i);
            assert forall|a: int| 0 < a < whole.len() implies whole[a] == rest[a - 1] by {}
            assert(whole.last() == rest.last());
            assert forall|a: int| 0 <= a < whole.len() - 1 implies self.parent_of(
                #[trigger] whole[a],
            ) == Some(whole[a + 1]) && whole[a + 1] < whole[a] by {
                if a > 0 {
                    assert(whole[a] == rest[a - 1]);
                    assert(whole[a + 1] == rest[a]);
                } else {
                    assert(whole[1] == rest[0]);
                }
            }
            assert forall|a: int, b: int| 0 <= a < b < whole.len() implies #[trigger] whole[b]
                < #[trigger] whole[a] by {
                assert(whole[b] == rest[b - 1]);
                if a > 0 {
                    assert(whole[a] == rest[a - 1]);
                }
            }
        }
    }

    /// The parent of a node was created before it, and only the root has none.
    pub proof fn lemma_parent_below(&self, i: int)
        requires
            self.shaped(),
            0 <= i < self.size(),
        ensures
            match self.parent_of(i) {
                Some(p) => 0 <= p < i,
                None => i == 0,
            },
    {
    }

    /// The root is on the way up from every node, and with a node other
    /// than the root its parent is on the way too.
    pub proof fn lemma_way_closed(&self, child: int, i: int)
        requires
            self.shaped(),
            0 <= child < self.size(),
            0 <= i < self.size(),
            self.path_up(child).contains(i),
        ensures
            self.path_up(child).contains(0),
            i > 0 ==> self.parent_of(i) is Some && self.path_up(child).contains(
                self.parent_of(i)->Some_0,
            ),
    {
        let way = self.path_up(child);
        self.lemma_path_up(child);
        assert(way[way.len() - 1] == 0);
        if i > 0 {
            let a = choose|a: int| 0 <= a < way.len() && way[a] == i;
            assert(a < way.len() - 1);
            assert(self.parent_of(way[a]) == Some(way[a + 1]));
            assert(way[a + 1] == self.parent_of(i)->Some_0);
        }
    }

    /// After a backpropagation every node still has consistent counts and
    /// still agrees with its board, and it persists.
    pub proof fn lemma_counted_node_ok(
        &self,
        before: &Self,
        child: int,
        outcome: GameOutcome,
        pruning: bool,
        i: int,
    )
        requires
            before.wf(),
            before.node(0).visits < i32::MAX,
            0 <= child < before.size(),
            self.backpropagated_from(before, child, outcome, pruning),
            0 <= i < self.size(),
        ensures
            self.node(i).counts_ok(),
            self.node(i).matches_board(),
            self.node(i).height == before.node(i).height,
            self.node(i).prev_move == before.node(i).prev_move,
            self.node(i).visits == before.node(i).visits + if before.path_up(child).contains(i) {
                1int
            } else {
                0int
            },
            self.node(i).wins == before.node(i).wins + if before.path_up(child).contains(i)
                && outcome == GameOutcome::Win {
                1int
            } else {
                0int
            },
            self.node(i).draws == before.node(i).draws + if before.path_up(child).contains(i)
                && outcome == GameOutcome::Draw {
                1int
            } else {
                0int
            },
            before.node(i).persists_as(&self.node(i)),
    {
        assert(before.node(i).counts_ok() && before.node(i).matches_board());
        before.lemma_visits_below_root(i);
        if before.path_up(child).contains(i) {
            assert(self.node(i) == self.counted_node(before, i, outcome, pruning));
        } else {
            assert(self.node(i) == before.node(i));
        }
    }

    /// After a backpropagation every node but the root still fits its parent.
    proof fn lemma_counted_child_fits(
        &self,
        before: &Self,
        child: int,
        outcome: GameOutcome,
        pruning: bool,
        i: int,
    )
        requires
            before.wf(),
            before.node(0).visits < i32::MAX,
            0 <= child < before.size(),
            self.backpropagated_from(before, child, outcome, pruning),
            0 < i < self.size(),
        ensures
            self.child_fits(i),
    {
        assert(before.child_fits(i));
        before.lemma_parent_below(i);
        let p = before.parent_of(i)->Some_0;
        self.lemma_counted_node_ok(before, child, outcome, pruning, i);
        self.lemma_counted_node_ok(before, child, outcome, pruning, p);
        if before.path_up(child).contains(i) {
            before.lemma_way_closed(child, i);
        }
    }

    /// After a backpropagation a node whose children are all fully
    /// calculated is fully calculated itself.
    proof fn lemma_counted_flag_settled(
        &self,
        before: &Self,
        child: int,
        outcome: GameOutcome,
        pruning: bool,
        i: int,
    )
        requires
            before.wf(),
            before.node(0).visits < i32::MAX,
            0 <= child < before.size(),
            self.backpropagated_from(before, child, outcome, pruning),
            0 <= i < self.size(),
        ensures
            self.flag_settled(i),
    {
        if self.children_of(i).len() > 0 && self.all_children_calculated(i) {
            if before.path_up(child).contains(i) {
                assert(self.node(i) == self.counted_node(before, i, outcome, pruning));
                assert forall|j: int| 0 <= j < self.child_flags(i).len() implies self.child_flags(
                    i,
                )[j] by {
                    assert(self.node(self.children_of(i)[j]).is_fully_calculated);
                }
                assert(self.settled_flag(before, i, pruning));
            } else {
                assert(self.node(i) == before.node(i));
                assert(before.flag_settled(i));
                assert forall|j: int| 0 <= j < before.children_of(i).len() implies (
                #[trigger] before.node(before.children_of(i)[j])).is_fully_calculated by {
                    let c = before.children_of(i)[j];
                    assert(i < c < before.size());
                    assert(before.parent_of(c) == Some(i));
                    if before.path_up(child).contains(c) {
                        before.lemma_way_closed(child, c);
                    }
                    assert(self.node(c) == before.node(c));
                    assert(self.node(self.children_of(i)[j]).is_fully_calculated);
                }
            }
        }
    }

    /// A backpropagation keeps the invariant of the tree.
    pub proof fn lemma_backpropagated_wf(
        &self,
        before: &Self,
        child: int,
        outcome: GameOutcome,
        pruning: bool,
    )
        requires
            before.wf(),
            before.node(0).visits < i32::MAX,
            0 <= child < before.size(),
            self.backpropagated_from(before, child, outcome, pruning),
        ensures
            self.wf(),
    {
        self.lemma_counted_node_ok(before, child, outcome, pruning, 0);
        assert forall|i: int| 0 <= i < self.size() implies (#[trigger] self.node(i)).counts_ok()
            && self.node(i).matches_board() by {
            self.lemma_counted_node_ok(before, child, outcome, pruning, i);
        }
        assert forall|i: int| 0 < i < self.size() implies #[trigger] self.child_fits(i) by {
            self.lemma_counted_child_fits(before, child, outcome, pruning, i);
        }
        assert forall|i: int| 0 <= i < self.size() implies #[trigger] self.flag_settled(i) by {
            self.lemma_counted_flag_settled(before, child, outcome, pruning, i);
        }
    }

    /// A child of the node at the place number `k` of the way up is on the
    /// way only if it is the node one place before.
    pub proof fn lemma_child_on_the_way(&self, child: int, k: int, c: int)
        requires
            self.shaped(),
            0 <= child < self.size(),
            0 <= k < self.path_up(child).len(),
            0 <= c < self.size(),
            self.parent_of(c) == Some(self.path_up(child)[k]),
            self.path_up(child).contains(c),
        ensures
            k > 0,
            c == self.path_up(child)[k - 1],
    {
        let way = self.path_up(child);
        self.lemma_path_up(child);
        let m = choose|m: int| 0 <= m < way.len() && way[m] == c;
        self.lemma_parent_below(c);
        assert(m < way.len() - 1);
        assert(self.parent_of(way[m]) == Some(way[m + 1]));
        assert(way[m + 1] == way[k]);
        if m + 1 < k {
            assert(way[k] < way[m + 1]);
        }
        if k < m + 1 {
            assert(way[m + 1] < way[k]);
        }
    }

    /// Two trees that both come from `before` by the same backpropagation
    /// hold the same node at the place number `k` of the way up.
    proof fn lemma_same_on_the_way(
        &self,
        other: &Self,
        before: &Self,
        child: int,
        outcome: GameOutcome,
        pruning: bool,
        k: int,
    )
        requires
            before.shaped(),
            0 <= child < before.size(),
            self.backpropagated_from(before, child, outcome, pruning),
            other.backpropagated_from(before, child, outcome, pruning),
            0 <= k < before.path_up(child).len(),
        ensures
            self.node(before.path_up(child)[k]) == other.node(before.path_up(child)[k]),
        decreases k,
    {
        let way = before.path_up(child);
        before.lemma_path_up(child);
        let i = way[k];
        if k > 0 {
            self.lemma_same_on_the_way(other, before, child, outcome, pruning, k - 1);
        }
        assert forall|j: int| 0 <= j < before.children_of(i).len() implies self.node(
            before.children_of(i)[j],
        ) == other.node(before.children_of(i)[j]) by {
            let c = before.children_of(i)[j];
            assert(i < c < before.size());
            assert(before.parent_of(c) == Some(i));
            if way.contains(c) {
                before.lemma_child_on_the_way(child, k, c);
            } else {
                assert(self.node(c) == before.node(c));
                assert(other.node(c) == before.node(c));
            }
        }
        assert(self.child_bounds(i) =~= other.child_bounds(i));
        assert(self.child_flags(i) =~= other.child_flags(i));
        assert(way.contains(i));
        assert(self.node(i) == self.counted_node(before, i, outcome, pruning));
        assert(other.node(i) == other.counted_node(before, i, outcome, pruning));
    }

    /// A backpropagation has one result: two trees that both come from
    /// `before` by the same backpropagation have the same links and hold
    /// the same nodes.
    pub proof fn lemma_backpropagation_determined(
        &self,
        other: &Self,
        before: &Self,
        child: int,
        outcome: GameOutcome,
        pruning: bool,
    )
        requires
            before.shaped(),
            0 <= child < before.size(),
            self.backpropagated_from(before, child, outcome, pruning),
            other.backpropagated_from(before, child, outcome, pruning),
        ensures
            self.links() == other.links(),
            self.nodes() == other.nodes(),
    {
        let way = before.path_up(child);
        assert forall|i: int| 0 <= i < self.size() implies self.nodes()[i] == other.nodes()[i] by {
            if way.contains(i) {
                let k = choose|k: int| 0 <= k < way.len() && way[k] == i;
                self.lemma_same_on_the_way(other, before, child, outcome, pruning, k);
            } else {
                assert(self.node(i) == before.node(i));
                assert(other.node(i) == before.node(i));
            }
        }
        assert(self.nodes() =~= other.nodes());
    }

    /// A change at one node leaves the bounds and flags of the children of
    /// every node that is not its parent as they were.
    pub proof fn lemma_children_kept(&self, before: &Self, i: int, changed: int)
        requires
            before.shaped(),
            self.links() == before.links(),
            self.size() == before.size(),
            0 <= i < self.size(),
            forall|c: int| 0 <= c < self.size() && c != changed ==> self.node(c) == before.node(c),
            before.parent_of(changed) != Some(i),
        ensures
            self.child_bounds(i) == before.child_bounds(i),
            self.child_flags(i) == before.child_flags(i),
    {
        assert forall|j: int| 0 <= j < self.children_of(i).len() implies self.node(
            self.children_of(i)[j],
        ) == before.node(before.children_of(i)[j]) by {
            let c = self.children_of(i)[j];
            assert(i < c < self.size());
            assert(before.parent_of(c) == Some(i));
        }
        assert(self.child_bounds(i) =~= before.child_bounds(i));
        assert(self.child_flags(i) =~= before.child_flags(i));
    }

    /// Carries the outcome of a playout from node `child` up to the root:
    /// every node on the way gets one more visit, one more win or draw if
    /// that was the outcome, its bound if one is now proven, and its flag if
    /// it is now fully calculated. Returns the way, `child` first.
    pub fn backpropagate(&mut self, child: usize, outcome: GameOutcome, pruning: bool) -> (path:
        Vec<usize>)
        requires
            old(self).wf(),
            child < old(self).size(),
            old(self).node(0).visits < i32::MAX,
        ensures
            final(self).wf(),
            final(self).advanced_from(old(self)),
            same_ids(path@, old(self).path_up(child as int)),
            final(self).backpropagated_from(old(self), child as int, outcome, pruning),
    {
        let ghost before = *self;
        let ghost way = before.path_up(child as int);
        let path = self.path_to_root(child);
        proof {
            before.lemma_path_up(child as int);
        }
        let mut k: usize = 0;
        while k < path.len()
            invariant
                before.wf(),
                before.node(0).visits < i32::MAX,
                child < before.size(),
                way == before.path_up(child as int),
                same_ids(path@, way),
                0 <= k <= path@.len(),
                self.shaped(),
                self.links() == before.links(),
                self.size() == before.size(),
                forall|a: int| 0 <= a < way.len() ==> 0 <= #[trigger] way[a] < before.size(),
                forall|a: int|
                    0 <= a < way.len() - 1 ==> before.parent_of(#[trigger] way[a]) == Some(
                        way[a + 1],
                    ),
                forall|a: int, b: int|
                    0 <= a < b < way.len() ==> #[trigger] way[b] < #[trigger] way[a],
                forall|i: int|
                    0 <= i < self.size() && (forall|a: int| 0 <= a < k ==> way[a] != i)
                        ==> #[trigger] self.node(i) == before.node(i),
                forall|a: int|
                    0 <= a < k ==> self.node(#[trigger] way[a]) == self.counted_node(
                        &before,
                        way[a],
                        outcome,
                        pruning,
                    ),
            decreases path@.len() - k,
        {
            let id = path[k];
            let ghost earlier = *self;
            proof {
                assert(way[k as int] == id);
                assert(forall|a: int| 0 <= a < k ==> way[a] != id);
                assert(self.node(id as int) == before.node(id as int));
                before.lemma_visits_below_root(id as int);
                assert(before.node(id as int).counts_ok());
            }
            let bound = self.get_bound(id, pruning);
            let calculated = self.is_fully_calculated(id, bound);
            self.record_visit(id, outcome, bound, calculated);
            proof {
                assert forall|c: int| 0 <= c < self.size() && c != id implies self.node(c)
                    == earlier.node(c) by {}
                earlier.lemma_parent_below(id as int);
                self.lemma_children_kept(&earlier, id as int, id as int);
                assert(self.node(id as int) == self.counted_node(
                    &before,
                    id as int,
                    outcome,
                    pruning,
                ));
                assert forall|a: int| 0 <= a < k + 1 implies self.node(#[trigger] way[a])
                    == self.counted_node(&before, way[a], outcome, pruning) by {
                    if a < k {
                        assert(way[k as int] < way[a]);
                        assert(earlier.parent_of(id as int) != Some(way[a]));
                        self.lemma_children_kept(&earlier, way[a], id as int);
                        assert(self.node(way[a]) == earlier.node(way[a]));
                    }
                }
                assert forall|i: int|
                    0 <= i < self.size() && (forall|a: int|
                        0 <= a < k + 1 ==> way[a] != i) implies #[trigger] self.node(i)
                    == before.node(i) by {
                    assert(way[k as int] != i);
                    assert(forall|a: int| 0 <= a < k ==> way[a] != i);
                    assert(earlier.node(i) == before.node(i));
                }
            }
            k += 1;
        }
        proof {
            assert forall|i: int|
                0 <= i < self.size() && !way.contains(i) implies #[trigger] self.node(i)
                == before.node(i) by {
                assert forall|a: int| 0 <= a < k implies way[a] != i by {
                    if way[a] == i {
                        assert(way.contains(i));
                    }
                }
            }
            assert forall|i: int|
                0 <= i < self.size() && way.contains(i) implies #[trigger] self.node(i)
                == self.counted_node(&before, i, outcome, pruning) by {
                let a = choose|a: int| 0 <= a < way.len() && way[a] == i;
                assert(self.node(way[a]) == self.counted_node(&before, way[a], outcome, pruning));
            }
            self.lemma_backpropagated_wf(&before, child as int, outcome, pruning);
            self.lemma_backpropagation_advances(&before, child as int, outcome, pruning);
        }
        path
    }
}

} // verus!
