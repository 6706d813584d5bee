use crate::board::{Board, GameOutcome};
use crate::search_tree::SearchTree;
use vstd::prelude::*;

verus! {

impl<T: Board> SearchTree<T> {
    /// Whether `self` can be `before` at a later time of the search: no
    /// node is gone, every node of `before` persists, has the parent it had
    /// and has the children it had as its first children.
    pub open spec fn advanced_from(&self, before: &Self) -> bool {
        &&& self.size() >= before.size()
        &&& forall|i: int|
            0 <= i < before.size() ==> (#[trigger] before.node(i)).persists_as(&self.node(i))
        &&& forall|i: int|
            0 <= i < before.size() ==> #[trigger] self.parent_of(i) == before.parent_of(i)
        &&& forall|i: int|
            0 <= i < before.size() ==> (#[trigger] before.children_of(i)).is_prefix_of(
                self.children_of(i),
            )
    }

    /// A tree has advanced from itself.
    pub proof fn lemma_advanced_from_self(&self)
        ensures
            self.advanced_from(self),
    {
    }

    /// If `self` has advanced from `middle` and `middle` from `before`, then
    /// `self` has advanced from `before`.
    pub proof fn lemma_advanced_further(&self, middle: &Self, before: &Self)
        requires
            self.advanced_from(middle),
            middle.advanced_from(before),
        ensures
            self.advanced_from(before),
    {
        assert forall|i: int| 0 <= i < before.size() implies (#[trigger] before.node(
            i,
        )).persists_as(&self.node(i)) by {
            assert(before.node(i).persists_as(&middle.node(i)));
            assert(middle.node(i).persists_as(&self.node(i)));
        }
        assert forall|i: int| 0 <= i < before.size() implies #[trigger] self.parent_of(i)
            == before.parent_of(i) by {
            assert(middle.parent_of(i) == before.parent_of(i));
        }
        assert forall|i: int| 0 <= i < before.size() implies (#[trigger] before.children_of(
            i,
        )).is_prefix_of(self.children_of(i)) by {
            assert(before.children_of(i).is_prefix_of(middle.children_of(i)));
            assert(middle.children_of(i).is_prefix_of(self.children_of(i)));
        }
    }

    /// An expansion of a childless node advances the tree.
    pub proof fn lemma_expansion_advances(&self, before: &Self, leaf: int)
        requires
            0 <= leaf < before.size(),
            before.children_of(leaf).len() == 0,
            self.expanded_from(before, leaf),
        ensures
            self.advanced_from(before),
    {
        assert forall|i: int| 0 <= i < before.size() implies (#[trigger] before.node(
            i,
        )).persists_as(&self.node(i)) by {
            assert(self.node(i) == before.node(i));
        }
        assert forall|i: int| 0 <= i < before.size() implies (#[trigger] before.children_of(
            i,
        )).is_prefix_of(self.children_of(i)) by {
            if i != leaf {
                assert(self.children_of(i) == before.children_of(i));
            }
        }
    }

    /// Trees with the same links give every node the same parent and the
    /// same children.
    pub proof fn lemma_same_links(&self, before: &Self)
        requires
            self.links() == before.links(),
        ensures
            forall|i: int| #[trigger] self.parent_of(i) == before.parent_of(i),
            forall|i: int|
                (#[trigger] before.children_of(i)).is_prefix_of(self.children_of(i)),
    {
        assert forall|i: int|
            (#[trigger] before.children_of(i)).is_prefix_of(self.children_of(i)) by {
            let kids = before.children_of(i);
            assert(kids =~= kids.subrange(0, kids.len() as int));
        }
    }

    /// Every node persists through a backpropagation.
    pub proof fn lemma_backpropagation_keeps_nodes(
        &self,
        before: &Self,
        child: int,
        outcome: GameOutcome,
        pruning: bool,
    )
        requires
            before.wf(),
            before.node(0).visits < i32::MAX,
            0 <= child < before.size(),
            self.backpropagated_from(before, child, outcome, pruning),
        ensures
            self.size() == before.size(),
            self.links() == before.links(),
            forall|i: int|
                0 <= i < before.size() ==> (#[trigger] before.node(i)).persists_as(&self.node(i)),
    {
        assert forall|i: int| 0 <= i < before.size() implies (#[trigger] before.node(
            i,
        )).persists_as(&self.node(i)) by {
            self.lemma_counted_node_ok(before, child, outcome, pruning, i);
        }
    }

    /// A tree with the same links and as many nodes, all of which persist,
    /// has advanced.
    pub proof fn lemma_kept_nodes_advance(&self, before: &Self)
        requires
            self.size() == before.size(),
            self.links() == before.links(),
            forall|i: int|
                0 <= i < before.size() ==> (#[trigger] before.node(i)).persists_as(&self.node(i)),
        ensures
            self.advanced_from(before),
    {
        self.lemma_same_links(before);
    }

    /// A backpropagation advances the tree.
    pub proof fn lemma_backpropagation_advances(
        &self,
        before: &Self,
        child: int,
        outcome: GameOutcome,
        pruning: bool,
    )
        requires
            before.wf(),
            before.node(0).visits < i32::MAX,
            0 <= child < before.size(),
            self.backpropagated_from(before, child, outcome, pruning),
        ensures
            self.advanced_from(before),
    {
        self.lemma_backpropagation_keeps_nodes(before, child, outcome, pruning);
        self.lemma_kept_nodes_advance(before);
    }

    /// What is proven of a node stays proven while the tree advances: a
    /// resolved bound is never changed, and a node that is fully calculated
    /// stays so.
    pub proof fn lemma_proofs_stay(&self, before: &Self, i: int)
        requires
            self.advanced_from(before),
            0 <= i < before.size(),
        ensures
            before.node(i).bound != crate::board::Bound::Unknown ==> self.node(i).bound
                == before.node(i).bound,
            before.node(i).is_fully_calculated ==> self.node(i).is_fully_calculated,
            before.node(i).visits <= self.node(i).visits,
    {
        assert(before.node(i).persists_as(&self.node(i)));
    }
}

} // verus!
