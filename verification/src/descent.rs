use crate::board::Board;
use crate::search_tree::{same_ids, SearchTree};
use crate::selection::{first_best, gives_one_rank, leads, priority_level, Priority, UcbScorer};
use vstd::prelude::*;

verus! {

impl<T: Board> SearchTree<T> {
    /// Whether node `c` may still be descended into.
    pub open spec fn is_open(&self, c: int) -> bool {
        !self.node(c).is_fully_calculated
    }

    /// Whether `rank` is a rank that the scorer can give the child `kid` of
    /// node `parent`: one that its `ucb_value` can return for the visits of
    /// the parent and the wins and visits of the child.
    pub open spec fn is_rank_of<S: UcbScorer>(
        &self,
        scorer: S,
        parent: int,
        kid: int,
        rank: u64,
    ) -> bool {
        call_ensures(
            S::ucb_value,
            (&scorer, self.node(parent).visits, self.node(kid).wins, self.node(kid).visits),
            rank,
        )
    }

    /// Whether `priority` is a priority of the child `kid` of node `parent`:
    /// skipped if the child is fully calculated, first in line if it is open
    /// and unvisited, and otherwise a rank that the scorer gives it.
    pub open spec fn is_priority_of<S: UcbScorer>(
        &self,
        scorer: S,
        parent: int,
        kid: int,
        priority: Priority,
    ) -> bool {
        match priority {
            Priority::Skipped => !self.is_open(kid),
            Priority::Unvisited => self.is_open(kid) && self.node(kid).visits == 0,
            Priority::Scored(rank) => {
                &&& self.is_open(kid)
                &&& self.node(kid).visits != 0
                &&& self.is_rank_of(scorer, parent, kid, rank)
            },
        }
    }

    /// Whether `priorities` holds a priority of each child of node `i`, in
    /// the order of the children.
    pub open spec fn are_priorities_of<S: UcbScorer>(
        &self,
        scorer: S,
        i: int,
        priorities: Seq<Priority>,
    ) -> bool {
        &&& priorities.len() == self.children_of(i).len()
        &&& forall|j: int|
            0 <= j < priorities.len() ==> self.is_priority_of(
                scorer,
                i,
                self.children_of(i)[j],
                #[trigger] priorities[j],
            )
    }

    /// Whether a descent from node `i` can step to node `c`: `c` is the
    /// first child of highest priority among the open children of `i`, for
    /// priorities of the children in which the visited ones have ranks that
    /// the scorer gives them.
    pub open spec fn steps_to<S: UcbScorer>(&self, scorer: S, i: int, c: int) -> bool {
        exists|priorities: Seq<Priority>, k: int|
            self.are_priorities_of(scorer, i, priorities) && #[trigger] leads(priorities, k)
                && self.children_of(i)[k] == c
    }

    /// Whether a descent that starts at node `from` can arrive at node `to`
    /// by steps from a node to one of its children.
    pub open spec fn descends<S: UcbScorer>(&self, scorer: S, from: int, to: int) -> bool
        decreases to,
    {
        if to == from {
            true
        } else if to <= 0 {
            false
        } else {
            match self.parent_of(to) {
                Some(p) => 0 <= p < to && self.steps_to(scorer, p, to) && self.descends(
                    scorer,
                    from,
                    p,
                ),
                None => false,
            }
        }
    }

    /// No child of node `i` can be descended into.
    pub open spec fn is_closed(&self, i: int) -> bool {
        forall|j: int|
            0 <= j < self.children_of(i).len() ==> !self.is_open(#[trigger] self.children_of(i)[j])
    }

    /// A step of a descent goes to an open child.
    pub proof fn lemma_step_is_open<S: UcbScorer>(&self, scorer: S, i: int, c: int)
        requires
            self.steps_to(scorer, i, c),
        ensures
            self.is_open(c),
            exists|k: int| 0 <= k < self.children_of(i).len() && self.children_of(i)[k] == c,
    {
        let (priorities, k) = choose|priorities: Seq<Priority>, k: int|
            self.are_priorities_of(scorer, i, priorities) && #[trigger] leads(priorities, k)
                && self.children_of(i)[k] == c;
        assert(self.is_priority_of(scorer, i, self.children_of(i)[k], priorities[k]));
    }

    /// With a scorer that gives the same rank whenever it is asked the
    /// same, a descent has one step to take from a node: the child of
    /// greatest priority, the first of equals.
    pub proof fn lemma_step_is_determined<S: UcbScorer>(
        &self,
        scorer: S,
        i: int,
        first: int,
        second: int,
    )
        requires
            gives_one_rank(scorer),
            self.steps_to(scorer, i, first),
            self.steps_to(scorer, i, second),
        ensures
            first == second,
    {
        let (ps, k) = choose|priorities: Seq<Priority>, k: int|
            self.are_priorities_of(scorer, i, priorities) && #[trigger] leads(priorities, k)
                && self.children_of(i)[k] == first;
        let (qs, l) = choose|priorities: Seq<Priority>, k: int|
            self.are_priorities_of(scorer, i, priorities) && #[trigger] leads(priorities, k)
                && self.children_of(i)[k] == second;
        assert forall|j: int| 0 <= j < ps.len() implies priority_level(ps[j]) == priority_level(
            qs[j],
        ) by {
            assert(self.is_priority_of(scorer, i, self.children_of(i)[j], ps[j]));
            assert(self.is_priority_of(scorer, i, self.children_of(i)[j], qs[j]));
        }
        if k < l {
            assert(priority_level(qs[k]) < priority_level(qs[l]));
            assert(priority_level(ps[l]) <= priority_level(ps[k]));
        }
        if l < k {
            assert(priority_level(ps[l]) < priority_level(ps[k]));
            assert(priority_level(qs[k]) <= priority_level(qs[l]));
        }
    }

    /// A descent only arrives at nodes that were created no earlier than
    /// the node it starts at.
    pub proof fn lemma_descent_goes_on<S: UcbScorer>(&self, scorer: S, from: int, to: int)
        requires
            self.descends(scorer, from, to),
        ensures
            from <= to,
        decreases to,
    {
        if to != from {
            self.lemma_descent_goes_on(scorer, from, self.parent_of(to)->Some_0);
        }
    }

    /// A descent that arrives at another node than the one it starts at
    /// begins with a step to a child from which it arrives there.
    pub proof fn lemma_descent_begins<S: UcbScorer>(&self, scorer: S, from: int, to: int) -> (c:
        int)
        requires
            self.descends(scorer, from, to),
            to != from,
        ensures
            self.steps_to(scorer, from, c),
            self.descends(scorer, c, to),
        decreases to,
    {
        let p = self.parent_of(to)->Some_0;
        if p == from {
            to
        } else {
            let c = self.lemma_descent_begins(scorer, from, p);
            self.lemma_descent_goes_on(scorer, c, p);
            c
        }
    }

    /// With a scorer that gives the same rank whenever it is asked the
    /// same, two nodes at which descents from the same node can arrive lie
    /// on one way down: a descent from the earlier one arrives at the later
    /// one.
    pub proof fn lemma_descents_share_a_way<S: UcbScorer>(
        &self,
        scorer: S,
        from: int,
        x: int,
        y: int,
    )
        requires
            gives_one_rank(scorer),
            self.descends(scorer, from, x),
            self.descends(scorer, from, y),
            x < y,
        ensures
            self.descends(scorer, x, y),
        decreases y,
    {
        self.lemma_descent_goes_on(scorer, from, x);
        assert(y != from && y > 0);
        let p = self.parent_of(y)->Some_0;
        assert(self.parent_of(y) is Some && 0 <= p < y && self.steps_to(scorer, p, y)
            && self.descends(scorer, from, p));
        if p == x {
            assert(self.descends(scorer, x, x));
            assert(self.descends(scorer, x, y));
        } else if p > x {
            self.lemma_descents_share_a_way(scorer, from, x, p);
            assert(self.descends(scorer, x, y));
        } else {
            self.lemma_descents_share_a_way(scorer, from, p, x);
            let c = self.lemma_descent_begins(scorer, p, x);
            self.lemma_step_is_determined(scorer, p, c, y);
            self.lemma_descent_goes_on(scorer, c, x);
        }
    }

    /// With a scorer that gives the same rank whenever it is asked the
    /// same, a descent has one node to arrive at: two nodes without
    /// children at which descents from the same node can arrive are the
    /// same node.
    pub proof fn lemma_descent_is_determined<S: UcbScorer>(
        &self,
        scorer: S,
        from: int,
        first: int,
        second: int,
    )
        requires
            gives_one_rank(scorer),
            self.descends(scorer, from, first),
            self.descends(scorer, from, second),
            self.children_of(first).len() == 0,
            self.children_of(second).len() == 0,
        ensures
            first == second,
    {
        if first < second {
            self.lemma_descents_share_a_way(scorer, from, first, second);
            let c = self.lemma_descent_begins(scorer, first, second);
            self.lemma_step_is_open(scorer, first, c);
        } else if second < first {
            self.lemma_descents_share_a_way(scorer, from, second, first);
            let c = self.lemma_descent_begins(scorer, second, first);
            self.lemma_step_is_open(scorer, second, c);
        }
    }

    /// An unvisited child goes before every visited one: if node `i` has an
    /// open child that has never been visited, then the child that a
    /// descent from `i` steps to has never been visited either, and no
    /// open unvisited child comes before it.
    pub proof fn lemma_unvisited_goes_first<S: UcbScorer>(
        &self,
        scorer: S,
        i: int,
        c: int,
        j: int,
    )
        requires
            self.steps_to(scorer, i, c),
            0 <= j < self.children_of(i).len(),
            self.is_open(self.children_of(i)[j]),
            self.node(self.children_of(i)[j]).visits == 0,
        ensures
            self.node(c).visits == 0,
            exists|k: int| 0 <= k <= j && self.children_of(i)[k] == c,
    {
        let (priorities, k) = choose|priorities: Seq<Priority>, k: int|
            self.are_priorities_of(scorer, i, priorities) && #[trigger] leads(priorities, k)
                && self.children_of(i)[k] == c;
        assert(self.is_priority_of(scorer, i, self.children_of(i)[j], priorities[j]));
        assert(self.is_priority_of(scorer, i, self.children_of(i)[k], priorities[k]));
        assert(priorities[j] is Unvisited);
        assert(priority_level(priorities[j]) <= priority_level(priorities[k]));
        if j < k {
            assert(priority_level(priorities[j]) < priority_level(priorities[k]));
        }
        assert(0 <= k <= j && self.children_of(i)[k] == c);
    }

    /// Returns the priority of a child of node `parent`: skipped if it is
    /// fully calculated, first in line if it is unvisited, and otherwise
    /// the rank that the scorer gives it.
    pub fn child_priority<S: UcbScorer>(&self, parent: usize, kid: usize, scorer: &S) -> (priority:
        Priority)
        requires
            self.wf(),
            kid < self.size(),
            self.parent_of(kid as int) == Some(parent as int),
        ensures
            self.is_priority_of(*scorer, parent as int, kid as int, priority),
    {
        proof {
            self.lemma_parent_below(kid as int);
            assert(self.child_fits(kid as int));
            assert(self.node(kid as int).counts_ok());
        }
        let node = self.get(kid);
        if node.is_fully_calculated {
            Priority::Skipped
        } else if node.visits == 0 {
            Priority::Unvisited
        } else {
            Priority::Scored(scorer.ucb_value(self.get(parent).visits, node.wins, node.visits))
        }
    }

    /// Chooses the child of node `i` into which a descent goes next: among
    /// the children that are not fully calculated, the first of highest
    /// priority. Returns `None` if there is no such child.
    pub fn select_child<S: UcbScorer>(&self, i: usize, scorer: &S) -> (chosen: Option<usize>)
        requires
            self.wf(),
            i < self.size(),
        ensures
            match chosen {
                None => self.is_closed(i as int),
                Some(c) => self.steps_to(*scorer, i as int, c as int),
            },
    {
        let kids = self.children(i);
        let mut priorities: Vec<Priority> = Vec::new();
        let mut k: usize = 0;
        while k < kids.len()
            invariant
                self.wf(),
                i < self.size(),
                same_ids(kids@, self.children_of(i as int)),
                0 <= k <= kids@.len(),
                priorities@.len() == k,
                forall|j: int|
                    0 <= j < k ==> self.is_priority_of(
                        *scorer,
                        i as int,
                        self.children_of(i as int)[j],
                        #[trigger] priorities@[j],
                    ),
            decreases kids@.len() - k,
        {
            proof {
                assert(i < self.children_of(i as int)[k as int] < self.size());
            }
            let priority = self.child_priority(i, kids[k], scorer);
            priorities.push(priority);
            k += 1;
        }
        match first_best(&priorities) {
            None => {
                proof {
                    assert forall|j: int| 0 <= j < self.children_of(i as int).len() implies !self.is_open(
                        #[trigger] self.children_of(i as int)[j],
                    ) by {
                        assert(priorities@[j] is Skipped);
                        assert(self.is_priority_of(
                            *scorer,
                            i as int,
                            self.children_of(i as int)[j],
                            priorities@[j],
                        ));
                    }
                }
                None
            },
            Some(best) => {
                proof {
                    assert(self.are_priorities_of(*scorer, i as int, priorities@));
                    assert(leads(priorities@, best as int));
                }
                Some(kids[best])
            },
        }
    }

    /// Descends from node `root_id` to the node that is to be expanded next:
    /// from each node to the child that `select_child` gives, until a node
    /// has no child to descend into. Returns `None` if no step could be
    /// taken although the root of the tree has children: then nothing is
    /// left to search.
    pub fn select_next_node<S: UcbScorer>(&self, root_id: usize, scorer: &S) -> (leaf: Option<
        usize,
    >)
        requires
            self.wf(),
            root_id < self.size(),
        ensures
            match leaf {
                None => self.is_closed(root_id as int) && self.children_of(0).len() > 0,
                Some(l) => {
                    &&& l < self.size()
                    &&& self.children_of(l as int).len() == 0
                    &&& self.descends(*scorer, root_id as int, l as int)
                },
            },
    {
        let mut at = root_id;
        let mut has_changed = false;
        loop
            invariant
                self.wf(),
                root_id <= at < self.size(),
                self.descends(*scorer, root_id as int, at as int),
                has_changed ==> self.is_open(at as int),
                !has_changed ==> at == root_id,
            ensures
                self.is_closed(at as int),
            decreases self.size() - at,
        {
            match self.select_child(at, scorer) {
                None => {
                    break ;
                },
                Some(c) => {
                    proof {
                        self.lemma_step_is_open(*scorer, at as int, c as int);
                        let k = choose|k: int|
                            0 <= k < self.children_of(at as int).len() && self.children_of(
                                at as int,
                            )[k] == c;
                        assert(at < self.children_of(at as int)[k] < self.size());
                    }
                    at = c;
                    has_changed = true;
                },
            }
        }
        if has_changed {
            proof {
                assert(self.flag_settled(at as int));
                if self.children_of(at as int).len() > 0 {
                    assert forall|j: int|
                        0 <= j < self.children_of(at as int).len() implies (#[trigger] self.node(
                        self.children_of(at as int)[j],
                    )).is_fully_calculated by {
                        assert(!self.is_open(self.children_of(at as int)[j]));
                    }
                }
            }
            Some(at)
        } else {
            let root_kids = self.children(0);
            if root_kids.len() == 0 {
                proof {
                    if self.size() > 1 {
                        self.lemma_root_has_children();
                    }
                }
                Some(root_id)
            } else {
                None
            }
        }
    }
}

} // verus!
