use crate::board::{Board, Bound};
use crate::mcts_node::MctsNode;
use crate::search_tree::{same_ids, SearchTree};
use vstd::prelude::*;

verus! {

/// If the share of wins at `a` is at most that at `b`, and that at `b` is
/// less than that at `c`, then that at `a` is less than that at `c`.
pub proof fn lemma_rates_in_order<T: Board>(a: MctsNode<T>, b: MctsNode<T>, c: MctsNode<T>)
    requires
        a.counts_ok(),
        b.counts_ok(),
        c.counts_ok(),
        !a.outperforms(&b),
        c.outperforms(&b),
    ensures
        c.outperforms(&a),
        !a.outperforms(&c),
{
    let (an, ad) = (a.rate_wins(), a.rate_visits());
    let (bn, bd) = (b.rate_wins(), b.rate_visits());
    let (cn, cd) = (c.rate_wins(), c.rate_visits());
    assert(cn * ad > an * cd) by (nonlinear_arith)
        requires
            ad > 0,
            bd > 0,
            cd > 0,
            an >= 0,
            bn >= 0,
            cn >= 0,
            an * bd <= bn * ad,
            cn * bd > bn * cd,
    {
        assert((an * cd) * bd == (an * bd) * cd);
        assert((an * bd) * cd <= (bn * ad) * cd);
        assert((bn * ad) * cd == (bn * cd) * ad);
        assert((bn * cd) * ad < (cn * bd) * ad);
        assert((cn * bd) * ad == (cn * ad) * bd);
        assert((an * cd) * bd < (cn * ad) * bd);
    }
}

impl<T: Board> SearchTree<T> {
    /// Whether some child of node `i` is proven to be won.
    pub open spec fn has_winning_child(&self, i: int) -> bool {
        exists|j: int|
            0 <= j < self.children_of(i).len() && (#[trigger] self.node(
                self.children_of(i)[j],
            )).bound == Bound::DefoWin
    }

    /// Whether the child number `j` of node `i` is looked at when `only_won`
    /// tells whether only the children proven to be won count.
    pub open spec fn counts_among(&self, i: int, j: int, only_won: bool) -> bool {
        &&& 0 <= j < self.children_of(i).len()
        &&& only_won ==> self.node(self.children_of(i)[j]).bound == Bound::DefoWin
    }

    /// Whether the child number `k` of node `i` is the first of those with
    /// the greatest share of wins, among the children that count.
    pub open spec fn leads_among(&self, i: int, k: int, only_won: bool) -> bool {
        let kids = self.children_of(i);
        &&& self.counts_among(i, k, only_won)
        &&& forall|j: int| #[trigger]
            self.counts_among(i, j, only_won) ==> !self.node(kids[j]).outperforms(
                &self.node(kids[k]),
            )
        &&& forall|j: int| #[trigger]
            self.counts_among(i, j, only_won) && j < k ==> self.node(kids[k]).outperforms(
                &self.node(kids[j]),
            )
    }

    /// Whether the child number `k` of node `i` is its best child: the
    /// first of those with the greatest share of wins, among the children
    /// proven to be won if there are any, and among all children otherwise.
    pub open spec fn is_best_child(&self, i: int, k: int) -> bool {
        self.leads_among(i, k, self.has_winning_child(i))
    }

    /// Returns the number of the first child with the greatest share of
    /// wins among the children of node `i` that count, or `None` if none
    /// counts.
    pub fn leading_child(&self, i: usize, kids: &Vec<usize>, only_won: bool) -> (best: Option<
        usize,
    >)
        requires
            self.wf(),
            i < self.size(),
            same_ids(kids@, self.children_of(i as int)),
        ensures
            match best {
                Some(k) => self.leads_among(i as int, k as int, only_won),
                None => forall|j: int| !self.counts_among(i as int, j, only_won),
            },
    {
        let mut best: Option<usize> = None;
        let mut n: usize = 0;
        while n < kids.len()
            invariant
                self.wf(),
                i < self.size(),
                same_ids(kids@, self.children_of(i as int)),
                0 <= n <= kids@.len(),
                match best {
                    Some(k) => {
                        &&& k < n
                        &&& self.counts_among(i as int, k as int, only_won)
                        &&& forall|j: int|
                            j < n && #[trigger] self.counts_among(i as int, j, only_won)
                                ==> !self.node(kids@[j] as int).outperforms(
                                &self.node(kids@[k as int] as int),
                            )
                        &&& forall|j: int|
                            j < k && #[trigger] self.counts_among(i as int, j, only_won)
                                ==> self.node(kids@[k as int] as int).outperforms(
                                &self.node(kids@[j] as int),
                            )
                    },
                    None => forall|j: int| j < n ==> !self.counts_among(i as int, j, only_won),
                },
            decreases kids@.len() - n,
        {
            proof {
                assert(i < self.children_of(i as int)[n as int] < self.size());
                assert(self.node(kids@[n as int] as int).counts_ok());
            }
            let child = self.get(kids[n]);
            if !only_won || child.bound == Bound::DefoWin {
                match best {
                    None => {
                        best = Some(n);
                    },
                    Some(k) => {
                        proof {
                            assert(i < self.children_of(i as int)[k as int] < self.size());
                            assert(self.node(kids@[k as int] as int).counts_ok());
                        }
                        if child.wins_rate_exceeds(self.get(kids[k])) {
                            proof {
                                assert forall|j: int|
                                    j < n + 1 && #[trigger] self.counts_among(
                                        i as int,
                                        j,
                                        only_won,
                                    ) implies !self.node(kids@[j] as int).outperforms(
                                    &self.node(kids@[n as int] as int),
                                ) && (j < n ==> self.node(kids@[n as int] as int).outperforms(
                                    &self.node(kids@[j] as int),
                                )) by {
                                    if j < n {
                                        assert(i < self.children_of(i as int)[j] < self.size());
                                        assert(self.node(kids@[j] as int).counts_ok());
                                        lemma_rates_in_order(
                                            self.node(kids@[j] as int),
                                            self.node(kids@[k as int] as int),
                                            self.node(kids@[n as int] as int),
                                        );
                                    }
                                }
                            }
                            best = Some(n);
                        }
                    },
                }
            }
            n += 1;
        }
        best
    }

    /// Returns the best child of node `i`: the first of those with the
    /// greatest share of wins, among the children proven to be won if there
    /// are any, and among all children otherwise. Returns `None` for a node
    /// without children.
    pub fn best_child(&self, i: usize) -> (best: Option<usize>)
        requires
            self.wf(),
            i < self.size(),
        ensures
            match best {
                Some(c) => exists|k: int| #[trigger]
                    self.is_best_child(i as int, k) && self.children_of(i as int)[k] == c,
                None => self.children_of(i as int).len() == 0,
            },
    {
        let kids = self.children(i);
        match self.leading_child(i, &kids, true) {
            Some(k) => {
                proof {
                    assert(self.counts_among(i as int, k as int, true));
                    assert(self.has_winning_child(i as int));
                    assert(self.is_best_child(i as int, k as int));
                }
                Some(kids[k])
            },
            None => {
                proof {
                    assert(!self.has_winning_child(i as int)) by {
                        if self.has_winning_child(i as int) {
                            let j = choose|j: int|
                                0 <= j < self.children_of(i as int).len() && (#[trigger] self.node(
                                    self.children_of(i as int)[j],
                                )).bound == Bound::DefoWin;
                            assert(self.counts_among(i as int, j, true));
                        }
                    }
                }
                match self.leading_child(i, &kids, false) {
                    Some(k) => {
                        proof {
                            assert(self.is_best_child(i as int, k as int));
                        }
                        Some(kids[k])
                    },
                    None => {
                        proof {
                            if self.children_of(i as int).len() > 0 {
                                assert(self.counts_among(i as int, 0, false));
                            }
                        }
                        None
                    },
                }
            },
        }
    }
}

} // verus!
