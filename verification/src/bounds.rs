use crate::board::{Board, Bound, GameOutcome, Player};
use crate::search_tree::SearchTree;
use vstd::prelude::*;

verus! {

/// Whether some entry of `kids` is `bound`.
pub open spec fn any_is(kids: Seq<Bound>, bound: Bound) -> bool {
    exists|j: int| 0 <= j < kids.len() && kids[j] == bound
}

/// Whether every entry of `kids` is `bound`.
pub open spec fn all_are(kids: Seq<Bound>, bound: Bound) -> bool {
    forall|j: int| 0 <= j < kids.len() ==> kids[j] == bound
}

/// What the bounds of its children prove of a position in which `player` is
/// to move. The favoured player needs one winning move and loses only if
/// every move loses; the opponent needs one move that makes the favoured
/// player lose, and the favoured player wins only if every move wins.
pub open spec fn minimax_bound(player: Player, kids: Seq<Bound>) -> Bound {
    match player {
        Player::Me => if any_is(kids, Bound::DefoWin) {
            Bound::DefoWin
        } else if all_are(kids, Bound::DefoLose) {
            Bound::DefoLose
        } else {
            Bound::Unknown
        },
        Player::Other => if all_are(kids, Bound::DefoWin) {
            Bound::DefoWin
        } else if any_is(kids, Bound::DefoLose) {
            Bound::DefoLose
        } else {
            Bound::Unknown
        },
    }
}

/// The bound of a node, given the bound it holds already, its own outcome,
/// its player to move and the bounds of its children. Without pruning
/// nothing is ever proven. A bound once resolved stays. A won or lost state
/// proves itself. A node without children proves nothing.
pub open spec fn derived_bound(
    pruning: bool,
    own: Bound,
    outcome: GameOutcome,
    player: Player,
    kids: Seq<Bound>,
) -> Bound {
    if !pruning {
        Bound::Unknown
    } else if own != Bound::Unknown {
        own
    } else if outcome == GameOutcome::Win {
        Bound::DefoWin
    } else if outcome == GameOutcome::Lose {
        Bound::DefoLose
    } else if kids.len() == 0 {
        Bound::Unknown
    } else {
        minimax_bound(player, kids)
    }
}

/// Whether a node is fully calculated, given the bound derived for it, its
/// own outcome and the flags of its children: its bound is resolved, or the
/// game is over, or it has children and all of them are fully calculated.
pub open spec fn derived_calculated(bound: Bound, outcome: GameOutcome, kids: Seq<bool>) -> bool {
    ||| bound != Bound::Unknown
    ||| outcome != GameOutcome::InProgress
    ||| (kids.len() > 0 && forall|j: int| 0 <= j < kids.len() ==> kids[j])
}

/// Derives what the bounds of its children prove of a position that has
/// children and in which `player` is to move.
pub fn minimax(player: Player, kids: &Vec<Bound>) -> (bound: Bound)
    requires
        kids@.len() > 0,
    ensures
        bound == minimax_bound(player, kids@),
{
    let mut any_win = false;
    let mut any_lose = false;
    let mut all_win = true;
    let mut all_lose = true;
    let mut i: usize = 0;
    while i < kids.len()
        invariant
            0 <= i <= kids@.len(),
            any_win == any_is(kids@.take(i as int), Bound::DefoWin),
            any_lose == any_is(kids@.take(i as int), Bound::DefoLose),
            all_win == all_are(kids@.take(i as int), Bound::DefoWin),
            all_lose == all_are(kids@.take(i as int), Bound::DefoLose),
        decreases kids@.len() - i,
    {
        let ghost before = kids@.take(i as int);
        let ghost after = kids@.take(i + 1);
        proof {
            assert(after[i as int] == kids@[i as int]);
            assert(forall|j: int| 0 <= j < i ==> before[j] == after[j]);
            if any_is(before, Bound::DefoWin) {
                let j = choose|j: int| 0 <= j < before.len() && before[j] == Bound::DefoWin;
                assert(after[j] == Bound::DefoWin);
            }
            if any_is(before, Bound::DefoLose) {
                let j = choose|j: int| 0 <= j < before.len() && before[j] == Bound::DefoLose;
                assert(after[j] == Bound::DefoLose);
            }
        }
        match kids[i] {
            Bound::DefoWin => {
                any_win = true;
                all_lose = false;
            },
            Bound::DefoLose => {
                any_lose = true;
                all_win = false;
            },
            Bound::Unknown => {
                all_win = false;
                all_lose = false;
            },
        }
        i += 1;
    }
    assert(kids@.take(kids@.len() as int) =~= kids@);
    match player {
        Player::Me => {
            if all_lose {
                Bound::DefoLose
            } else if any_win {
                Bound::DefoWin
            } else {
                Bound::Unknown
            }
        },
        Player::Other => {
            if all_win {
                Bound::DefoWin
            } else if any_lose {
                Bound::DefoLose
            } else {
                Bound::Unknown
            }
        },
    }
}

impl<T: Board> SearchTree<T> {
    /// The bounds held by the children of node `i`, oldest child first.
    pub open spec fn child_bounds(&self, i: int) -> Seq<Bound> {
        Seq::new(self.children_of(i).len(), |j: int| self.node(self.children_of(i)[j]).bound)
    }

    /// The flags held by the children of node `i`, oldest child first.
    pub open spec fn child_flags(&self, i: int) -> Seq<bool> {
        Seq::new(
            self.children_of(i).len(),
            |j: int| self.node(self.children_of(i)[j]).is_fully_calculated,
        )
    }

    /// The bound that the tree as it stands gives node `i`.
    pub open spec fn bound_at(&self, i: int, pruning: bool) -> Bound {
        derived_bound(
            pruning,
            self.node(i).bound,
            self.node(i).outcome,
            self.node(i).current_player,
            self.child_bounds(i),
        )
    }

    /// Whether the tree as it stands makes node `i` fully calculated, when
    /// `bound` is the bound derived for it.
    pub open spec fn calculated_at(&self, i: int, bound: Bound) -> bool {
        derived_calculated(bound, self.node(i).outcome, self.child_flags(i))
    }

    /// Derives the bound of node `i` from what the node holds and from the
    /// bounds of its children.
    pub fn get_bound(&self, node_id: usize, pruning: bool) -> (bound: Bound)
        requires
            self.shaped(),
            node_id < self.size(),
        ensures
            bound == self.bound_at(node_id as int, pruning),
    {
        if !pruning {
            return Bound::Unknown;
        }
        let node = self.get(node_id);
        if node.bound != Bound::Unknown {
            return node.bound;
        }
        if node.outcome == GameOutcome::Win {
            return Bound::DefoWin;
        }
        if node.outcome == GameOutcome::Lose {
            return Bound::DefoLose;
        }
        let kids = self.children(node_id);
        if kids.len() == 0 {
            return Bound::Unknown;
        }
        let mut bounds: Vec<Bound> = Vec::new();
        let mut k: usize = 0;
        while k < kids.len()
            invariant
                self.shaped(),
                node_id < self.size(),
                0 <= k <= kids@.len(),
                crate::search_tree::same_ids(kids@, self.children_of(node_id as int)),
                bounds@ == self.child_bounds(node_id as int).take(k as int),
            decreases kids@.len() - k,
        {
            proof {
                assert(node_id < self.children_of(node_id as int)[k as int] < self.size());
                assert(self.child_bounds(node_id as int).take(k + 1) =~= self.child_bounds(
                    node_id as int,
                ).take(k as int).push(self.node(kids@[k as int] as int).bound));
            }
            bounds.push(self.get(kids[k]).bound);
            k += 1;
        }
        assert(bounds@ =~= self.child_bounds(node_id as int));
        minimax(node.current_player, &bounds)
    }

    /// Tells whether node `i` is fully calculated, given the bound derived
    /// for it.
    pub fn is_fully_calculated(&self, node_id: usize, bound: Bound) -> (calculated: bool)
        requires
            self.shaped(),
            node_id < self.size(),
        ensures
            calculated == self.calculated_at(node_id as int, bound),
    {
        if bound != Bound::Unknown {
            return true;
        }
        if self.get(node_id).outcome != GameOutcome::InProgress {
            return true;
        }
        let kids = self.children(node_id);
        if kids.len() == 0 {
            return false;
        }
        let mut k: usize = 0;
        while k < kids.len()
            invariant
                self.shaped(),
                node_id < self.size(),
                0 <= k <= kids@.len(),
                crate::search_tree::same_ids(kids@, self.children_of(node_id as int)),
                bound == Bound::Unknown,
                self.node(node_id as int).outcome == GameOutcome::InProgress,
                forall|j: int| 0 <= j < k ==> self.child_flags(node_id as int)[j],
            decreases kids@.len() - k,
        {
            proof {
                assert(node_id < self.children_of(node_id as int)[k as int] < self.size());
            }
            if !self.get(kids[k]).is_fully_calculated {
                assert(!self.child_flags(node_id as int)[k as int]);
                return false;
            }
            k += 1;
        }
        true
    }
}

} // verus!
