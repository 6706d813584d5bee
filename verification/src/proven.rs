use crate::board::{Board, Bound, GameOutcome, Player};
use crate::bounds::derived_bound;
use crate::search_tree::SearchTree;
use vstd::prelude::*;

verus! {

/// Whether the favoured player wins the game from `state` within `depth`
/// moves, whatever the opponent does: the game is won already, or it is
/// still in progress and has a legal move, and then one move of the
/// favoured player, or every move of the opponent, leads to a state from
/// which the favoured player wins within one move less.
pub open spec fn wins_within<T: Board>(state: T, depth: nat) -> bool
    decreases depth,
{
    let moves = state.available_moves();
    if state.outcome() == GameOutcome::Win {
        true
    } else if depth == 0 || state.outcome() != GameOutcome::InProgress || moves.len() == 0 {
        false
    } else {
        match state.current_player() {
            Player::Me => exists|k: int|
                0 <= k < moves.len() && wins_within(
                    state.after_move(#[trigger] moves[k]),
                    (depth - 1) as nat,
                ),
            Player::Other => forall|k: int|
                0 <= k < moves.len() ==> wins_within(
                    state.after_move(#[trigger] moves[k]),
                    (depth - 1) as nat,
                ),
        }
    }
}

/// Whether the favoured player loses the game from `state` within `depth`
/// moves, whatever they do: the game is lost already, or it is still in
/// progress and has a legal move, and then every move of the favoured
/// player, or one move of the opponent, leads to a state from which the
/// favoured player loses within one move less.
pub open spec fn loses_within<T: Board>(state: T, depth: nat) -> bool
    decreases depth,
{
    let moves = state.available_moves();
    if state.outcome() == GameOutcome::Lose {
        true
    } else if depth == 0 || state.outcome() != GameOutcome::InProgress || moves.len() == 0 {
        false
    } else {
        match state.current_player() {
            Player::Me => forall|k: int|
                0 <= k < moves.len() ==> loses_within(
                    state.after_move(#[trigger] moves[k]),
                    (depth - 1) as nat,
                ),
            Player::Other => exists|k: int|
                0 <= k < moves.len() && loses_within(
                    state.after_move(#[trigger] moves[k]),
                    (depth - 1) as nat,
                ),
        }
    }
}

/// Whether the favoured player wins the game from `state` whatever the
/// opponent does.
pub open spec fn is_won<T: Board>(state: T) -> bool {
    exists|depth: nat| wins_within(state, depth)
}

/// Whether the favoured player loses the game from `state` whatever they do.
pub open spec fn is_lost<T: Board>(state: T) -> bool {
    exists|depth: nat| loses_within(state, depth)
}

/// A game that is won within some number of moves is won within one more.
pub proof fn lemma_wins_one_later<T: Board>(state: T, depth: nat)
    requires
        wins_within(state, depth),
    ensures
        wins_within(state, depth + 1),
    decreases depth,
{
    let moves = state.available_moves();
    if state.outcome() != GameOutcome::Win {
        match state.current_player() {
            Player::Me => {
                let k = choose|k: int|
                    0 <= k < moves.len() && wins_within(
                        state.after_move(#[trigger] moves[k]),
                        (depth - 1) as nat,
                    );
                lemma_wins_one_later(state.after_move(moves[k]), (depth - 1) as nat);
                assert(0 <= k < moves.len() && wins_within(
                    state.after_move(moves[k]),
                    depth,
                ));
            },
            Player::Other => {
                assert forall|k: int| 0 <= k < moves.len() implies wins_within(
                    state.after_move(#[trigger] moves[k]),
                    depth,
                ) by {
                    lemma_wins_one_later(state.after_move(moves[k]), (depth - 1) as nat);
                }
            },
        }
    }
}

/// A game that is lost within some number of moves is lost within one more.
pub proof fn lemma_loses_one_later<T: Board>(state: T, depth: nat)
    requires
        loses_within(state, depth),
    ensures
        loses_within(state, depth + 1),
    decreases depth,
{
    let moves = state.available_moves();
    if state.outcome() != GameOutcome::Lose {
        match state.current_player() {
            Player::Other => {
                let k = choose|k: int|
                    0 <= k < moves.len() && loses_within(
                        state.after_move(#[trigger] moves[k]),
                        (depth - 1) as nat,
                    );
                lemma_loses_one_later(state.after_move(moves[k]), (depth - 1) as nat);
                assert(0 <= k < moves.len() && loses_within(
                    state.after_move(moves[k]),
                    depth,
                ));
            },
            Player::Me => {
                assert forall|k: int| 0 <= k < moves.len() implies loses_within(
                    state.after_move(#[trigger] moves[k]),
                    depth,
                ) by {
                    lemma_loses_one_later(state.after_move(moves[k]), (depth - 1) as nat);
                }
            },
        }
    }
}

/// A game that is won within some number of moves is won within any
/// greater number.
pub proof fn lemma_wins_later<T: Board>(state: T, depth: nat, more: nat)
    requires
        wins_within(state, depth),
        depth <= more,
    ensures
        wins_within(state, more),
    decreases more - depth,
{
    if depth < more {
        lemma_wins_one_later(state, depth);
        lemma_wins_later(state, depth + 1, more);
    }
}

/// A game that is lost within some number of moves is lost within any
/// greater number.
pub proof fn lemma_loses_later<T: Board>(state: T, depth: nat, more: nat)
    requires
        loses_within(state, depth),
        depth <= more,
    ensures
        loses_within(state, more),
    decreases more - depth,
{
    if depth < more {
        lemma_loses_one_later(state, depth);
        lemma_loses_later(state, depth + 1, more);
    }
}

/// States that are all won are all won within one and the same number of
/// moves.
pub proof fn lemma_all_won_within<T: Board>(states: Seq<T>) -> (depth: nat)
    requires
        forall|j: int| 0 <= j < states.len() ==> is_won(#[trigger] states[j]),
    ensures
        forall|j: int| 0 <= j < states.len() ==> wins_within(#[trigger] states[j], depth),
    decreases states.len(),
{
    if states.len() == 0 {
        0
    } else {
        let front = states.drop_last();
        assert forall|j: int| 0 <= j < front.len() implies is_won(#[trigger] front[j]) by {
            assert(front[j] == states[j]);
        }
        let first = lemma_all_won_within(front);
        assert(is_won(states[states.len() - 1]));
        let last = choose|d: nat| wins_within(states.last(), d);
        let depth = if first < last {
            last
        } else {
            first
        };
        assert forall|j: int| 0 <= j < states.len() implies wins_within(
            #[trigger] states[j],
            depth,
        ) by {
            if j < front.len() {
                assert(front[j] == states[j]);
                lemma_wins_later(states[j], first, depth);
            } else {
                lemma_wins_later(states[j], last, depth);
            }
        }
        depth
    }
}

/// States that are all lost are all lost within one and the same number of
/// moves.
pub proof fn lemma_all_lost_within<T: Board>(states: Seq<T>) -> (depth: nat)
    requires
        forall|j: int| 0 <= j < states.len() ==> is_lost(#[trigger] states[j]),
    ensures
        forall|j: int| 0 <= j < states.len() ==> loses_within(#[trigger] states[j], depth),
    decreases states.len(),
{
    if states.len() == 0 {
        0
    } else {
        let front = states.drop_last();
        assert forall|j: int| 0 <= j < front.len() implies is_lost(#[trigger] front[j]) by {
            assert(front[j] == states[j]);
        }
        let first = lemma_all_lost_within(front);
        assert(is_lost(states[states.len() - 1]));
        let last = choose|d: nat| loses_within(states.last(), d);
        let depth = if first < last {
            last
        } else {
            first
        };
        assert forall|j: int| 0 <= j < states.len() implies loses_within(
            #[trigger] states[j],
            depth,
        ) by {
            if j < front.len() {
                assert(front[j] == states[j]);
                lemma_loses_later(states[j], first, depth);
            } else {
                lemma_loses_later(states[j], last, depth);
            }
        }
        depth
    }
}

impl<T: Board> SearchTree<T> {
    /// Whether the bound of node `i` is right: if it says that the game is
    /// won, the favoured player wins from the state of the node whatever
    /// the opponent does, and if it says that the game is lost, the
    /// favoured player loses whatever they do.
    pub open spec fn bound_is_sound(&self, i: int) -> bool {
        &&& self.node(i).bound == Bound::DefoWin ==> is_won(*self.node(i).board)
        &&& self.node(i).bound == Bound::DefoLose ==> is_lost(*self.node(i).board)
    }

    /// Whether the bound of every node is right.
    pub open spec fn bounds_sound(&self) -> bool {
        forall|i: int| 0 <= i < self.size() ==> #[trigger] self.bound_is_sound(i)
    }

    /// The states that the legal moves of node `i` lead to, in the order of
    /// the moves.
    pub open spec fn next_states(&self, i: int) -> Seq<T> {
        let state = *self.node(i).board;
        Seq::new(
            state.available_moves().len(),
            |k: int| state.after_move(state.available_moves()[k]),
        )
    }

    /// The bound that is derived for a node is right, if the bound that the
    /// node holds and the bounds of its children are right and the children
    /// stand for the legal moves of its state.
    pub proof fn lemma_derived_bound_is_sound(&self, i: int, own: Bound, pruning: bool)
        requires
            self.shaped(),
            0 <= i < self.size(),
            self.node(i).matches_board(),
            self.children_match_moves(i),
            forall|j: int|
                0 <= j < self.children_of(i).len() ==> self.bound_is_sound(
                    #[trigger] self.children_of(i)[j],
                ),
            own == Bound::DefoWin ==> is_won(*self.node(i).board),
            own == Bound::DefoLose ==> is_lost(*self.node(i).board),
        ensures
            derived_bound(
                pruning,
                own,
                self.node(i).outcome,
                self.node(i).current_player,
                self.child_bounds(i),
            ) == Bound::DefoWin ==> is_won(*self.node(i).board),
            derived_bound(
                pruning,
                own,
                self.node(i).outcome,
                self.node(i).current_player,
                self.child_bounds(i),
            ) == Bound::DefoLose ==> is_lost(*self.node(i).board),
    {
        let state = *self.node(i).board;
        let kids = self.children_of(i);
        let moves = state.available_moves();
        let bounds = self.child_bounds(i);
        let derived = derived_bound(
            pruning,
            own,
            self.node(i).outcome,
            self.node(i).current_player,
            bounds,
        );
        if !pruning || own != Bound::Unknown {
        } else if self.node(i).outcome == GameOutcome::Win {
            assert(wins_within(state, 0));
        } else if self.node(i).outcome == GameOutcome::Lose {
            assert(loses_within(state, 0));
        } else if kids.len() > 0 {
            let next = self.next_states(i);
            assert forall|k: int| 0 <= k < kids.len() implies *self.node(kids[k]).board
                == #[trigger] next[k] by {
                assert(self.node(kids[k]).prev_move == Some(moves[k]));
            }
            if derived == Bound::DefoWin {
                if state.current_player() == Player::Me {
                    let j = choose|j: int| 0 <= j < bounds.len() && bounds[j] == Bound::DefoWin;
                    assert(self.bound_is_sound(kids[j]));
                    assert(*self.node(kids[j]).board == next[j]);
                    let d = choose|d: nat| wins_within(next[j], d);
                    assert(0 <= j < moves.len() && wins_within(state.after_move(moves[j]), d));
                    assert(wins_within(state, d + 1));
                } else {
                    assert forall|k: int| 0 <= k < next.len() implies is_won(
                        #[trigger] next[k],
                    ) by {
                        assert(bounds[k] == Bound::DefoWin);
                        assert(self.bound_is_sound(kids[k]));
                        assert(*self.node(kids[k]).board == next[k]);
                    }
                    let d = lemma_all_won_within(next);
                    assert forall|k: int| 0 <= k < moves.len() implies wins_within(
                        state.after_move(#[trigger] moves[k]),
                        d,
                    ) by {
                        assert(wins_within(next[k], d));
                    }
                    assert(wins_within(state, d + 1));
                }
            }
            if derived == Bound::DefoLose {
                if state.current_player() == Player::Other {
                    let j = choose|j: int| 0 <= j < bounds.len() && bounds[j] == Bound::DefoLose;
                    assert(self.bound_is_sound(kids[j]));
                    assert(*self.node(kids[j]).board == next[j]);
                    let d = choose|d: nat| loses_within(next[j], d);
                    assert(0 <= j < moves.len() && loses_within(state.after_move(moves[j]), d));
                    assert(loses_within(state, d + 1));
                } else {
                    assert forall|k: int| 0 <= k < next.len() implies is_lost(
                        #[trigger] next[k],
                    ) by {
                        assert(bounds[k] == Bound::DefoLose);
                        assert(self.bound_is_sound(kids[k]));
                        assert(*self.node(kids[k]).board == next[k]);
                    }
                    let d = lemma_all_lost_within(next);
                    assert forall|k: int| 0 <= k < moves.len() implies loses_within(
                        state.after_move(#[trigger] moves[k]),
                        d,
                    ) by {
                        assert(loses_within(next[k], d));
                    }
                    assert(loses_within(state, d + 1));
                }
            }
        }
    }

    /// After a backpropagation in a tree whose bounds were right, the bound
    /// of the node at the place number `k` of the way up is right.
    proof fn lemma_sound_on_the_way(
        &self,
        before: &Self,
        child: int,
        outcome: GameOutcome,
        pruning: bool,
        k: int,
    )
        requires
            before.wf(),
            before.bounds_sound(),
            self.wf(),
            self.all_children_match_moves(),
            0 <= child < before.size(),
            self.backpropagated_from(before, child, outcome, pruning),
            0 <= k < before.path_up(child).len(),
        ensures
            self.bound_is_sound(before.path_up(child)[k]),
        decreases k,
    {
        let way = before.path_up(child);
        before.lemma_path_up(child);
        let i = way[k];
        if k > 0 {
            self.lemma_sound_on_the_way(before, child, outcome, pruning, k - 1);
        }
        assert forall|j: int| 0 <= j < self.children_of(i).len() implies self.bound_is_sound(
            #[trigger] self.children_of(i)[j],
        ) by {
            let c = self.children_of(i)[j];
            assert(i < c < before.size());
            assert(before.parent_of(c) == Some(i));
            if way.contains(c) {
                before.lemma_child_on_the_way(child, k, c);
            } else {
                assert(self.node(c) == before.node(c));
                assert(before.bound_is_sound(c));
            }
        }
        assert(way.contains(i));
        assert(self.node(i) == self.counted_node(before, i, outcome, pruning));
        assert(before.bound_is_sound(i));
        assert(self.node(i).matches_board());
        assert(self.children_match_moves(i));
        self.lemma_derived_bound_is_sound(i, before.node(i).bound, pruning);
    }

    /// A backpropagation in a tree whose bounds are right, and whose nodes
    /// have children that stand for their legal moves, leaves a tree whose
    /// bounds are right.
    pub proof fn lemma_backpropagation_is_sound(
        &self,
        before: &Self,
        child: int,
        outcome: GameOutcome,
        pruning: bool,
    )
        requires
            before.wf(),
            before.all_children_match_moves(),
            before.bounds_sound(),
            before.node(0).visits < i32::MAX,
            0 <= child < before.size(),
            self.backpropagated_from(before, child, outcome, pruning),
        ensures
            self.bounds_sound(),
    {
        self.lemma_backpropagated_wf(before, child, outcome, pruning);
        self.lemma_backpropagation_keeps_nodes(before, child, outcome, pruning);
        self.lemma_kept_nodes_match_moves(before);
        assert forall|i: int| 0 <= i < self.size() implies #[trigger] self.bound_is_sound(i) by {
            self.lemma_sound_after(before, child, outcome, pruning, i);
        }
    }

    /// After a backpropagation in a tree whose bounds were right, the bound
    /// of node `i` is right.
    proof fn lemma_sound_after(
        &self,
        before: &Self,
        child: int,
        outcome: GameOutcome,
        pruning: bool,
        i: int,
    )
        requires
            before.wf(),
            before.bounds_sound(),
            self.wf(),
            self.all_children_match_moves(),
            0 <= child < before.size(),
            self.backpropagated_from(before, child, outcome, pruning),
            0 <= i < self.size(),
        ensures
            self.bound_is_sound(i),
    {
        let way = before.path_up(child);
        if way.contains(i) {
            let k = choose|k: int| 0 <= k < way.len() && way[k] == i;
            self.lemma_sound_on_the_way(before, child, outcome, pruning, k);
        } else {
            assert(self.node(i) == before.node(i));
            assert(before.bound_is_sound(i));
        }
    }

    /// An expansion leaves the bounds right: the new nodes have none.
    pub proof fn lemma_expansion_is_sound(&self, before: &Self, leaf: int)
        requires
            before.bounds_sound(),
            0 <= leaf < before.size(),
            self.expanded_from(before, leaf),
        ensures
            self.bounds_sound(),
    {
        let base = before.size() as int;
        let moves = before.node(leaf).board.available_moves();
        assert forall|i: int| 0 <= i < self.size() implies #[trigger] self.bound_is_sound(i) by {
            if i < base {
                assert(self.node(i) == before.node(i));
                assert(before.bound_is_sound(i));
            } else {
                assert(self.is_child_by(before, leaf, base + (i - base), moves[i - base]));
            }
        }
    }
}

} // verus!
