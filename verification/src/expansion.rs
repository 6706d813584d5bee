use crate::board::{Board, GameOutcome};
use crate::mcts_node::MctsNode;
use crate::random::{after_numbers, numbers, RandomGenerator};
use crate::search_tree::{same_ids, SearchTree};
use vstd::prelude::*;

verus! {

/// The positions `base`, `base + 1`, ... of `count` nodes added in a row.
pub open spec fn added_ids(base: int, count: nat) -> Seq<int> {
    Seq::new(count, |k: int| base + k)
}

/// The number of entries among which a random generator picks when there
/// are `count`: all of them, as far as an `i32` can count them.
pub open spec fn limit_of(count: nat) -> i32 {
    if count > i32::MAX {
        i32::MAX
    } else {
        count as i32
    }
}

/// The largest number of entries among which a random generator can pick.
pub fn pick_limit(count: usize) -> (limit: i32)
    requires
        count > 0,
    ensures
        0 < limit <= count,
        limit == limit_of(count as nat),
{
    if count > i32::MAX as usize {
        i32::MAX
    } else {
        count as i32
    }
}

impl<T: Board> SearchTree<T> {
    /// Whether node `c` of `self` is the unvisited child that an expansion
    /// of node `leaf` of `before` makes for the move `b_move`.
    pub open spec fn is_child_by(&self, before: &Self, leaf: int, c: int, b_move: T::Move) -> bool {
        &&& self.parent_of(c) == Some(leaf)
        &&& self.children_of(c) == Seq::<int>::empty()
        &&& self.node(c).height == before.node(leaf).height + 1
        &&& *self.node(c).board == before.node(leaf).board.after_move(b_move)
        &&& self.node(c).prev_move == Some(b_move)
        &&& self.node(c).is_fresh()
        &&& self.node(c).matches_board()
    }

    /// Whether `self` is `before` after the first `count` legal moves of the
    /// childless node `leaf` have each been given a child, in the order of
    /// the moves, and nothing else has changed.
    pub open spec fn expanded_by(&self, before: &Self, leaf: int, count: nat) -> bool {
        let moves = before.node(leaf).board.available_moves();
        let base = before.size() as int;
        &&& self.size() == base + count
        &&& forall|i: int| 0 <= i < base ==> #[trigger] self.node(i) == before.node(i)
        &&& forall|i: int| 0 <= i < base ==> #[trigger] self.parent_of(i) == before.parent_of(i)
        &&& forall|i: int|
            0 <= i < base && i != leaf ==> #[trigger] self.children_of(i) == before.children_of(i)
        &&& self.children_of(leaf) == added_ids(base, count)
        &&& forall|k: int|
            0 <= k < count ==> #[trigger] self.is_child_by(before, leaf, base + k, moves[k])
    }

    /// Whether `self` is `before` after the childless node `leaf` has been
    /// expanded: one new child for each legal move of its state.
    pub open spec fn expanded_from(&self, before: &Self, leaf: int) -> bool {
        self.expanded_by(before, leaf, before.node(leaf).board.available_moves().len())
    }

    /// Whether node `i` has either no children, or its game is in progress
    /// and it has one child for each legal move of its state, in the order
    /// of the moves, each holding the move and the state that the move
    /// leads to.
    pub open spec fn children_match_moves(&self, i: int) -> bool {
        let moves = self.node(i).board.available_moves();
        let kids = self.children_of(i);
        kids.len() == 0 || {
            &&& self.node(i).outcome == GameOutcome::InProgress
            &&& kids.len() == moves.len()
            &&& forall|k: int|
                0 <= k < kids.len() ==> {
                    &&& (#[trigger] self.node(kids[k])).prev_move == Some(moves[k])
                    &&& *self.node(kids[k]).board == self.node(i).board.after_move(moves[k])
                }
        }
    }

    /// Whether every node of the tree has either no children or one child
    /// for each legal move of its state.
    pub open spec fn all_children_match_moves(&self) -> bool {
        forall|i: int| 0 <= i < self.size() ==> #[trigger] self.children_match_moves(i)
    }

    /// An expansion of a childless node keeps it true that the children of
    /// every node stand for the legal moves of its state.
    pub proof fn lemma_expansion_matches_moves(&self, before: &Self, leaf: int)
        requires
            before.shaped(),
            before.all_children_match_moves(),
            0 <= leaf < before.size(),
            before.children_of(leaf).len() == 0,
            before.node(leaf).outcome == GameOutcome::InProgress,
            self.expanded_from(before, leaf),
        ensures
            self.all_children_match_moves(),
    {
        let base = before.size() as int;
        let moves = before.node(leaf).board.available_moves();
        assert forall|i: int| 0 <= i < self.size() implies #[trigger] self.children_match_moves(
            i,
        ) by {
            if i == leaf {
                assert(self.node(leaf) == before.node(leaf));
                let kids = self.children_of(leaf);
                assert forall|k: int| 0 <= k < kids.len() implies {
                    &&& (#[trigger] self.node(kids[k])).prev_move == Some(moves[k])
                    &&& *self.node(kids[k]).board == self.node(leaf).board.after_move(moves[k])
                } by {
                    assert(self.is_child_by(before, leaf, base + k, moves[k]));
                }
            } else if i < base {
                assert(before.children_match_moves(i));
                assert(self.node(i) == before.node(i));
                assert(self.children_of(i) == before.children_of(i));
                let kids = self.children_of(i);
                let own = self.node(i).board.available_moves();
                assert forall|k: int| 0 <= k < kids.len() implies {
                    &&& (#[trigger] self.node(kids[k])).prev_move == Some(own[k])
                    &&& *self.node(kids[k]).board == self.node(i).board.after_move(own[k])
                } by {
                    assert(i < before.children_of(i)[k] < before.size());
                    assert(self.node(kids[k]) == before.node(kids[k]));
                }
            } else {
                assert(self.is_child_by(before, leaf, base + (i - base), moves[i - base]));
            }
        }
    }

    /// A change that keeps the links, the states and the moves of all nodes
    /// keeps it true that the children of every node stand for the legal
    /// moves of its state.
    pub proof fn lemma_kept_nodes_match_moves(&self, before: &Self)
        requires
            before.shaped(),
            before.all_children_match_moves(),
            self.links() == before.links(),
            self.size() == before.size(),
            forall|i: int|
                0 <= i < before.size() ==> (#[trigger] before.node(i)).persists_as(&self.node(i)),
        ensures
            self.all_children_match_moves(),
    {
        assert forall|i: int| 0 <= i < self.size() implies #[trigger] self.children_match_moves(
            i,
        ) by {
            assert(before.children_match_moves(i));
            assert(before.node(i).persists_as(&self.node(i)));
            let kids = self.children_of(i);
            let moves = self.node(i).board.available_moves();
            assert(moves == before.node(i).board.available_moves());
            assert forall|k: int| 0 <= k < kids.len() implies {
                &&& (#[trigger] self.node(kids[k])).prev_move == Some(moves[k])
                &&& *self.node(kids[k]).board == self.node(i).board.after_move(moves[k])
            } by {
                assert(i < before.children_of(i)[k] < before.size());
                assert(before.node(kids[k]).persists_as(&self.node(kids[k])));
            }
        }
    }

    /// Gives the childless node `node_id`, where the game is in progress,
    /// its children: one for each of its legal moves `moves`, in their
    /// order, the child of the move number `k` with the id number `k` of
    /// `ids`. Returns the positions of the children, and beside them the
    /// position of the child number `selected_child_index`.
    pub fn add_children(
        &mut self,
        node_id: usize,
        moves: Vec<T::Move>,
        ids: &Vec<i32>,
        selected_child_index: usize,
    ) -> (made: (Vec<usize>, usize))
        requires
            old(self).wf(),
            node_id < old(self).size(),
            old(self).children_of(node_id as int).len() == 0,
            old(self).node(node_id as int).height < i32::MAX,
            old(self).node(node_id as int).outcome == GameOutcome::InProgress,
            moves@ == old(self).node(node_id as int).board.available_moves(),
            ids@.len() == moves@.len(),
            selected_child_index < moves@.len(),
        ensures
            final(self).wf(),
            final(self).advanced_from(old(self)),
            final(self).expanded_from(old(self), node_id as int),
            forall|k: int|
                0 <= k < ids@.len() ==> (#[trigger] final(self).node(old(self).size() + k)).id
                    == ids@[k],
            same_ids(made.0@, final(self).children_of(node_id as int)),
            made.1 == old(self).size() + selected_child_index,
    {
        let ghost before = *self;
        let children_height = self.get(node_id).height + 1;
        let ghost all = moves@;
        let ghost base = before.size() as int;
        let mut new_node_ids: Vec<usize> = Vec::new();
        let mut n: usize = 0;
        proof {
            assert(self.children_of(node_id as int) =~= added_ids(base, 0));
        }
        for possible_move in it: moves
            invariant
                before.wf(),
                node_id < before.size(),
                base == before.size(),
                all == before.node(node_id as int).board.available_moves(),
                it.seq() == all,
                ids@.len() == all.len(),
                n == it.index(),
                children_height == before.node(node_id as int).height + 1,
                self.wf(),
                self.expanded_by(&before, node_id as int, it.index() as nat),
                forall|j: int| 0 <= j < n ==> (#[trigger] self.node(base + j)).id == ids@[j],
                same_ids(new_node_ids@, added_ids(base, it.index() as nat)),
        {
            let ghost earlier = *self;
            let ghost k = it.index() as int;
            let mut board_clone: T = (*self.get(node_id).board).clone();
            proof {
                (*self.node(node_id as int).board).lemma_clone_is_same(&board_clone);
                assert(self.node(node_id as int) == before.node(node_id as int));
                assert(all[k] == possible_move);
            }
            board_clone.perform_move(&possible_move);
            let mut mcts_node = MctsNode::new(ids[n], Box::new(board_clone));
            mcts_node.prev_move = Some(possible_move);
            mcts_node.height = children_height;
            let ghost made_node = mcts_node;
            let kid = self.append(node_id, mcts_node);
            new_node_ids.push(kid);
            n += 1;
            proof {
                assert(self.grown_from(&earlier, node_id as int, made_node));
                assert(kid == base + k);
                assert(self.children_of(node_id as int) =~= added_ids(base, (k + 1) as nat));
                assert forall|i: int| 0 <= i < base implies #[trigger] self.node(i) == before.node(
                    i,
                ) by {
                    assert(self.node(i) == earlier.node(i));
                }
                assert forall|i: int| 0 <= i < base implies #[trigger] self.parent_of(i)
                    == before.parent_of(i) by {
                    assert(earlier.parent_of(i) == before.parent_of(i));
                }
                assert forall|i: int| 0 <= i < base && i != node_id implies #[trigger] self.children_of(
                    i,
                ) == before.children_of(i) by {
                    assert(earlier.children_of(i) == before.children_of(i));
                }
                assert forall|j: int| 0 <= j < k + 1 implies #[trigger] self.is_child_by(
                    &before,
                    node_id as int,
                    base + j,
                    all[j],
                ) by {
                    if j < k {
                        assert(earlier.is_child_by(&before, node_id as int, base + j, all[j]));
                        assert(self.node(base + j) == earlier.node(base + j));
                    } else {
                        assert(self.node(base + j) == made_node);
                    }
                }
                assert forall|j: int| 0 <= j < k + 1 implies (#[trigger] self.node(base + j)).id
                    == ids@[j] by {
                    if j < k {
                        assert(self.node(base + j) == earlier.node(base + j));
                    } else {
                        assert(self.node(base + j) == made_node);
                    }
                }
                assert(self.expanded_by(&before, node_id as int, (k + 1) as nat));
            }
        }
        proof {
            self.lemma_expansion_advances(&before, node_id as int);
        }
        let selected_child = new_node_ids[selected_child_index];
        (new_node_ids, selected_child)
    }

    /// Expands the childless node `node_id`. If the game is over there, or
    /// if its state has no legal move, the tree stays as it is, no random
    /// number is drawn, and the node itself is returned as the one to play
    /// out from. Otherwise one id is drawn from the random generator for
    /// each legal move, then the number of one of the moves, and
    /// `add_children` gives each move its child with its id and returns the
    /// child of the drawn number as the one to play out from, beside the
    /// list of all of them.
    pub fn expand_node<K: RandomGenerator>(&mut self, node_id: usize, random: &mut K) -> (made: (
        Vec<usize>,
        usize,
    ))
        requires
            old(self).wf(),
            node_id < old(self).size(),
            old(self).children_of(node_id as int).len() == 0,
            old(self).node(node_id as int).height < i32::MAX,
        ensures
            final(self).wf(),
            final(self).advanced_from(old(self)),
            old(self).node(node_id as int).outcome != GameOutcome::InProgress || old(self).node(
                node_id as int,
            ).board.available_moves().len() == 0 ==> {
                &&& *final(self) == *old(self)
                &&& *final(random) == *old(random)
                &&& made.0@.len() == 0
                &&& made.1 == node_id
            },
            old(self).node(node_id as int).outcome == GameOutcome::InProgress && old(self).node(
                node_id as int,
            ).board.available_moves().len() > 0 ==> {
                &&& final(self).expanded_from(old(self), node_id as int)
                &&& same_ids(made.0@, final(self).children_of(node_id as int))
                &&& old(self).size() <= made.1 < final(self).size()
            },
            old(self).node(node_id as int).outcome == GameOutcome::InProgress && old(self).node(
                node_id as int,
            ).board.available_moves().len() > 0 && old(random).is_reproducible() ==> ({
                let count = old(self).node(node_id as int).board.available_moves().len();
                let drawn = after_numbers(*old(random), count);
                &&& forall|k: int|
                    0 <= k < count ==> (#[trigger] final(self).node(old(self).size() + k)).id
                        == numbers(*old(random), count)[k]
                &&& made.1 == old(self).size() + drawn.number_in_range(0, limit_of(count))
                &&& *final(random) == drawn.after_next_range(0, limit_of(count))
                &&& final(random).is_reproducible()
            }),
    {
        let ghost entry = *random;
        proof {
            self.lemma_advanced_from_self();
        }
        let node = self.get(node_id);
        if node.outcome != GameOutcome::InProgress {
            return (Vec::new(), node_id);
        }
        let all_possible_moves = node.board.get_available_moves();
        let count = all_possible_moves.len();
        if count == 0 {
            return (Vec::new(), node_id);
        }
        let mut new_ids: Vec<i32> = Vec::new();
        let mut n: usize = 0;
        while n < count
            invariant
                0 <= n <= count,
                new_ids@.len() == n,
                entry.is_reproducible() ==> {
                    &&& random.is_reproducible()
                    &&& *random == after_numbers(entry, n as nat)
                    &&& new_ids@ == numbers(entry, n as nat)
                },
            decreases count - n,
        {
            new_ids.push(random.next());
            n += 1;
        }
        let limit = pick_limit(count);
        let selected_child_index = random.next_range(0, limit) as usize;
        self.add_children(node_id, all_possible_moves, &new_ids, selected_child_index)
    }
}

} // verus!
