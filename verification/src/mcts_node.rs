use crate::board::{Board, Bound, GameOutcome, Player};
use vstd::prelude::*;

verus! {

/// One node of the search tree: a state of the game, the move that led to
/// it, and what the search has learnt about it so far.
#[derive(Debug, Clone)]
pub struct MctsNode<T: Board> {
    /// A number that names the node in displays of the tree.
    pub id: i32,
    /// The depth of the node in the tree; the root has depth 0.
    pub height: i32,
    /// The state of the game at this node.
    pub board: Box<T>,
    /// The move that led from the parent's state to this one; `None` at the root.
    pub prev_move: Option<T::Move>,
    /// The player to move in this state.
    pub current_player: Player,
    /// The outcome of the game in this state.
    pub outcome: GameOutcome,
    /// How many playouts have passed through this node.
    pub visits: i32,
    /// How many of them the favoured player won.
    pub wins: i32,
    /// How many of them were drawn.
    pub draws: i32,
    /// What is proven of this state.
    pub bound: Bound,
    /// Whether nothing more can be learnt below this node.
    pub is_fully_calculated: bool,
}

impl<T: Board> MctsNode<T> {
    /// The counts are not negative, and wins and draws together are no more
    /// than the visits.
    pub open spec fn counts_ok(&self) -> bool {
        &&& 0 <= self.wins
        &&& 0 <= self.draws
        &&& self.wins + self.draws <= self.visits
    }

    /// The player and the outcome that the node keeps are those of its board.
    pub open spec fn matches_board(&self) -> bool {
        &&& self.current_player == self.board.current_player()
        &&& self.outcome == self.board.outcome()
    }

    /// The node has not been visited and nothing is known of it.
    pub open spec fn is_fresh(&self) -> bool {
        &&& self.visits == 0
        &&& self.wins == 0
        &&& self.draws == 0
        &&& self.bound == Bound::Unknown
        &&& !self.is_fully_calculated
    }

    /// The numerator of the share of playouts won; 0 for an unvisited node.
    pub open spec fn rate_wins(&self) -> int {
        if self.visits == 0 {
            0
        } else {
            self.wins as int
        }
    }

    /// The denominator of the share of playouts won; 1 for an unvisited node.
    pub open spec fn rate_visits(&self) -> int {
        if self.visits == 0 {
            1
        } else {
            self.visits as int
        }
    }

    /// Whether the share of playouts won at this node is strictly greater
    /// than that at `other`.
    pub open spec fn outperforms(&self, other: &Self) -> bool {
        self.rate_wins() * other.rate_visits() > other.rate_wins() * self.rate_visits()
    }

    /// Whether `later` can be this node at a later time of the search: what
    /// the node is stays, its counts do not fall, a resolved bound stays as
    /// it is, and a flag that is set stays set.
    pub open spec fn persists_as(&self, later: &Self) -> bool {
        &&& later.id == self.id
        &&& later.height == self.height
        &&& later.board == self.board
        &&& later.prev_move == self.prev_move
        &&& later.current_player == self.current_player
        &&& later.outcome == self.outcome
        &&& later.visits >= self.visits
        &&& later.wins >= self.wins
        &&& later.draws >= self.draws
        &&& self.bound != Bound::Unknown ==> later.bound == self.bound
        &&& self.is_fully_calculated ==> later.is_fully_calculated
    }

    /// The node after one more playout with the given outcome has passed
    /// through it, when `bound` and `calculated` are what has been derived
    /// for it: a resolved bound is kept, an unresolved one changes nothing,
    /// and the flag is only ever set.
    pub open spec fn visited(self, outcome: GameOutcome, bound: Bound, calculated: bool) -> Self {
        MctsNode {
            visits: (self.visits + 1) as i32,
            wins: if outcome == GameOutcome::Win {
                (self.wins + 1) as i32
            } else {
                self.wins
            },
            draws: if outcome == GameOutcome::Draw {
                (self.draws + 1) as i32
            } else {
                self.draws
            },
            bound: if bound != Bound::Unknown {
                bound
            } else {
                self.bound
            },
            is_fully_calculated: self.is_fully_calculated || calculated,
            ..self
        }
    }

    /// Creates an unvisited node of depth 0 for the given state.
    pub fn new(id: i32, boxed_board: Box<T>) -> (node: Self)
        ensures
            node.id == id,
            node.height == 0,
            node.board == boxed_board,
            node.prev_move is None,
            node.is_fresh(),
            node.matches_board(),
    {
        let player = boxed_board.get_current_player();
        let outcome = boxed_board.get_outcome();
        MctsNode {
            id,
            height: 0,
            board: boxed_board,
            prev_move: None,
            current_player: player,
            outcome,
            visits: 0,
            wins: 0,
            draws: 0,
            bound: Bound::Unknown,
            is_fully_calculated: false,
        }
    }

    /// Counts one more playout with the given outcome, stores `bound` if it
    /// is resolved, and sets the flag if `calculated` holds.
    pub fn record(&mut self, outcome: GameOutcome, bound: Bound, calculated: bool)
        requires
            old(self).counts_ok(),
            old(self).visits < i32::MAX,
        ensures
            *final(self) == old(self).visited(outcome, bound, calculated),
            final(self).counts_ok(),
    {
        self.visits += 1;
        if outcome == GameOutcome::Win {
            self.wins += 1;
        }
        if outcome == GameOutcome::Draw {
            self.draws += 1;
        }
        if calculated {
            self.is_fully_calculated = true;
        }
        if bound != Bound::Unknown {
            self.bound = bound;
        }
    }

    /// Tells whether the share of playouts won at this node is strictly
    /// greater than that at `other`. The shares are compared as fractions,
    /// without rounding.
    pub fn wins_rate_exceeds(&self, other: &Self) -> (greater: bool)
        requires
            self.counts_ok(),
            other.counts_ok(),
        ensures
            greater == self.outperforms(other),
    {
        let wins_here: i64 = if self.visits == 0 {
            0
        } else {
            self.wins as i64
        };
        let visits_here: i64 = if self.visits == 0 {
            1
        } else {
            self.visits as i64
        };
        let wins_there: i64 = if other.visits == 0 {
            0
        } else {
            other.wins as i64
        };
        let visits_there: i64 = if other.visits == 0 {
            1
        } else {
            other.visits as i64
        };
        assert(0 <= wins_here * visits_there <= 0x8000_0000 * 0x8000_0000) by (nonlinear_arith)
            requires
                0 <= wins_here <= 0x8000_0000,
                0 <= visits_there <= 0x8000_0000,
        ;
        assert(0 <= wins_there * visits_here <= 0x8000_0000 * 0x8000_0000) by (nonlinear_arith)
            requires
                0 <= wins_there <= 0x8000_0000,
                0 <= visits_here <= 0x8000_0000,
        ;
        wins_here * visits_there > wins_there * visits_here
    }
}

impl<T: Board> Default for MctsNode<T> {
    /// Creates an unvisited node for the board that `T::default` gives.
    fn default() -> (node: Self)
        ensures
            node.id == 0,
            node.height == 0,
            node.prev_move is None,
            node.is_fresh(),
            node.matches_board(),
    {
        MctsNode::new(0, Box::new(T::default()))
    }
}

} // verus!
