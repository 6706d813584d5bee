use vstd::prelude::*;

verus! {

/// The result of a game, always seen from the side of the player the search favours.
#[derive(Debug, PartialEq, Eq, Structural, Copy, Clone)]
pub enum GameOutcome {
    /// The game is still going on.
    InProgress,
    /// The favoured player has won.
    Win,
    /// The favoured player has lost.
    Lose,
    /// Nobody has won and no move is left.
    Draw,
}

/// Who is to move, seen from the side of the player the search favours.
#[derive(Debug, PartialEq, Eq, Structural, Copy, Clone)]
pub enum Player {
    /// The player for whom the search looks for the best move.
    Me,
    /// The opponent.
    Other,
}

/// A proven result of a position under best play by both sides.
#[derive(Debug, PartialEq, Eq, Structural, Copy, Clone)]
pub enum Bound {
    /// Nothing is proven yet.
    Unknown,
    /// The favoured player wins whatever the opponent does.
    DefoWin,
    /// The favoured player loses whatever they do.
    DefoLose,
}

/// One state of a game. The search engine works with any type that implements it.
///
/// Each executable method is paired with a specification function that names
/// what it returns; the engine's contracts are stated over those. What the
/// engine proves holds for an implementation that keeps to these contracts.
/// An implementation outside verified code has to give the specification
/// items bodies too; they are never run.
pub trait Board: Default + Clone {
    /// A move of the game.
    type Move;

    /// The player to move in this state.
    spec fn current_player(&self) -> Player;

    /// The outcome of this state.
    spec fn outcome(&self) -> GameOutcome;

    /// The legal moves of this state, in the order in which they are listed.
    spec fn available_moves(&self) -> Seq<Self::Move>;

    /// The state reached from this one by the move `b_move`.
    spec fn after_move(&self, b_move: Self::Move) -> Self;

    /// A number that stands for the whole state.
    spec fn hash(&self) -> u128;

    /// Returns the player whose turn it is.
    fn get_current_player(&self) -> (player: Player)
        ensures
            player == self.current_player(),
    ;

    /// Returns the outcome of the game in this state.
    fn get_outcome(&self) -> (outcome: GameOutcome)
        ensures
            outcome == self.outcome(),
    ;

    /// Returns all legal moves of this state.
    fn get_available_moves(&self) -> (moves: Vec<Self::Move>)
        ensures
            moves@ == self.available_moves(),
    ;

    /// Plays a legal move, changing the state to its successor.
    fn perform_move(&mut self, b_move: &Self::Move)
        requires
            old(self).available_moves().contains(*b_move),
        ensures
            *final(self) == old(self).after_move(*b_move),
    ;

    /// Returns the number that stands for this state.
    fn get_hash(&self) -> (hash: u128)
        ensures
            hash == self.hash(),
    ;

    /// A copy made by `clone` is the same state as its source.
    proof fn lemma_clone_is_same(&self, copy: &Self)
        requires
            cloned::<Self>(*self, *copy),
        ensures
            *copy == *self,
    ;
}

} // verus!
