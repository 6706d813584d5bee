//! Monte Carlo tree search for turn-based games of perfect information,
//! with an optional pruning of what is proven.
//!
//! A search grows a tree of game states from an initial state. One
//! iteration descends from the root to a node without children (selection),
//! gives that node a child for each legal move (expansion), plays the game
//! out at random from one of the children (simulation), and carries the
//! outcome back up to the root (backpropagation). With pruning, a node whose
//! result is certain under best play is marked and never searched again.
//!
//! The game is given by an implementation of [`board::Board`], the random
//! numbers by one of [`random::RandomGenerator`], and the rule that ranks
//! visited children during selection by one of [`selection::UcbScorer`].
//! The engine is [`mcts::MonteCarloTreeSearch`].

/// The `Board` trait and the enums that describe a game from the search's side.
pub mod board;
/// Ready-made implementations of `Board`.
pub mod boards;
/// Sources of random numbers.
pub mod random;
/// Short fingerprints of texts.
pub mod hash;
/// The parent and child links of the search tree.
pub mod links;
/// The nodes of the search tree.
pub mod mcts_node;
/// The equality of nodes.
pub mod node_identity;
/// The search tree.
pub mod search_tree;
/// The order in which the children of a node are tried.
pub mod selection;
/// The descent from the root to the node that is expanded next.
pub mod descent;
/// The growth of the tree below a selected node.
pub mod expansion;
/// Random playouts.
pub mod playout;
/// The rules that derive what is proven of a node.
pub mod bounds;
/// The update of the tree after a playout.
pub mod backprop;
/// How the tree changes over time.
pub mod growth;
/// What a bound means for the game, and why the bounds of the search are right.
pub mod proven;
/// The choice of the best move.
pub mod best;
/// The text and the fingerprint of a tree.
pub mod fingerprint;
/// Why equal trees stay equal.
pub mod alike;
/// The search engine.
pub mod mcts;
/// Why searches that start alike stay alike.
pub mod determinism;
