//! Ready-made implementations of `Board`.

/// The game of tic-tac-toe.
pub mod tic_tac_toe;
