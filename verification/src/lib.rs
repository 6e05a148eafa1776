//! A verified Reversi (Othello) engine: a board with the eight-direction
//! bracket-and-flip rule, a game layer that tracks the side to move and the
//! game status, and a negamax search over immutable game snapshots.

pub mod board;
pub mod game;
pub mod search;
