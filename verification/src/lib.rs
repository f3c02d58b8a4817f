//! Perfect-play move recommendation for 3x3 tic-tac-toe.
//!
//! The library models the board as a state machine (move application,
//! win and draw detection), collapses boards that are equivalent under
//! the eight rotations and reflections of the square, and deduces the
//! game-theoretic outcome of every position by a recursive search over
//! the pruned game tree. The search result is proved equal to the
//! unpruned minimax value of the position.

pub mod mark;
pub mod outcome;
pub mod board;
pub mod symmetry;
pub mod search;
pub mod player;
pub mod game;
