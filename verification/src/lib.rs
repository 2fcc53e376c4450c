//! A verified Connect-Four core: a board with a gravity invariant,
//! four-in-a-row detection, and a depth-bounded minimax search with
//! alpha-beta pruning proved equivalent to the plain minimax value.

pub mod board;
pub mod engine;
pub mod game;
