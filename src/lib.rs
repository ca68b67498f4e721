//! Tic-tac-toe on an `n` by `n` grid, with a verified game engine and a
//! depth-bounded minimax search with alpha-beta pruning.

pub mod laws;
pub mod mech;
pub mod rules;
pub mod search;
