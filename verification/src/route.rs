//! Routes through the space of boards.

use crate::direction::Direction;
use vstd::prelude::*;

verus! {

/// The end from which a route is read.
pub enum PuzzleRouteDirection {
    /// From the scrambled board towards the solved layout.
    Forward,
    /// From the solved layout towards the scrambled board.
    Reverse,
}

/// A route to a board: the content hash of the board it leads to, the
/// moves that lead there, and the end from which they are read.
pub struct PuzzleRoute {
    state_hash: u64,
    moves: Vec<Direction>,
    direction: PuzzleRouteDirection,
}

} // verus!
