//! Grid pathfinding for a turn-based board game bot: a board model, an A*
//! search with proved shortest routes, and the move chooser built on it.
use vstd::prelude::*;

pub mod geometry;
pub mod grid;
pub mod pathing;
pub mod bot;
pub mod laws;

verus! {

} // verus!
