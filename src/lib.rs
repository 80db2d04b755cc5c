//! Rules and live analysis for a gravity-drop four-in-a-row game on a grid
//! of six rows and seven columns.
//!
//! `board` holds the positions and the rules: moves, the winner, the side to
//! move, the heuristic score. `analysis` holds the engine that explores the
//! positions reachable from the current one breadth first, keeps a value for
//! each position it has seen, and carries changed values back to the
//! positions that lead to them.
use vstd::prelude::*;

pub mod board;
pub mod analysis;

verus! {

} // verus!
