//! Core logic of a perception-based chess variant: a board of pieces on a
//! grid, a legality oracle for each movement pattern, and a patrolling
//! referee whose radar decides whether a move was witnessed.
//!
//! Positions are held in fixed-point coordinates (`UNIT` sub-cell steps per
//! board cell), so every rule — rounding to cells, move generation, the
//! radar's point-in-triangle test, the patrol's eased interpolation — is
//! exact integer arithmetic.

pub mod board;
pub mod coord;
pub mod laws;
pub mod referee;
pub mod ui;

use vstd::prelude::*;

verus! {

/// Number of columns of the standard board.
pub const COLUMNS: i64 = 8;

/// Number of rows of the standard board.
pub const ROWS: i64 = 8;

} // verus!
