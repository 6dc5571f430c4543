//! Core of a Gomoku (five-in-a-row with captures and a double-free-three
//! rule) engine: board model, incremental structural evaluator, legality
//! filter, move generation and fixed-depth alpha-beta search.

use vstd::prelude::*;

pub mod board;
pub mod heuristic;
pub mod minimax;
pub mod move_calculator;
pub mod piece;
pub mod position;
pub mod score;

verus! {

use crate::piece::Piece;
use crate::position::Position;

/// One `calculate` request: the sparse board as `(cell index, player
/// code)` pairs, the search depth, the move just played if any, the side
/// it belongs to, the capture counters, and whether the caller wants a
/// hint for that same side.
pub struct CalculateRequest {
    pub board: Vec<(u64, u64)>,
    pub depth: usize,
    pub in_move: Option<Position>,
    pub player: Piece,
    pub captures: [usize; 2],
    pub is_hint: Option<bool>,
}

} // verus!
