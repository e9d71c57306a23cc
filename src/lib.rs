//! A Connect-Four engine: a bitboard position with four-in-a-row and threat
//! detection, a proof-number search over a graph of canonical positions, an
//! opening book lookup, and the move choice that combines them.
use vstd::prelude::*;

pub mod ai;
pub mod board;
pub mod book;
pub mod groups;
pub mod heuristic;
pub mod play_game;

verus! {

} // verus!
