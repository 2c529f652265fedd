//! A bitboard chess engine: board representation, move generation, FEN
//! parsing, evaluation, alpha-beta search and UCI helpers.
mod bits;
pub mod board;
pub mod eval;
pub mod search;
pub mod uci;
pub mod zobrist;

use vstd::prelude::*;

verus! {

} // verus!
