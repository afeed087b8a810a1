//! A chess engine core: board representation, move generation, evaluation,
//! transposition table and search.

use vstd::prelude::*;

pub mod basetypes;
pub mod board;
pub mod eval;
pub mod fen;
pub mod movegen;
pub mod multiset;
pub mod phase;
pub mod psqt;
pub mod search;
pub mod text;
pub mod time_management;
pub mod transposition_table;
pub mod uci;
pub mod zobrist;

pub use basetypes::{GenericErr, Move, Piece, PieceKind, Side, Square, UnvalidatedMove};
pub use board::Position;
pub use search::EngineEvent;

verus! {
} // verus!
