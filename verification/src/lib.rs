//! A Reversi engine: bitboards, games with history, pattern evaluation and
//! search.

use vstd::prelude::*;

pub mod bitboard;
pub mod bits;
pub mod board;
pub mod book;
pub mod bytes;
pub mod color;
pub mod engine;
pub mod evaluator;
pub mod facts;
pub mod game;
pub mod layout;
pub mod learn;
pub mod linear;
pub mod midgame;
pub mod nnue;
pub mod pattern;
pub mod pattern_index;
pub mod position;
pub mod record;
pub mod resources;
pub mod search;
pub mod solver;
pub mod sorting;
pub mod split;
pub mod symmetry;
pub mod text;
pub mod zobrist;

pub use board::Board;
pub use board::GameError;
pub use board::MoveError;
pub use board::ParseError;
pub use board::BOARD_INIT_STRING;
pub use color::Color;
pub use evaluator::{Evaluator, STAGE_COUNT};
pub use game::MoveRecord;
pub use game::Reversi;
pub use pattern::{Pattern, PatternSet, PatternWeights};
pub use pattern_index::{PatternIndexer, PatternIndices};
pub use position::Position;
pub use search::{SearchResult, Searcher};
pub use solver::{EndSolverMode, EndSolverResult, Solver};
pub use zobrist::ZobristTable;

verus! {

} // verus!
