//! Thunfisch: a bitboard chess engine library.
//!
//! Board representation, move encoding, move generation, evaluation,
//! search helpers and the transposition table, with their contracts.
pub mod bitboard;
pub mod types;
pub mod transposition_table;
pub mod pv;
pub mod move_scoring;
pub mod targets;
pub mod board;
pub mod make_move;
pub mod fen;
pub mod move_picker;
pub mod masks;
pub mod moves;
pub mod generator;
pub mod is_legal;
pub mod coords;
pub mod perft;
pub mod settings;
pub mod lmr;
pub mod eval_tables;
pub mod evaluation;
pub mod move_ordering;
pub mod search;
pub mod time_management;
pub mod visualize;
pub mod position;
pub mod legality;

pub use settings::init;
