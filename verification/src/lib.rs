//! Funken: a chess engine core with verified move generation, evaluation and search.
pub mod chess;
pub mod text;
pub mod zobrist;
pub mod movegen;
pub mod fen;
pub mod eval;
pub mod tune;
pub mod clock;
pub mod search;
pub mod uci;
pub mod session;
