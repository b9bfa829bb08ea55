//! Core of a chess engine: bit-packed board representation, pseudo-legal
//! move generation, make/unmake with incremental Zobrist hashing and
//! evaluation, a transposition table, and an alpha-beta search.
pub mod attacks;
pub mod bitboard;
pub mod eval;
pub mod history;
pub mod movepicker;
pub mod moves;
pub mod perft;
pub mod position;
pub mod search;
pub mod transposition;
pub mod types;
pub mod zobrist;
