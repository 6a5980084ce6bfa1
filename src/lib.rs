//! A chess rules engine: board state, per-piece move generation, check, checkmate and
//! stalemate detection, and a request/response step function for the game actor.
pub mod board;
pub mod piece;
pub mod position;
pub mod game;
