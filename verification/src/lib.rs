//! Known-chess: the shared core of a chess opening book built from real games.
//!
//! * [`mv`] packs a move into 16 bits and orders a position's legal moves.
//! * [`format`] states the on-disk book layout as mathematics.
//! * [`book`] accumulates move counts and reads and writes the book.
pub mod text;
pub mod format;
pub mod chess;
pub mod mv;
pub mod zobrist;
pub mod sort;
pub mod book;
pub mod fetch;
pub mod config;
pub mod serve;
