//! Position hashing.
//!
//! A chess position is identified by its 64-bit Zobrist hash. Two positions
//! with the same hash are treated as the same node in the opening tree, so
//! transpositions (different move orders reaching the same position)
//! collapse onto one another and lookups are a single `u64` key.
use vstd::prelude::*;
use crate::chess::{Chess, zobrist_of};

verus! {

/// The canonical Zobrist hash of a position. The en passant square is folded
/// in only when an en passant capture is actually legal, so positions that
/// look different but play identically share a hash.
pub fn position_hash(pos: &Chess) -> (h: u64)
    ensures
        h == zobrist_of(pos.fen_view()),
{
    pos.zobrist()
}

} // verus!
