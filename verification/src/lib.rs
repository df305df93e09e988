//! Search for magic bitboards: perfect multiplicative hashes from blocker
//! occupancies to sliding-piece attack sets on an 8x8 board.

pub mod bitboard;
pub mod geometry;
pub mod occupancy;
pub mod table;
pub mod search;
pub mod names;
