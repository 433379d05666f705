//! Bitboards and magic-bitboard attack tables for chess move generation.
//!
//! The crate offers a 64-bit set-of-squares type with its set algebra, the
//! coordinate types it is indexed by, a ray-casting attack generator for
//! sliding pieces, and attack tables that answer the same queries by a
//! multiplicative hash of the relevant blockers.

pub mod bitboard;
pub mod boardstructs;
pub mod moves;
pub mod position;
pub mod words;
