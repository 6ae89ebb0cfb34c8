//! Tree substrate for a game-abstraction solver: an append-only arena of
//! nodes addressed by index, with a lazy pre-order walk, and the card mask
//! that the equity table's driver hands to the equity oracle.

pub mod arena;
pub mod board;
