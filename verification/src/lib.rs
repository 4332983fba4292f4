//! The core of a chess engine: a board that makes and takes back moves, a
//! generator of legal moves, position hashing with a bounded cache, and
//! depth-bounded searches with a scoring function of the caller's choice.

pub mod game;
pub mod hash;
pub mod player;
