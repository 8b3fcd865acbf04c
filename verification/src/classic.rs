//! The earlier, object-style form of the game library: a grid of optional
//! pieces with explicit cemeteries and turn tracking, kept alongside the
//! packed representation.

pub mod board;
pub mod moves;
pub mod outcome;
pub mod piece;
pub mod structs;
