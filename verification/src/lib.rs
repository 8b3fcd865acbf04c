//! A solver for a small two-player perfect-information board game played on a
//! 3x4 grid with eight pieces, captures, promotions, and re-entry of captured
//! pieces.
//!
//! The crate provides a compact fixed-width position codec, a successor
//! generator with immediate terminal classification, a layered breadth-first
//! enumerator of the reachable position graph, and a retrograde solver that
//! propagates terminal outcomes backward through the layers.

pub mod board;
pub mod classic;
pub mod codec;
pub mod enumerator;
pub mod gen;
pub mod moves;
pub mod next_move;
pub mod piece;
pub mod range_set;
pub mod render;
pub mod solver;
pub mod structs;
pub mod winner;
