use vstd::prelude::*;
use crate::classic::board::Board;

verus! {

/// A game outcome seen from the side to move: a win, a loss, or the list of
/// positions the game may continue with.
#[derive(PartialEq, Eq)]
pub enum Outcome {
    Win,
    Lose,
    Intermediate(Vec<Board>),
}

} // verus!
