use vstd::prelude::*;
use crate::classic::board::Board;

verus! {

/// The classification a full-board expansion gives a position: a win for one
/// side, or the list of successor boards.
#[derive(PartialEq, Eq)]
pub enum GameResult {
    WhiteWin,
    BlackWin,
    Intermediate(Vec<Board>),
}

/// The failure cases of the board operations.
#[derive(Debug, PartialEq, Eq, Structural, Clone, Copy)]
pub enum GameError {
    OutOfBounds,
    PieceNotInBoard,
    NotYourPiece,
    GameOver,
    EmptyCemetary,
    CantMoveAnywhere,
    InavlidPiece,
    InvalidMove,
    IllegalMove,
}

} // verus!
