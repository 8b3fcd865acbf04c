use vstd::prelude::*;
use crate::board::Board;
use crate::next_move::NextMove;

verus! {

/// The classification a successor-generation call gives a position: an
/// immediate win for the first or the second player, or the list of successor
/// positions, each paired with the move that produces it.
#[derive(PartialEq, Eq, Debug)]
pub enum GameResult {
    WhiteWin,
    BlackWin,
    Intermediate(Vec<(NextMove, Board)>),
}

/// A board cell, named by its column `x` (0..=2) and row `y` (0..=3), or the
/// off-board slot `Dead` that holds captured pieces.
#[derive(Debug, Copy, Clone, PartialEq, Eq, Structural)]
pub enum Position {
    X0Y0,
    X1Y0,
    X2Y0,
    X0Y1,
    X1Y1,
    X2Y1,
    X0Y2,
    X1Y2,
    X2Y2,
    X0Y3,
    X1Y3,
    X2Y3,
    Dead,
}

impl Position {
    /// The nibble value of this position: `x + 3 * y`, with 12 for `Dead`.
    pub open spec fn spec_u8(self) -> int {
        match self {
            Position::X0Y0 => 0,
            Position::X1Y0 => 1,
            Position::X2Y0 => 2,
            Position::X0Y1 => 3,
            Position::X1Y1 => 4,
            Position::X2Y1 => 5,
            Position::X0Y2 => 6,
            Position::X1Y2 => 7,
            Position::X2Y2 => 8,
            Position::X0Y3 => 9,
            Position::X1Y3 => 10,
            Position::X2Y3 => 11,
            Position::Dead => 12,
        }
    }

    /// The nibble value of this position.
    pub fn as_u8(&self) -> (r: u8)
        ensures
            r as int == self.spec_u8(),
    {
        match self {
            Position::X0Y0 => 0,
            Position::X1Y0 => 1,
            Position::X2Y0 => 2,
            Position::X0Y1 => 3,
            Position::X1Y1 => 4,
            Position::X2Y1 => 5,
            Position::X0Y2 => 6,
            Position::X1Y2 => 7,
            Position::X2Y2 => 8,
            Position::X0Y3 => 9,
            Position::X1Y3 => 10,
            Position::X2Y3 => 11,
            Position::Dead => 12,
        }
    }

    /// The position with the given nibble value.
    pub fn from_u8(n: u8) -> (r: Position)
        requires
            n <= 12,
        ensures
            r.spec_u8() == n as int,
    {
        match n {
            0 => Position::X0Y0,
            1 => Position::X1Y0,
            2 => Position::X2Y0,
            3 => Position::X0Y1,
            4 => Position::X1Y1,
            5 => Position::X2Y1,
            6 => Position::X0Y2,
            7 => Position::X1Y2,
            8 => Position::X2Y2,
            9 => Position::X0Y3,
            10 => Position::X1Y3,
            11 => Position::X2Y3,
            _ => Position::Dead,
        }
    }

    /// Whether a king-equivalent standing here has reached the far rank of
    /// the given side: row 3 for the first player, row 0 for the second.
    pub open spec fn spec_is_winning_row_for_player(self, is_player_1: bool) -> bool {
        if self.spec_u8() <= 2 {
            !is_player_1
        } else if 9 <= self.spec_u8() <= 11 {
            is_player_1
        } else {
            false
        }
    }

    /// Whether this position lies on the winning row of the given side.
    pub fn is_winning_row_for_player(&self, is_player_1: bool) -> (r: bool)
        ensures
            r == self.spec_is_winning_row_for_player(is_player_1),
    {
        match *self {
            Position::X0Y0 | Position::X1Y0 | Position::X2Y0 => !is_player_1,
            Position::X0Y3 | Position::X1Y3 | Position::X2Y3 => is_player_1,
            _ => false,
        }
    }
}

/// The failure cases of the game rules: they signal a violated invariant or a
/// rejected request and carry no further data.
#[derive(Debug, PartialEq, Eq, Structural, Clone, Copy)]
pub enum GameError {
    OutOfBounds,
    PieceNotInBoard,
    NotYourPiece,
    GameOver,
    EmptyCemetary,
    CantMoveAnywhere,
    InavlidPiece,
    InvalidMove,
    IllegalMove,
}

} // verus!
