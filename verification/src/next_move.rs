use vstd::prelude::*;
use crate::board::Board;
use crate::codec::{board_bytes, spec_byte};
use crate::piece::{promoted_kind, Piece};
use crate::structs::Position;

verus! {

/// A move packed into a `u16`: the moving piece's kind in bits 8..12, its
/// origin square in bits 4..8 and its destination square in bits 0..4.  A
/// drop uses the off-board square as its origin.  The zero value is the
/// sentinel for "no move recorded".
#[derive(Debug, Copy, Clone, PartialEq, Eq, Structural)]
pub struct NextMove(pub u16);

/// The packed `u16` value of a move of `kind` from `old_pos` to `new_pos`.
pub open spec fn nm_value(kind: int, old_pos: int, new_pos: int) -> int {
    kind * 256 + old_pos * 16 + new_pos
}

/// The kind the moving piece has on arrival: promotion applies only to a
/// board move, never to a drop from the off-board square.
pub open spec fn arrival_kind(kind: int, old_pos: int, new_pos: int) -> int {
    if old_pos <= 11 {
        promoted_kind(kind, new_pos)
    } else {
        kind
    }
}

/// The packed move found by comparing two encodings byte by byte, most
/// significant byte first: the first of the seven uppermost byte pairs that
/// differ and whose new byte is not off-board yields the move, and zero is
/// returned when none does.
pub open spec fn nm_from_boards(a: u64, b: u64, k: int) -> int
    decreases 7 - k,
{
    if k < 0 || k >= 7 {
        0
    } else {
        let ia = spec_byte(a, 7 - k);
        let ib = spec_byte(b, 7 - k);
        if ia != ib && ib % 16 != 12 {
            nm_value((ib / 16) as int, (ia % 16) as int, (ib % 16) as int)
        } else {
            nm_from_boards(a, b, k + 1)
        }
    }
}

impl NextMove {
    /// Packs the given kind, origin and destination into a move value.
    pub fn new(piece: Piece, old_pos: Position, new_pos: Position) -> (r: Self)
        requires
            piece.0 <= 15,
        ensures
            r.0 as int == nm_value(piece.0 as int, old_pos.spec_u8(), new_pos.spec_u8()),
    {
        let piece_pos_pos: u16 = (piece.0 as u16) * 256 + (old_pos.as_u8() as u16) * 16 + (
        new_pos.as_u8() as u16);
        NextMove(piece_pos_pos)
    }

    /// The origin slot byte and the destination slot byte of this move: the
    /// first is the moving piece at its origin square, the second the arrival
    /// kind (promoted on a board move onto the far rank) at the destination.
    pub fn get_current_and_next(&self, is_player_1: bool) -> (r: (u8, u8))
        ensures
            r.0 as int == (self.0 as int / 256 % 16) * 16 + (self.0 as int / 16 % 16),
            r.1 as int == arrival_kind(
                self.0 as int / 256 % 16,
                self.0 as int / 16 % 16,
                self.0 as int % 16,
            ) * 16 + self.0 as int % 16,
    {
        let new_position: u16 = self.0 % 16;
        let old_position: u16 = (self.0 / 16) % 16;
        let old_piece: u16 = (self.0 / 256) % 16;

        let new_piece: u16 = if old_position <= 11 && old_piece == 7 && new_position > 8 {
            9
        } else if old_position <= 11 && old_piece == 8 && new_position < 3 {
            10
        } else {
            old_piece
        };

        (
            (old_piece as u8) * 16 + (old_position as u8),
            (new_piece as u8) * 16 + (new_position as u8),
        )
    }

    /// Recovers the move that turns one encoded position into another, by
    /// scanning the upper seven byte pairs from the most significant end.
    pub fn new_from_board(initial_board: &Board, next_board: &Board) -> (r: Self)
        ensures
            r.0 as int == nm_from_boards(initial_board.0, next_board.0, 0),
    {
        let initial_bytes = board_bytes(initial_board.0);
        let next_bytes = board_bytes(next_board.0);

        let mut k: usize = 0;
        while k < 7
            invariant
                k <= 7,
                initial_bytes@ == crate::codec::spec_bytes(initial_board.0),
                next_bytes@ == crate::codec::spec_bytes(next_board.0),
                nm_from_boards(initial_board.0, next_board.0, k as int) == nm_from_boards(
                    initial_board.0,
                    next_board.0,
                    0,
                ),
            decreases 7 - k,
        {
            let ia = initial_bytes[7 - k];
            let ib = next_bytes[7 - k];
            if ia != ib && ib % 16 != 12 {
                let piece = ib / 16;
                let new_pos = ib % 16;
                let old_pos = ia % 16;
                return NextMove((piece as u16) * 256 + (old_pos as u16) * 16 + (new_pos as u16));
            }
            k = k + 1;
        }
        NextMove(0)
    }
}

} // verus!
