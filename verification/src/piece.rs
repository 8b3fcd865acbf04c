use vstd::prelude::*;
use crate::moves::Move;
use crate::moves::piece_offsets;

verus! {

/// A piece, identified by a single nibble value.
///
/// Value 0 is the empty sentinel; odd values 1..=9 belong to the first player
/// and even values 2..=10 to the second.  The pairs are: 1/2 the
/// king-equivalents, 3/4 the diagonal movers, 5/6 the orthogonal movers,
/// 7/8 the pawns and 9/10 their promoted forms.
#[derive(Clone, Copy, PartialEq, Eq, Structural, Debug)]
pub struct Piece(pub u8);

pub const EMPTY: u8 = 0;
pub const LION_1: u8 = 1;
pub const LION_2: u8 = 2;
pub const ELEPHANT_1: u8 = 3;
pub const ELEPHANT_2: u8 = 4;
pub const GIRAFFE_1: u8 = 5;
pub const GIRAFFE_2: u8 = 6;
pub const CHICK_1: u8 = 7;
pub const CHICK_2: u8 = 8;
pub const HEN_1: u8 = 9;
pub const HEN_2: u8 = 10;

/// The nibble that marks a piece of the given side: odd kinds belong to the
/// first player, even nonzero kinds to the second.
pub open spec fn side_bit(is_player_1: bool) -> int {
    if is_player_1 {
        1
    } else {
        0
    }
}

/// Whether the kind is a real piece belonging to the given side.
pub open spec fn kind_is_side(kind: int, is_player_1: bool) -> bool {
    kind != 0 && kind % 2 == side_bit(is_player_1)
}

/// The kind a captured piece turns into: it changes side, a promoted pawn
/// demotes to the opposing pawn, and the king-equivalents (and the empty
/// sentinel) are left unchanged.
pub open spec fn opposite_kind(kind: int) -> int {
    if kind == ELEPHANT_1 {
        ELEPHANT_2 as int
    } else if kind == ELEPHANT_2 {
        ELEPHANT_1 as int
    } else if kind == GIRAFFE_1 {
        GIRAFFE_2 as int
    } else if kind == GIRAFFE_2 {
        GIRAFFE_1 as int
    } else if kind == CHICK_1 || kind == HEN_1 {
        CHICK_2 as int
    } else if kind == CHICK_2 || kind == HEN_2 {
        CHICK_1 as int
    } else {
        kind
    }
}

/// The kind a piece has after moving to the given square: a pawn crossing
/// onto the far rank of its side promotes, everything else is unchanged.
pub open spec fn promoted_kind(kind: int, new_pos: int) -> int {
    if kind == CHICK_1 && new_pos > 8 {
        HEN_1 as int
    } else if kind == CHICK_2 && new_pos < 3 {
        HEN_2 as int
    } else {
        kind
    }
}

/// The display character of a piece kind; the empty sentinel and out-of-range
/// kinds show as a blank.
pub open spec fn kind_char(kind: int) -> char {
    if kind == 1 {
        'l'
    } else if kind == 2 {
        'L'
    } else if kind == 3 {
        'e'
    } else if kind == 4 {
        'E'
    } else if kind == 5 {
        'g'
    } else if kind == 6 {
        'G'
    } else if kind == 7 {
        'c'
    } else if kind == 8 {
        'C'
    } else if kind == 9 {
        'h'
    } else if kind == 10 {
        'H'
    } else {
        ' '
    }
}

impl Piece {
    /// Whether this piece is a real piece of the given side.
    pub open spec fn spec_is_mine(self, is_player_1: bool) -> bool {
        kind_is_side(self.0 as int, is_player_1)
    }

    /// Whether this piece belongs to the given side.
    pub fn is_mine(&self, is_player_1: bool) -> (r: bool)
        ensures
            r == self.spec_is_mine(is_player_1),
    {
        let bit: u8 = if is_player_1 {
            1
        } else {
            0
        };
        self.0 != 0 && self.0 % 2 == bit
    }

    /// The display character of this piece.
    pub fn show(&self) -> (c: char)
        ensures
            c == kind_char(self.0 as int),
    {
        match self.0 {
            1 => 'l',
            2 => 'L',
            3 => 'e',
            4 => 'E',
            5 => 'g',
            6 => 'G',
            7 => 'c',
            8 => 'C',
            9 => 'h',
            10 => 'H',
            _ => ' ',
        }
    }

    /// The movement steps of this piece, in catalog order.
    pub fn moves(&self) -> (r: Vec<Move>)
        requires
            1 <= self.0 <= 10,
        ensures
            r@.map_values(|m: Move| m.d()) == piece_offsets(self.0 as int),
    {
        let mut r: Vec<Move> = Vec::new();
        if self.0 == 1 || self.0 == 2 {
            r.push(Move { x: -1, y: 1 });
            r.push(Move { x: 0, y: 1 });
            r.push(Move { x: 1, y: 1 });
            r.push(Move { x: -1, y: 0 });
            r.push(Move { x: 1, y: 0 });
            r.push(Move { x: -1, y: -1 });
            r.push(Move { x: 0, y: -1 });
            r.push(Move { x: 1, y: -1 });
        } else if self.0 == 3 || self.0 == 4 {
            r.push(Move { x: -1, y: 1 });
            r.push(Move { x: 1, y: 1 });
            r.push(Move { x: -1, y: -1 });
            r.push(Move { x: 1, y: -1 });
        } else if self.0 == 5 || self.0 == 6 {
            r.push(Move { x: 0, y: 1 });
            r.push(Move { x: -1, y: 0 });
            r.push(Move { x: 1, y: 0 });
            r.push(Move { x: 0, y: -1 });
        } else if self.0 == 7 || self.0 == 8 {
            r.push(Move { x: 0, y: 1 });
        } else {
            r.push(Move { x: -1, y: 1 });
            r.push(Move { x: 0, y: 1 });
            r.push(Move { x: 1, y: 1 });
            r.push(Move { x: -1, y: 0 });
            r.push(Move { x: 1, y: 0 });
            r.push(Move { x: 0, y: -1 });
        }
        proof {
            assert(r@.map_values(|m: Move| m.d()) =~= piece_offsets(self.0 as int));
        }
        r
    }

    /// The kind this piece turns into when captured.
    pub fn get_opposite_except_king(&self) -> (r: Piece)
        ensures
            r.0 as int == opposite_kind(self.0 as int),
    {
        match self.0 {
            3 => Piece(4),
            4 => Piece(3),
            5 => Piece(6),
            6 => Piece(5),
            7 => Piece(8),
            8 => Piece(7),
            9 => Piece(8),
            10 => Piece(7),
            _ => Piece(self.0),
        }
    }
}

} // verus!
