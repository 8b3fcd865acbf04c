use vstd::prelude::*;
use crate::classic::moves::Move;

verus! {

/// A piece: its kind, its side, and whether it is the second of two
/// otherwise identical pieces (used to tell promoted twins apart).
#[derive(Clone, Copy, PartialEq, Eq, Structural, Debug)]
pub struct Piece {
    pub piece_type: PieceType,
    pub color: Color,
    pub is_duplicated: bool,
}

/// The side a piece belongs to.
#[derive(Clone, Copy, PartialEq, Eq, Structural, Debug)]
pub enum Color {
    White,
    Black,
}

/// The kind of a piece: the pawn, the orthogonal mover, the diagonal mover,
/// the king-equivalent, and the promoted pawn.
#[derive(Clone, Copy, PartialEq, Eq, Structural, Debug)]
pub enum PieceType {
    Chick,
    Giraffe,
    Elephant,
    Lion,
    Hen,
}

/// The movement steps of a piece kind, in catalog order, from white's
/// perspective.
pub open spec fn kind_offsets(k: PieceType) -> Seq<(int, int)> {
    match k {
        PieceType::Lion => seq![
            (-1, 1),
            (0, 1),
            (1, 1),
            (-1, 0),
            (1, 0),
            (-1, -1),
            (0, -1),
            (1, -1),
        ],
        PieceType::Elephant => seq![(-1, 1), (1, 1), (-1, -1), (1, -1)],
        PieceType::Giraffe => seq![(0, 1), (-1, 0), (1, 0), (0, -1)],
        PieceType::Chick => seq![(0, 1)],
        PieceType::Hen => seq![(-1, 1), (0, 1), (1, 1), (-1, 0), (1, 0), (0, -1)],
    }
}

/// The display character of a piece kind, in white's lowercase form.
pub open spec fn kind_char(k: PieceType) -> char {
    match k {
        PieceType::Chick => 'c',
        PieceType::Giraffe => 'g',
        PieceType::Elephant => 'e',
        PieceType::Lion => 'l',
        PieceType::Hen => 'h',
    }
}

/// The display character of a piece: lowercase for white, uppercase for
/// black.
pub open spec fn piece_char(p: Piece) -> char {
    match p.color {
        Color::White => kind_char(p.piece_type),
        Color::Black => match p.piece_type {
            PieceType::Chick => 'C',
            PieceType::Giraffe => 'G',
            PieceType::Elephant => 'E',
            PieceType::Lion => 'L',
            PieceType::Hen => 'H',
        },
    }
}

impl Piece {
    /// A fresh piece of the given kind and side.
    pub fn new(piece_type: PieceType, color: Color) -> (r: Piece)
        ensures
            r.piece_type == piece_type,
            r.color == color,
            !r.is_duplicated,
    {
        Piece { piece_type, color, is_duplicated: false }
    }

    /// The display character of this piece.
    pub fn show(&self) -> (c: char)
        ensures
            c == piece_char(*self),
    {
        match (self.color, self.piece_type) {
            (Color::White, PieceType::Chick) => 'c',
            (Color::White, PieceType::Giraffe) => 'g',
            (Color::White, PieceType::Elephant) => 'e',
            (Color::White, PieceType::Lion) => 'l',
            (Color::White, PieceType::Hen) => 'h',
            (Color::Black, PieceType::Chick) => 'C',
            (Color::Black, PieceType::Giraffe) => 'G',
            (Color::Black, PieceType::Elephant) => 'E',
            (Color::Black, PieceType::Lion) => 'L',
            (Color::Black, PieceType::Hen) => 'H',
        }
    }

    /// Whether the step is one of this piece's catalog steps (from white's
    /// perspective; the caller inverts for black).
    pub fn is_move_valid(&self, move_: &Move) -> (r: bool)
        ensures
            r == kind_offsets(self.piece_type).contains(move_.d()),
    {
        self.piece_type.is_move_valid(move_)
    }
}

impl PieceType {
    /// The movement steps of this kind, in catalog order.
    pub fn moves(&self) -> (r: Vec<Move>)
        ensures
            r@.map_values(|m: Move| m.d()) == kind_offsets(*self),
    {
        let mut r: Vec<Move> = Vec::new();
        match self {
            PieceType::Lion => {
                r.push(Move { x: -1, y: 1 });
                r.push(Move { x: 0, y: 1 });
                r.push(Move { x: 1, y: 1 });
                r.push(Move { x: -1, y: 0 });
                r.push(Move { x: 1, y: 0 });
                r.push(Move { x: -1, y: -1 });
                r.push(Move { x: 0, y: -1 });
                r.push(Move { x: 1, y: -1 });
            },
            PieceType::Elephant => {
                r.push(Move { x: -1, y: 1 });
                r.push(Move { x: 1, y: 1 });
                r.push(Move { x: -1, y: -1 });
                r.push(Move { x: 1, y: -1 });
            },
            PieceType::Giraffe => {
                r.push(Move { x: 0, y: 1 });
                r.push(Move { x: -1, y: 0 });
                r.push(Move { x: 1, y: 0 });
                r.push(Move { x: 0, y: -1 });
            },
            PieceType::Chick => {
                r.push(Move { x: 0, y: 1 });
            },
            PieceType::Hen => {
                r.push(Move { x: -1, y: 1 });
                r.push(Move { x: 0, y: 1 });
                r.push(Move { x: 1, y: 1 });
                r.push(Move { x: -1, y: 0 });
                r.push(Move { x: 1, y: 0 });
                r.push(Move { x: 0, y: -1 });
            },
        }
        proof {
            assert(r@.map_values(|m: Move| m.d()) =~= kind_offsets(*self));
        }
        r
    }

    /// Whether the step is one of this kind's catalog steps.
    pub fn is_move_valid(&self, move_: &Move) -> (r: bool)
        ensures
            r == kind_offsets(*self).contains(move_.d()),
    {
        let mvs = self.moves();
        let mut j: usize = 0;
        while j < mvs.len()
            invariant
                j <= mvs@.len(),
                mvs@.map_values(|m: Move| m.d()) == kind_offsets(*self),
                forall|t: int| 0 <= t < j ==> #[trigger] kind_offsets(*self)[t] != move_.d(),
            decreases mvs@.len() - j,
        {
            if mvs[j].x == move_.x && mvs[j].y == move_.y {
                proof {
                    assert(mvs@.map_values(|m: Move| m.d())[j as int] == mvs@[j as int].d());
                }
                return true;
            }
            proof {
                assert(mvs@.map_values(|m: Move| m.d())[j as int] == mvs@[j as int].d());
            }
            j = j + 1;
        }
        proof {
            assert(!kind_offsets(*self).contains(move_.d())) by {
                if kind_offsets(*self).contains(move_.d()) {
                    let t = choose|t: int|
                        0 <= t < kind_offsets(*self).len() && kind_offsets(*self)[t] == move_.d();
                }
            }
        }
        false
    }

    /// The display character of this kind.
    pub fn show(&self) -> (c: char)
        ensures
            c == kind_char(*self),
    {
        match self {
            PieceType::Chick => 'c',
            PieceType::Giraffe => 'g',
            PieceType::Elephant => 'e',
            PieceType::Lion => 'l',
            PieceType::Hen => 'h',
        }
    }
}

} // verus!
