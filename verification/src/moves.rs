use vstd::prelude::*;

verus! {

/// A relative movement step on the board, from the perspective of the side
/// moving toward positive `y`.  The opposing side uses the same steps with
/// both coordinates sign-flipped.
#[derive(Clone, Copy, PartialEq, Eq, Structural, Debug)]
pub struct Move {
    pub x: i8,
    pub y: i8,
}

impl Move {
    /// The step as a pair of mathematical integers.
    pub open spec fn d(self) -> (int, int) {
        (self.x as int, self.y as int)
    }
}

/// The movement steps of a piece kind, in the fixed catalog order.
///
/// Kinds 1 and 2 are the two king-equivalents (every direction), 3 and 4 the
/// diagonal movers, 5 and 6 the orthogonal movers, 7 and 8 the forward-only
/// pawns, and 9 and 10 their promoted forms.  Any other kind has no steps.
pub open spec fn piece_offsets(kind: int) -> Seq<(int, int)> {
    if kind == 1 || kind == 2 {
        seq![(-1, 1), (0, 1), (1, 1), (-1, 0), (1, 0), (-1, -1), (0, -1), (1, -1)]
    } else if kind == 3 || kind == 4 {
        seq![(-1, 1), (1, 1), (-1, -1), (1, -1)]
    } else if kind == 5 || kind == 6 {
        seq![(0, 1), (-1, 0), (1, 0), (0, -1)]
    } else if kind == 7 || kind == 8 {
        seq![(0, 1)]
    } else if kind == 9 || kind == 10 {
        seq![(-1, 1), (0, 1), (1, 1), (-1, 0), (1, 0), (0, -1)]
    } else {
        Seq::empty()
    }
}

} // verus!
