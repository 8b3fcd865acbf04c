use vstd::prelude::*;
use vstd::relations::sorted_by;
use crate::codec::{
    board_bytes, canon_bytes, canon_encode, canon_pack, le64, lemma_canon_bytes_ensures,
    lemma_canon_of_sorted, lemma_pack_unpack, lemma_pointwise_transfer, lemma_unpack_pack,
    spec_byte, spec_bytes,
};
use crate::piece::Piece;
use crate::structs::Position;

verus! {

/// A complete game position packed into one `u64`: eight slot bytes, least
/// significant first, each holding a piece kind in its high nibble and a
/// square (or 12 for off-board) in its low nibble.  The bytes of a position
/// built by this crate are always in ascending order, so equal positions have
/// equal encodings.
#[derive(Clone, Copy, PartialEq, Eq, Structural, Debug, Hash)]
pub struct Board(pub u64);

/// Whether a slot byte holds a real-or-empty piece kind and a valid square.
pub open spec fn byte_ok(b: u64) -> bool {
    b / 16 <= 10 && b % 16 <= 12
}

/// The slot byte of a (piece, square) pair.
pub open spec fn slot_pair_byte(t: (Piece, Position)) -> u64 {
    (t.0.0 * 16 + t.1.spec_u8()) as u64
}

/// The slot bytes of a whole slot array.
pub open spec fn state_bytes(s: Seq<(Piece, Position)>) -> Seq<u64> {
    s.map_values(|t: (Piece, Position)| slot_pair_byte(t))
}

/// The piece kind occupying square `q` among the first `n` slots, with 0 for
/// an empty square; when several slots name the same square the later one
/// wins.
pub open spec fn occ_upto(s: Seq<u64>, n: int, q: int) -> u64
    decreases n,
{
    if n <= 0 {
        0
    } else if s[n - 1] % 16 == q {
        s[n - 1] / 16
    } else {
        occ_upto(s, n - 1, q)
    }
}

/// The piece kind occupying square `q`, with 0 for an empty square.
pub open spec fn occ(s: Seq<u64>, q: int) -> u64 {
    occ_upto(s, s.len() as int, q)
}

/// The piece kind occupying square `q` of the given slot bytes.
pub fn occ_at(bytes: &Vec<u64>, q: u64) -> (r: u64)
    ensures
        r == occ(bytes@, q as int),
{
    let mut cur: u64 = 0;
    let mut i: usize = 0;
    while i < bytes.len()
        invariant
            i <= bytes@.len(),
            cur == occ_upto(bytes@, i as int, q as int),
        decreases bytes@.len() - i,
    {
        if bytes[i] % 16 == q {
            cur = bytes[i] / 16;
        }
        i = i + 1;
    }
    cur
}

impl Board {
    /// The eight slot bytes of this position, least significant first.
    pub open spec fn bytes(self) -> Seq<u64> {
        spec_bytes(self.0)
    }

    /// Whether every slot byte holds a piece kind of at most 10 and a square
    /// of at most 12: the well-formedness a decoding call relies on.
    pub open spec fn nibbles_ok(self) -> bool {
        forall|i: int| 0 <= i < 8 ==> byte_ok(#[trigger] self.bytes()[i])
    }

    /// The all-zero position, holding eight empty slots.
    pub fn new_empty() -> (r: Board)
        ensures
            r.0 == 0,
    {
        Board(0)
    }

    /// Whether this position decodes without a nibble violation.
    pub fn is_well_formed(&self) -> (r: bool)
        ensures
            r == self.nibbles_ok(),
    {
        let bytes = board_bytes(self.0);
        let mut i: usize = 0;
        while i < 8
            invariant
                i <= 8,
                bytes@ == self.bytes(),
                bytes@.len() == 8,
                forall|j: int| 0 <= j < i ==> byte_ok(#[trigger] self.bytes()[j]),
            decreases 8 - i,
        {
            if !(bytes[i] / 16 <= 10 && bytes[i] % 16 <= 12) {
                return false;
            }
            i = i + 1;
        }
        true
    }

    /// Overwrites this position with the canonical encoding of the given slot
    /// array: the slot bytes are sorted before packing, so any ordering of the
    /// same slots stores the same integer.
    pub fn put_state(&mut self, state: [(Piece, Position); 8])
        requires
            forall|i: int| 0 <= i < 8 ==> (#[trigger] state@[i]).0.0 <= 15,
        ensures
            final(self).0 as int == canon_pack(state_bytes(state@)),
            final(self).bytes() == canon_bytes(state_bytes(state@)),
    {
        let mut bytes: Vec<u64> = Vec::new();
        let mut i: usize = 0;
        while i < 8
            invariant
                i <= 8,
                bytes@.len() == i,
                forall|i: int| 0 <= i < 8 ==> (#[trigger] state@[i]).0.0 <= 15,
                forall|j: int| 0 <= j < i ==> #[trigger] bytes@[j] == state_bytes(state@)[j],
            decreases 8 - i,
        {
            let (p, q) = state[i];
            bytes.push((p.0 as u64) * 16 + (q.as_u8() as u64));
            i = i + 1;
        }
        proof {
            assert(bytes@ =~= state_bytes(state@));
            assert forall|j: int| 0 <= j < 8 implies #[trigger] bytes@[j] < 256 by {
                assert(state@[j].0.0 <= 15);
            }
        }
        self.0 = canon_encode(bytes);
    }

    /// Decodes this position into its eight (piece, square) slots, in slot
    /// byte order.
    pub fn get_state(&self) -> (r: [(Piece, Position); 8])
        requires
            self.nibbles_ok(),
        ensures
            forall|i: int|
                0 <= i < 8 ==> (#[trigger] r@[i]).0.0 as u64 == self.bytes()[i] / 16
                    && r@[i].1.spec_u8() == self.bytes()[i] % 16,
            state_bytes(r@) == self.bytes(),
    {
        let b = board_bytes(self.0);
        proof {
            assert forall|i: int| 0 <= i < 8 implies byte_ok(#[trigger] b@[i]) by {
                assert(b@[i] == self.bytes()[i]);
            }
        }
        let s0 = (Piece((b[0] / 16) as u8), Position::from_u8((b[0] % 16) as u8));
        let s1 = (Piece((b[1] / 16) as u8), Position::from_u8((b[1] % 16) as u8));
        let s2 = (Piece((b[2] / 16) as u8), Position::from_u8((b[2] % 16) as u8));
        let s3 = (Piece((b[3] / 16) as u8), Position::from_u8((b[3] % 16) as u8));
        let s4 = (Piece((b[4] / 16) as u8), Position::from_u8((b[4] % 16) as u8));
        let s5 = (Piece((b[5] / 16) as u8), Position::from_u8((b[5] % 16) as u8));
        let s6 = (Piece((b[6] / 16) as u8), Position::from_u8((b[6] % 16) as u8));
        let s7 = (Piece((b[7] / 16) as u8), Position::from_u8((b[7] % 16) as u8));
        let r = [s0, s1, s2, s3, s4, s5, s6, s7];
        proof {
            assert(state_bytes(r@) =~= self.bytes());
        }
        r
    }

    /// The piece standing on the given square, or the empty piece when the
    /// square is free; among duplicated squares the later slot wins.
    pub fn get_at_pos_slow(&self, position: Position) -> (r: Piece)
        requires
            self.nibbles_ok(),
        ensures
            r.0 as u64 == occ(self.bytes(), position.spec_u8()),
    {
        let bytes = board_bytes(self.0);
        let kind = occ_at(&bytes, position.as_u8() as u64);
        proof {
            lemma_occ_bound(self.bytes(), 8, position.spec_u8());
        }
        Piece(kind as u8)
    }

    /// The occupancy grid of this position: entry `[y][x]` holds the piece on
    /// square `x + 3 * y`, with the empty piece for free squares.
    pub fn get_state_processed(&self) -> (r: [[Piece; 3]; 4])
        requires
            self.nibbles_ok(),
        ensures
            forall|y: int, x: int|
                0 <= y < 4 && 0 <= x < 3 ==> (#[trigger] r@[y]@[x]).0 as u64 == occ(
                    self.bytes(),
                    3 * y + x,
                ),
    {
        let bytes = board_bytes(self.0);
        proof {
            assert forall|i: int| 0 <= i < 8 implies #[trigger] self.bytes()[i] < 256 by {
                assert(byte_ok(self.bytes()[i]));
            }
            lemma_occ_grid_bound(self.bytes());
        }
        grid_from_bytes(&bytes)
    }

    /// The occupancy grid of the given slot array: entry `[y][x]` holds the
    /// piece on square `x + 3 * y`, with the empty piece for free squares.
    pub fn get_state_processed_from_state(state: [(Piece, Position); 8]) -> (r: [[Piece; 3]; 4])
        requires
            forall|i: int| 0 <= i < 8 ==> (#[trigger] state@[i]).0.0 <= 15,
        ensures
            forall|y: int, x: int|
                0 <= y < 4 && 0 <= x < 3 ==> (#[trigger] r@[y]@[x]).0 as u64 == occ(
                    state_bytes(state@),
                    3 * y + x,
                ),
    {
        let mut bytes: Vec<u64> = Vec::new();
        let mut i: usize = 0;
        while i < 8
            invariant
                i <= 8,
                bytes@.len() == i,
                forall|i: int| 0 <= i < 8 ==> (#[trigger] state@[i]).0.0 <= 15,
                forall|j: int| 0 <= j < i ==> #[trigger] bytes@[j] == state_bytes(state@)[j],
            decreases 8 - i,
        {
            let (p, q) = state[i];
            bytes.push((p.0 as u64) * 16 + (q.as_u8() as u64));
            i = i + 1;
        }
        proof {
            assert(bytes@ =~= state_bytes(state@));
            assert forall|j: int| 0 <= j < 8 implies #[trigger] bytes@[j] < 256 by {
                assert(state@[j].0.0 <= 15);
                assert(state@[j].1.spec_u8() <= 12);
            }
            lemma_occ_grid_bound(state_bytes(state@));
        }
        grid_from_bytes(&bytes)
    }

    /// The canonical initial position: kings face each other on the back
    /// ranks, flanked by the diagonal and orthogonal movers, with the two
    /// pawns in the middle.
    pub fn init() -> (r: Board)
        ensures
            r.0 == 0x877469524b302a11u64,
            r.nibbles_ok(),
    {
        let mut b = Board::new_empty();
        let state = [
            (Piece(1), Position::X1Y0),
            (Piece(2), Position::X1Y3),
            (Piece(3), Position::X0Y0),
            (Piece(4), Position::X2Y3),
            (Piece(5), Position::X2Y0),
            (Piece(6), Position::X0Y3),
            (Piece(7), Position::X1Y1),
            (Piece(8), Position::X1Y2),
        ];
        b.put_state(state);
        proof {
            let bs = state_bytes(state@);
            assert(bs =~= seq![
                0x11u64,
                0x2au64,
                0x30u64,
                0x4bu64,
                0x52u64,
                0x69u64,
                0x74u64,
                0x87u64,
            ]);
            assert(sorted_by(bs, le64()));
            lemma_canon_of_sorted(bs);
            assert(b.0 as int == crate::codec::spec_pack(bs));
            assert forall|i: int| 0 <= i < 8 implies byte_ok(#[trigger] b.bytes()[i]) by {
                assert(b.bytes()[i] == bs[i]);
            }
        }
        b
    }
}

/// Builds the 4x3 occupancy grid from eight slot bytes whose occupants all
/// fit a piece nibble.
fn grid_from_bytes(bytes: &Vec<u64>) -> (r: [[Piece; 3]; 4])
    requires
        bytes@.len() == 8,
        forall|q: int| 0 <= q < 12 ==> #[trigger] occ(bytes@, q) <= 15,
    ensures
        forall|y: int, x: int|
            0 <= y < 4 && 0 <= x < 3 ==> (#[trigger] r@[y]@[x]).0 as u64 == occ(bytes@, 3 * y + x),
{
    let row0 = [
        Piece(occ_at(bytes, 0) as u8),
        Piece(occ_at(bytes, 1) as u8),
        Piece(occ_at(bytes, 2) as u8),
    ];
    let row1 = [
        Piece(occ_at(bytes, 3) as u8),
        Piece(occ_at(bytes, 4) as u8),
        Piece(occ_at(bytes, 5) as u8),
    ];
    let row2 = [
        Piece(occ_at(bytes, 6) as u8),
        Piece(occ_at(bytes, 7) as u8),
        Piece(occ_at(bytes, 8) as u8),
    ];
    let row3 = [
        Piece(occ_at(bytes, 9) as u8),
        Piece(occ_at(bytes, 10) as u8),
        Piece(occ_at(bytes, 11) as u8),
    ];
    [row0, row1, row2, row3]
}

/// The occupancy of any square is bounded by the piece nibble of some slot.
pub proof fn lemma_occ_bound(s: Seq<u64>, n: int, q: int)
    requires
        n <= s.len(),
        forall|i: int| 0 <= i < s.len() ==> #[trigger] s[i] < 256,
    ensures
        occ_upto(s, n, q) <= 15,
    decreases n,
{
    if n > 0 {
        lemma_occ_bound(s, n - 1, q);
    }
}

/// The occupancy of every board square of a valid byte sequence fits a
/// nibble.
proof fn lemma_occ_grid_bound(s: Seq<u64>)
    requires
        s.len() == 8,
        forall|i: int| 0 <= i < 8 ==> #[trigger] s[i] < 256,
    ensures
        forall|q: int| 0 <= q < 12 ==> #[trigger] occ(s, q) <= 15,
{
    assert forall|q: int| 0 <= q < 12 implies #[trigger] occ(s, q) <= 15 by {
        lemma_occ_bound(s, 8, q);
    }
}

/// Decoding an encoded slot array yields exactly the canonicalized slot
/// bytes, whatever order the slots were given in.
pub proof fn lemma_codec_round_trip(state: Seq<(Piece, Position)>)
    requires
        state.len() == 8,
        forall|i: int| 0 <= i < 8 ==> (#[trigger] state[i]).0.0 <= 15,
    ensures
        0 <= canon_pack(state_bytes(state)) < 0x10000000000000000,
        spec_bytes(canon_pack(state_bytes(state)) as u64) == canon_bytes(state_bytes(state)),
{
    let bs = state_bytes(state);
    assert forall|i: int| 0 <= i < 8 implies #[trigger] bs[i] < 256 by {
        assert(state[i].0.0 <= 15);
        assert(state[i].1.spec_u8() <= 12);
    }
    lemma_canon_bytes_ensures(bs);
    lemma_pointwise_transfer(bs, canon_bytes(bs), |b: u64| b < 256);
    assert forall|i: int| 0 <= i < 8 implies #[trigger] canon_bytes(bs)[i] < 256 by {
        assert((|b: u64| b < 256)(canon_bytes(bs)[i]));
    }
    lemma_unpack_pack(canon_bytes(bs));
}

/// A canonical encoding (one whose slot bytes are already sorted) re-encodes
/// to itself.
pub proof fn lemma_encode_of_canonical(v: u64)
    requires
        sorted_by(spec_bytes(v), le64()),
    ensures
        canon_pack(spec_bytes(v)) == v,
{
    lemma_canon_of_sorted(spec_bytes(v));
    lemma_pack_unpack(v);
}

} // verus!
