use vstd::prelude::*;
use crate::board::{byte_ok, occ, occ_at, state_bytes, Board};
use crate::codec::{board_bytes, canon_bytes, canon_encode, canon_pack, contains_u64, spec_bytes};
use crate::moves::piece_offsets;
use crate::next_move::{nm_value, NextMove};
use crate::piece::{kind_is_side, opposite_kind, promoted_kind, Piece};
use crate::structs::{GameResult, Position};

verus! {

/// Successor generation: every legal move and drop of the side to move, with
/// immediate classification of king captures and far-rank king arrivals as a
/// win for the mover, and of a total absence of moves as a loss.
/// The king-equivalent kind of the opponent of the given side.
pub open spec fn enemy_king(side: bool) -> int {
    if side {
        2
    } else {
        1
    }
}

/// The king-equivalent kind of the given side.
pub open spec fn own_king(side: bool) -> int {
    if side {
        1
    } else {
        2
    }
}

/// The row on which the given side's king-equivalent wins.
pub open spec fn back_rank(side: bool) -> int {
    if side {
        3
    } else {
        0
    }
}

/// The column a step from the given square reaches; the second player's
/// steps are sign-flipped.
pub open spec fn dest_x(pos: int, dx: int, side: bool) -> int {
    pos % 3 + if side {
        dx
    } else {
        -dx
    }
}

/// The row a step from the given square reaches; the second player's steps
/// are sign-flipped.
pub open spec fn dest_y(pos: int, dy: int, side: bool) -> int {
    pos / 3 + if side {
        dy
    } else {
        -dy
    }
}

/// The slot bytes after the piece on square `cur` moves to square `np`: any
/// piece standing on `np` is captured (sent off-board and turned to the other
/// side), and the mover promotes when the move warrants it.
pub open spec fn moved_bytes(s: Seq<u64>, cur: int, np: int) -> Seq<u64> {
    Seq::new(
        s.len(),
        |k: int|
            {
                let p = s[k] / 16;
                let q = s[k] % 16;
                if q == np {
                    if p != 0 {
                        (opposite_kind(p as int) * 16 + 12) as u64
                    } else {
                        s[k]
                    }
                } else if q == cur {
                    (promoted_kind(p as int, np) * 16 + np) as u64
                } else {
                    s[k]
                }
            },
    )
}

/// The slot bytes after the captured piece in slot `i` is dropped on square
/// `q`: only that slot changes, and its kind is kept.
pub open spec fn dropped_bytes(s: Seq<u64>, i: int, q: int) -> Seq<u64> {
    s.update(i, ((s[i] / 16) * 16 + q) as u64)
}

/// Whether examining step `j` of the piece in slot `i` yields an immediate
/// win for the given side: the step stays on the board, does not land on a
/// friendly piece, and either captures the enemy king-equivalent or carries
/// the own king-equivalent onto the far rank.
pub open spec fn move_wins(s: Seq<u64>, side: bool, i: int, j: int) -> bool {
    let p = s[i] / 16;
    let pos = s[i] % 16;
    &&& 0 <= i < 8
    &&& kind_is_side(p as int, side)
    &&& pos <= 11
    &&& 0 <= j < piece_offsets(p as int).len()
    &&& {
        let d = piece_offsets(p as int)[j];
        let x = dest_x(pos as int, d.0, side);
        let y = dest_y(pos as int, d.1, side);
        &&& 0 <= x < 3
        &&& 0 <= y < 4
        &&& !kind_is_side(occ(s, 3 * y + x) as int, side)
        &&& (occ(s, 3 * y + x) == enemy_king(side) || (p == own_king(side) && y == back_rank(
            side,
        )))
    }
}

/// Whether examining step `j` of the piece in slot `i` captures the enemy
/// king-equivalent outright.
pub open spec fn move_captures_king(s: Seq<u64>, side: bool, i: int, j: int) -> bool {
    let p = s[i] / 16;
    let pos = s[i] % 16;
    &&& 0 <= i < 8
    &&& kind_is_side(p as int, side)
    &&& pos <= 11
    &&& 0 <= j < piece_offsets(p as int).len()
    &&& {
        let d = piece_offsets(p as int)[j];
        let x = dest_x(pos as int, d.0, side);
        let y = dest_y(pos as int, d.1, side);
        &&& 0 <= x < 3
        &&& 0 <= y < 4
        &&& occ(s, 3 * y + x) == enemy_king(side)
    }
}

/// Whether the side to move has any immediately winning move.
pub open spec fn gen_wins(s: Seq<u64>, side: bool) -> bool {
    exists|i: int, j: int| move_wins(s, side, i, j)
}

/// Whether examining step `j` of the piece in slot `i` yields an ordinary
/// successor: on the board, not onto a friendly piece, and not a win.
pub open spec fn move_viable(s: Seq<u64>, side: bool, i: int, j: int) -> bool {
    let p = s[i] / 16;
    let pos = s[i] % 16;
    &&& 0 <= j < piece_offsets(p as int).len()
    &&& {
        let d = piece_offsets(p as int)[j];
        let x = dest_x(pos as int, d.0, side);
        let y = dest_y(pos as int, d.1, side);
        &&& 0 <= x < 3
        &&& 0 <= y < 4
        &&& !kind_is_side(occ(s, 3 * y + x) as int, side)
        &&& !(occ(s, 3 * y + x) == enemy_king(side) || (p == own_king(side) && y == back_rank(
            side,
        )))
    }
}

/// The (move, successor) pair yielded by step `j` of the piece in slot `i`.
pub open spec fn move_cand(s: Seq<u64>, side: bool, i: int, j: int) -> (int, int) {
    let p = s[i] / 16;
    let pos = s[i] % 16;
    let d = piece_offsets(p as int)[j];
    let x = dest_x(pos as int, d.0, side);
    let y = dest_y(pos as int, d.1, side);
    let q = 3 * y + x;
    (nm_value(p as int, pos as int, q), canon_pack(moved_bytes(s, pos as int, q)))
}

/// The (move, successor) pairs yielded by the steps of the live piece in slot
/// `i`, from step `j` on, in catalog order.
pub open spec fn slot_move_cands(s: Seq<u64>, side: bool, i: int, j: int) -> Seq<(int, int)>
    decreases piece_offsets((s[i] / 16) as int).len() - j,
{
    if j < 0 || j >= piece_offsets((s[i] / 16) as int).len() {
        Seq::empty()
    } else {
        let rest = slot_move_cands(s, side, i, j + 1);
        if move_viable(s, side, i, j) {
            seq![move_cand(s, side, i, j)] + rest
        } else {
            rest
        }
    }
}

/// The (move, successor) pair yielded by dropping the captured piece in slot
/// `i` on square `q`.
pub open spec fn drop_cand(s: Seq<u64>, i: int, q: int) -> (int, int) {
    (nm_value((s[i] / 16) as int, 12, q), canon_pack(dropped_bytes(s, i, q)))
}

/// The (move, successor) pairs yielded by dropping the captured piece in slot
/// `i` on each free square from `q` upward, in square order.
pub open spec fn slot_drop_cands(s: Seq<u64>, i: int, q: int) -> Seq<(int, int)>
    decreases 12 - q,
{
    if q < 0 || q >= 12 {
        Seq::empty()
    } else {
        let rest = slot_drop_cands(s, i, q + 1);
        if occ(s, q) == 0 {
            seq![drop_cand(s, i, q)] + rest
        } else {
            rest
        }
    }
}

/// Whether an earlier slot already holds a captured piece of the same kind:
/// each captured kind re-enters only once per generation pass.
pub open spec fn earlier_dead_same_kind(s: Seq<u64>, i: int) -> bool {
    exists|j: int| 0 <= j < i && #[trigger] s[j] % 16 == 12 && s[j] / 16 == s[i] / 16
}

/// The (move, successor) pairs yielded by the slots from `i` on, in slot
/// order: drops for the first captured slot of each kind, board moves for
/// live pieces; the candidates of a winning position are irrelevant and left
/// unspecified by the generation contract.
pub open spec fn cands_from(s: Seq<u64>, side: bool, i: int) -> Seq<(int, int)>
    decreases 8 - i,
{
    if i < 0 || i >= 8 {
        Seq::empty()
    } else {
        let rest = cands_from(s, side, i + 1);
        let p = s[i] / 16;
        let pos = s[i] % 16;
        if !kind_is_side(p as int, side) {
            rest
        } else if pos == 12 {
            if earlier_dead_same_kind(s, i) {
                rest
            } else {
                slot_drop_cands(s, i, 0) + rest
            }
        } else {
            slot_move_cands(s, side, i, 0) + rest
        }
    }
}

/// All (move, successor) pairs of the given position and side, in generation
/// order.
pub open spec fn gen_cands(s: Seq<u64>, side: bool) -> Seq<(int, int)> {
    cands_from(s, side, 0)
}

/// The immediate-win classification of the given side.
pub open spec fn win_result(side: bool) -> GameResult {
    if side {
        GameResult::WhiteWin
    } else {
        GameResult::BlackWin
    }
}

/// The no-moves classification: a loss for the side to move.
pub open spec fn lose_result(side: bool) -> GameResult {
    if side {
        GameResult::BlackWin
    } else {
        GameResult::WhiteWin
    }
}

/// The packed (move, successor) values of a successor list.
pub open spec fn cands_view(l: Seq<(NextMove, Board)>) -> Seq<(int, int)> {
    l.map_values(|t: (NextMove, Board)| (t.0.0 as int, t.1.0 as int))
}

/// The full contract of successor generation: a position with a winning move
/// classifies as a win for the mover, one with no candidates as a loss, and
/// any other yields exactly the generated candidates in order.
pub open spec fn gen_post(r: GameResult, v: u64, side: bool) -> bool {
    let s = spec_bytes(v);
    if gen_wins(s, side) {
        r == win_result(side)
    } else if gen_cands(s, side).len() == 0 {
        r == lose_result(side)
    } else {
        match r {
            GameResult::Intermediate(l) => cands_view(l@) == gen_cands(s, side),
            _ => false,
        }
    }
}

/// Splits a slot byte into its piece and square nibbles.
pub proof fn lemma_byte_split(p: u64, q: u64)
    requires
        p <= 15,
        q <= 15,
    ensures
        (p * 16 + q) / 16 == p,
        (p * 16 + q) % 16 == q,
{
    vstd::arithmetic::div_mod::lemma_fundamental_div_mod_converse_div(
        p * 16 + q as int,
        16,
        p as int,
        q as int,
    );
    vstd::arithmetic::div_mod::lemma_fundamental_div_mod_converse_mod(
        p * 16 + q as int,
        16,
        p as int,
        q as int,
    );
}

/// The captured-piece kind transform, on a raw nibble.
fn opposite_u64(p: u64) -> (r: u64)
    requires
        p <= 15,
    ensures
        r as int == opposite_kind(p as int),
        r <= 15,
{
    if p == 3 {
        4
    } else if p == 4 {
        3
    } else if p == 5 {
        6
    } else if p == 6 {
        5
    } else if p == 7 || p == 9 {
        8
    } else if p == 8 || p == 10 {
        7
    } else {
        p
    }
}

/// The promotion transform, on a raw nibble.
fn promoted_u64(p: u64, np: u64) -> (r: u64)
    requires
        p <= 15,
        np <= 15,
    ensures
        r as int == promoted_kind(p as int, np as int),
        r <= 15,
{
    if p == 7 && np > 8 {
        9
    } else if p == 8 && np < 3 {
        10
    } else {
        p
    }
}

/// Applies a board move to raw slot bytes, capture and promotion included.
fn apply_move_bytes(bytes: &Vec<u64>, cur: u64, np: u64) -> (r: Vec<u64>)
    requires
        bytes@.len() == 8,
        forall|k: int| 0 <= k < 8 ==> #[trigger] bytes@[k] < 256,
        np <= 15,
    ensures
        r@ == moved_bytes(bytes@, cur as int, np as int),
        r@.len() == 8,
        forall|k: int| 0 <= k < 8 ==> #[trigger] r@[k] < 256,
{
    let mut r: Vec<u64> = Vec::new();
    let mut k: usize = 0;
    while k < 8
        invariant
            k <= 8,
            bytes@.len() == 8,
            forall|t: int| 0 <= t < 8 ==> #[trigger] bytes@[t] < 256,
            np <= 15,
            r@.len() == k,
            forall|t: int| 0 <= t < k ==> #[trigger] r@[t] == moved_bytes(bytes@, cur as int, np as int)[t],
            forall|t: int| 0 <= t < k ==> #[trigger] r@[t] < 256,
        decreases 8 - k,
    {
        let b = bytes[k];
        let p = b / 16;
        let q = b % 16;
        let nb: u64 = if q == np {
            if p != 0 {
                opposite_u64(p) * 16 + 12
            } else {
                b
            }
        } else if q == cur {
            promoted_u64(p, np) * 16 + np
        } else {
            b
        };
        r.push(nb);
        k = k + 1;
    }
    proof {
        assert(r@ =~= moved_bytes(bytes@, cur as int, np as int));
    }
    r
}

/// Applies a drop of the captured piece in slot `i` to square `q`.
fn apply_drop_bytes(bytes: &Vec<u64>, i: usize, q: u64) -> (r: Vec<u64>)
    requires
        bytes@.len() == 8,
        forall|k: int| 0 <= k < 8 ==> #[trigger] bytes@[k] < 256,
        i < 8,
        q <= 15,
    ensures
        r@ == dropped_bytes(bytes@, i as int, q as int),
        r@.len() == 8,
        forall|k: int| 0 <= k < 8 ==> #[trigger] r@[k] < 256,
{
    let mut r: Vec<u64> = Vec::new();
    let mut k: usize = 0;
    while k < 8
        invariant
            k <= 8,
            bytes@.len() == 8,
            forall|t: int| 0 <= t < 8 ==> #[trigger] bytes@[t] < 256,
            i < 8,
            q <= 15,
            r@.len() == k,
            forall|t: int| 0 <= t < k ==> #[trigger] r@[t] == dropped_bytes(bytes@, i as int, q as int)[t],
            forall|t: int| 0 <= t < k ==> #[trigger] r@[t] < 256,
        decreases 8 - k,
    {
        let nb: u64 = if k == i {
            (bytes[k] / 16) * 16 + q
        } else {
            bytes[k]
        };
        r.push(nb);
        k = k + 1;
    }
    proof {
        assert(r@ =~= dropped_bytes(bytes@, i as int, q as int));
    }
    r
}

impl Board {
    /// The successor reached when the piece on `current_pos` moves to
    /// `new_pos`: the previous occupant of `new_pos`, if any, goes off-board
    /// and changes side, the mover promotes when the move warrants it, and
    /// the slots are re-encoded canonically.
    pub fn compute_new_board(
        state: &[(Piece, Position); 8],
        current_pos: &Position,
        new_pos: &Position,
    ) -> (r: Board)
        requires
            forall|i: int| 0 <= i < 8 ==> (#[trigger] state@[i]).0.0 <= 15,
            forall|i: int|
                0 <= i < 8 && (#[trigger] state@[i]).1.spec_u8() == new_pos.spec_u8()
                    ==> state@[i].0.0 == 0 || 3 <= state@[i].0.0 <= 10,
        ensures
            r.0 as int == canon_pack(
                moved_bytes(state_bytes(state@), current_pos.spec_u8(), new_pos.spec_u8()),
            ),
    {
        let cur = current_pos.as_u8() as u64;
        let np = new_pos.as_u8() as u64;
        let mut bytes: Vec<u64> = Vec::new();
        let mut i: usize = 0;
        while i < 8
            invariant
                i <= 8,
                bytes@.len() == i,
                cur == current_pos.spec_u8(),
                np == new_pos.spec_u8(),
                forall|t: int| 0 <= t < 8 ==> (#[trigger] state@[t]).0.0 <= 15,
                forall|t: int|
                    0 <= t < 8 && (#[trigger] state@[t]).1.spec_u8() == new_pos.spec_u8()
                        ==> state@[t].0.0 == 0 || 3 <= state@[t].0.0 <= 10,
                forall|t: int|
                    0 <= t < i ==> #[trigger] bytes@[t] == moved_bytes(
                        state_bytes(state@),
                        cur as int,
                        np as int,
                    )[t],
                forall|t: int| 0 <= t < i ==> #[trigger] bytes@[t] < 256,
            decreases 8 - i,
        {
            let (pc, ps) = state[i];
            let p = pc.0 as u64;
            let q = ps.as_u8() as u64;
            proof {
                lemma_byte_split(p, q);
                assert(state_bytes(state@)[i as int] == crate::board::slot_pair_byte(
                    state@[i as int],
                ));
            }
            let nb: u64 = if q == np {
                if p != 0 {
                    opposite_u64(p) * 16 + 12
                } else {
                    p * 16 + q
                }
            } else if q == cur {
                promoted_u64(p, np) * 16 + np
            } else {
                p * 16 + q
            };
            bytes.push(nb);
            i = i + 1;
        }
        proof {
            assert(bytes@ =~= moved_bytes(
                state_bytes(state@),
                current_pos.spec_u8(),
                new_pos.spec_u8(),
            ));
        }
        Board(canon_encode(bytes))
    }

    /// The successor reached when the first off-board piece of the given kind
    /// re-enters on `new_pos`; the slots are re-encoded canonically.
    pub fn compute_parachuted_board(
        state: &[(Piece, Position); 8],
        new_pos: &Position,
        piece: &Piece,
    ) -> (r: Board)
        requires
            forall|i: int| 0 <= i < 8 ==> (#[trigger] state@[i]).0.0 <= 15,
            first_dead_slot(state@, *piece, 0) >= 0,
            new_pos.spec_u8() <= 11,
        ensures
            r.0 as int == canon_pack(
                dropped_bytes(
                    state_bytes(state@),
                    first_dead_slot(state@, *piece, 0),
                    new_pos.spec_u8(),
                ),
            ),
    {
        let np = new_pos.as_u8() as u64;
        let mut bytes: Vec<u64> = Vec::new();
        let ghost fd = first_dead_slot(state@, *piece, 0);
        proof {
            lemma_first_dead_slot_found(state@, *piece, 0);
        }
        let mut found = false;
        let mut i: usize = 0;
        while i < 8
            invariant
                i <= 8,
                bytes@.len() == i,
                np == new_pos.spec_u8(),
                np <= 11,
                forall|t: int| 0 <= t < 8 ==> (#[trigger] state@[t]).0.0 <= 15,
                fd == first_dead_slot(state@, *piece, 0),
                0 <= fd < 8,
                state@[fd].0 == *piece && state@[fd].1 == Position::Dead,
                forall|t: int|
                    0 <= t < fd ==> !((#[trigger] state@[t]).0 == *piece && state@[t].1
                        == Position::Dead),
                found == (i > fd),
                forall|t: int|
                    0 <= t < i ==> #[trigger] bytes@[t] == dropped_bytes(
                        state_bytes(state@),
                        fd,
                        np as int,
                    )[t],
                forall|t: int| 0 <= t < i ==> #[trigger] bytes@[t] < 256,
            decreases 8 - i,
        {
            let (pc, ps) = state[i];
            let p = pc.0 as u64;
            let q = ps.as_u8() as u64;
            proof {
                lemma_byte_split(p, q);
                assert(state_bytes(state@)[i as int] == crate::board::slot_pair_byte(
                    state@[i as int],
                ));
                if i as int != fd && pc.0 == piece.0 && q == 12 {
                    assert(ps.spec_u8() == 12);
                    assert(ps == Position::Dead);
                    assert(pc == *piece);
                }
            }
            let nb: u64 = if !found && pc.0 == piece.0 && q == 12 {
                found = true;
                p * 16 + np
            } else {
                p * 16 + q
            };
            bytes.push(nb);
            i = i + 1;
        }
        proof {
            assert(bytes@ =~= dropped_bytes(state_bytes(state@), fd, np as int));
        }
        Board(canon_encode(bytes))
    }
}

/// Every catalog step stays within one square in each direction.
pub proof fn lemma_offsets_bounded(kind: int, j: int)
    requires
        0 <= j < piece_offsets(kind).len(),
    ensures
        -1 <= piece_offsets(kind)[j].0 <= 1,
        -1 <= piece_offsets(kind)[j].1 <= 1,
{
    if kind == 1 || kind == 2 {
        assert(piece_offsets(kind) =~= seq![
            (-1, 1),
            (0, 1),
            (1, 1),
            (-1, 0),
            (1, 0),
            (-1, -1),
            (0, -1),
            (1, -1),
        ]);
    } else if kind == 3 || kind == 4 {
        assert(piece_offsets(kind) =~= seq![(-1, 1), (1, 1), (-1, -1), (1, -1)]);
    } else if kind == 5 || kind == 6 {
        assert(piece_offsets(kind) =~= seq![(0, 1), (-1, 0), (1, 0), (0, -1)]);
    } else if kind == 7 || kind == 8 {
        assert(piece_offsets(kind) =~= seq![(0, 1)]);
    } else if kind == 9 || kind == 10 {
        assert(piece_offsets(kind) =~= seq![(-1, 1), (0, 1), (1, 1), (-1, 0), (1, 0), (0, -1)]);
    }
}

impl Board {
    /// All successors of this position for the given side to move, or the
    /// immediate terminal classification: a win for the mover as soon as a
    /// move captures the enemy king-equivalent or carries the own one onto
    /// the far rank, and a loss for the mover when it has no move at all.
    #[verifier::rlimit(100)]
    pub fn get_next_states(&self, is_player_1: bool) -> (r: GameResult)
        requires
            self.nibbles_ok(),
        ensures
            gen_post(r, self.0, is_player_1),
    {
        broadcast use vstd::seq_lib::lemma_seq_contains_after_push;

        let ghost s = self.bytes();
        let bytes = board_bytes(self.0);
        let bit: u64 = if is_player_1 {
            1
        } else {
            0
        };
        let ek: u64 = if is_player_1 {
            2
        } else {
            1
        };
        let okk: u64 = if is_player_1 {
            1
        } else {
            2
        };
        let br: i64 = if is_player_1 {
            3
        } else {
            0
        };
        let mut boards: Vec<(NextMove, Board)> = Vec::new();
        let mut parachuted: Vec<u64> = Vec::new();
        let mut i: usize = 0;
        while i < 8
            invariant
                i <= 8,
                s == self.bytes(),
                s.len() == 8,
                bytes@ == s,
                self.nibbles_ok(),
                forall|t: int| 0 <= t < 8 ==> #[trigger] s[t] < 256,
                bit as int == crate::piece::side_bit(is_player_1),
                ek as int == enemy_king(is_player_1),
                okk as int == own_king(is_player_1),
                br as int == back_rank(is_player_1),
                cands_view(boards@) + cands_from(s, is_player_1, i as int) == gen_cands(
                    s,
                    is_player_1,
                ),
                forall|a: int, b: int| a < i ==> !move_wins(s, is_player_1, a, b),
                forall|k: u64|
                    parachuted@.contains(k) <==> exists|j: int|
                        0 <= j < i && #[trigger] s[j] % 16 == 12 && s[j] / 16 == k
                            && kind_is_side(k as int, is_player_1),
            decreases 8 - i,
        {
            let p = bytes[i] / 16;
            let pos = bytes[i] % 16;
            proof {
                assert(byte_ok(s[i as int]));
            }
            if p != 0 && p % 2 == bit {
                proof {
                    assert(kind_is_side(p as int, is_player_1));
                }
                if pos == 12 {
                    proof {
                        assert forall|b: int| !move_wins(s, is_player_1, i as int, b) by {}
                    }
                    let already = contains_u64(&parachuted, p);
                    if !already {
                        proof {
                            if earlier_dead_same_kind(s, i as int) {
                                let j = choose|j: int|
                                    0 <= j < i && #[trigger] s[j] % 16 == 12
                                        && s[j] / 16 == s[i as int] / 16;
                                assert(parachuted@.contains(p));
                            }
                            assert(cands_from(s, is_player_1, i as int) == slot_drop_cands(
                                s,
                                i as int,
                                0,
                            ) + cands_from(s, is_player_1, i as int + 1));
                        }
                        let ghost par0 = parachuted@;
                        parachuted.push(p);
                        let mut q: u64 = 0;
                        while q < 12
                            invariant
                                q <= 12,
                                s == self.bytes(),
                                s.len() == 8,
                                bytes@ == s,
                                forall|t: int| 0 <= t < 8 ==> #[trigger] s[t] < 256,
                                i < 8,
                                p == s[i as int] / 16,
                                p <= 15,
                                cands_view(boards@) + slot_drop_cands(s, i as int, q as int)
                                    + cands_from(s, is_player_1, i as int + 1) == gen_cands(
                                    s,
                                    is_player_1,
                                ),
                            decreases 12 - q,
                        {
                            if occ_at(&bytes, q) == 0 {
                                let nb = apply_drop_bytes(&bytes, i, q);
                                let child = Board(canon_encode(nb));
                                let mv = NextMove::new(
                                    Piece(p as u8),
                                    Position::from_u8(12),
                                    Position::from_u8(q as u8),
                                );
                                proof {
                                    let c = drop_cand(s, i as int, q as int);
                                    assert(mv.0 as int == c.0);
                                    assert(child.0 as int == c.1);
                                    assert(slot_drop_cands(s, i as int, q as int) == seq![c]
                                        + slot_drop_cands(s, i as int, q as int + 1));
                                    assert(cands_view(boards@.push((mv, child))) =~= cands_view(
                                        boards@,
                                    ) + seq![c]);
                                    assert((cands_view(boards@) + seq![c]) + slot_drop_cands(
                                        s,
                                        i as int,
                                        q as int + 1,
                                    ) =~= cands_view(boards@) + (seq![c] + slot_drop_cands(
                                        s,
                                        i as int,
                                        q as int + 1,
                                    )));
                                }
                                boards.push((mv, child));
                            }
                            q = q + 1;
                        }
                        proof {
                            assert(slot_drop_cands(s, i as int, 12) =~= Seq::<(int, int)>::empty());
                            assert(cands_view(boards@) + cands_from(s, is_player_1, i as int + 1)
                                == gen_cands(s, is_player_1));
                            assert(parachuted@ == par0.push(p));
                            assert forall|k: u64|
                                parachuted@.contains(k) <==> exists|j: int|
                                    0 <= j < i + 1 && #[trigger] s[j] % 16 == 12 && s[j] / 16 == k
                                        && kind_is_side(k as int, is_player_1) by {
                                vstd::seq_lib::lemma_seq_contains_after_push(par0, p, k);
                                if parachuted@.contains(k) {
                                    if k == p {
                                        assert(s[i as int] % 16 == 12 && s[i as int] / 16 == k
                                            && kind_is_side(k as int, is_player_1));
                                    } else {
                                        assert(par0.contains(k));
                                    }
                                } else {
                                    assert(!par0.contains(k) && k != p);
                                    if exists|j: int|
                                        0 <= j < i + 1 && #[trigger] s[j] % 16 == 12 && s[j] / 16
                                            == k && kind_is_side(k as int, is_player_1) {
                                        let j = choose|j: int|
                                            0 <= j < i + 1 && #[trigger] s[j] % 16 == 12 && s[j]
                                                / 16 == k && kind_is_side(k as int, is_player_1);
                                        assert(j != i);
                                        assert(0 <= j < i && s[j] % 16 == 12 && s[j] / 16 == k
                                            && kind_is_side(k as int, is_player_1));
                                        assert(par0.contains(k));
                                        assert(false);
                                    }
                                }
                            }
                        }
                    } else {
                        proof {
                            assert(earlier_dead_same_kind(s, i as int)) by {
                                let j = choose|j: int|
                                    0 <= j < i && #[trigger] s[j] % 16 == 12 && s[j] / 16 == p
                                        && kind_is_side(p as int, is_player_1);
                                assert(0 <= j < i as int && s[j] % 16 == 12
                                    && s[j] / 16 == s[i as int] / 16);
                            }
                            assert(cands_from(s, is_player_1, i as int) == cands_from(
                                s,
                                is_player_1,
                                i as int + 1,
                            ));
                            assert forall|k: u64|
                                parachuted@.contains(k) <==> exists|j: int|
                                    0 <= j < i + 1 && #[trigger] s[j] % 16 == 12 && s[j] / 16 == k
                                        && kind_is_side(k as int, is_player_1) by {}
                        }
                    }
                } else {
                    proof {
                        assert(pos <= 11);
                        assert(1 <= p <= 10);
                        assert(cands_from(s, is_player_1, i as int) == slot_move_cands(
                            s,
                            is_player_1,
                            i as int,
                            0,
                        ) + cands_from(s, is_player_1, i as int + 1));
                    }
                    let mvs = Piece(p as u8).moves();
                    let mut j: usize = 0;
                    while j < mvs.len()
                        invariant
                            j <= mvs@.len(),
                            s == self.bytes(),
                            s == spec_bytes(self.0),
                            s.len() == 8,
                            bytes@ == s,
                            forall|t: int| 0 <= t < 8 ==> #[trigger] s[t] < 256,
                            bit as int == crate::piece::side_bit(is_player_1),
                            ek as int == enemy_king(is_player_1),
                            okk as int == own_king(is_player_1),
                            br as int == back_rank(is_player_1),
                            i < 8,
                            p == s[i as int] / 16,
                            pos == s[i as int] % 16,
                            kind_is_side(p as int, is_player_1),
                            1 <= p <= 10,
                            pos <= 11,
                            mvs@.map_values(|m: crate::moves::Move| m.d()) == piece_offsets(
                                p as int,
                            ),
                            mvs@.len() == piece_offsets(p as int).len(),
                            cands_view(boards@) + slot_move_cands(s, is_player_1, i as int, j as int)
                                + cands_from(s, is_player_1, i as int + 1) == gen_cands(
                                s,
                                is_player_1,
                            ),
                            forall|b: int| b < j ==> !move_wins(s, is_player_1, i as int, b),
                        decreases mvs@.len() - j,
                    {
                        let ghost d = piece_offsets(p as int)[j as int];
                        proof {
                            assert(mvs@.map_values(|m: crate::moves::Move| m.d())[j as int] == d);
                            assert(mvs@[j as int].d() == d);
                            lemma_offsets_bounded(p as int, j as int);
                        }
                        let dx = mvs[j].x;
                        let dy = mvs[j].y;
                        let x: i64 = (pos % 3) as i64 + (if is_player_1 {
                            dx as i64
                        } else {
                            -(dx as i64)
                        });
                        let y: i64 = (pos / 3) as i64 + (if is_player_1 {
                            dy as i64
                        } else {
                            -(dy as i64)
                        });
                        proof {
                            assert(x == dest_x(pos as int, d.0, is_player_1));
                            assert(y == dest_y(pos as int, d.1, is_player_1));
                        }
                        if 0 <= x && x < 3 && 0 <= y && y < 4 {
                            let q = (3 * y + x) as u64;
                            let o = occ_at(&bytes, q);
                            if o != 0 && o % 2 == bit {
                                proof {
                                    assert(kind_is_side(occ(s, 3 * y + x) as int, is_player_1));
                                    assert(!move_wins(s, is_player_1, i as int, j as int));
                                    assert(!move_viable(s, is_player_1, i as int, j as int));
                                    assert(slot_move_cands(s, is_player_1, i as int, j as int)
                                        == slot_move_cands(s, is_player_1, i as int, j as int + 1));
                                }
                            } else if o == ek || (p == okk && y == br) {
                                proof {
                                    assert(!kind_is_side(occ(s, 3 * y + x) as int, is_player_1));
                                    assert(move_wins(s, is_player_1, i as int, j as int));
                                    assert(gen_wins(s, is_player_1));
                                }
                                if is_player_1 {
                                    return GameResult::WhiteWin;
                                } else {
                                    return GameResult::BlackWin;
                                }
                            } else {
                                let nb = apply_move_bytes(&bytes, pos, q);
                                let child = Board(canon_encode(nb));
                                let mv = NextMove::new(
                                    Piece(p as u8),
                                    Position::from_u8(pos as u8),
                                    Position::from_u8(q as u8),
                                );
                                proof {
                                    assert(!kind_is_side(occ(s, 3 * y + x) as int, is_player_1));
                                    assert(!move_wins(s, is_player_1, i as int, j as int));
                                    assert(move_viable(s, is_player_1, i as int, j as int));
                                    let c = move_cand(s, is_player_1, i as int, j as int);
                                    assert(mv.0 as int == c.0);
                                    assert(child.0 as int == c.1);
                                    assert(slot_move_cands(s, is_player_1, i as int, j as int)
                                        == seq![c] + slot_move_cands(
                                        s,
                                        is_player_1,
                                        i as int,
                                        j as int + 1,
                                    ));
                                    assert(cands_view(boards@.push((mv, child))) =~= cands_view(
                                        boards@,
                                    ) + seq![c]);
                                    assert((cands_view(boards@) + seq![c]) + slot_move_cands(
                                        s,
                                        is_player_1,
                                        i as int,
                                        j as int + 1,
                                    ) =~= cands_view(boards@) + (seq![c] + slot_move_cands(
                                        s,
                                        is_player_1,
                                        i as int,
                                        j as int + 1,
                                    )));
                                }
                                boards.push((mv, child));
                            }
                        } else {
                            proof {
                                assert(!move_wins(s, is_player_1, i as int, j as int));
                                assert(!move_viable(s, is_player_1, i as int, j as int));
                                assert(slot_move_cands(s, is_player_1, i as int, j as int)
                                    == slot_move_cands(s, is_player_1, i as int, j as int + 1));
                            }
                        }
                        j = j + 1;
                    }
                    proof {
                        assert(slot_move_cands(s, is_player_1, i as int, mvs@.len() as int)
                            =~= Seq::<(int, int)>::empty());
                        assert(cands_view(boards@) + cands_from(s, is_player_1, i as int + 1)
                            == gen_cands(s, is_player_1));
                        assert forall|b: int| !move_wins(s, is_player_1, i as int, b) by {}
                        assert forall|k: u64|
                            parachuted@.contains(k) <==> exists|j: int|
                                0 <= j < i + 1 && #[trigger] s[j] % 16 == 12 && s[j] / 16 == k
                                    && kind_is_side(k as int, is_player_1) by {}
                    }
                }
            } else {
                proof {
                    assert(!kind_is_side((s[i as int] / 16) as int, is_player_1));
                    assert forall|b: int| !move_wins(s, is_player_1, i as int, b) by {}
                    assert(cands_from(s, is_player_1, i as int) == cands_from(
                        s,
                        is_player_1,
                        i as int + 1,
                    ));
                    assert forall|k: u64|
                        parachuted@.contains(k) <==> exists|j: int|
                            0 <= j < i + 1 && #[trigger] s[j] % 16 == 12 && s[j] / 16 == k
                                && kind_is_side(k as int, is_player_1) by {}
                }
            }
            i = i + 1;
        }
        proof {
            assert(cands_from(s, is_player_1, 8) =~= Seq::<(int, int)>::empty());
            assert(cands_view(boards@) == gen_cands(s, is_player_1));
            assert(!gen_wins(s, is_player_1)) by {
                assert forall|a: int, b: int| !move_wins(s, is_player_1, a, b) by {
                    if 0 <= a < 8 {
                    }
                }
            }
        }
        if boards.len() == 0 {
            if is_player_1 {
                GameResult::BlackWin
            } else {
                GameResult::WhiteWin
            }
        } else {
            GameResult::Intermediate(boards)
        }
    }
}

/// The observable content of a generation result: which side won, or the
/// packed (move, successor) values in order.
pub enum ResultView {
    FirstWins,
    SecondWins,
    Successors(Seq<(int, int)>),
}

/// The observable content of a generation result.
pub open spec fn result_view(r: GameResult) -> ResultView {
    match r {
        GameResult::WhiteWin => ResultView::FirstWins,
        GameResult::BlackWin => ResultView::SecondWins,
        GameResult::Intermediate(l) => ResultView::Successors(cands_view(l@)),
    }
}

/// Determinism: the generation contract pins the observable result, so any
/// two results obtained for the same position and side are equal.
pub proof fn lemma_generate_deterministic(r1: GameResult, r2: GameResult, v: u64, side: bool)
    requires
        gen_post(r1, v, side),
        gen_post(r2, v, side),
    ensures
        result_view(r1) == result_view(r2),
{
}

/// Win precedence: a position in which the side to move can capture the
/// opposing king-equivalent this turn classifies as a win for the mover,
/// whatever other moves exist.
pub proof fn lemma_win_precedence(r: GameResult, v: u64, side: bool, i: int, j: int)
    requires
        gen_post(r, v, side),
        move_captures_king(spec_bytes(v), side, i, j),
    ensures
        r == win_result(side),
{
    assert(move_wins(spec_bytes(v), side, i, j));
}

/// No moves is a loss: a position whose side to move has no immediate win
/// and not a single candidate move classifies as a loss for that side.
pub proof fn lemma_no_moves_is_loss(r: GameResult, v: u64, side: bool)
    requires
        gen_post(r, v, side),
        !gen_wins(spec_bytes(v), side),
        gen_cands(spec_bytes(v), side).len() == 0,
    ensures
        r == lose_result(side),
{
}

/// Whether a packed (move, successor) pair is well formed: the move fits its
/// 16 bits, and the successor fits 64 bits and decodes without a nibble
/// violation.
pub open spec fn cand_ok(c: (int, int)) -> bool {
    &&& 0 <= c.0 < 0x10000
    &&& 0 <= c.1 < 0x10000000000000000
    &&& forall|t: int| 0 <= t < 8 ==> byte_ok(#[trigger] spec_bytes(c.1 as u64)[t])
}

/// A canonical repacking of valid slot bytes is in range and decodes to
/// valid slot bytes again.
proof fn lemma_canon_pack_ok(u: Seq<u64>)
    requires
        u.len() == 8,
        forall|t: int| 0 <= t < 8 ==> byte_ok(#[trigger] u[t]),
    ensures
        0 <= canon_pack(u) < 0x10000000000000000,
        forall|t: int| 0 <= t < 8 ==> byte_ok(#[trigger] spec_bytes(canon_pack(u) as u64)[t]),
{
    assert forall|t: int| 0 <= t < 8 implies #[trigger] u[t] < 256 by {
        assert(byte_ok(u[t]));
        vstd::arithmetic::div_mod::lemma_fundamental_div_mod(u[t] as int, 16);
    }
    crate::codec::lemma_canon_bytes_ensures(u);
    crate::codec::lemma_pointwise_transfer(u, canon_bytes(u), |b: u64| b < 256 && byte_ok(b));
    assert forall|t: int| 0 <= t < 8 implies #[trigger] canon_bytes(u)[t] < 256 && byte_ok(
        canon_bytes(u)[t],
    ) by {
        assert((|b: u64| b < 256 && byte_ok(b))(canon_bytes(u)[t]));
    }
    crate::codec::lemma_unpack_pack(canon_bytes(u));
}

/// A board move of valid slot bytes yields valid slot bytes.
proof fn lemma_moved_bytes_ok(s: Seq<u64>, cur: int, np: int)
    requires
        s.len() == 8,
        forall|t: int| 0 <= t < 8 ==> byte_ok(#[trigger] s[t]),
        0 <= np <= 11,
    ensures
        forall|t: int| 0 <= t < 8 ==> byte_ok(#[trigger] moved_bytes(s, cur, np)[t]),
{
    assert forall|t: int| 0 <= t < 8 implies byte_ok(#[trigger] moved_bytes(s, cur, np)[t]) by {
        assert(byte_ok(s[t]));
        let p = s[t] / 16;
        if s[t] % 16 == np && p != 0 {
            lemma_byte_split((opposite_kind(p as int)) as u64, 12);
        } else if s[t] % 16 != np && s[t] % 16 == cur {
            lemma_byte_split((promoted_kind(p as int, np)) as u64, np as u64);
        }
    }
}

/// A drop into valid slot bytes yields valid slot bytes.
proof fn lemma_dropped_bytes_ok(s: Seq<u64>, i: int, np: int)
    requires
        s.len() == 8,
        forall|t: int| 0 <= t < 8 ==> byte_ok(#[trigger] s[t]),
        0 <= i < 8,
        0 <= np <= 11,
    ensures
        forall|t: int| 0 <= t < 8 ==> byte_ok(#[trigger] dropped_bytes(s, i, np)[t]),
{
    assert forall|t: int| 0 <= t < 8 implies byte_ok(#[trigger] dropped_bytes(s, i, np)[t]) by {
        assert(byte_ok(s[t]));
        if t == i {
            lemma_byte_split(s[i] / 16, np as u64);
        }
    }
}

/// Every move candidate of a live slot is well formed.
proof fn lemma_slot_move_cands_ok(s: Seq<u64>, side: bool, i: int, j: int)
    requires
        s.len() == 8,
        forall|t: int| 0 <= t < 8 ==> byte_ok(#[trigger] s[t]),
        0 <= i < 8,
    ensures
        forall|n: int|
            0 <= n < slot_move_cands(s, side, i, j).len() ==> cand_ok(
                #[trigger] slot_move_cands(s, side, i, j)[n],
            ),
    decreases piece_offsets((s[i] / 16) as int).len() - j,
{
    if j < 0 || j >= piece_offsets((s[i] / 16) as int).len() {
    } else {
        lemma_slot_move_cands_ok(s, side, i, j + 1);
        let rest = slot_move_cands(s, side, i, j + 1);
        if move_viable(s, side, i, j) {
            let c = move_cand(s, side, i, j);
            let p = s[i] / 16;
            let pos = s[i] % 16;
            let d = piece_offsets(p as int)[j];
            let q = 3 * dest_y(pos as int, d.1, side) + dest_x(pos as int, d.0, side);
            assert(byte_ok(s[i]));
            assert(0 <= q <= 11);
            lemma_moved_bytes_ok(s, pos as int, q);
            lemma_canon_pack_ok(moved_bytes(s, pos as int, q));
            assert(cand_ok(c));
            let whole = slot_move_cands(s, side, i, j);
            assert(whole == seq![c] + rest);
            assert forall|n: int| 0 <= n < whole.len() implies cand_ok(#[trigger] whole[n]) by {
                if n == 0 {
                    assert(whole[n] == c);
                } else {
                    assert(whole[n] == rest[n - 1]);
                }
            }
        }
    }
}

/// Every drop candidate of an off-board slot is well formed.
proof fn lemma_slot_drop_cands_ok(s: Seq<u64>, i: int, q: int)
    requires
        s.len() == 8,
        forall|t: int| 0 <= t < 8 ==> byte_ok(#[trigger] s[t]),
        0 <= i < 8,
    ensures
        forall|n: int|
            0 <= n < slot_drop_cands(s, i, q).len() ==> cand_ok(
                #[trigger] slot_drop_cands(s, i, q)[n],
            ),
    decreases 12 - q,
{
    if q < 0 || q >= 12 {
    } else {
        lemma_slot_drop_cands_ok(s, i, q + 1);
        let rest = slot_drop_cands(s, i, q + 1);
        if occ(s, q) == 0 {
            let c = drop_cand(s, i, q);
            assert(byte_ok(s[i]));
            lemma_dropped_bytes_ok(s, i, q);
            lemma_canon_pack_ok(dropped_bytes(s, i, q));
            assert(cand_ok(c));
            let whole = slot_drop_cands(s, i, q);
            assert(whole == seq![c] + rest);
            assert forall|n: int| 0 <= n < whole.len() implies cand_ok(#[trigger] whole[n]) by {
                if n == 0 {
                    assert(whole[n] == c);
                } else {
                    assert(whole[n] == rest[n - 1]);
                }
            }
        }
    }
}

/// Every candidate from slot `i` onward is well formed.
proof fn lemma_cands_from_ok(s: Seq<u64>, side: bool, i: int)
    requires
        s.len() == 8,
        forall|t: int| 0 <= t < 8 ==> byte_ok(#[trigger] s[t]),
    ensures
        forall|n: int|
            0 <= n < cands_from(s, side, i).len() ==> cand_ok(#[trigger] cands_from(s, side, i)[n]),
    decreases 8 - i,
{
    if i < 0 || i >= 8 {
    } else {
        lemma_cands_from_ok(s, side, i + 1);
        let rest = cands_from(s, side, i + 1);
        let p = s[i] / 16;
        let pos = s[i] % 16;
        let whole = cands_from(s, side, i);
        if kind_is_side(p as int, side) {
            if pos == 12 {
                if !earlier_dead_same_kind(s, i) {
                    lemma_slot_drop_cands_ok(s, i, 0);
                    let front = slot_drop_cands(s, i, 0);
                    assert(whole == front + rest);
                    assert forall|n: int| 0 <= n < whole.len() implies cand_ok(
                        #[trigger] whole[n],
                    ) by {
                        if n < front.len() {
                            assert(whole[n] == front[n]);
                        } else {
                            assert(whole[n] == rest[n - front.len()]);
                        }
                    }
                }
            } else {
                lemma_slot_move_cands_ok(s, side, i, 0);
                let front = slot_move_cands(s, side, i, 0);
                assert(whole == front + rest);
                assert forall|n: int| 0 <= n < whole.len() implies cand_ok(#[trigger] whole[n]) by {
                    if n < front.len() {
                        assert(whole[n] == front[n]);
                    } else {
                        assert(whole[n] == rest[n - front.len()]);
                    }
                }
            }
        }
    }
}

/// Every candidate generated from a well-formed position is well formed:
/// its move fits 16 bits and its successor is a well-formed position again.
pub proof fn lemma_gen_cands_ok(v: u64, side: bool)
    requires
        forall|t: int| 0 <= t < 8 ==> byte_ok(#[trigger] spec_bytes(v)[t]),
    ensures
        forall|n: int|
            0 <= n < gen_cands(spec_bytes(v), side).len() ==> cand_ok(
                #[trigger] gen_cands(spec_bytes(v), side)[n],
            ),
{
    lemma_cands_from_ok(spec_bytes(v), side, 0);
}

/// The first slot holding the given piece off-board, or -1 when none does.
pub open spec fn first_dead_slot(s: Seq<(Piece, Position)>, p: Piece, k: int) -> int
    decreases s.len() - k,
{
    if k < 0 || k >= s.len() {
        -1
    } else if s[k].0 == p && s[k].1 == Position::Dead {
        k
    } else {
        first_dead_slot(s, p, k + 1)
    }
}

/// When the first off-board slot of a piece exists, it lies in range, holds
/// that piece off-board, and no earlier slot does.
pub proof fn lemma_first_dead_slot_found(s: Seq<(Piece, Position)>, p: Piece, k: int)
    requires
        0 <= k,
        first_dead_slot(s, p, k) >= 0,
    ensures
        k <= first_dead_slot(s, p, k) < s.len(),
        s[first_dead_slot(s, p, k)].0 == p && s[first_dead_slot(s, p, k)].1 == Position::Dead,
        forall|t: int|
            k <= t < first_dead_slot(s, p, k) ==> !((#[trigger] s[t]).0 == p && s[t].1
                == Position::Dead),
    decreases s.len() - k,
{
    if k < s.len() {
        if !(s[k].0 == p && s[k].1 == Position::Dead) {
            lemma_first_dead_slot_found(s, p, k + 1);
        }
    }
}

} // verus!
