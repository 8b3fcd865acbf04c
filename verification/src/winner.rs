use vstd::prelude::*;
use crate::board::{byte_ok, occ, occ_at, Board};
use crate::codec::{
    board_bytes, canon_bytes, canon_pack, lemma_canon_bytes_ensures, lemma_unpack_pack, spec_bytes,
};
use crate::gen::{back_rank, dest_x, dest_y, enemy_king, own_king};
use crate::moves::piece_offsets;
use crate::next_move::{arrival_kind, nm_value, NextMove};
use crate::piece::{kind_is_side, opposite_kind, Piece};

verus! {

/// Win detection on a finished move and the expansion built on it: a board
/// is checked after one side has moved, for a captured king-equivalent, a
/// threatened king, or a king standing on its winning row.
/// Whether every slot byte holds a real piece (kind 1..=10) on a valid
/// square.
pub open spec fn slots_ok(s: Seq<u64>) -> bool {
    forall|i: int| 0 <= i < 8 ==> 1 <= (#[trigger] s[i]) / 16 <= 10 && s[i] % 16 <= 12
}

/// Whether some slot holds the king-equivalent of the given side, on the
/// board or off it.
pub open spec fn has_king(s: Seq<u64>, side: bool) -> bool {
    exists|i: int| 0 <= i < 8 && (#[trigger] s[i]) / 16 == own_king(side)
}

/// The last slot index holding exactly the given byte, scanning down from
/// `k`, or -1 when none does; this is the slot the child constructors
/// rewrite.
pub open spec fn last_match_idx(s: Seq<u64>, b: u64, k: int) -> int
    decreases k + 1,
{
    if k < 0 {
        -1
    } else if s[k] == b {
        k
    } else {
        last_match_idx(s, b, k - 1)
    }
}

/// The origin slot byte packed in a move value.
pub open spec fn nm_cur_byte(nm: int) -> int {
    (nm / 256 % 16) * 16 + (nm / 16 % 16)
}

/// The destination slot byte packed in a move value, promotion applied.
pub open spec fn nm_next_byte(nm: int) -> int {
    arrival_kind(nm / 256 % 16, nm / 16 % 16, nm % 16) * 16 + nm % 16
}

/// The child reached by replaying a move onto an empty square (or a drop):
/// only the moving slot is rewritten, and the bytes are re-encoded
/// canonically, so equal positions keep equal encodings.
pub open spec fn child_empty(s: Seq<u64>, nm: int) -> int {
    canon_pack(s.update(last_match_idx(s, nm_cur_byte(nm) as u64, 7), nm_next_byte(nm) as u64))
}

/// The slot bytes after replaying a capturing move: the moving slot is
/// rewritten, and every other slot on the destination square is sent
/// off-board and changes side.
pub open spec fn child_capture_bytes(s: Seq<u64>, nm: int) -> Seq<u64> {
    Seq::new(
        8,
        |t: int|
            if t == last_match_idx(s, nm_cur_byte(nm) as u64, 7) {
                nm_next_byte(nm) as u64
            } else if s[t] % 16 == nm % 16 {
                (opposite_kind((s[t] / 16) as int) * 16 + 12) as u64
            } else {
                s[t]
            },
    )
}

/// The child reached by replaying a capturing move, re-encoded canonically.
pub open spec fn child_capture(s: Seq<u64>, nm: int) -> int {
    canon_pack(child_capture_bytes(s, nm))
}

/// The scan state of win detection: whether the enemy king-equivalent has
/// been seen, an early verdict when it was seen captured, the enemy pieces
/// collected so far (kind and coordinates, with (9, 9) for off-board), the
/// own king's coordinates, whether it stands on its winning row, and
/// whether it has been seen at all.
#[verifier::ext_equal]
pub struct HwState {
    pub found_enemy: bool,
    pub early: Option<bool>,
    pub enemies: Seq<(int, (int, int))>,
    pub king: (int, int),
    pub king_row: bool,
    pub found_own: bool,
}

/// The starting scan state.
pub open spec fn hw_init() -> HwState {
    HwState {
        found_enemy: false,
        early: None,
        enemies: Seq::empty(),
        king: (0, 0),
        king_row: false,
        found_own: false,
    }
}

/// The coordinates a square converts to: off-board squares map to (9, 9).
pub open spec fn square_xy(pos: int) -> (int, int) {
    if pos <= 11 {
        (pos % 3, pos / 3)
    } else {
        (9, 9)
    }
}

/// Whether a square lies on the winning row of the given side.
pub open spec fn winning_row(pos: int, side: bool) -> bool {
    if pos <= 2 {
        !side
    } else if 9 <= pos <= 11 {
        side
    } else {
        false
    }
}

/// One step of the win-detection scan, examining the slot with the given
/// kind and square.  The first slot holding the enemy king-equivalent is
/// examined for capture (an immediate verdict for the mover) and joins the
/// enemies; the own king-equivalent records its place and row; any other
/// enemy piece joins the enemies.
pub open spec fn hw_step(st: HwState, kind: int, pos: int, side: bool) -> HwState {
    if !st.found_enemy && kind == enemy_king(side) {
        if pos == 12 {
            HwState { found_enemy: true, early: Some(side), ..st }
        } else {
            HwState {
                found_enemy: true,
                enemies: st.enemies.push((kind, square_xy(pos))),
                ..st
            }
        }
    } else if (!st.found_own && side && kind == own_king(side)) || (!side && kind == own_king(
        side,
    )) {
        HwState {
            found_own: true,
            king_row: st.king_row || winning_row(pos, side),
            king: square_xy(pos),
            ..st
        }
    } else if !kind_is_side(kind, side) {
        HwState { enemies: st.enemies.push((kind, square_xy(pos))), ..st }
    } else {
        st
    }
}

/// The win-detection scan over the slots from `i` on, stopping at an early
/// verdict.
pub open spec fn hw_scan(s: Seq<u64>, side: bool, i: int, st: HwState) -> HwState
    decreases 8 - i,
{
    if i < 0 || i >= 8 || st.early is Some {
        st
    } else {
        hw_scan(s, side, i + 1, hw_step(st, (s[i] / 16) as int, (s[i] % 16) as int, side))
    }
}

/// Whether an enemy piece of the given kind standing at `epos` reaches the
/// king's square with one of its steps, the steps taken in the scanning
/// side's direction.
pub open spec fn threatens(kind: int, epos: (int, int), king: (int, int), side: bool) -> bool {
    exists|j: int|
        0 <= j < piece_offsets(kind).len() && {
            let d = #[trigger] piece_offsets(kind)[j];
            let dx = if side {
                d.0
            } else {
                -d.0
            };
            let dy = if side {
                d.1
            } else {
                -d.1
            };
            epos.0 + dx == king.0 && epos.1 + dy == king.1
        }
}

/// Whether any collected enemy within one square of the king reaches it.
pub open spec fn any_threat(enemies: Seq<(int, (int, int))>, king: (int, int), side: bool) -> bool {
    exists|e: int|
        0 <= e < enemies.len() && {
            let en = #[trigger] enemies[e];
            &&& -1 <= king.0 - en.1.0 <= 1
            &&& -1 <= king.1 - en.1.1 <= 1
            &&& threatens(en.0, en.1, king, side)
        }
}

/// The verdict of win detection after the given side has moved: the early
/// capture verdict if any; else a win for the mover when its king-equivalent
/// stands on the winning row (reaching the far rank wins unconditionally, so
/// this takes precedence over any threat); else a loss for the mover when an
/// enemy piece can reach the mover's king; else nothing.  The answer reports
/// whether the first player won.
pub open spec fn hw_result(s: Seq<u64>, side: bool) -> Option<bool> {
    let st = hw_scan(s, side, 0, hw_init());
    if st.early is Some {
        st.early
    } else if st.king_row {
        Some(side)
    } else if any_threat(st.enemies, st.king, side) {
        Some(!side)
    } else {
        None
    }
}

impl Board {
    /// The successor reached by replaying the given move onto an empty
    /// square (a board move or a drop): the last slot matching the move's
    /// origin byte is rewritten and the slots are re-encoded canonically.
    pub fn compute_child_from_nextmove_on_empty_space(
        &self,
        next_move: NextMove,
        is_player_1: bool,
    ) -> (r: Board)
        requires
            last_match_idx(self.bytes(), nm_cur_byte(next_move.0 as int) as u64, 7) >= 0,
        ensures
            r.0 as int == child_empty(self.bytes(), next_move.0 as int),
    {
        let (current8, next8) = next_move.get_current_and_next(is_player_1);
        let current = current8 as u64;
        let next = next8 as u64;
        let mut bytes = board_bytes(self.0);
        let ghost fidx = last_match_idx(self.bytes(), current, 7);
        proof {
            lemma_last_match_found(self.bytes(), current, 7);
        }
        let mut k: usize = 8;
        let mut done = false;
        while k > 0 && !done
            invariant
                k <= 8,
                bytes@.len() == 8,
                fidx == last_match_idx(self.bytes(), current, 7),
                0 <= fidx < 8,
                self.bytes()[fidx] == current,
                current == nm_cur_byte(next_move.0 as int) as u64,
                next == nm_next_byte(next_move.0 as int) as u64,
                !done ==> k as int > fidx && bytes@ == self.bytes(),
                !done ==> forall|t: int| k <= t < 8 ==> #[trigger] self.bytes()[t] != current,
                done ==> bytes@ == self.bytes().update(fidx, next),
            decreases k, (if done {
                0int
            } else {
                1int
            }),
        {
            k = k - 1;
            if bytes[k] == current {
                proof {
                    assert(last_match_idx(self.bytes(), current, 7) == k as int) by {
                        lemma_last_match_above(self.bytes(), current, 7, k as int);
                    }
                }
                bytes[k] = next;
                done = true;
                proof {
                    assert(bytes@ =~= self.bytes().update(fidx, next));
                }
            }
        }
        proof {
            assert(done);
            assert forall|t: int| 0 <= t < 8 implies #[trigger] bytes@[t] < 256 by {
                assert(self.bytes()[t] < 256);
                if t == fidx {
                    assert(bytes@[t] == nm_next_byte(next_move.0 as int) as u64);
                }
            }
        }
        let packed = crate::codec::canon_encode(bytes);
        Board(packed)
    }

    /// The successor reached by replaying a capturing move: the last slot
    /// matching the move's origin byte is rewritten, every other slot on the
    /// destination square is captured, and the bytes are re-encoded
    /// canonically.
    pub fn compute_child_from_nextmove(&self, next_move: NextMove, is_player_1: bool) -> (r: Board)
        requires
            last_match_idx(self.bytes(), nm_cur_byte(next_move.0 as int) as u64, 7) >= 0,
        ensures
            r.0 as int == child_capture(self.bytes(), next_move.0 as int),
    {
        let (current8, next8) = next_move.get_current_and_next(is_player_1);
        let current = current8 as u64;
        let next = next8 as u64;
        let new_pos = next % 16;
        let old_bytes = board_bytes(self.0);
        let ghost fidx = last_match_idx(self.bytes(), current, 7);
        proof {
            lemma_last_match_found(self.bytes(), current, 7);
        }
        let mut bytes: Vec<u64> = Vec::new();
        let mut k: usize = 0;
        while k < 8
            invariant
                k <= 8,
                old_bytes@ == self.bytes(),
                bytes@.len() == k,
                0 <= fidx < 8,
                fidx == last_match_idx(self.bytes(), current, 7),
                current == nm_cur_byte(next_move.0 as int) as u64,
                next == nm_next_byte(next_move.0 as int) as u64,
                new_pos as int == nm_next_byte(next_move.0 as int) % 16,
                new_pos as int == next_move.0 as int % 16,
                forall|t: int|
                    0 <= t < k ==> #[trigger] bytes@[t] == child_capture_bytes(
                        self.bytes(),
                        next_move.0 as int,
                    )[t],
                forall|t: int| 0 <= t < k ==> #[trigger] bytes@[t] < 256,
            decreases 8 - k,
        {
            let b = old_bytes[k];
            let nb: u64;
            let mover_here = holds_mover(&old_bytes, current, k);
            if mover_here {
                nb = next;
            } else if b % 16 == new_pos {
                let p = b / 16;
                let op = Piece(p as u8).get_opposite_except_king();
                nb = (op.0 as u64) * 16 + 12;
            } else {
                nb = b;
            }
            bytes.push(nb);
            k = k + 1;
        }
        proof {
            assert(bytes@ =~= child_capture_bytes(self.bytes(), next_move.0 as int));
        }
        let packed = crate::codec::canon_encode(bytes);
        Board(packed)
    }
}

/// Whether slot `k` is the slot the replay rewrites: the last one matching
/// the origin byte.
fn holds_mover(bytes: &Vec<u64>, current: u64, k: usize) -> (r: bool)
    requires
        bytes@.len() == 8,
        k < 8,
    ensures
        r == (k as int == last_match_idx(bytes@, current, 7)),
{
    if bytes[k] != current {
        proof {
            lemma_last_match_found_or_neg(bytes@, current, 7);
            if last_match_idx(bytes@, current, 7) == k as int {
                lemma_last_match_found(bytes@, current, 7);
            }
        }
        return false;
    }
    let mut t: usize = k + 1;
    while t < 8
        invariant
            k < t <= 8,
            bytes@.len() == 8,
            bytes@[k as int] == current,
            forall|u: int| k < u < t ==> #[trigger] bytes@[u] != current,
        decreases 8 - t,
    {
        if bytes[t] == current {
            proof {
                lemma_last_match_lower(bytes@, current, 7, t as int);
            }
            return false;
        }
        t = t + 1;
    }
    proof {
        lemma_last_match_above(bytes@, current, 7, k as int);
    }
    true
}

impl Board {
    /// Checks, after the given side has moved, whether the game is decided:
    /// a captured enemy king-equivalent or an own king-equivalent standing
    /// on the winning row wins for the mover unconditionally; short of that,
    /// an enemy piece able to reach the own king-equivalent counts as a loss
    /// for the mover.  The answer reports whether the first player won.
    #[verifier::rlimit(60)]
    pub fn has_winner(&self, is_player_1: bool) -> (r: Option<bool>)
        requires
            slots_ok(self.bytes()),
            has_king(self.bytes(), is_player_1),
        ensures
            r == hw_result(self.bytes(), is_player_1),
    {
        let ghost s = self.bytes();
        let bytes = board_bytes(self.0);
        let ek: u64 = if is_player_1 {
            2
        } else {
            1
        };
        let bit: u64 = if is_player_1 {
            1
        } else {
            0
        };
        let mut found_enemy = false;
        let mut found_own = false;
        let mut king_row = false;
        let mut kx: i64 = 0;
        let mut ky: i64 = 0;
        let mut enemies: Vec<(u64, (i64, i64))> = Vec::new();
        proof {
            assert(enemies@.map_values(
                |e: (u64, (i64, i64))| (e.0 as int, (e.1.0 as int, e.1.1 as int)),
            ) =~= Seq::<(int, (int, int))>::empty());
            assert(HwState {
                found_enemy: false,
                early: None,
                enemies: enemies@.map_values(
                    |e: (u64, (i64, i64))| (e.0 as int, (e.1.0 as int, e.1.1 as int)),
                ),
                king: (0, 0),
                king_row: false,
                found_own: false,
            } =~= hw_init());
        }
        let mut i: usize = 0;
        while i < 8
            invariant
                i <= 8,
                s == self.bytes(),
                bytes@ == s,
                slots_ok(s),
                ek as int == enemy_king(is_player_1),
                bit as int == crate::piece::side_bit(is_player_1),
                forall|e: int| 0 <= e < enemies@.len() ==> 1 <= (#[trigger] enemies@[e]).0 <= 10,
                forall|e: int|
                    0 <= e < enemies@.len() ==> 0 <= (#[trigger] enemies@[e]).1.0 <= 9 && 0
                        <= enemies@[e].1.1 <= 9,
                0 <= kx <= 9,
                0 <= ky <= 9,
                hw_scan(s, is_player_1, 0, hw_init()) == hw_scan(
                    s,
                    is_player_1,
                    i as int,
                    HwState {
                        found_enemy,
                        early: None,
                        enemies: enemies@.map_values(
                            |e: (u64, (i64, i64))| (e.0 as int, (e.1.0 as int, e.1.1 as int)),
                        ),
                        king: (kx as int, ky as int),
                        king_row,
                        found_own,
                    },
                ),
            decreases 8 - i,
        {
            let kind = bytes[i] / 16;
            let pos = bytes[i] % 16;
            proof {
                assert(1 <= s[i as int] / 16 <= 10 && s[i as int] % 16 <= 12);
            }
            let xy: (i64, i64) = if pos <= 11 {
                ((pos % 3) as i64, (pos / 3) as i64)
            } else {
                (9, 9)
            };
            proof {
                assert((xy.0 as int, xy.1 as int) == square_xy(pos as int));
            }
            let ghost pre = HwState {
                found_enemy,
                early: None,
                enemies: enemies@.map_values(
                    |e: (u64, (i64, i64))| (e.0 as int, (e.1.0 as int, e.1.1 as int)),
                ),
                king: (kx as int, ky as int),
                king_row,
                found_own,
            };
            if !found_enemy && kind == ek {
                found_enemy = true;
                if pos == 12 {
                    proof {
                        let stepped = hw_step(pre, kind as int, pos as int, is_player_1);
                        assert(stepped.early == Some(is_player_1));
                        assert(hw_scan(s, is_player_1, i as int + 1, stepped) == stepped);
                        assert(hw_result(s, is_player_1) == Some(is_player_1));
                    }
                    return Some(is_player_1);
                }
                let ghost preen = enemies@;
                enemies.push((kind, xy));
                proof {
                    assert(enemies@.map_values(
                        |e: (u64, (i64, i64))| (e.0 as int, (e.1.0 as int, e.1.1 as int)),
                    ) =~= preen.map_values(
                        |e: (u64, (i64, i64))| (e.0 as int, (e.1.0 as int, e.1.1 as int)),
                    ).push((kind as int, (xy.0 as int, xy.1 as int))));
                }
            } else if (!found_own && is_player_1 && kind == 1) || (!is_player_1 && kind == 2) {
                found_own = true;
                let winning = if pos <= 2 {
                    !is_player_1
                } else if 9 <= pos && pos <= 11 {
                    is_player_1
                } else {
                    false
                };
                if winning {
                    king_row = true;
                }
                kx = xy.0;
                ky = xy.1;
                proof {
                    assert(winning == winning_row(pos as int, is_player_1));
                }
            } else if !(kind != 0 && kind % 2 == bit) {
                let ghost preen = enemies@;
                enemies.push((kind, xy));
                proof {
                    assert(!kind_is_side(kind as int, is_player_1));
                    assert(enemies@.map_values(
                        |e: (u64, (i64, i64))| (e.0 as int, (e.1.0 as int, e.1.1 as int)),
                    ) =~= preen.map_values(
                        |e: (u64, (i64, i64))| (e.0 as int, (e.1.0 as int, e.1.1 as int)),
                    ).push((kind as int, (xy.0 as int, xy.1 as int))));
                }
            } else {
                proof {
                    assert(kind_is_side(kind as int, is_player_1));
                    assert(hw_step(pre, kind as int, pos as int, is_player_1) == pre);
                }
            }
            proof {
                let cur = HwState {
                    found_enemy,
                    early: None,
                    enemies: enemies@.map_values(
                        |ee: (u64, (i64, i64))| (ee.0 as int, (ee.1.0 as int, ee.1.1 as int)),
                    ),
                    king: (kx as int, ky as int),
                    king_row,
                    found_own,
                };
                assert(cur =~= hw_step(pre, kind as int, pos as int, is_player_1));
                assert(hw_scan(s, is_player_1, i as int, pre) == hw_scan(
                    s,
                    is_player_1,
                    i as int + 1,
                    hw_step(pre, kind as int, pos as int, is_player_1),
                ));
            }
            i = i + 1;
        }
        let ghost st = hw_scan(s, is_player_1, 0, hw_init());
        proof {
            assert(st == HwState {
                found_enemy,
                early: None,
                enemies: enemies@.map_values(
                    |e: (u64, (i64, i64))| (e.0 as int, (e.1.0 as int, e.1.1 as int)),
                ),
                king: (kx as int, ky as int),
                king_row,
                found_own,
            });
        }
        if king_row {
            return if is_player_1 {
                Some(true)
            } else {
                Some(false)
            };
        }
        let mut e: usize = 0;
        while e < enemies.len()
            invariant
                e <= enemies@.len(),
                s == self.bytes(),
                st == hw_scan(s, is_player_1, 0, hw_init()),
                st.early is None,
                !st.king_row,
                st.enemies == enemies@.map_values(
                    |ee: (u64, (i64, i64))| (ee.0 as int, (ee.1.0 as int, ee.1.1 as int)),
                ),
                st.king == (kx as int, ky as int),
                st.king_row == king_row,
                0 <= kx <= 9,
                0 <= ky <= 9,
                forall|t: int| 0 <= t < enemies@.len() ==> 1 <= (#[trigger] enemies@[t]).0 <= 10,
                forall|t: int|
                    0 <= t < enemies@.len() ==> 0 <= (#[trigger] enemies@[t]).1.0 <= 9 && 0
                        <= enemies@[t].1.1 <= 9,
                forall|t: int|
                    0 <= t < e ==> !({
                        let en = #[trigger] st.enemies[t];
                        &&& -1 <= st.king.0 - en.1.0 <= 1
                        &&& -1 <= st.king.1 - en.1.1 <= 1
                        &&& threatens(en.0, en.1, st.king, is_player_1)
                    }),
            decreases enemies@.len() - e,
        {
            let (ekind, (ex, ey)) = enemies[e];
            proof {
                assert(st.enemies[e as int] == (ekind as int, (ex as int, ey as int)));
                assert(0 <= ex <= 9 && 0 <= ey <= 9 && 1 <= ekind <= 10);
            }
            if kx - ex < 2 && ex - kx < 2 && ky - ey < 2 && ey - ky < 2 {
                let mvs = Piece(ekind as u8).moves();
                let mut j: usize = 0;
                while j < mvs.len()
                    invariant
                        j <= mvs@.len(),
                        0 <= ex <= 9,
                        0 <= ey <= 9,
                        0 <= kx <= 9,
                        0 <= ky <= 9,
                        0 <= e < st.enemies.len(),
                        s == self.bytes(),
                        st == hw_scan(s, is_player_1, 0, hw_init()),
                        st.early is None,
                        !st.king_row,
                        st.enemies[e as int] == (ekind as int, (ex as int, ey as int)),
                        st.king == (kx as int, ky as int),
                        -1 <= kx - ex <= 1,
                        -1 <= ky - ey <= 1,
                        mvs@.map_values(|m: crate::moves::Move| m.d()) == piece_offsets(
                            ekind as int,
                        ),
                        forall|t: int|
                            0 <= t < j ==> !({
                                let d = #[trigger] piece_offsets(ekind as int)[t];
                                let dx = if is_player_1 {
                                    d.0
                                } else {
                                    -d.0
                                };
                                let dy = if is_player_1 {
                                    d.1
                                } else {
                                    -d.1
                                };
                                ex + dx == kx && ey + dy == ky
                            }),
                    decreases mvs@.len() - j,
                {
                    proof {
                        assert(mvs@.map_values(|m: crate::moves::Move| m.d())[j as int] == mvs@[
                            j as int
                        ].d());
                        crate::gen::lemma_offsets_bounded(ekind as int, j as int);
                    }
                    let dx = mvs[j].x;
                    let dy = mvs[j].y;
                    proof {
                        assert(mvs@[j as int].d() == piece_offsets(ekind as int)[j as int]);
                        assert(-1 <= dx as int <= 1 && -1 <= dy as int <= 1);
                    }
                    let ddx: i64 = if is_player_1 {
                        dx as i64
                    } else {
                        -(dx as i64)
                    };
                    let ddy: i64 = if is_player_1 {
                        dy as i64
                    } else {
                        -(dy as i64)
                    };
                    if ex + ddx == kx && ey + ddy == ky {
                        proof {
                            assert(threatens(
                                ekind as int,
                                (ex as int, ey as int),
                                st.king,
                                is_player_1,
                            ));
                            assert(any_threat(st.enemies, st.king, is_player_1));
                        }
                        return if !is_player_1 {
                            Some(true)
                        } else {
                            Some(false)
                        };
                    }
                    j = j + 1;
                }
                proof {
                    assert(!threatens(ekind as int, (ex as int, ey as int), st.king, is_player_1))
                        by {
                        if threatens(ekind as int, (ex as int, ey as int), st.king, is_player_1) {
                            let jj = choose|jj: int|
                                0 <= jj < piece_offsets(ekind as int).len() && {
                                    let d = #[trigger] piece_offsets(ekind as int)[jj];
                                    let dx2 = if is_player_1 {
                                        d.0
                                    } else {
                                        -d.0
                                    };
                                    let dy2 = if is_player_1 {
                                        d.1
                                    } else {
                                        -d.1
                                    };
                                    ex + dx2 == kx && ey + dy2 == ky
                                };
                        }
                    }
                }
            }
            e = e + 1;
        }
        proof {
            assert(!any_threat(st.enemies, st.king, is_player_1)) by {
                if any_threat(st.enemies, st.king, is_player_1) {
                    let t = choose|t: int|
                        0 <= t < st.enemies.len() && {
                            let en = #[trigger] st.enemies[t];
                            &&& -1 <= st.king.0 - en.1.0 <= 1
                            &&& -1 <= st.king.1 - en.1.1 <= 1
                            &&& threatens(en.0, en.1, st.king, is_player_1)
                        };
                }
            }
        }
        None
    }
}

/// The nibble fields of a packed move value.
pub proof fn lemma_nm_fields(k: int, p: int, q: int)
    requires
        0 <= k <= 15,
        0 <= p <= 15,
        0 <= q <= 15,
    ensures
        nm_value(k, p, q) / 256 % 16 == k,
        nm_value(k, p, q) / 16 % 16 == p,
        nm_value(k, p, q) % 16 == q,
{
    let v = nm_value(k, p, q);
    vstd::arithmetic::div_mod::lemma_fundamental_div_mod_converse_div(v, 256, k, p * 16 + q);
    vstd::arithmetic::div_mod::lemma_small_mod(k as nat, 16);
    vstd::arithmetic::div_mod::lemma_fundamental_div_mod_converse_div(v, 16, k * 16 + p, q);
    vstd::arithmetic::div_mod::lemma_fundamental_div_mod_converse_mod(k * 16 + p, 16, k, p);
    vstd::arithmetic::div_mod::lemma_fundamental_div_mod_converse_mod(v, 16, k * 16 + p, q);
}

/// A slot byte splits into its nibbles and reassembles from them.
pub proof fn lemma_slot_byte_split(b: u64)
    requires
        b < 256,
    ensures
        b == 16 * (b / 16) + b % 16,
        b / 16 <= 15,
    decreases b,
{
    vstd::arithmetic::div_mod::lemma_fundamental_div_mod(b as int, 16);
}

/// A property of every slot carries over to a sequence with the same
/// multiset of slots.
proof fn lemma_has_king_transfer(a: Seq<u64>, b: Seq<u64>, side: bool)
    requires
        a.to_multiset() == b.to_multiset(),
        has_king(a, side),
        a.len() == 8,
        b.len() == 8,
    ensures
        has_king(b, side),
{
    broadcast use vstd::seq_lib::group_to_multiset_ensures;

    let w = choose|w: int| 0 <= w < 8 && (#[trigger] a[w]) / 16 == own_king(side);
    assert(a.contains(a[w]));
    assert(a.to_multiset().count(a[w]) > 0);
    assert(b.contains(a[w]));
    let u = choose|u: int| 0 <= u < b.len() && b[u] == a[w];
    assert(b[u] / 16 == own_king(side));
}

/// The slot bytes a replayed move onto an empty square produces: valid, in
/// range, and still holding both sides' kings when the parent does.
#[verifier::spinoff_prover]
#[verifier::rlimit(60)]
pub proof fn lemma_child_empty_props(s: Seq<u64>, k: int, p: int, q: int)
    requires
        slots_ok(s),
        s.len() == 8,
        1 <= k <= 10,
        0 <= p <= 12,
        0 <= q <= 11,
        last_match_idx(s, nm_cur_byte(nm_value(k, p, q)) as u64, 7) >= 0,
    ensures
        0 <= child_empty(s, nm_value(k, p, q)) < 0x10000000000000000,
        spec_bytes(child_empty(s, nm_value(k, p, q)) as u64) == canon_bytes(
            s.update(
                last_match_idx(s, nm_cur_byte(nm_value(k, p, q)) as u64, 7),
                nm_next_byte(nm_value(k, p, q)) as u64,
            ),
        ),
        slots_ok(spec_bytes(child_empty(s, nm_value(k, p, q)) as u64)),
        forall|side: bool|
            has_king(s, side) ==> has_king(spec_bytes(child_empty(s, nm_value(k, p, q)) as u64), side),
{
    let nm = nm_value(k, p, q);
    lemma_nm_fields(k, p, q);
    let fidx = last_match_idx(s, nm_cur_byte(nm) as u64, 7);
    lemma_last_match_found(s, nm_cur_byte(nm) as u64, 7);
    let ak = crate::next_move::arrival_kind(k, p, q);
    assert(1 <= ak <= 10);
    assert(nm_next_byte(nm) == ak * 16 + q);
    crate::gen::lemma_byte_split((ak) as u64, q as u64);
    let u = s.update(fidx, nm_next_byte(nm) as u64);
    assert forall|t: int| 0 <= t < 8 implies 1 <= (#[trigger] u[t]) / 16 <= 10 && u[t] % 16 <= 12
        && u[t] < 256 by {
        assert(1 <= s[t] / 16 <= 10 && s[t] % 16 <= 12);
        lemma_slot_byte_split(s[t]);
    }
    lemma_canon_bytes_ensures(u);
    crate::codec::lemma_pointwise_transfer(
        u,
        canon_bytes(u),
        |b: u64| 1 <= b / 16 <= 10 && b % 16 <= 12 && b < 256,
    );
    assert forall|t: int| 0 <= t < 8 implies 1 <= (#[trigger] canon_bytes(u)[t]) / 16 <= 10
        && canon_bytes(u)[t] % 16 <= 12 && canon_bytes(u)[t] < 256 by {
        assert((|b: u64| 1 <= b / 16 <= 10 && b % 16 <= 12 && b < 256)(canon_bytes(u)[t]));
    }
    lemma_unpack_pack(canon_bytes(u));
    assert(spec_bytes(child_empty(s, nm) as u64) =~= canon_bytes(u));
    assert forall|side: bool| has_king(s, side) implies has_king(
        spec_bytes(child_empty(s, nm) as u64),
        side,
    ) by {
        let w = choose|w: int| 0 <= w < 8 && (#[trigger] s[w]) / 16 == own_king(side);
        assert(has_king(u, side)) by {
            if w == fidx {
                assert(s[fidx] == nm_cur_byte(nm) as u64);
                crate::gen::lemma_byte_split(k as u64, p as u64);
                assert(s[fidx] / 16 == k);
                assert(ak == k);
                assert(u[fidx] / 16 == own_king(side));
            } else {
                assert(u[w] / 16 == own_king(side));
            }
        }
        lemma_has_king_transfer(u, canon_bytes(u), side);
    }
}

/// The slot bytes a replayed capturing move produces: valid, in range, and
/// still holding both sides' kings when the parent does.
pub proof fn lemma_child_capture_props(s: Seq<u64>, k: int, p: int, q: int)
    requires
        slots_ok(s),
        s.len() == 8,
        1 <= k <= 10,
        0 <= p <= 12,
        0 <= q <= 11,
        last_match_idx(s, nm_cur_byte(nm_value(k, p, q)) as u64, 7) >= 0,
    ensures
        0 <= child_capture(s, nm_value(k, p, q)) < 0x10000000000000000,
        slots_ok(spec_bytes(child_capture(s, nm_value(k, p, q)) as u64)),
        forall|side: bool|
            has_king(s, side) ==> has_king(
                spec_bytes(child_capture(s, nm_value(k, p, q)) as u64),
                side,
            ),
{
    let nm = nm_value(k, p, q);
    lemma_nm_fields(k, p, q);
    let fidx = last_match_idx(s, nm_cur_byte(nm) as u64, 7);
    lemma_last_match_found(s, nm_cur_byte(nm) as u64, 7);
    let ak = crate::next_move::arrival_kind(k, p, q);
    assert(1 <= ak <= 10);
    assert(nm_next_byte(nm) == ak * 16 + q);
    crate::gen::lemma_byte_split((ak) as u64, q as u64);
    let cb = child_capture_bytes(s, nm);
    assert forall|t: int| 0 <= t < 8 implies 1 <= (#[trigger] cb[t]) / 16 <= 10 && cb[t] % 16 <= 12
        && cb[t] < 256 by {
        assert(1 <= s[t] / 16 <= 10 && s[t] % 16 <= 12);
        if t == fidx {
        } else if s[t] % 16 == nm % 16 {
            crate::gen::lemma_byte_split((crate::piece::opposite_kind((s[t] / 16) as int)) as u64, 12);
        } else {
            lemma_slot_byte_split(s[t]);
        }
    }
    lemma_canon_bytes_ensures(cb);
    crate::codec::lemma_pointwise_transfer(
        cb,
        canon_bytes(cb),
        |b: u64| 1 <= b / 16 <= 10 && b % 16 <= 12 && b < 256,
    );
    assert forall|t: int| 0 <= t < 8 implies 1 <= (#[trigger] canon_bytes(cb)[t]) / 16 <= 10
        && canon_bytes(cb)[t] % 16 <= 12 && canon_bytes(cb)[t] < 256 by {
        assert((|b: u64| 1 <= b / 16 <= 10 && b % 16 <= 12 && b < 256)(canon_bytes(cb)[t]));
    }
    lemma_unpack_pack(canon_bytes(cb));
    assert(spec_bytes(child_capture(s, nm) as u64) == canon_bytes(cb));
    assert forall|side: bool| has_king(s, side) implies has_king(
        spec_bytes(child_capture(s, nm) as u64),
        side,
    ) by {
        let w = choose|w: int| 0 <= w < 8 && (#[trigger] s[w]) / 16 == own_king(side);
        assert(has_king(cb, side)) by {
            if w == fidx {
                assert(s[fidx] == nm_cur_byte(nm) as u64);
                crate::gen::lemma_byte_split(k as u64, p as u64);
                assert(ak == k);
                assert(cb[fidx] / 16 == own_king(side));
            } else if s[w] % 16 == nm % 16 {
                assert(crate::piece::opposite_kind((s[w] / 16) as int) == own_king(side));
                crate::gen::lemma_byte_split(
                    (crate::piece::opposite_kind((s[w] / 16) as int)) as u64,
                    12,
                );
                assert(cb[w] / 16 == own_king(side));
            } else {
                assert(cb[w] / 16 == own_king(side));
            }
        }
        lemma_has_king_transfer(cb, canon_bytes(cb), side);
    }
}

/// The child a replayed drop or empty-square move of slot `i` reaches.
pub open spec fn g2_drop_child(s: Seq<u64>, i: int, q: int) -> int {
    child_empty(s, nm_value((s[i] / 16) as int, 12, q))
}

/// The child a board move of slot `i` by step `j` reaches: onto an empty
/// square in place, onto an enemy piece with capture and re-encoding.
pub open spec fn g2_move_child(s: Seq<u64>, side: bool, i: int, j: int) -> int {
    let p = s[i] / 16;
    let pos = s[i] % 16;
    let d = piece_offsets(p as int)[j];
    let q = 3 * dest_y(pos as int, d.1, side) + dest_x(pos as int, d.0, side);
    if occ(s, q) == 0 {
        child_empty(s, nm_value(p as int, pos as int, q))
    } else {
        child_capture(s, nm_value(p as int, pos as int, q))
    }
}

/// Whether step `j` of slot `i` is examined at all: the mover belongs to the
/// side, stands on the board, and the step stays on the board and off
/// friendly pieces.
pub open spec fn g2_move_examined(s: Seq<u64>, side: bool, i: int, j: int) -> bool {
    let p = s[i] / 16;
    let pos = s[i] % 16;
    &&& 0 <= i < 8
    &&& kind_is_side(p as int, side)
    &&& pos <= 11
    &&& 0 <= j < piece_offsets(p as int).len()
    &&& {
        let d = piece_offsets(p as int)[j];
        let x = dest_x(pos as int, d.0, side);
        let y = dest_y(pos as int, d.1, side);
        &&& 0 <= x < 3
        &&& 0 <= y < 4
        &&& !kind_is_side(occ(s, 3 * y + x) as int, side)
    }
}

/// Whether step `j` of slot `i` produces a child the win check decides for
/// the mover.
pub open spec fn g2_move_wins(s: Seq<u64>, side: bool, i: int, j: int) -> bool {
    g2_move_examined(s, side, i, j) && hw_result(
        spec_bytes(g2_move_child(s, side, i, j) as u64),
        side,
    ) == Some(side)
}

/// Whether step `j` of slot `i` produces an undecided successor.
pub open spec fn g2_move_viable(s: Seq<u64>, side: bool, i: int, j: int) -> bool {
    g2_move_examined(s, side, i, j) && hw_result(
        spec_bytes(g2_move_child(s, side, i, j) as u64),
        side,
    ) is None
}

/// Whether dropping the captured piece of slot `i` on square `q` is
/// examined: the slot is the first captured one of its kind for the side,
/// and the square is free.
pub open spec fn g2_drop_examined(s: Seq<u64>, side: bool, i: int, q: int) -> bool {
    &&& 0 <= i < 8
    &&& kind_is_side((s[i] / 16) as int, side)
    &&& s[i] % 16 == 12
    &&& !crate::gen::earlier_dead_same_kind(s, i)
    &&& 0 <= q < 12
    &&& occ(s, q) == 0
}

/// Whether a drop produces a child the win check decides for the mover.
pub open spec fn g2_drop_wins(s: Seq<u64>, side: bool, i: int, q: int) -> bool {
    g2_drop_examined(s, side, i, q) && hw_result(spec_bytes(g2_drop_child(s, i, q) as u64), side)
        == Some(side)
}

/// Whether the side to move has any examined move or drop whose child the
/// win check decides for it.
pub open spec fn g2_wins(s: Seq<u64>, side: bool) -> bool {
    (exists|i: int, j: int| g2_move_wins(s, side, i, j)) || (exists|i: int, q: int|
        g2_drop_wins(s, side, i, q))
}

/// The (move, child) pairs of the steps of live slot `i` from `j` on, kept
/// when their child is undecided.
pub open spec fn g2_slot_move_cands(s: Seq<u64>, side: bool, i: int, j: int) -> Seq<(int, int)>
    decreases piece_offsets((s[i] / 16) as int).len() - j,
{
    if j < 0 || j >= piece_offsets((s[i] / 16) as int).len() {
        Seq::empty()
    } else {
        let rest = g2_slot_move_cands(s, side, i, j + 1);
        if g2_move_viable(s, side, i, j) {
            let p = s[i] / 16;
            let pos = s[i] % 16;
            let d = piece_offsets(p as int)[j];
            let q = 3 * dest_y(pos as int, d.1, side) + dest_x(pos as int, d.0, side);
            seq![(nm_value(p as int, pos as int, q), g2_move_child(s, side, i, j))] + rest
        } else {
            rest
        }
    }
}

/// The (move, child) pairs of the drops of captured slot `i` from square `q`
/// on, kept when their child is undecided.
pub open spec fn g2_slot_drop_cands(s: Seq<u64>, side: bool, i: int, q: int) -> Seq<(int, int)>
    decreases 12 - q,
{
    if q < 0 || q >= 12 {
        Seq::empty()
    } else {
        let rest = g2_slot_drop_cands(s, side, i, q + 1);
        if occ(s, q) == 0 && hw_result(spec_bytes(g2_drop_child(s, i, q) as u64), side) is None {
            seq![(nm_value((s[i] / 16) as int, 12, q), g2_drop_child(s, i, q))] + rest
        } else {
            rest
        }
    }
}

/// The (move, child) pairs of the slots from `i` on, in scan order.
pub open spec fn g2_cands_from(s: Seq<u64>, side: bool, i: int) -> Seq<(int, int)>
    decreases 8 - i,
{
    if i < 0 || i >= 8 {
        Seq::empty()
    } else {
        let rest = g2_cands_from(s, side, i + 1);
        let p = s[i] / 16;
        let pos = s[i] % 16;
        if !kind_is_side(p as int, side) {
            rest
        } else if pos == 12 {
            if crate::gen::earlier_dead_same_kind(s, i) {
                rest
            } else {
                g2_slot_drop_cands(s, side, i, 0) + rest
            }
        } else {
            g2_slot_move_cands(s, side, i, 0) + rest
        }
    }
}

/// All (move, child) pairs of the win-checked expansion, in scan order.
pub open spec fn g2_cands(s: Seq<u64>, side: bool) -> Seq<(int, int)> {
    g2_cands_from(s, side, 0)
}

/// The contract of the win-checked expansion: a win for the mover as soon
/// as some child is decided for it; a loss for the mover when, without such
/// a win, it is left with no candidate at all; and otherwise exactly the
/// undecided children in scan order (children decided against the mover are
/// pruned).
pub open spec fn g2_post(r: crate::structs::GameResult, v: u64, side: bool) -> bool {
    let s = spec_bytes(v);
    if g2_wins(s, side) {
        r == crate::gen::win_result(side)
    } else if g2_cands(s, side).len() == 0 {
        r == crate::gen::lose_result(side)
    } else {
        match r {
            crate::structs::GameResult::Intermediate(l) => crate::gen::cands_view(l@) == g2_cands(
                s,
                side,
            ),
            _ => false,
        }
    }
}

/// No moves is a loss, for the win-checked expansion too: a position whose
/// side to move has no child decided for it and not a single undecided
/// candidate classifies as a loss for that side.
pub proof fn lemma_no_moves_is_loss_checked(r: crate::structs::GameResult, v: u64, side: bool)
    requires
        g2_post(r, v, side),
        !g2_wins(spec_bytes(v), side),
        g2_cands(spec_bytes(v), side).len() == 0,
    ensures
        r == crate::gen::lose_result(side),
{
}

impl Board {
    /// The win-checked expansion of this position for the given side: each
    /// candidate move or drop is replayed and its child examined by the win
    /// check; a child decided for the mover classifies the position as a win
    /// outright, a child decided against the mover is pruned, a side left
    /// without a single candidate loses, and the undecided children are
    /// returned in scan order, each captured kind re-entering only once.
    #[verifier::rlimit(100)]
    pub fn get_next_states_2(&self, is_player_1: bool) -> (r: crate::structs::GameResult)
        requires
            slots_ok(self.bytes()),
            has_king(self.bytes(), is_player_1),
        ensures
            g2_post(r, self.0, is_player_1),
    {
        broadcast use vstd::seq_lib::lemma_seq_contains_after_push;

        let ghost s = self.bytes();
        let bytes = board_bytes(self.0);
        let bit: u64 = if is_player_1 {
            1
        } else {
            0
        };
        let mut boards: Vec<(NextMove, Board)> = Vec::new();
        let mut parachuted: Vec<u64> = Vec::new();
        let mut i: usize = 0;
        while i < 8
            invariant
                i <= 8,
                s == self.bytes(),
                s == spec_bytes(self.0),
                s.len() == 8,
                bytes@ == s,
                slots_ok(s),
                has_king(s, is_player_1),
                bit as int == crate::piece::side_bit(is_player_1),
                crate::gen::cands_view(boards@) + g2_cands_from(s, is_player_1, i as int)
                    == g2_cands(s, is_player_1),
                forall|a: int, b: int| a < i ==> !g2_move_wins(s, is_player_1, a, b),
                forall|a: int, b: int| a < i ==> !g2_drop_wins(s, is_player_1, a, b),
                forall|k: u64|
                    parachuted@.contains(k) <==> exists|j: int|
                        0 <= j < i && #[trigger] s[j] % 16 == 12 && s[j] / 16 == k
                            && kind_is_side(k as int, is_player_1),
            decreases 8 - i,
        {
            let p = bytes[i] / 16;
            let pos = bytes[i] % 16;
            proof {
                assert(1 <= s[i as int] / 16 <= 10 && s[i as int] % 16 <= 12);
                lemma_slot_byte_split(s[i as int]);
            }
            if p != 0 && p % 2 == bit {
                proof {
                    assert(kind_is_side(p as int, is_player_1));
                }
                if pos == 12 {
                    proof {
                        assert forall|b: int| !g2_move_wins(s, is_player_1, i as int, b) by {}
                    }
                    let already = crate::codec::contains_u64(&parachuted, p);
                    if !already {
                        proof {
                            if crate::gen::earlier_dead_same_kind(s, i as int) {
                                let j = choose|j: int|
                                    0 <= j < i && #[trigger] s[j] % 16 == 12
                                        && s[j] / 16 == s[i as int] / 16;
                                assert(parachuted@.contains(p));
                            }
                            assert(g2_cands_from(s, is_player_1, i as int) == g2_slot_drop_cands(
                                s,
                                is_player_1,
                                i as int,
                                0,
                            ) + g2_cands_from(s, is_player_1, i as int + 1));
                        }
                        let ghost par0 = parachuted@;
                        parachuted.push(p);
                        let mut q: u64 = 0;
                        while q < 12
                            invariant
                                q <= 12,
                                s == self.bytes(),
                                s == spec_bytes(self.0),
                                s.len() == 8,
                                bytes@ == s,
                                slots_ok(s),
                                has_king(s, is_player_1),
                                i < 8,
                                p == s[i as int] / 16,
                                1 <= p <= 10,
                                s[i as int] % 16 == 12,
                                kind_is_side(p as int, is_player_1),
                                !crate::gen::earlier_dead_same_kind(s, i as int),
                                crate::gen::cands_view(boards@) + g2_slot_drop_cands(
                                    s,
                                    is_player_1,
                                    i as int,
                                    q as int,
                                ) + g2_cands_from(s, is_player_1, i as int + 1) == g2_cands(
                                    s,
                                    is_player_1,
                                ),
                                forall|b: int| b < q ==> !g2_drop_wins(s, is_player_1, i as int, b),
                            decreases 12 - q,
                        {
                            if occ_at(&bytes, q) == 0 {
                                let nm = NextMove::new(
                                    Piece(p as u8),
                                    crate::structs::Position::from_u8(12),
                                    crate::structs::Position::from_u8(q as u8),
                                );
                                proof {
                                    assert(nm.0 as int == nm_value(p as int, 12, q as int));
                                    lemma_nm_fields(p as int, 12, q as int);
                                    assert(nm_cur_byte(nm.0 as int) == p * 16 + 12);
                                    assert(s[i as int] == (p * 16 + 12) as u64);
                                    lemma_last_match_lower(
                                        s,
                                        nm_cur_byte(nm.0 as int) as u64,
                                        7,
                                        i as int,
                                    );
                                    lemma_child_empty_props(s, p as int, 12, q as int);
                                }
                                let child = self.compute_child_from_nextmove_on_empty_space(
                                    nm,
                                    is_player_1,
                                );
                                proof {
                                    assert(child.0 as int == g2_drop_child(s, i as int, q as int));
                                    assert(child.bytes() == spec_bytes(
                                        g2_drop_child(s, i as int, q as int) as u64,
                                    ));
                                }
                                let hw = child.has_winner(is_player_1);
                                match hw {
                                    Some(won) => {
                                        if (is_player_1 && won) || (!is_player_1 && !won) {
                                            proof {
                                                assert(g2_drop_wins(
                                                    s,
                                                    is_player_1,
                                                    i as int,
                                                    q as int,
                                                ));
                                                assert(g2_wins(s, is_player_1));
                                            }
                                            if is_player_1 {
                                                return crate::structs::GameResult::WhiteWin;
                                            } else {
                                                return crate::structs::GameResult::BlackWin;
                                            }
                                        } else {
                                            proof {
                                                assert(hw_result(child.bytes(), is_player_1)
                                                    == Some(!is_player_1));
                                                assert(!g2_drop_wins(
                                                    s,
                                                    is_player_1,
                                                    i as int,
                                                    q as int,
                                                ));
                                                assert(g2_slot_drop_cands(
                                                    s,
                                                    is_player_1,
                                                    i as int,
                                                    q as int,
                                                ) == g2_slot_drop_cands(
                                                    s,
                                                    is_player_1,
                                                    i as int,
                                                    q as int + 1,
                                                ));
                                            }
                                        }
                                    },
                                    None => {
                                        proof {
                                            let c = (
                                                nm_value(p as int, 12, q as int),
                                                g2_drop_child(s, i as int, q as int),
                                            );
                                            assert(!g2_drop_wins(s, is_player_1, i as int, q as int));
                                            assert(g2_slot_drop_cands(
                                                s,
                                                is_player_1,
                                                i as int,
                                                q as int,
                                            ) == seq![c] + g2_slot_drop_cands(
                                                s,
                                                is_player_1,
                                                i as int,
                                                q as int + 1,
                                            ));
                                            assert(crate::gen::cands_view(boards@.push((nm, child)))
                                                =~= crate::gen::cands_view(boards@) + seq![c]);
                                            assert((crate::gen::cands_view(boards@) + seq![c])
                                                + g2_slot_drop_cands(
                                                s,
                                                is_player_1,
                                                i as int,
                                                q as int + 1,
                                            ) =~= crate::gen::cands_view(boards@) + (seq![c]
                                                + g2_slot_drop_cands(
                                                s,
                                                is_player_1,
                                                i as int,
                                                q as int + 1,
                                            )));
                                        }
                                        boards.push((nm, child));
                                    },
                                }
                            }
                            q = q + 1;
                        }
                        proof {
                            assert(g2_slot_drop_cands(s, is_player_1, i as int, 12)
                                =~= Seq::<(int, int)>::empty());
                            assert forall|b: int| !g2_drop_wins(s, is_player_1, i as int, b) by {}
                            assert(parachuted@ == par0.push(p));
                            assert forall|k: u64|
                                parachuted@.contains(k) <==> exists|j: int|
                                    0 <= j < i + 1 && #[trigger] s[j] % 16 == 12 && s[j] / 16 == k
                                        && kind_is_side(k as int, is_player_1) by {
                                vstd::seq_lib::lemma_seq_contains_after_push(par0, p, k);
                                if parachuted@.contains(k) {
                                    if k == p {
                                        assert(s[i as int] % 16 == 12 && s[i as int] / 16 == k
                                            && kind_is_side(k as int, is_player_1));
                                    } else {
                                        assert(par0.contains(k));
                                    }
                                } else {
                                    assert(!par0.contains(k) && k != p);
                                    if exists|j: int|
                                        0 <= j < i + 1 && #[trigger] s[j] % 16 == 12 && s[j] / 16
                                            == k && kind_is_side(k as int, is_player_1) {
                                        let j = choose|j: int|
                                            0 <= j < i + 1 && #[trigger] s[j] % 16 == 12 && s[j]
                                                / 16 == k && kind_is_side(k as int, is_player_1);
                                        assert(j != i);
                                        assert(par0.contains(k));
                                        assert(false);
                                    }
                                }
                            }
                        }
                    } else {
                        proof {
                            assert(crate::gen::earlier_dead_same_kind(s, i as int)) by {
                                let j = choose|j: int|
                                    0 <= j < i && #[trigger] s[j] % 16 == 12 && s[j] / 16 == p
                                        && kind_is_side(p as int, is_player_1);
                                assert(0 <= j < i as int && s[j] % 16 == 12
                                    && s[j] / 16 == s[i as int] / 16);
                            }
                            assert forall|b: int| !g2_drop_wins(s, is_player_1, i as int, b) by {}
                            assert(g2_cands_from(s, is_player_1, i as int) == g2_cands_from(
                                s,
                                is_player_1,
                                i as int + 1,
                            ));
                            assert forall|k: u64|
                                parachuted@.contains(k) <==> exists|j: int|
                                    0 <= j < i + 1 && #[trigger] s[j] % 16 == 12 && s[j] / 16 == k
                                        && kind_is_side(k as int, is_player_1) by {}
                        }
                    }
                } else {
                    proof {
                        assert(pos <= 11);
                        assert forall|b: int| !g2_drop_wins(s, is_player_1, i as int, b) by {}
                        assert(g2_cands_from(s, is_player_1, i as int) == g2_slot_move_cands(
                            s,
                            is_player_1,
                            i as int,
                            0,
                        ) + g2_cands_from(s, is_player_1, i as int + 1));
                    }
                    let mvs = Piece(p as u8).moves();
                    let mut j: usize = 0;
                    while j < mvs.len()
                        invariant
                            j <= mvs@.len(),
                            s == self.bytes(),
                            s == spec_bytes(self.0),
                            s.len() == 8,
                            bytes@ == s,
                            slots_ok(s),
                            has_king(s, is_player_1),
                            bit as int == crate::piece::side_bit(is_player_1),
                            i < 8,
                            p == s[i as int] / 16,
                            pos == s[i as int] % 16,
                            kind_is_side(p as int, is_player_1),
                            1 <= p <= 10,
                            pos <= 11,
                            mvs@.map_values(|m: crate::moves::Move| m.d()) == piece_offsets(
                                p as int,
                            ),
                            mvs@.len() == piece_offsets(p as int).len(),
                            crate::gen::cands_view(boards@) + g2_slot_move_cands(
                                s,
                                is_player_1,
                                i as int,
                                j as int,
                            ) + g2_cands_from(s, is_player_1, i as int + 1) == g2_cands(
                                s,
                                is_player_1,
                            ),
                            forall|b: int| b < j ==> !g2_move_wins(s, is_player_1, i as int, b),
                        decreases mvs@.len() - j,
                    {
                        let ghost d = piece_offsets(p as int)[j as int];
                        proof {
                            assert(mvs@.map_values(|m: crate::moves::Move| m.d())[j as int] == d);
                            assert(mvs@[j as int].d() == d);
                            crate::gen::lemma_offsets_bounded(p as int, j as int);
                        }
                        let dx = mvs[j].x;
                        let dy = mvs[j].y;
                        let x: i64 = (pos % 3) as i64 + (if is_player_1 {
                            dx as i64
                        } else {
                            -(dx as i64)
                        });
                        let y: i64 = (pos / 3) as i64 + (if is_player_1 {
                            dy as i64
                        } else {
                            -(dy as i64)
                        });
                        proof {
                            assert(x == dest_x(pos as int, d.0, is_player_1));
                            assert(y == dest_y(pos as int, d.1, is_player_1));
                        }
                        if 0 <= x && x < 3 && 0 <= y && y < 4 {
                            let q = (3 * y + x) as u64;
                            let o = occ_at(&bytes, q);
                            if o != 0 && o % 2 == bit {
                                proof {
                                    assert(kind_is_side(occ(s, 3 * y + x) as int, is_player_1));
                                    assert(!g2_move_examined(s, is_player_1, i as int, j as int));
                                    assert(!g2_move_wins(s, is_player_1, i as int, j as int));
                                    assert(g2_slot_move_cands(s, is_player_1, i as int, j as int)
                                        == g2_slot_move_cands(
                                        s,
                                        is_player_1,
                                        i as int,
                                        j as int + 1,
                                    ));
                                }
                            } else {
                                let nm = NextMove::new(
                                    Piece(p as u8),
                                    crate::structs::Position::from_u8(pos as u8),
                                    crate::structs::Position::from_u8(q as u8),
                                );
                                proof {
                                    assert(nm.0 as int == nm_value(p as int, pos as int, q as int));
                                    lemma_nm_fields(p as int, pos as int, q as int);
                                    assert(nm_cur_byte(nm.0 as int) == p * 16 + pos);
                                    assert(s[i as int] == (p * 16 + pos) as u64);
                                    lemma_last_match_lower(
                                        s,
                                        nm_cur_byte(nm.0 as int) as u64,
                                        7,
                                        i as int,
                                    );
                                    lemma_child_empty_props(s, p as int, pos as int, q as int);
                                    lemma_child_capture_props(s, p as int, pos as int, q as int);
                                    assert(!kind_is_side(occ(s, 3 * y + x) as int, is_player_1));
                                    assert(g2_move_examined(s, is_player_1, i as int, j as int));
                                }
                                let child = if o == 0 {
                                    self.compute_child_from_nextmove_on_empty_space(nm, is_player_1)
                                } else {
                                    self.compute_child_from_nextmove(nm, is_player_1)
                                };
                                proof {
                                    assert(child.0 as int == g2_move_child(
                                        s,
                                        is_player_1,
                                        i as int,
                                        j as int,
                                    ));
                                    assert(child.bytes() == spec_bytes(child.0));
                                }
                                let hw = child.has_winner(is_player_1);
                                match hw {
                                    Some(won) => {
                                        if (is_player_1 && won) || (!is_player_1 && !won) {
                                            proof {
                                                assert(g2_move_wins(
                                                    s,
                                                    is_player_1,
                                                    i as int,
                                                    j as int,
                                                ));
                                                assert(g2_wins(s, is_player_1));
                                            }
                                            if is_player_1 {
                                                return crate::structs::GameResult::WhiteWin;
                                            } else {
                                                return crate::structs::GameResult::BlackWin;
                                            }
                                        } else {
                                            proof {
                                                assert(!g2_move_wins(
                                                    s,
                                                    is_player_1,
                                                    i as int,
                                                    j as int,
                                                ));
                                                assert(!g2_move_viable(
                                                    s,
                                                    is_player_1,
                                                    i as int,
                                                    j as int,
                                                ));
                                                assert(g2_slot_move_cands(
                                                    s,
                                                    is_player_1,
                                                    i as int,
                                                    j as int,
                                                ) == g2_slot_move_cands(
                                                    s,
                                                    is_player_1,
                                                    i as int,
                                                    j as int + 1,
                                                ));
                                            }
                                        }
                                    },
                                    None => {
                                        proof {
                                            let c = (
                                                nm_value(p as int, pos as int, q as int),
                                                g2_move_child(s, is_player_1, i as int, j as int),
                                            );
                                            assert(!g2_move_wins(s, is_player_1, i as int, j as int));
                                            assert(g2_move_viable(s, is_player_1, i as int, j as int));
                                            assert(g2_slot_move_cands(
                                                s,
                                                is_player_1,
                                                i as int,
                                                j as int,
                                            ) == seq![c] + g2_slot_move_cands(
                                                s,
                                                is_player_1,
                                                i as int,
                                                j as int + 1,
                                            ));
                                            assert(crate::gen::cands_view(boards@.push((nm, child)))
                                                =~= crate::gen::cands_view(boards@) + seq![c]);
                                            assert((crate::gen::cands_view(boards@) + seq![c])
                                                + g2_slot_move_cands(
                                                s,
                                                is_player_1,
                                                i as int,
                                                j as int + 1,
                                            ) =~= crate::gen::cands_view(boards@) + (seq![c]
                                                + g2_slot_move_cands(
                                                s,
                                                is_player_1,
                                                i as int,
                                                j as int + 1,
                                            )));
                                        }
                                        boards.push((nm, child));
                                    },
                                }
                            }
                        } else {
                            proof {
                                assert(!g2_move_examined(s, is_player_1, i as int, j as int));
                                assert(!g2_move_wins(s, is_player_1, i as int, j as int));
                                assert(g2_slot_move_cands(s, is_player_1, i as int, j as int)
                                    == g2_slot_move_cands(s, is_player_1, i as int, j as int + 1));
                            }
                        }
                        j = j + 1;
                    }
                    proof {
                        assert(g2_slot_move_cands(s, is_player_1, i as int, mvs@.len() as int)
                            =~= Seq::<(int, int)>::empty());
                        assert forall|b: int| !g2_move_wins(s, is_player_1, i as int, b) by {}
                        assert forall|b: int| !g2_drop_wins(s, is_player_1, i as int, b) by {}
                        assert forall|k: u64|
                            parachuted@.contains(k) <==> exists|jj: int|
                                0 <= jj < i + 1 && #[trigger] s[jj] % 16 == 12 && s[jj] / 16 == k
                                    && kind_is_side(k as int, is_player_1) by {}
                    }
                }
            } else {
                proof {
                    assert(!kind_is_side((s[i as int] / 16) as int, is_player_1));
                    assert forall|b: int| !g2_move_wins(s, is_player_1, i as int, b) by {}
                    assert forall|b: int| !g2_drop_wins(s, is_player_1, i as int, b) by {}
                    assert(g2_cands_from(s, is_player_1, i as int) == g2_cands_from(
                        s,
                        is_player_1,
                        i as int + 1,
                    ));
                    assert forall|k: u64|
                        parachuted@.contains(k) <==> exists|j: int|
                            0 <= j < i + 1 && #[trigger] s[j] % 16 == 12 && s[j] / 16 == k
                                && kind_is_side(k as int, is_player_1) by {}
                }
            }
            i = i + 1;
        }
        proof {
            assert(g2_cands_from(s, is_player_1, 8) =~= Seq::<(int, int)>::empty());
            assert(crate::gen::cands_view(boards@) == g2_cands(s, is_player_1));
            assert(!g2_wins(s, is_player_1)) by {
                assert forall|a: int, b: int| !g2_move_wins(s, is_player_1, a, b) by {
                    if 0 <= a < 8 {
                    }
                }
                assert forall|a: int, b: int| !g2_drop_wins(s, is_player_1, a, b) by {
                    if 0 <= a < 8 {
                    }
                }
            }
        }
        if boards.len() == 0 {
            if is_player_1 {
                crate::structs::GameResult::BlackWin
            } else {
                crate::structs::GameResult::WhiteWin
            }
        } else {
            crate::structs::GameResult::Intermediate(boards)
        }
    }
}

/// A matching slot bounds the last matching index from below.
pub proof fn lemma_last_match_lower(s: Seq<u64>, b: u64, k: int, t: int)
    requires
        0 <= t <= k,
        s[t] == b,
    ensures
        last_match_idx(s, b, k) >= t,
    decreases k + 1,
{
    if k > t && s[k] != b {
        lemma_last_match_lower(s, b, k - 1, t);
    }
}

/// When the last matching index is nonnegative it lies in range, matches,
/// and nothing above it matches.
pub proof fn lemma_last_match_found(s: Seq<u64>, b: u64, k: int)
    requires
        last_match_idx(s, b, k) >= 0,
    ensures
        0 <= last_match_idx(s, b, k) <= k,
        s[last_match_idx(s, b, k)] == b,
        forall|t: int| last_match_idx(s, b, k) < t <= k ==> #[trigger] s[t] != b,
    decreases k + 1,
{
    if k >= 0 && s[k] != b {
        lemma_last_match_found(s, b, k - 1);
    }
}

/// The last matching index is either -1 or in range.
pub proof fn lemma_last_match_found_or_neg(s: Seq<u64>, b: u64, k: int)
    requires
        k >= -1,
    ensures
        -1 <= last_match_idx(s, b, k) <= k,
    decreases k + 1,
{
    if k >= 0 && s[k] != b {
        lemma_last_match_found_or_neg(s, b, k - 1);
    }
}

/// A matching slot with nothing matching above it is the last match.
pub proof fn lemma_last_match_above(s: Seq<u64>, b: u64, k: int, m: int)
    requires
        0 <= m <= k,
        s[m] == b,
        forall|t: int| m < t <= k ==> #[trigger] s[t] != b,
    ensures
        last_match_idx(s, b, k) == m,
    decreases k + 1,
{
    if k > m {
        lemma_last_match_above(s, b, k - 1, m);
    }
}

} // verus!
