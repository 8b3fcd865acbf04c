use vstd::prelude::*;
use crate::board::Board;
use crate::next_move::NextMove;
use crate::structs::GameResult;

verus! {

/// The retrograde solver: walking the enumerated layers from the deepest
/// back to the root, it assigns every position a value from the perspective
/// of a fixed reference side and, at the reference side's own turns, a best
/// move.  Values are scaled integers: `VALUE_SCALE` is a certain win for the
/// reference side, 0 a certain loss, and `VALUE_HALF` an unknown outcome
/// (such as a position cut off by the depth limit).  At the reference side's
/// turn a position takes the maximum of its successors' values (the first
/// successor achieving it supplies the best move); at the opposing turn it
/// takes the average, modeling an opponent that answers uniformly at random.
pub const VALUE_SCALE: u64 = 1000000;

pub const VALUE_HALF: u64 = VALUE_SCALE / 2;

/// The value recorded for a position, read through the first matching entry;
/// a position that is not recorded counts as unknown.
pub open spec fn value_of(m: Seq<(Board, (u64, NextMove))>, k: u64, n: int) -> u64
    decreases m.len() - n,
{
    if n < 0 || n >= m.len() {
        VALUE_HALF
    } else if m[n].0.0 == k {
        m[n].1.0
    } else {
        value_of(m, k, n + 1)
    }
}

/// Whether every value recorded in a map lies within the value scale.
pub open spec fn map_wf(m: Seq<(Board, (u64, NextMove))>) -> bool {
    forall|n: int| 0 <= n < m.len() ==> (#[trigger] m[n]).1.0 <= VALUE_SCALE
}

/// The greedy fold over a successor list from entry `n` on: the running best
/// is replaced only by a strictly greater value, so the first successor
/// achieving the maximum keeps the best move.
pub open spec fn best_of(
    l: Seq<(NextMove, Board)>,
    opp: Seq<(Board, (u64, NextMove))>,
    n: int,
    cur: (u64, NextMove),
) -> (u64, NextMove)
    decreases l.len() - n,
{
    if n < 0 || n >= l.len() {
        cur
    } else {
        let v = value_of(opp, l[n].1.0, 0);
        let cur2 = if v > cur.0 {
            (v, l[n].0)
        } else {
            cur
        };
        best_of(l, opp, n + 1, cur2)
    }
}

/// The sum of the successors' recorded values from entry `n` on.
pub open spec fn sum_values(
    l: Seq<(NextMove, Board)>,
    opp: Seq<(Board, (u64, NextMove))>,
    n: int,
) -> int
    decreases l.len() - n,
{
    if n < 0 || n >= l.len() {
        0
    } else {
        value_of(opp, l[n].1.0, 0) + sum_values(l, opp, n + 1)
    }
}

/// The maximum of the successors' recorded values from entry `n` on, or 0
/// past the end.
pub open spec fn max_child_value(
    l: Seq<(NextMove, Board)>,
    opp: Seq<(Board, (u64, NextMove))>,
    n: int,
) -> int
    decreases l.len() - n,
{
    if n < 0 || n >= l.len() {
        0
    } else {
        let v = value_of(opp, l[n].1.0, 0) as int;
        let rest = max_child_value(l, opp, n + 1);
        if v >= rest {
            v
        } else {
            rest
        }
    }
}

/// The value-and-best-move pair assigned to one generation result: terminal
/// results take the certain values, a position cut off by the depth limit
/// (or, degenerately, an empty successor list) counts as unknown, the
/// reference side's turn takes the greedy maximum, and the opposing turn the
/// average.
pub open spec fn layer_value(
    e: GameResult,
    our_turn: bool,
    deepest: bool,
    opp: Seq<(Board, (u64, NextMove))>,
    ref_p1: bool,
) -> (u64, NextMove) {
    match e {
        GameResult::WhiteWin => (
            if ref_p1 {
                VALUE_SCALE
            } else {
                0
            },
            NextMove(0),
        ),
        GameResult::BlackWin => (
            if ref_p1 {
                0
            } else {
                VALUE_SCALE
            },
            NextMove(0),
        ),
        GameResult::Intermediate(l) => {
            if deepest || l@.len() == 0 {
                (VALUE_HALF, NextMove(0))
            } else if our_turn {
                best_of(l@, opp, 1, (value_of(opp, l@[0].1.0, 0), l@[0].0))
            } else {
                (((sum_values(l@, opp, 0) / l@.len() as int) as u64), NextMove(0))
            }
        },
    }
}

/// One layer of the backward pass: each entry, in order, is appended to the
/// accumulating map of the layer's parity with its assigned value.
pub open spec fn solve_layer(
    layer: Seq<(Board, GameResult)>,
    our_turn: bool,
    deepest: bool,
    opp: Seq<(Board, (u64, NextMove))>,
    acc: Seq<(Board, (u64, NextMove))>,
    ref_p1: bool,
    n: int,
) -> Seq<(Board, (u64, NextMove))>
    decreases layer.len() - n,
{
    if n < 0 || n >= layer.len() {
        acc
    } else {
        let v = layer_value(layer[n].1, our_turn, deepest, opp, ref_p1);
        solve_layer(layer, our_turn, deepest, opp, acc.push((layer[n].0, v)), ref_p1, n + 1)
    }
}

/// Whether the reference side is the one to move at the given depth.
pub open spec fn our_turn_at(d: int, ref_p1: bool) -> bool {
    if ref_p1 {
        d % 2 == 0
    } else {
        d % 2 != 0
    }
}

/// The two value maps (reference side's turns, opposing turns) after solving
/// the layers from the deepest down to layer `d`.
pub open spec fn solve_upto(layers: Seq<Seq<(Board, GameResult)>>, ref_p1: bool, d: int) -> (
    Seq<(Board, (u64, NextMove))>,
    Seq<(Board, (u64, NextMove))>,
)
    decreases layers.len() - d,
{
    if d < 0 || d >= layers.len() {
        (Seq::empty(), Seq::empty())
    } else {
        let rest = solve_upto(layers, ref_p1, d + 1);
        let deepest = d == layers.len() - 1;
        if our_turn_at(d, ref_p1) {
            (solve_layer(layers[d], true, deepest, rest.1, rest.0, ref_p1, 0), rest.1)
        } else {
            (rest.0, solve_layer(layers[d], false, deepest, rest.0, rest.1, ref_p1, 0))
        }
    }
}

/// The view of the exec layer stack.
pub open spec fn layers_view(v: Seq<Vec<(Board, GameResult)>>) -> Seq<Seq<(Board, GameResult)>> {
    v.map_values(|x: Vec<(Board, GameResult)>| x@)
}

/// The recorded value of a position, scanned from the first entry.
pub fn lookup_value(m: &Vec<(Board, (u64, NextMove))>, k: u64) -> (r: u64)
    ensures
        r == value_of(m@, k, 0),
{
    let mut n: usize = 0;
    while n < m.len()
        invariant
            n <= m@.len(),
            value_of(m@, k, n as int) == value_of(m@, k, 0),
        decreases m@.len() - n,
    {
        if m[n].0 .0 == k {
            return m[n].1 .0;
        }
        n = n + 1;
    }
    VALUE_HALF
}

/// The value-and-best-move pair of one generation result.
fn entry_value(
    e: &GameResult,
    our_turn: bool,
    deepest: bool,
    opp: &Vec<(Board, (u64, NextMove))>,
    ref_p1: bool,
) -> (r: (u64, NextMove))
    requires
        map_wf(opp@),
    ensures
        r == layer_value(*e, our_turn, deepest, opp@, ref_p1),
        r.0 <= VALUE_SCALE,
{
    match e {
        GameResult::WhiteWin => {
            if ref_p1 {
                (VALUE_SCALE, NextMove(0))
            } else {
                (0, NextMove(0))
            }
        },
        GameResult::BlackWin => {
            if ref_p1 {
                (0, NextMove(0))
            } else {
                (VALUE_SCALE, NextMove(0))
            }
        },
        GameResult::Intermediate(l) => {
            if deepest || l.len() == 0 {
                (VALUE_HALF, NextMove(0))
            } else if our_turn {
                let v0 = lookup_value(opp, l[0].1 .0);
                proof {
                    lemma_value_of_bound(opp@, l@[0].1.0, 0);
                }
                let mut cur: (u64, NextMove) = (v0, l[0].0);
                let ghost cur0 = cur;
                let mut n: usize = 1;
                while n < l.len()
                    invariant
                        1 <= n <= l@.len(),
                        map_wf(opp@),
                        cur.0 <= VALUE_SCALE,
                        best_of(l@, opp@, n as int, cur) == best_of(l@, opp@, 1, cur0),
                    decreases l@.len() - n,
                {
                    let v = lookup_value(opp, l[n].1 .0);
                    proof {
                        lemma_value_of_bound(opp@, l@[n as int].1.0, 0);
                    }
                    if v > cur.0 {
                        cur = (v, l[n].0);
                    }
                    n = n + 1;
                }
                cur
            } else {
                let mut sum: u128 = 0;
                let mut n: usize = 0;
                while n < l.len()
                    invariant
                        n <= l@.len(),
                        map_wf(opp@),
                        sum as int + sum_values(l@, opp@, n as int) == sum_values(l@, opp@, 0),
                        sum as int <= n as int * VALUE_SCALE,
                    decreases l@.len() - n,
                {
                    let v = lookup_value(opp, l[n].1 .0);
                    proof {
                        lemma_value_of_bound(opp@, l@[n as int].1.0, 0);
                        assert((n as int + 1) * VALUE_SCALE == n as int * VALUE_SCALE
                            + VALUE_SCALE) by (nonlinear_arith);
                    }
                    sum = sum + v as u128;
                    n = n + 1;
                }
                let avg = (sum / l.len() as u128) as u64;
                proof {
                    let total = sum_values(l@, opp@, 0);
                    let len = l@.len() as int;
                    assert(total <= len * VALUE_SCALE);
                    vstd::arithmetic::div_mod::lemma_div_is_ordered(
                        total,
                        len * VALUE_SCALE,
                        len,
                    );
                    assert(len * VALUE_SCALE / len == VALUE_SCALE) by {
                        vstd::arithmetic::div_mod::lemma_div_multiples_vanish(
                            VALUE_SCALE as int,
                            len,
                        );
                    }
                    assert(total / len <= VALUE_SCALE);
                    assert(total >= 0) by {
                        lemma_sum_values_nonneg(l@, opp@, 0);
                    }
                    vstd::arithmetic::div_mod::lemma_div_is_ordered(0, total, len);
                }
                (avg, NextMove(0))
            }
        },
    }
}

/// Every recorded value of a well-formed map, and the unknown default, lie
/// within the value scale.
proof fn lemma_value_of_bound(m: Seq<(Board, (u64, NextMove))>, k: u64, n: int)
    requires
        map_wf(m),
    ensures
        value_of(m, k, n) <= VALUE_SCALE,
    decreases m.len() - n,
{
    if 0 <= n < m.len() && m[n].0.0 != k {
        lemma_value_of_bound(m, k, n + 1);
    }
}

/// A sum of recorded values is bounded by the scale times the count and is
/// never negative.
proof fn lemma_sum_values_nonneg(
    l: Seq<(NextMove, Board)>,
    opp: Seq<(Board, (u64, NextMove))>,
    n: int,
)
    ensures
        sum_values(l, opp, n) >= 0,
    decreases l.len() - n,
{
    if 0 <= n < l.len() {
        lemma_sum_values_nonneg(l, opp, n + 1);
    }
}

/// Solves the enumerated layers for the given reference side, walking them
/// from the deepest back to the root.  The first returned map holds the
/// positions where the reference side is to move, each with its value and
/// best move; the second holds the opposing turns, each with its value.
pub fn calc_proba(is_player_one: bool, calc_state: &Vec<Vec<(Board, GameResult)>>) -> (r: (
    Vec<(Board, (u64, NextMove))>,
    Vec<(Board, (u64, NextMove))>,
))
    ensures
        r.0@ == solve_upto(layers_view(calc_state@), is_player_one, 0).0,
        r.1@ == solve_upto(layers_view(calc_state@), is_player_one, 0).1,
        map_wf(r.0@),
        map_wf(r.1@),
{
    let ghost lv = layers_view(calc_state@);
    let mut probas_mine: Vec<(Board, (u64, NextMove))> = Vec::new();
    let mut probas_theirs: Vec<(Board, (u64, NextMove))> = Vec::new();
    let mut d: usize = calc_state.len();
    while d > 0
        invariant
            d <= calc_state@.len(),
            lv == layers_view(calc_state@),
            lv.len() == calc_state@.len(),
            probas_mine@ == solve_upto(lv, is_player_one, d as int).0,
            probas_theirs@ == solve_upto(lv, is_player_one, d as int).1,
            map_wf(probas_mine@),
            map_wf(probas_theirs@),
        decreases d,
    {
        d = d - 1;
        let deepest = d == calc_state.len() - 1;
        let our_turn = if is_player_one {
            d % 2 == 0
        } else {
            d % 2 != 0
        };
        proof {
            assert(our_turn == our_turn_at(d as int, is_player_one));
            assert(lv[d as int] == calc_state@[d as int]@);
        }
        let layer = &calc_state[d];
        let mut n: usize = 0;
        if our_turn {
            let ghost acc0 = probas_mine@;
            while n < layer.len()
                invariant
                    n <= layer@.len(),
                    map_wf(probas_theirs@),
                    map_wf(probas_mine@),
                    solve_layer(
                        layer@,
                        true,
                        deepest,
                        probas_theirs@,
                        probas_mine@,
                        is_player_one,
                        n as int,
                    ) == solve_layer(
                        layer@,
                        true,
                        deepest,
                        probas_theirs@,
                        acc0,
                        is_player_one,
                        0,
                    ),
                decreases layer@.len() - n,
            {
                let v = entry_value(&layer[n].1, true, deepest, &probas_theirs, is_player_one);
                probas_mine.push((layer[n].0, v));
                n = n + 1;
            }
        } else {
            let ghost acc0 = probas_theirs@;
            while n < layer.len()
                invariant
                    n <= layer@.len(),
                    map_wf(probas_mine@),
                    map_wf(probas_theirs@),
                    solve_layer(
                        layer@,
                        false,
                        deepest,
                        probas_mine@,
                        probas_theirs@,
                        is_player_one,
                        n as int,
                    ) == solve_layer(
                        layer@,
                        false,
                        deepest,
                        probas_mine@,
                        acc0,
                        is_player_one,
                        0,
                    ),
                decreases layer@.len() - n,
            {
                let v = entry_value(&layer[n].1, false, deepest, &probas_mine, is_player_one);
                probas_theirs.push((layer[n].0, v));
                n = n + 1;
            }
        }
    }
    (probas_mine, probas_theirs)
}

/// Solver monotonicity: at a position where the reference side is to move
/// and that is not cut off by the depth limit, the assigned value is exactly
/// the maximum of its successors' recorded values, so in particular the root
/// value equals the maximum over the root's immediate successors.
pub proof fn lemma_solver_monotonicity(
    e: GameResult,
    opp: Seq<(Board, (u64, NextMove))>,
    ref_p1: bool,
)
    requires
        e is Intermediate,
        e->Intermediate_0@.len() > 0,
    ensures
        layer_value(e, true, false, opp, ref_p1).0 == max_child_value(e->Intermediate_0@, opp, 0),
{
    let l = e->Intermediate_0@;
    let cur0 = (value_of(opp, l[0].1.0, 0), l[0].0);
    lemma_best_is_max(l, opp, 1, cur0);
    assert(max_child_value(l, opp, 0) == if value_of(opp, l[0].1.0, 0) as int >= max_child_value(
        l,
        opp,
        1,
    ) {
        value_of(opp, l[0].1.0, 0) as int
    } else {
        max_child_value(l, opp, 1)
    });
}

/// The greedy fold computes the maximum of its seed and the remaining
/// successors' values.
proof fn lemma_best_is_max(
    l: Seq<(NextMove, Board)>,
    opp: Seq<(Board, (u64, NextMove))>,
    n: int,
    cur: (u64, NextMove),
)
    requires
        n >= 0,
    ensures
        best_of(l, opp, n, cur).0 == if cur.0 as int >= max_child_value(l, opp, n) {
            cur.0 as int
        } else {
            max_child_value(l, opp, n)
        },
    decreases l.len() - n,
{
    if n >= l.len() {
    } else {
        let v = value_of(opp, l[n].1.0, 0);
        if v > cur.0 {
            lemma_best_is_max(l, opp, n + 1, (v, l[n].0));
        } else {
            lemma_best_is_max(l, opp, n + 1, cur);
        }
    }
}

} // verus!
