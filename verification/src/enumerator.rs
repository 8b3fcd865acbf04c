use vstd::prelude::*;
use crate::board::{byte_ok, Board};
use crate::codec::{contains_u64, spec_bytes};
use crate::gen::{cand_ok, cands_view, gen_cands, gen_post, gen_wins, lemma_gen_cands_ok};
use crate::structs::GameResult;

verus! {

/// The layered enumerator: a breadth-first traversal of the position graph,
/// one layer per ply.  Layer 0 holds the root; layer `d + 1` holds every
/// successor of a nonterminal position of layer `d` that is not already in an
/// earlier layer with the same side to move, each successor discovered once.
/// The side to move at the given ply depth; the first player moves at depth
/// 0.
pub open spec fn side_at(d: int) -> bool {
    d % 2 == 0
}

/// The keys of a layer: each entry's encoded position.
pub open spec fn keys_of(layer: Seq<(Board, GameResult)>) -> Seq<u64> {
    layer.map_values(|e: (Board, GameResult)| e.0.0)
}

/// Folds the successors of one nonterminal position into the keys collected
/// for the next layer: each successor not banned and not yet collected is
/// appended, in generation order.
pub open spec fn add_children(
    cands: Seq<(int, int)>,
    banned: Seq<u64>,
    acc: Seq<u64>,
    m: int,
) -> Seq<u64>
    decreases cands.len() - m,
{
    if m < 0 || m >= cands.len() {
        acc
    } else {
        let c = cands[m].1 as u64;
        let acc2 = if banned.contains(c) || acc.contains(c) {
            acc
        } else {
            acc.push(c)
        };
        add_children(cands, banned, acc2, m + 1)
    }
}

/// Folds the whole previous layer, from entry `n` on, into the keys of the
/// next layer: terminal positions contribute nothing, nonterminal ones their
/// successors.
pub open spec fn layer_step(
    prev: Seq<u64>,
    side: bool,
    banned: Seq<u64>,
    acc: Seq<u64>,
    n: int,
) -> Seq<u64>
    decreases prev.len() - n,
{
    if n < 0 || n >= prev.len() {
        acc
    } else {
        let s = spec_bytes(prev[n]);
        let acc2 = if !gen_wins(s, side) && gen_cands(s, side).len() > 0 {
            add_children(gen_cands(s, side), banned, acc, 0)
        } else {
            acc
        };
        layer_step(prev, side, banned, acc2, n + 1)
    }
}

/// The keys of every layer with the same side to move as layer `d` that lies
/// before it, concatenated in depth order: the positions a new layer-`d` key
/// must not repeat.
pub open spec fn banned_at(root: u64, d: int) -> Seq<u64>
    decreases d, 0int,
{
    if d - 2 < 0 {
        Seq::empty()
    } else {
        banned_at(root, d - 2) + layer_keys_at(root, d - 2)
    }
}

/// The keys of layer `d` of the enumeration rooted at `root`, in discovery
/// order.
pub open spec fn layer_keys_at(root: u64, d: int) -> Seq<u64>
    decreases d, 1int,
{
    if d <= 0 {
        seq![root]
    } else {
        layer_step(
            layer_keys_at(root, d - 1),
            side_at(d - 1),
            banned_at(root, d),
            Seq::empty(),
            0,
        )
    }
}

/// Whether an enumerated layer is well formed at depth `d`: its keys are
/// exactly the specified ones, every key is a well-formed position, and every
/// entry carries the generation result of its key.
pub open spec fn layer_wf(root: u64, layer: Seq<(Board, GameResult)>, d: int) -> bool {
    &&& keys_of(layer) == layer_keys_at(root, d)
    &&& forall|k: int|
        0 <= k < layer.len() ==> gen_post((#[trigger] layer[k]).1, layer[k].0.0, side_at(d))
    &&& forall|k: int, t: int|
        0 <= k < layer.len() && 0 <= t < 8 ==> byte_ok(
            #[trigger] spec_bytes((#[trigger] layer[k]).0.0)[t],
        )
}

/// Appends the keys of a freshly built layer to the visited keys of its
/// parity.
fn push_keys(visited: &mut Vec<u64>, keys: &Vec<u64>)
    ensures
        final(visited)@ == old(visited)@ + keys@,
{
    let mut t: usize = 0;
    while t < keys.len()
        invariant
            t <= keys@.len(),
            visited@ == old(visited)@ + keys@.subrange(0, t as int),
        decreases keys@.len() - t,
    {
        visited.push(keys[t]);
        proof {
            assert(old(visited)@ + keys@.subrange(0, t as int + 1) =~= (old(visited)@
                + keys@.subrange(0, t as int)).push(keys@[t as int]));
        }
        t = t + 1;
    }
    proof {
        assert(keys@.subrange(0, keys@.len() as int) =~= keys@);
    }
}

/// Builds the next layer from the previous one in a single pass: every
/// successor of a nonterminal entry that is neither banned nor already
/// collected is paired with its own generation result, in discovery order.
fn build_next_layer(prev: &Vec<(Board, GameResult)>, side: bool, banned: &Vec<u64>) -> (r: (
    Vec<(Board, GameResult)>,
    Vec<u64>,
))
    requires
        forall|k: int|
            0 <= k < prev@.len() ==> gen_post((#[trigger] prev@[k]).1, prev@[k].0.0, side),
        forall|k: int, t: int|
            0 <= k < prev@.len() && 0 <= t < 8 ==> byte_ok(
                #[trigger] spec_bytes((#[trigger] prev@[k]).0.0)[t],
            ),
    ensures
        r.1@ == layer_step(keys_of(prev@), side, banned@, Seq::empty(), 0),
        keys_of(r.0@) == r.1@,
        forall|k: int|
            0 <= k < r.0@.len() ==> gen_post((#[trigger] r.0@[k]).1, r.0@[k].0.0, !side),
        forall|k: int, t: int|
            0 <= k < r.0@.len() && 0 <= t < 8 ==> byte_ok(
                #[trigger] spec_bytes((#[trigger] r.0@[k]).0.0)[t],
            ),
{
    let r = worker_scan(prev, 0, prev.len(), side, banned);
    proof {
        assert(keys_of(prev@).subrange(0, prev@.len() as int) =~= keys_of(prev@));
    }
    r
}

/// Folds the keys of a worker's local result into the shared next layer:
/// each key not already present is appended, in the worker's order.  Because
/// the workers already filtered against the shared visited keys, merging is
/// a plain first-occurrence deduplication.
pub open spec fn merge_keys(acc: Seq<u64>, xs: Seq<u64>, m: int) -> Seq<u64>
    decreases xs.len() - m,
{
    if m < 0 || m >= xs.len() {
        acc
    } else {
        let acc2 = if acc.contains(xs[m]) {
            acc
        } else {
            acc.push(xs[m])
        };
        merge_keys(acc2, xs, m + 1)
    }
}

/// What the merged keys hold: everything already accumulated and everything
/// the worker found.
proof fn lemma_merge_contains(acc: Seq<u64>, xs: Seq<u64>, m: int, y: u64)
    requires
        0 <= m,
    ensures
        merge_keys(acc, xs, m).contains(y) <==> acc.contains(y) || exists|k: int|
            m <= k < xs.len() && xs[k] == y,
    decreases xs.len() - m,
{
    broadcast use vstd::seq_lib::lemma_seq_contains_after_push;

    if m < xs.len() {
        let acc2 = if acc.contains(xs[m]) {
            acc
        } else {
            acc.push(xs[m])
        };
        lemma_merge_contains(acc2, xs, m + 1, y);
        if merge_keys(acc, xs, m).contains(y) {
            if !acc.contains(y) && !(exists|k: int| m + 1 <= k < xs.len() && xs[k] == y) {
                assert(acc2.contains(y));
                assert(y == xs[m]);
            }
        } else {
            if exists|k: int| m <= k < xs.len() && xs[k] == y {
                let k = choose|k: int| m <= k < xs.len() && xs[k] == y;
                if k == m {
                    assert(acc2.contains(y));
                }
            }
        }
    }
}

/// Merging a sequence extended by one element merges the element last.
proof fn lemma_merge_push(acc: Seq<u64>, xs: Seq<u64>, x: u64, m: int)
    requires
        0 <= m <= xs.len(),
    ensures
        merge_keys(acc, xs.push(x), m) == ({
            let mm = merge_keys(acc, xs, m);
            if mm.contains(x) {
                mm
            } else {
                mm.push(x)
            }
        }),
    decreases xs.len() - m,
{
    if m == xs.len() {
        assert(xs.push(x)[m] == x);
        assert(merge_keys(acc, xs, m) == acc);
        let acc2 = if acc.contains(x) {
            acc
        } else {
            acc.push(x)
        };
        assert(merge_keys(acc2, xs.push(x), m + 1) == acc2);
    } else {
        assert(xs.push(x)[m] == xs[m]);
        let acc2 = if acc.contains(xs[m]) {
            acc
        } else {
            acc.push(xs[m])
        };
        lemma_merge_push(acc2, xs, x, m + 1);
    }
}

/// Merging distributes over the child fold: filtering a worker's locally
/// deduplicated children against the shared keys gives the same result as
/// folding the children into the shared keys directly.
proof fn lemma_merge_add_children(
    acc: Seq<u64>,
    cands: Seq<(int, int)>,
    banned: Seq<u64>,
    acc0: Seq<u64>,
    m: int,
)
    requires
        0 <= m,
    ensures
        merge_keys(acc, add_children(cands, banned, acc0, m), 0) == add_children(
            cands,
            banned,
            merge_keys(acc, acc0, 0),
            m,
        ),
    decreases cands.len() - m,
{
    if m >= cands.len() {
    } else {
        let c = cands[m].1 as u64;
        if banned.contains(c) {
            lemma_merge_add_children(acc, cands, banned, acc0, m + 1);
        } else if acc0.contains(c) {
            lemma_merge_add_children(acc, cands, banned, acc0, m + 1);
            lemma_merge_contains(acc, acc0, 0, c);
        } else {
            lemma_merge_add_children(acc, cands, banned, acc0.push(c), m + 1);
            lemma_merge_push(acc, acc0, c, 0);
            lemma_merge_contains(acc, acc0, 0, c);
        }
    }
}

/// Merging distributes over the layer fold.
proof fn lemma_merge_layer_step(
    acc: Seq<u64>,
    prev: Seq<u64>,
    side: bool,
    banned: Seq<u64>,
    acc0: Seq<u64>,
    n: int,
)
    requires
        0 <= n,
    ensures
        merge_keys(acc, layer_step(prev, side, banned, acc0, n), 0) == layer_step(
            prev,
            side,
            banned,
            merge_keys(acc, acc0, 0),
            n,
        ),
    decreases prev.len() - n,
{
    if n >= prev.len() {
    } else {
        let s = spec_bytes(prev[n]);
        if !gen_wins(s, side) && gen_cands(s, side).len() > 0 {
            lemma_merge_layer_step(
                acc,
                prev,
                side,
                banned,
                add_children(gen_cands(s, side), banned, acc0, 0),
                n + 1,
            );
            lemma_merge_add_children(acc, gen_cands(s, side), banned, acc0, 0);
        } else {
            lemma_merge_layer_step(acc, prev, side, banned, acc0, n + 1);
        }
    }
}

/// The layer fold over a concatenation continues into the second part.
proof fn lemma_layer_step_offset(
    p1: Seq<u64>,
    p2: Seq<u64>,
    side: bool,
    banned: Seq<u64>,
    acc: Seq<u64>,
    k: int,
)
    requires
        0 <= k,
    ensures
        layer_step(p1 + p2, side, banned, acc, p1.len() + k) == layer_step(p2, side, banned, acc, k),
    decreases p2.len() - k,
{
    if k >= p2.len() {
    } else {
        assert((p1 + p2)[p1.len() + k] == p2[k]);
        let s = spec_bytes(p2[k]);
        let acc2 = if !gen_wins(s, side) && gen_cands(s, side).len() > 0 {
            add_children(gen_cands(s, side), banned, acc, 0)
        } else {
            acc
        };
        lemma_layer_step_offset(p1, p2, side, banned, acc2, k + 1);
    }
}

/// The layer fold over a concatenation is the fold of the first part
/// continued by the fold of the second.
proof fn lemma_layer_step_split(
    p1: Seq<u64>,
    p2: Seq<u64>,
    side: bool,
    banned: Seq<u64>,
    acc: Seq<u64>,
    n: int,
)
    requires
        0 <= n <= p1.len(),
    ensures
        layer_step(p1 + p2, side, banned, acc, n) == layer_step(
            p2,
            side,
            banned,
            layer_step(p1, side, banned, acc, n),
            0,
        ),
    decreases p1.len() - n,
{
    if n == p1.len() {
        lemma_layer_step_offset(p1, p2, side, banned, acc, 0);
    } else {
        assert((p1 + p2)[n] == p1[n]);
        let s = spec_bytes(p1[n]);
        let acc2 = if !gen_wins(s, side) && gen_cands(s, side).len() > 0 {
            add_children(gen_cands(s, side), banned, acc, 0)
        } else {
            acc
        };
        lemma_layer_step_split(p1, p2, side, banned, acc2, n + 1);
    }
}

/// One worker of the sharded enumerator: processes the frontier entries in
/// `[from, to)` against the shared visited keys, deduplicating only within
/// its own output; cross-worker duplicates are left for the merge.
pub fn worker_scan(
    prev: &Vec<(Board, GameResult)>,
    from: usize,
    to: usize,
    side: bool,
    banned: &Vec<u64>,
) -> (r: (Vec<(Board, GameResult)>, Vec<u64>))
    requires
        from <= to <= prev@.len(),
        forall|k: int|
            0 <= k < prev@.len() ==> gen_post((#[trigger] prev@[k]).1, prev@[k].0.0, side),
        forall|k: int, t: int|
            0 <= k < prev@.len() && 0 <= t < 8 ==> byte_ok(
                #[trigger] spec_bytes((#[trigger] prev@[k]).0.0)[t],
            ),
    ensures
        r.1@ == layer_step(
            keys_of(prev@).subrange(from as int, to as int),
            side,
            banned@,
            Seq::empty(),
            0,
        ),
        keys_of(r.0@) == r.1@,
        forall|k: int|
            0 <= k < r.0@.len() ==> gen_post((#[trigger] r.0@[k]).1, r.0@[k].0.0, !side),
        forall|k: int, t: int|
            0 <= k < r.0@.len() && 0 <= t < 8 ==> byte_ok(
                #[trigger] spec_bytes((#[trigger] r.0@[k]).0.0)[t],
            ),
{
    let ghost ck = keys_of(prev@).subrange(from as int, to as int);
    let mut next: Vec<(Board, GameResult)> = Vec::new();
    let mut next_keys: Vec<u64> = Vec::new();
    let mut n: usize = from;
    while n < to
        invariant
            from <= n <= to <= prev@.len(),
            ck == keys_of(prev@).subrange(from as int, to as int),
            ck.len() == to - from,
            forall|k: int|
                0 <= k < prev@.len() ==> gen_post((#[trigger] prev@[k]).1, prev@[k].0.0, side),
            forall|k: int, t: int|
                0 <= k < prev@.len() && 0 <= t < 8 ==> byte_ok(
                    #[trigger] spec_bytes((#[trigger] prev@[k]).0.0)[t],
                ),
            keys_of(next@) == next_keys@,
            layer_step(ck, side, banned@, next_keys@, n - from) == layer_step(
                ck,
                side,
                banned@,
                Seq::empty(),
                0,
            ),
            forall|k: int|
                0 <= k < next@.len() ==> gen_post((#[trigger] next@[k]).1, next@[k].0.0, !side),
            forall|k: int, t: int|
                0 <= k < next@.len() && 0 <= t < 8 ==> byte_ok(
                    #[trigger] spec_bytes((#[trigger] next@[k]).0.0)[t],
                ),
        decreases to - n,
    {
        let ghost s = spec_bytes(prev@[n as int].0.0);
        proof {
            assert(keys_of(prev@)[n as int] == prev@[n as int].0.0);
            assert(ck[n - from] == prev@[n as int].0.0);
        }
        match &prev[n] {
            (b, GameResult::Intermediate(l)) => {
                proof {
                    assert(gen_post(prev@[n as int].1, prev@[n as int].0.0, side));
                    assert(!gen_wins(s, side) && gen_cands(s, side).len() > 0);
                    assert(cands_view(l@) == gen_cands(s, side));
                    lemma_gen_cands_ok(prev@[n as int].0.0, side);
                }
                let ghost cands = gen_cands(s, side);
                let mut m: usize = 0;
                while m < l.len()
                    invariant
                        m <= l@.len(),
                        cands == gen_cands(s, side),
                        cands_view(l@) == cands,
                        cands.len() == l@.len(),
                        from <= n < to <= prev@.len(),
                        ck == keys_of(prev@).subrange(from as int, to as int),
                        forall|k: int| 0 <= k < cands.len() ==> cand_ok(#[trigger] cands[k]),
                        keys_of(next@) == next_keys@,
                        layer_step(ck, side, banned@, add_children(cands, banned@, next_keys@, m as int), n - from + 1)
                            == layer_step(ck, side, banned@, Seq::empty(), 0),
                        forall|k: int|
                            0 <= k < next@.len() ==> gen_post(
                                (#[trigger] next@[k]).1,
                                next@[k].0.0,
                                !side,
                            ),
                        forall|k: int, t: int|
                            0 <= k < next@.len() && 0 <= t < 8 ==> byte_ok(
                                #[trigger] spec_bytes((#[trigger] next@[k]).0.0)[t],
                            ),
                    decreases l@.len() - m,
                {
                    let child = l[m].1;
                    proof {
                        assert(cands_view(l@)[m as int] == cands[m as int]);
                        assert(child.0 as int == cands[m as int].1);
                        assert(cand_ok(cands[m as int]));
                        assert(child.0 == cands[m as int].1 as u64);
                    }
                    let banned_hit = contains_u64(banned, child.0);
                    let local_hit = contains_u64(&next_keys, child.0);
                    if !banned_hit && !local_hit {
                        proof {
                            assert forall|t: int| 0 <= t < 8 implies byte_ok(
                                #[trigger] spec_bytes(child.0)[t],
                            ) by {
                                assert(byte_ok(spec_bytes(cands[m as int].1 as u64)[t]));
                            }
                        }
                        let res = child.get_next_states(!side);
                        let ghost pre_keys = next_keys@;
                        next.push((child, res));
                        next_keys.push(child.0);
                        proof {
                            assert(keys_of(next@) =~= next_keys@);
                            assert(add_children(cands, banned@, pre_keys, m as int)
                                == add_children(cands, banned@, pre_keys.push(child.0), m as int + 1));
                        }
                    } else {
                        proof {
                            assert(banned@.contains(child.0) || next_keys@.contains(child.0));
                            assert(add_children(cands, banned@, next_keys@, m as int)
                                == add_children(cands, banned@, next_keys@, m as int + 1));
                        }
                    }
                    m = m + 1;
                }
                proof {
                    assert(add_children(cands, banned@, next_keys@, l@.len() as int) == next_keys@);
                }
            },
            (b, _) => {
                proof {
                    assert(gen_post(prev@[n as int].1, prev@[n as int].0.0, side));
                    assert(!(!gen_wins(s, side) && gen_cands(s, side).len() > 0));
                    assert(layer_step(ck, side, banned@, next_keys@, n - from) == layer_step(
                        ck,
                        side,
                        banned@,
                        next_keys@,
                        n - from + 1,
                    ));
                }
            },
        }
        n = n + 1;
    }
    (next, next_keys)
}

/// Merges one worker's local layer into the shared next layer, appending
/// each entry whose position is not already present.
pub fn merge_layer(
    next: &mut Vec<(Board, GameResult)>,
    next_keys: &mut Vec<u64>,
    local: Vec<(Board, GameResult)>,
    side: bool,
)
    requires
        keys_of(old(next)@) == old(next_keys)@,
        forall|k: int|
            0 <= k < old(next)@.len() ==> gen_post(
                (#[trigger] old(next)@[k]).1,
                old(next)@[k].0.0,
                side,
            ),
        forall|k: int, t: int|
            0 <= k < old(next)@.len() && 0 <= t < 8 ==> byte_ok(
                #[trigger] spec_bytes((#[trigger] old(next)@[k]).0.0)[t],
            ),
        forall|k: int|
            0 <= k < local@.len() ==> gen_post((#[trigger] local@[k]).1, local@[k].0.0, side),
        forall|k: int, t: int|
            0 <= k < local@.len() && 0 <= t < 8 ==> byte_ok(
                #[trigger] spec_bytes((#[trigger] local@[k]).0.0)[t],
            ),
    ensures
        final(next_keys)@ == merge_keys(old(next_keys)@, keys_of(local@), 0),
        keys_of(final(next)@) == final(next_keys)@,
        forall|k: int|
            0 <= k < final(next)@.len() ==> gen_post(
                (#[trigger] final(next)@[k]).1,
                final(next)@[k].0.0,
                side,
            ),
        forall|k: int, t: int|
            0 <= k < final(next)@.len() && 0 <= t < 8 ==> byte_ok(
                #[trigger] spec_bytes((#[trigger] final(next)@[k]).0.0)[t],
            ),
{
    let ghost lk = keys_of(local@);
    let mut rest = local;
    let n_local = rest.len();
    let mut t: usize = 0;
    while rest.len() > 0
        invariant
            t <= lk.len(),
            lk.len() == n_local,
            lk.len() == t + rest@.len(),
            forall|k: int|
                0 <= k < rest@.len() ==> #[trigger] rest@[k] == local@[k + t],
            lk == keys_of(local@),
            forall|k: int|
                0 <= k < local@.len() ==> gen_post((#[trigger] local@[k]).1, local@[k].0.0, side),
            forall|k: int, t2: int|
                0 <= k < local@.len() && 0 <= t2 < 8 ==> byte_ok(
                    #[trigger] spec_bytes((#[trigger] local@[k]).0.0)[t2],
                ),
            keys_of(next@) == next_keys@,
            merge_keys(next_keys@, lk, t as int) == merge_keys(old(next_keys)@, lk, 0),
            forall|k: int|
                0 <= k < next@.len() ==> gen_post((#[trigger] next@[k]).1, next@[k].0.0, side),
            forall|k: int, t2: int|
                0 <= k < next@.len() && 0 <= t2 < 8 ==> byte_ok(
                    #[trigger] spec_bytes((#[trigger] next@[k]).0.0)[t2],
                ),
        decreases rest@.len(),
    {
        let e = rest.remove(0);
        proof {
            assert(e == local@[t as int]);
            assert(lk[t as int] == local@[t as int].0.0);
            assert forall|k: int| 0 <= k < rest@.len() implies #[trigger] rest@[k] == local@[
                k + t + 1
            ] by {}
        }
        let hit = contains_u64(next_keys, e.0 .0);
        if !hit {
            let key = e.0 .0;
            let ghost pre = next_keys@;
            next.push(e);
            next_keys.push(key);
            proof {
                assert(keys_of(next@) =~= next_keys@);
                assert(merge_keys(pre, lk, t as int) == merge_keys(pre.push(key), lk, t as int + 1));
            }
        } else {
            proof {
                assert(merge_keys(next_keys@, lk, t as int) == merge_keys(
                    next_keys@,
                    lk,
                    t as int + 1,
                ));
            }
        }
        t = t + 1;
    }
    proof {
        assert(t == lk.len());
    }
}

/// Enumerates the position graph exactly as `enumerate_layers` does, but
/// builds each new layer the way the concurrent protocol does: the frontier
/// is partitioned into contiguous chunks, one worker step scans each chunk
/// against the shared visited keys with only local deduplication, and the
/// local results are merged in order.  The contract is the same as the
/// sequential enumerator's, so both produce identical layers and in
/// particular identical per-layer cardinalities.
pub fn enumerate_layers_sharded(root: Board, max_depth: usize, workers: usize) -> (r: Vec<
    Vec<(Board, GameResult)>,
>)
    requires
        root.nibbles_ok(),
        workers >= 1,
    ensures
        1 <= r@.len() <= max_depth + 1,
        forall|d: int| 0 <= d < r@.len() ==> layer_wf(root.0, (#[trigger] r@[d])@, d),
        r@.len() <= max_depth ==> layer_keys_at(root.0, r@.len() as int).len() == 0,
{
    let r0 = root.get_next_states(true);
    let mut layers: Vec<Vec<(Board, GameResult)>> = Vec::new();
    let mut first: Vec<(Board, GameResult)> = Vec::new();
    first.push((root, r0));
    let mut first_keys: Vec<u64> = Vec::new();
    first_keys.push(root.0);
    layers.push(first);
    proof {
        assert(keys_of(layers@[0]@) =~= seq![root.0]);
        assert(layer_keys_at(root.0, 0) =~= seq![root.0]);
        assert(layer_wf(root.0, layers@[0]@, 0)) by {
            assert(gen_post(layers@[0]@[0].1, layers@[0]@[0].0.0, side_at(0)));
            assert forall|k: int, t: int|
                0 <= k < layers@[0]@.len() && 0 <= t < 8 implies byte_ok(
                #[trigger] spec_bytes((#[trigger] layers@[0]@[k]).0.0)[t],
            ) by {
                assert(byte_ok(root.bytes()[t]));
            }
        }
    }
    let mut visited_even: Vec<u64> = first_keys;
    let mut visited_odd: Vec<u64> = Vec::new();
    proof {
        assert(banned_at(root.0, 0) =~= Seq::<u64>::empty());
        assert(banned_at(root.0, 2) =~= banned_at(root.0, 0) + layer_keys_at(root.0, 0));
        assert(visited_even@ =~= banned_at(root.0, 2));
        assert(visited_odd@ =~= banned_at(root.0, 1));
    }
    let mut d: usize = 0;
    let mut stopped = false;
    while d < max_depth && !stopped
        invariant
            d + 1 == layers@.len(),
            d <= max_depth,
            workers >= 1,
            forall|dd: int| 0 <= dd < layers@.len() ==> layer_wf(root.0, (#[trigger] layers@[dd])@, dd),
            d % 2 == 0 ==> visited_even@ == banned_at(root.0, d as int + 2) && visited_odd@
                == banned_at(root.0, d as int + 1),
            d % 2 == 1 ==> visited_even@ == banned_at(root.0, d as int + 1) && visited_odd@
                == banned_at(root.0, d as int + 2),
            stopped ==> layer_keys_at(root.0, d as int + 1).len() == 0,
        decreases max_depth - d, (if stopped {
            0int
        } else {
            1int
        }),
    {
        let side = d % 2 == 0;
        proof {
            assert(side == side_at(d as int));
        }
        let (next, next_keys) = if side {
            build_next_layer_sharded(&layers[d], true, &visited_odd, workers)
        } else {
            build_next_layer_sharded(&layers[d], false, &visited_even, workers)
        };
        proof {
            assert(keys_of(layers@[d as int]@) == layer_keys_at(root.0, d as int));
            assert(next_keys@ == layer_keys_at(root.0, d as int + 1));
        }
        if next.len() == 0 {
            proof {
                assert(keys_of(next@) =~= Seq::<u64>::empty());
                assert(layer_keys_at(root.0, d as int + 1).len() == 0);
            }
            stopped = true;
        } else {
            layers.push(next);
            proof {
                assert(side_at(d as int + 1) == !side);
                assert(layer_wf(root.0, layers@[d as int + 1]@, d as int + 1));
            }
            if side {
                push_keys(&mut visited_odd, &next_keys);
                proof {
                    assert(banned_at(root.0, d as int + 3) == banned_at(root.0, d as int + 1)
                        + layer_keys_at(root.0, d as int + 1));
                    assert(visited_odd@ == banned_at(root.0, d as int + 3));
                }
            } else {
                push_keys(&mut visited_even, &next_keys);
                proof {
                    assert(banned_at(root.0, d as int + 3) == banned_at(root.0, d as int + 1)
                        + layer_keys_at(root.0, d as int + 1));
                    assert(visited_even@ == banned_at(root.0, d as int + 3));
                }
            }
            d = d + 1;
        }
    }
    layers
}

/// Builds one layer by the worker-and-merge protocol: contiguous chunks of
/// the frontier go to worker scans, whose results are merged in chunk
/// order.  The outcome equals the sequential fold over the whole frontier.
fn build_next_layer_sharded(
    prev: &Vec<(Board, GameResult)>,
    side: bool,
    banned: &Vec<u64>,
    workers: usize,
) -> (r: (Vec<(Board, GameResult)>, Vec<u64>))
    requires
        workers >= 1,
        forall|k: int|
            0 <= k < prev@.len() ==> gen_post((#[trigger] prev@[k]).1, prev@[k].0.0, side),
        forall|k: int, t: int|
            0 <= k < prev@.len() && 0 <= t < 8 ==> byte_ok(
                #[trigger] spec_bytes((#[trigger] prev@[k]).0.0)[t],
            ),
    ensures
        r.1@ == layer_step(keys_of(prev@), side, banned@, Seq::empty(), 0),
        keys_of(r.0@) == r.1@,
        forall|k: int|
            0 <= k < r.0@.len() ==> gen_post((#[trigger] r.0@[k]).1, r.0@[k].0.0, !side),
        forall|k: int, t: int|
            0 <= k < r.0@.len() && 0 <= t < 8 ==> byte_ok(
                #[trigger] spec_bytes((#[trigger] r.0@[k]).0.0)[t],
            ),
{
    let ghost pk = keys_of(prev@);
    let total = prev.len();
    let mut chunk = total / workers;
    if chunk == 0 {
        chunk = 1;
    }
    let mut next: Vec<(Board, GameResult)> = Vec::new();
    let mut next_keys: Vec<u64> = Vec::new();
    let mut start: usize = 0;
    while start < total
        invariant
            start <= total,
            total == prev@.len(),
            chunk >= 1,
            pk == keys_of(prev@),
            pk.len() == total,
            forall|k: int|
                0 <= k < prev@.len() ==> gen_post((#[trigger] prev@[k]).1, prev@[k].0.0, side),
            forall|k: int, t: int|
                0 <= k < prev@.len() && 0 <= t < 8 ==> byte_ok(
                    #[trigger] spec_bytes((#[trigger] prev@[k]).0.0)[t],
                ),
            keys_of(next@) == next_keys@,
            next_keys@ == layer_step(
                pk.subrange(0, start as int),
                side,
                banned@,
                Seq::empty(),
                0,
            ),
            forall|k: int|
                0 <= k < next@.len() ==> gen_post((#[trigger] next@[k]).1, next@[k].0.0, !side),
            forall|k: int, t: int|
                0 <= k < next@.len() && 0 <= t < 8 ==> byte_ok(
                    #[trigger] spec_bytes((#[trigger] next@[k]).0.0)[t],
                ),
        decreases total - start,
    {
        let end = if chunk > total - start {
            total
        } else {
            start + chunk
        };
        let (local, local_keys) = worker_scan(prev, start, end, side, banned);
        let ghost pre_keys = next_keys@;
        merge_layer(&mut next, &mut next_keys, local, !side);
        proof {
            let a = pk.subrange(0, start as int);
            let b = pk.subrange(start as int, end as int);
            assert(pk.subrange(0, end as int) =~= a + b);
            lemma_layer_step_split(a, b, side, banned@, Seq::empty(), 0);
            lemma_merge_layer_step(pre_keys, b, side, banned@, Seq::empty(), 0);
            assert(merge_keys(pre_keys, Seq::empty(), 0) == pre_keys);
            assert(next_keys@ == layer_step(pk.subrange(0, end as int), side, banned@, Seq::empty(), 0));
        }
        start = end;
    }
    proof {
        assert(pk.subrange(0, total as int) =~= pk);
    }
    (next, next_keys)
}

/// Two well-formed enumerations of the same root agree layer by layer: the
/// sequential and the sharded traversal discover exactly the same keys at
/// every depth, so their per-layer cardinalities are identical.
pub proof fn lemma_enumerations_agree(
    root: u64,
    a: Seq<(Board, GameResult)>,
    b: Seq<(Board, GameResult)>,
    d: int,
)
    requires
        layer_wf(root, a, d),
        layer_wf(root, b, d),
    ensures
        keys_of(a) == keys_of(b),
        a.len() == b.len(),
{
    assert(keys_of(a).len() == a.len());
    assert(keys_of(b).len() == b.len());
}

/// Enumerates the position graph from the given root, breadth first, one
/// layer per ply, up to the depth cutoff, stopping early when a generated
/// layer comes out empty.  Each entry pairs a discovered position with its
/// generation result.
pub fn enumerate_layers(root: Board, max_depth: usize) -> (r: Vec<Vec<(Board, GameResult)>>)
    requires
        root.nibbles_ok(),
    ensures
        1 <= r@.len() <= max_depth + 1,
        forall|d: int| 0 <= d < r@.len() ==> layer_wf(root.0, (#[trigger] r@[d])@, d),
        r@.len() <= max_depth ==> layer_keys_at(root.0, r@.len() as int).len() == 0,
{
    let r0 = root.get_next_states(true);
    let mut layers: Vec<Vec<(Board, GameResult)>> = Vec::new();
    let mut first: Vec<(Board, GameResult)> = Vec::new();
    first.push((root, r0));
    let mut first_keys: Vec<u64> = Vec::new();
    first_keys.push(root.0);
    layers.push(first);
    proof {
        assert(keys_of(layers@[0]@) =~= seq![root.0]);
        assert(layer_keys_at(root.0, 0) =~= seq![root.0]);
        assert(layer_wf(root.0, layers@[0]@, 0)) by {
            assert(gen_post(layers@[0]@[0].1, layers@[0]@[0].0.0, side_at(0)));
            assert forall|k: int, t: int|
                0 <= k < layers@[0]@.len() && 0 <= t < 8 implies byte_ok(
                #[trigger] spec_bytes((#[trigger] layers@[0]@[k]).0.0)[t],
            ) by {
                assert(byte_ok(root.bytes()[t]));
            }
        }
    }
    // visited keys by parity of the layer depth
    let mut visited_even: Vec<u64> = first_keys;
    let mut visited_odd: Vec<u64> = Vec::new();
    proof {
        assert(banned_at(root.0, 0) =~= Seq::<u64>::empty());
        assert(banned_at(root.0, 2) =~= banned_at(root.0, 0) + layer_keys_at(root.0, 0));
        assert(visited_even@ =~= banned_at(root.0, 2));
        assert(visited_odd@ =~= banned_at(root.0, 1));
    }
    let mut d: usize = 0;
    let mut stopped = false;
    while d < max_depth && !stopped
        invariant
            d + 1 == layers@.len(),
            d <= max_depth,
            forall|dd: int| 0 <= dd < layers@.len() ==> layer_wf(root.0, (#[trigger] layers@[dd])@, dd),
            d % 2 == 0 ==> visited_even@ == banned_at(root.0, d as int + 2) && visited_odd@
                == banned_at(root.0, d as int + 1),
            d % 2 == 1 ==> visited_even@ == banned_at(root.0, d as int + 1) && visited_odd@
                == banned_at(root.0, d as int + 2),
            stopped ==> layer_keys_at(root.0, d as int + 1).len() == 0,
        decreases max_depth - d, (if stopped { 0int } else { 1int }),
    {
        let side = d % 2 == 0;
        proof {
            assert(side == side_at(d as int));
        }
        let prev = &layers[d];
        let (next, next_keys) = if side {
            build_next_layer(prev, true, &visited_odd)
        } else {
            build_next_layer(prev, false, &visited_even)
        };
        proof {
            assert(keys_of(layers@[d as int]@) == layer_keys_at(root.0, d as int));
            assert(next_keys@ == layer_keys_at(root.0, d as int + 1));
        }
        if next.len() == 0 {
            proof {
                assert(keys_of(next@) =~= Seq::<u64>::empty());
                assert(layer_keys_at(root.0, d as int + 1).len() == 0);
            }
            stopped = true;
        } else {
            layers.push(next);
            proof {
                assert(side_at(d as int + 1) == !side);
                assert(layer_wf(root.0, layers@[d as int + 1]@, d as int + 1));
            }
            if side {
                push_keys(&mut visited_odd, &next_keys);
                proof {
                    assert(banned_at(root.0, d as int + 3) == banned_at(root.0, d as int + 1)
                        + layer_keys_at(root.0, d as int + 1));
                    assert(visited_odd@ == banned_at(root.0, d as int + 3));
                }
            } else {
                push_keys(&mut visited_even, &next_keys);
                proof {
                    assert(banned_at(root.0, d as int + 3) == banned_at(root.0, d as int + 1)
                        + layer_keys_at(root.0, d as int + 1));
                    assert(visited_even@ == banned_at(root.0, d as int + 3));
                }
            }
            d = d + 1;
        }
    }
    layers
}

} // verus!
