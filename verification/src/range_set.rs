use vstd::prelude::*;
use crate::board::Board;

verus! {

/// A set of encoded positions stored as sorted elements plus a compressed
/// list of inclusive ranges of consecutive values, rebuilt after every
/// insertion; membership is answered from the ranges alone.
/// Whether a value falls into one of the inclusive ranges.
pub open spec fn in_ranges(rs: Seq<(u64, u64)>, x: u64) -> bool {
    exists|i: int| 0 <= i < rs.len() && (#[trigger] rs[i]).0 <= x <= rs[i].1
}

/// Membership in a range list extended by one range.
proof fn lemma_in_ranges_push(rs: Seq<(u64, u64)>, r: (u64, u64), x: u64)
    ensures
        in_ranges(rs.push(r), x) <==> (in_ranges(rs, x) || (r.0 <= x <= r.1)),
{
    if in_ranges(rs.push(r), x) {
        let i = choose|i: int| 0 <= i < rs.push(r).len() && (#[trigger] rs.push(r)[i]).0 <= x <= rs.push(r)[i].1;
        if i < rs.len() {
            assert(rs[i] == rs.push(r)[i]);
            assert(in_ranges(rs, x));
        } else {
            assert(rs.push(r)[i] == r);
        }
    }
    if in_ranges(rs, x) {
        let i = choose|i: int| 0 <= i < rs.len() && (#[trigger] rs[i]).0 <= x <= rs[i].1;
        assert(rs.push(r)[i] == rs[i]);
        assert(in_ranges(rs.push(r), x));
    }
    if r.0 <= x <= r.1 {
        assert(rs.push(r)[rs.len() as int] == r);
        assert(in_ranges(rs.push(r), x));
    }
}

/// A set of encoded positions with compressed consecutive ranges.
pub struct RangeSet {
    elements: Vec<Board>,
    ranges: Vec<(u64, u64)>,
}

impl RangeSet {
    /// The stored position values, in order.
    pub closed spec fn values(self) -> Seq<u64> {
        self.elements@.map_values(|b: Board| b.0)
    }

    /// The structural invariant: the elements are sorted, and the ranges
    /// are the maximal runs of consecutive stored values, in ascending
    /// order — each range is nonempty, successive ranges are separated by a
    /// gap, and together they hold exactly the stored values.
    pub closed spec fn wf(self) -> bool {
        &&& forall|i: int, j: int|
            0 <= i < j < self.values().len() ==> #[trigger] self.values()[i]
                <= #[trigger] self.values()[j]
        &&& forall|x: u64| in_ranges(self.ranges@, x) <==> self.values().contains(x)
        &&& forall|i: int|
            0 <= i < self.ranges@.len() ==> (#[trigger] self.ranges@[i]).0 <= self.ranges@[i].1
        &&& forall|i: int|
            0 <= i < self.ranges@.len() - 1 ==> (#[trigger] self.ranges@[i]).1 + 1 < self.ranges@[
                i + 1
            ].0
    }

    /// An empty set.
    pub fn new() -> (r: Self)
        ensures
            r.wf(),
            r.values().len() == 0,
    {
        let r = RangeSet { elements: Vec::new(), ranges: Vec::new() };
        proof {
            assert(r.values() =~= Seq::<u64>::empty());
            assert forall|x: u64| !in_ranges(r.ranges@, x) by {}
            assert forall|x: u64| !r.values().contains(x) by {}
        }
        r
    }

    /// Inserts a position, keeping the elements sorted and rebuilding the
    /// ranges.
    pub fn insert(&mut self, item: Board)
        requires
            old(self).wf(),
        ensures
            final(self).wf(),
            final(self).values().to_multiset() == old(self).values().to_multiset().insert(item.0),
    {
        broadcast use vstd::seq_lib::group_to_multiset_ensures;

        let ghost vals0 = self.values();
        let mut index: usize = 0;
        while index < self.elements.len() && self.elements[index].0 < item.0
            invariant
                index <= self.elements@.len(),
                vals0 == self.values(),
                self.values().len() == self.elements@.len(),
                forall|k: int| 0 <= k < index ==> #[trigger] self.values()[k] < item.0,
            decreases self.elements@.len() - index,
        {
            proof {
                assert(self.values()[index as int] == self.elements@[index as int].0);
            }
            index = index + 1;
        }
        proof {
            if (index as int) < vals0.len() {
                assert(vals0[index as int] == self.elements@[index as int].0);
                assert(vals0[index as int] >= item.0);
            }
        }
        self.elements.insert(index, item);
        proof {
            assert(self.values() =~= vals0.insert(index as int, item.0));
            assert(self.values().to_multiset() =~= vals0.to_multiset().insert(item.0)) by {
                assert(vals0.insert(index as int, item.0) =~= vals0.subrange(0, index as int).push(
                    item.0,
                ) + vals0.subrange(index as int, vals0.len() as int));
                vstd::seq_lib::lemma_multiset_commutative(
                    vals0.subrange(0, index as int).push(item.0),
                    vals0.subrange(index as int, vals0.len() as int),
                );
                vstd::seq_lib::lemma_multiset_commutative(
                    vals0.subrange(0, index as int),
                    vals0.subrange(index as int, vals0.len() as int),
                );
                assert(vals0.subrange(0, index as int) + vals0.subrange(
                    index as int,
                    vals0.len() as int,
                ) =~= vals0);
            }
            assert forall|i: int, j: int|
                0 <= i < j < self.values().len() implies #[trigger] self.values()[i]
                <= #[trigger] self.values()[j] by {
                let v = self.values();
                if j < index {
                    assert(v[i] == vals0[i] && v[j] == vals0[j]);
                } else if i < index && j == index {
                    assert(v[i] == vals0[i] && v[j] == item.0);
                } else if i < index {
                    assert(v[i] == vals0[i] && v[j] == vals0[j - 1]);
                } else if i == index {
                    assert(v[i] == item.0 && v[j] == vals0[j - 1]);
                    assert(vals0[j - 1] >= vals0[index as int] >= item.0);
                } else {
                    assert(v[i] == vals0[i - 1] && v[j] == vals0[j - 1]);
                }
            }
        }
        self.update_ranges();
    }

    /// Whether a position value is in the set, answered from the ranges.
    pub fn contains(&self, item: u64) -> (r: bool)
        requires
            self.wf(),
        ensures
            r == self.values().contains(item),
    {
        let mut i: usize = 0;
        while i < self.ranges.len()
            invariant
                self.wf(),
                i <= self.ranges@.len(),
                forall|k: int| 0 <= k < i ==> !((#[trigger] self.ranges@[k]).0 <= item
                    <= self.ranges@[k].1),
            decreases self.ranges@.len() - i,
        {
            let (start, end) = self.ranges[i];
            if start <= item && item <= end {
                proof {
                    assert(in_ranges(self.ranges@, item));
                    assert(self.values().contains(item));
                }
                return true;
            }
            i = i + 1;
        }
        proof {
            assert(!in_ranges(self.ranges@, item)) by {
                if in_ranges(self.ranges@, item) {
                    let k = choose|k: int|
                        0 <= k < self.ranges@.len() && (#[trigger] self.ranges@[k]).0 <= item
                            <= self.ranges@[k].1;
                }
            }
            assert(!self.values().contains(item));
        }
        false
    }

    /// Rebuilds the ranges from the sorted elements: consecutive values
    /// coalesce into one inclusive range.
    fn update_ranges(&mut self)
        requires
            old(self).elements@.len() > 0,
            forall|i: int, j: int|
                0 <= i < j < old(self).values().len() ==> #[trigger] old(self).values()[i]
                    <= #[trigger] old(self).values()[j],
        ensures
            final(self).elements@ == old(self).elements@,
            forall|i: int, j: int|
                0 <= i < j < final(self).values().len() ==> #[trigger] final(self).values()[i]
                    <= #[trigger] final(self).values()[j],
            forall|x: u64| in_ranges(final(self).ranges@, x) <==> final(self).values().contains(x),
            final(self).wf(),
    {
        let ghost vals = self.values();
        self.ranges = Vec::new();
        let mut start: u64 = self.elements[0].0;
        let mut end: u64 = start;
        let mut i: usize = 1;
        proof {
            assert(vals[0] == self.elements@[0].0);
            assert forall|x: u64|
                ((in_ranges(self.ranges@, x) || (start <= x <= end)) <==> vals.subrange(
                    0,
                    1,
                ).contains(x)) by {
                assert(vals.subrange(0, 1) =~= seq![vals[0]]);
                if in_ranges(self.ranges@, x) {
                    let k = choose|k: int|
                        0 <= k < self.ranges@.len() && (#[trigger] self.ranges@[k]).0 <= x
                            <= self.ranges@[k].1;
                }
                if x == vals[0] {
                    assert(vals.subrange(0, 1)[0] == x);
                    assert(vals.subrange(0, 1).contains(x));
                }
                if vals.subrange(0, 1).contains(x) {
                    let k = choose|k: int|
                        0 <= k < vals.subrange(0, 1).len() && vals.subrange(0, 1)[k] == x;
                    assert(k == 0);
                }
            }
        }
        while i < self.elements.len()
            invariant
                1 <= i <= self.elements@.len(),
                self.elements@ == old(self).elements@,
                vals == self.values(),
                vals.len() == self.elements@.len(),
                forall|a: int, b: int|
                    0 <= a < b < vals.len() ==> #[trigger] vals[a] <= #[trigger] vals[b],
                start <= end,
                end == vals[i - 1],
                forall|x: u64|
                    (in_ranges(self.ranges@, x) || (start <= x <= end)) <==> vals.subrange(
                        0,
                        i as int,
                    ).contains(x),
                forall|x: u64| in_ranges(self.ranges@, x) ==> x < start,
                forall|t: int|
                    0 <= t < self.ranges@.len() ==> (#[trigger] self.ranges@[t]).0
                        <= self.ranges@[t].1,
                forall|t: int|
                    0 <= t < self.ranges@.len() ==> (#[trigger] self.ranges@[t]).1 + 1 < start,
                forall|t: int|
                    0 <= t < self.ranges@.len() - 1 ==> (#[trigger] self.ranges@[t]).1 + 1
                        < self.ranges@[t + 1].0,
            decreases self.elements@.len() - i,
        {
            let v = self.elements[i].0;
            proof {
                assert(vals[i as int] == self.elements@[i as int].0);
                assert(vals[i - 1] <= vals[i as int]);
            }
            let ghost rs0 = self.ranges@;
            let ghost start0 = start;
            let ghost end0 = end;
            if v > end && v - 1 == end {
                end = v;
                proof {
                    assert forall|x: u64|
                        ((in_ranges(self.ranges@, x) || (start <= x <= end)) <==> vals.subrange(
                            0,
                            i as int + 1,
                        ).contains(x)) by {
                        vstd::seq_lib::lemma_seq_contains_after_push(
                            vals.subrange(0, i as int),
                            vals[i as int],
                            x,
                        );
                        assert(vals.subrange(0, i as int + 1) =~= vals.subrange(0, i as int).push(
                            vals[i as int],
                        ));
                        assert((in_ranges(rs0, x) || (start0 <= x <= end0)) <==> vals.subrange(
                            0,
                            i as int,
                        ).contains(x));
                        if start <= x <= end && !(start0 <= x <= end0) {
                            assert(x == v);
                        }
                    }
                }
            } else if v > end {
                self.ranges.push((start, end));
                start = v;
                end = v;
                proof {
                    assert forall|x: u64|
                        ((in_ranges(self.ranges@, x) || (start <= x <= end)) <==> vals.subrange(
                            0,
                            i as int + 1,
                        ).contains(x)) by {
                        lemma_in_ranges_push(rs0, (start0, end0), x);
                        vstd::seq_lib::lemma_seq_contains_after_push(
                            vals.subrange(0, i as int),
                            vals[i as int],
                            x,
                        );
                        assert(vals.subrange(0, i as int + 1) =~= vals.subrange(0, i as int).push(
                            vals[i as int],
                        ));
                        assert((in_ranges(rs0, x) || (start0 <= x <= end0)) <==> vals.subrange(
                            0,
                            i as int,
                        ).contains(x));
                    }
                    assert forall|x: u64| in_ranges(self.ranges@, x) implies x < start by {
                        lemma_in_ranges_push(rs0, (start0, end0), x);
                        assert(in_ranges(rs0, x) || (start0 <= x <= end0));
                    }
                    assert forall|t: int|
                        0 <= t < self.ranges@.len() implies (#[trigger] self.ranges@[t]).0
                        <= self.ranges@[t].1 by {
                        if t < rs0.len() {
                            assert(self.ranges@[t] == rs0[t]);
                        } else {
                            assert(self.ranges@[t] == (start0, end0));
                        }
                    }
                    assert forall|t: int|
                        0 <= t < self.ranges@.len() implies (#[trigger] self.ranges@[t]).1 + 1
                        < start by {
                        if t < rs0.len() {
                            assert(self.ranges@[t] == rs0[t]);
                            assert(rs0[t].1 + 1 < start0);
                        } else {
                            assert(self.ranges@[t] == (start0, end0));
                        }
                    }
                    assert forall|t: int|
                        0 <= t < self.ranges@.len() - 1 implies (#[trigger] self.ranges@[t]).1 + 1
                        < self.ranges@[t + 1].0 by {
                        if t + 1 < rs0.len() {
                            assert(self.ranges@[t] == rs0[t] && self.ranges@[t + 1] == rs0[t + 1]);
                        } else {
                            assert(self.ranges@[t] == rs0[t]);
                            assert(self.ranges@[t + 1] == (start0, end0));
                            assert(rs0[t].1 + 1 < start0);
                        }
                    }
                }
            } else {
                proof {
                    assert(v == end);
                    assert forall|x: u64|
                        ((in_ranges(self.ranges@, x) || (start <= x <= end)) <==> vals.subrange(
                            0,
                            i as int + 1,
                        ).contains(x)) by {
                        vstd::seq_lib::lemma_seq_contains_after_push(
                            vals.subrange(0, i as int),
                            vals[i as int],
                            x,
                        );
                        assert(vals.subrange(0, i as int + 1) =~= vals.subrange(0, i as int).push(
                            vals[i as int],
                        ));
                        assert((in_ranges(rs0, x) || (start0 <= x <= end0)) <==> vals.subrange(
                            0,
                            i as int,
                        ).contains(x));
                    }
                }
            }
            i = i + 1;
        }
        let ghost rs0 = self.ranges@;
        self.ranges.push((start, end));
        proof {
            assert(vals.subrange(0, vals.len() as int) =~= vals);
            assert forall|x: u64| in_ranges(self.ranges@, x) <==> vals.contains(x) by {
                lemma_in_ranges_push(rs0, (start, end), x);
                assert((in_ranges(rs0, x) || (start <= x <= end)) <==> vals.subrange(
                    0,
                    vals.len() as int,
                ).contains(x));
            }
            assert forall|x: u64|
                in_ranges(self.ranges@, x) <==> final(self).values().contains(x) by {
                assert(in_ranges(self.ranges@, x) <==> vals.contains(x));
            }
            assert forall|t: int|
                0 <= t < self.ranges@.len() implies (#[trigger] self.ranges@[t]).0
                <= self.ranges@[t].1 by {
                if t < rs0.len() {
                    assert(self.ranges@[t] == rs0[t]);
                } else {
                    assert(self.ranges@[t] == (start, end));
                }
            }
            assert forall|t: int|
                0 <= t < self.ranges@.len() - 1 implies (#[trigger] self.ranges@[t]).1 + 1
                < self.ranges@[t + 1].0 by {
                if t + 1 < rs0.len() {
                    assert(self.ranges@[t] == rs0[t] && self.ranges@[t + 1] == rs0[t + 1]);
                } else {
                    assert(self.ranges@[t] == rs0[t]);
                    assert(self.ranges@[t + 1] == (start, end));
                    assert(rs0[t].1 + 1 < start);
                }
            }
        }
    }
}

} // verus!
