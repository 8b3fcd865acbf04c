use vstd::prelude::*;
use vstd::arithmetic::div_mod::{
    lemma_fundamental_div_mod_converse_div, lemma_fundamental_div_mod_converse_mod,
};
use vstd::relations::{sorted_by, total_ordering};
use vstd::seq_lib::lemma_sorted_unique;
use vstd::multiset::Multiset;

verus! {

/// A position is packed into a `u64` as eight slot bytes, least significant
/// byte first; each byte holds a piece kind in its high nibble and a square in
/// its low nibble.  This module gives the byte-level view of such an integer
/// and the canonical (sorted) packing that makes equal positions encode
/// equally.
/// Slot byte `i` (0..8) of a packed position, counting from the least
/// significant byte.
pub open spec fn spec_byte(v: u64, i: int) -> u64 {
    if i == 0 {
        v % 256
    } else if i == 1 {
        (v / 256) % 256
    } else if i == 2 {
        (v / 65536) % 256
    } else if i == 3 {
        (v / 16777216) % 256
    } else if i == 4 {
        (v / 4294967296) % 256
    } else if i == 5 {
        (v / 1099511627776) % 256
    } else if i == 6 {
        (v / 281474976710656) % 256
    } else {
        (v / 72057594037927936) % 256
    }
}

/// The eight slot bytes of a packed position, least significant first.
pub open spec fn spec_bytes(v: u64) -> Seq<u64> {
    Seq::new(8, |i: int| spec_byte(v, i))
}

/// The integer that packs the given eight bytes, least significant first.
pub open spec fn spec_pack(s: Seq<u64>) -> int {
    s[0] + s[1] * 256 + s[2] * 65536 + s[3] * 16777216 + s[4] * 4294967296 + s[5] * 1099511627776
        + s[6] * 281474976710656 + s[7] * 72057594037927936
}

/// The byte ordering used for canonicalization.
pub open spec fn le64() -> spec_fn(u64, u64) -> bool {
    |x: u64, y: u64| x <= y
}

/// The canonical form of a slot byte sequence: the same bytes in ascending
/// order.
pub open spec fn canon_bytes(s: Seq<u64>) -> Seq<u64> {
    s.sort_by(le64())
}

/// The canonical packed encoding of a slot byte sequence.
pub open spec fn canon_pack(s: Seq<u64>) -> int {
    spec_pack(canon_bytes(s))
}

pub proof fn lemma_le64_total_ordering()
    ensures
        total_ordering(le64()),
{
    assert(vstd::relations::reflexive(le64()));
    assert(vstd::relations::antisymmetric(le64()));
    assert(vstd::relations::transitive(le64()));
    assert(vstd::relations::strongly_connected(le64()));
}

/// Sorting leaves the multiset of bytes unchanged, and the canonical form of
/// an already sorted sequence is the sequence itself.
pub proof fn lemma_canon_bytes_ensures(s: Seq<u64>)
    ensures
        canon_bytes(s).to_multiset() == s.to_multiset(),
        canon_bytes(s).len() == s.len(),
        sorted_by(canon_bytes(s), le64()),
{
    s.lemma_sort_by_ensures(le64());
    broadcast use vstd::seq_lib::group_to_multiset_ensures;

    assert(canon_bytes(s).to_multiset() =~= s.to_multiset());
    assert(canon_bytes(s).to_multiset().len() == s.to_multiset().len());
}

/// A sorted sequence is its own canonical form.
pub proof fn lemma_canon_of_sorted(s: Seq<u64>)
    requires
        sorted_by(s, le64()),
    ensures
        canon_bytes(s) == s,
{
    lemma_canon_bytes_ensures(s);
    lemma_le64_total_ordering();
    lemma_sorted_unique(canon_bytes(s), s, le64());
}

/// A pointwise property of the elements carries over to any sequence with the
/// same multiset.
pub proof fn lemma_pointwise_transfer(a: Seq<u64>, b: Seq<u64>, p: spec_fn(u64) -> bool)
    requires
        a.to_multiset() == b.to_multiset(),
        forall|i: int| 0 <= i < a.len() ==> p(#[trigger] a[i]),
    ensures
        forall|i: int| 0 <= i < b.len() ==> p(#[trigger] b[i]),
{
    broadcast use vstd::seq_lib::group_to_multiset_ensures;

    assert forall|i: int| 0 <= i < b.len() implies p(#[trigger] b[i]) by {
        assert(b.contains(b[i]));
        assert(b.to_multiset().count(b[i]) > 0);
        assert(a.contains(b[i]));
        let j = choose|j: int| 0 <= j < a.len() && a[j] == b[i];
        assert(p(a[j]));
    }
}

/// Unpacking the packed form of eight bytes gives the bytes back.
pub proof fn lemma_unpack_pack(s: Seq<u64>)
    requires
        s.len() == 8,
        forall|i: int| 0 <= i < 8 ==> #[trigger] s[i] < 256,
    ensures
        0 <= spec_pack(s) < 0x10000000000000000,
        forall|i: int| 0 <= i < 8 ==> #[trigger] spec_byte(spec_pack(s) as u64, i) == s[i],
{
    let p = spec_pack(s);
    assert(0 <= p < 0x10000000000000000);
    let v = p as u64;
    assert(v as int == p);
    let s0 = s[0] as int;
    let s1 = s[1] as int;
    let s2 = s[2] as int;
    let s3 = s[3] as int;
    let s4 = s[4] as int;
    let s5 = s[5] as int;
    let s6 = s[6] as int;
    let s7 = s[7] as int;
    // byte 0
    let q1 = s1 + s2 * 256 + s3 * 65536 + s4 * 16777216 + s5 * 4294967296 + s6 * 1099511627776
        + s7 * 281474976710656;
    lemma_fundamental_div_mod_converse_mod(p, 256, q1 + (s0 / 256) * 0, s0);
    assert(p == q1 * 256 + s0);
    lemma_fundamental_div_mod_converse_mod(p, 256, q1, s0);
    lemma_fundamental_div_mod_converse_div(p, 256, q1, s0);
    assert(spec_byte(v, 0) == s[0]);
    // byte 1
    let q2 = s2 + s3 * 256 + s4 * 65536 + s5 * 16777216 + s6 * 4294967296 + s7 * 1099511627776;
    lemma_fundamental_div_mod_converse_div(p, 65536, q2, s0 + s1 * 256);
    lemma_fundamental_div_mod_converse_mod(q1, 256, q2, s1);
    lemma_fundamental_div_mod_converse_div(q1, 256, q2, s1);
    assert(spec_byte(v, 1) == s[1]);
    // byte 2
    let q3 = s3 + s4 * 256 + s5 * 65536 + s6 * 16777216 + s7 * 4294967296;
    lemma_fundamental_div_mod_converse_div(p, 65536, q2, s0 + s1 * 256);
    lemma_fundamental_div_mod_converse_mod(q2, 256, q3, s2);
    lemma_fundamental_div_mod_converse_div(q2, 256, q3, s2);
    assert(v / 65536 == q2) by {
        lemma_fundamental_div_mod_converse_div(p, 65536, q2, s0 + s1 * 256);
    }
    assert(spec_byte(v, 2) == s[2]);
    // byte 3
    let q4 = s4 + s5 * 256 + s6 * 65536 + s7 * 16777216;
    assert(v / 16777216 == q3) by {
        lemma_fundamental_div_mod_converse_div(p, 16777216, q3, s0 + s1 * 256 + s2 * 65536);
    }
    lemma_fundamental_div_mod_converse_mod(q3, 256, q4, s3);
    assert(spec_byte(v, 3) == s[3]);
    // byte 4
    let q5 = s5 + s6 * 256 + s7 * 65536;
    assert(v / 4294967296 == q4) by {
        lemma_fundamental_div_mod_converse_div(
            p,
            4294967296,
            q4,
            s0 + s1 * 256 + s2 * 65536 + s3 * 16777216,
        );
    }
    lemma_fundamental_div_mod_converse_mod(q4, 256, q5, s4);
    assert(spec_byte(v, 4) == s[4]);
    // byte 5
    let q6 = s6 + s7 * 256;
    assert(v / 1099511627776 == q5) by {
        lemma_fundamental_div_mod_converse_div(
            p,
            1099511627776,
            q5,
            s0 + s1 * 256 + s2 * 65536 + s3 * 16777216 + s4 * 4294967296,
        );
    }
    lemma_fundamental_div_mod_converse_mod(q5, 256, q6, s5);
    assert(spec_byte(v, 5) == s[5]);
    // byte 6
    let q7 = s7;
    assert(v / 281474976710656 == q6) by {
        lemma_fundamental_div_mod_converse_div(
            p,
            281474976710656,
            q6,
            s0 + s1 * 256 + s2 * 65536 + s3 * 16777216 + s4 * 4294967296 + s5 * 1099511627776,
        );
    }
    lemma_fundamental_div_mod_converse_mod(q6, 256, q7, s6);
    assert(spec_byte(v, 6) == s[6]);
    // byte 7
    assert(v / 72057594037927936 == q7) by {
        lemma_fundamental_div_mod_converse_div(
            p,
            72057594037927936,
            q7,
            s0 + s1 * 256 + s2 * 65536 + s3 * 16777216 + s4 * 4294967296 + s5 * 1099511627776 + s6
                * 281474976710656,
        );
    }
    assert(v / 72057594037927936 < 256);
    assert(spec_byte(v, 7) == s[7]);
}

/// Packing the unpacked bytes of an integer gives the integer back.
pub proof fn lemma_pack_unpack(v: u64)
    ensures
        spec_pack(spec_bytes(v)) == v,
{
    let x = v as int;
    vstd::arithmetic::div_mod::lemma_fundamental_div_mod(x, 256);
    vstd::arithmetic::div_mod::lemma_div_denominator(x, 256, 256);
    vstd::arithmetic::div_mod::lemma_fundamental_div_mod(x / 256, 256);
    vstd::arithmetic::div_mod::lemma_div_denominator(x, 65536, 256);
    vstd::arithmetic::div_mod::lemma_fundamental_div_mod(x / 65536, 256);
    vstd::arithmetic::div_mod::lemma_div_denominator(x, 16777216, 256);
    vstd::arithmetic::div_mod::lemma_fundamental_div_mod(x / 16777216, 256);
    vstd::arithmetic::div_mod::lemma_div_denominator(x, 4294967296, 256);
    vstd::arithmetic::div_mod::lemma_fundamental_div_mod(x / 4294967296, 256);
    vstd::arithmetic::div_mod::lemma_div_denominator(x, 1099511627776, 256);
    vstd::arithmetic::div_mod::lemma_fundamental_div_mod(x / 1099511627776, 256);
    vstd::arithmetic::div_mod::lemma_div_denominator(x, 281474976710656, 256);
    vstd::arithmetic::div_mod::lemma_fundamental_div_mod(x / 281474976710656, 256);
    vstd::arithmetic::div_mod::lemma_div_denominator(x, 72057594037927936, 256);
    assert(x / 72057594037927936 < 256) by {
        vstd::arithmetic::div_mod::lemma_div_is_ordered(x, 0xffffffffffffffff, 72057594037927936);
    }
    vstd::arithmetic::div_mod::lemma_small_mod((x / 72057594037927936) as nat, 256);
}

/// The eight slot bytes of a packed position, least significant first.
pub fn board_bytes(v: u64) -> (r: Vec<u64>)
    ensures
        r@ == spec_bytes(v),
        r@.len() == 8,
        forall|i: int| 0 <= i < 8 ==> #[trigger] r@[i] < 256,
{
    let mut r: Vec<u64> = Vec::new();
    r.push(v % 256);
    r.push((v / 256) % 256);
    r.push((v / 65536) % 256);
    r.push((v / 16777216) % 256);
    r.push((v / 4294967296) % 256);
    r.push((v / 1099511627776) % 256);
    r.push((v / 281474976710656) % 256);
    r.push((v / 72057594037927936) % 256);
    proof {
        assert(r@ =~= spec_bytes(v));
    }
    r
}

/// Packs eight bytes into one integer, least significant first.
#[verifier::rlimit(60)]
pub fn pack_bytes(s: &Vec<u64>) -> (r: u64)
    requires
        s@.len() == 8,
        forall|i: int| 0 <= i < 8 ==> #[trigger] s@[i] < 256,
    ensures
        r as int == spec_pack(s@),
        spec_bytes(r) == s@,
{
    proof {
        lemma_unpack_pack(s@);
    }
    let r = s[0] + s[1] * 256 + s[2] * 65536 + s[3] * 16777216 + s[4] * 4294967296 + s[5]
        * 1099511627776 + s[6] * 281474976710656 + s[7] * 72057594037927936;
    proof {
        assert(spec_bytes(r) =~= s@);
    }
    r
}

/// Sorts the given bytes into ascending order.
pub fn sort_bytes(v: Vec<u64>) -> (r: Vec<u64>)
    ensures
        r@ == canon_bytes(v@),
        r@.to_multiset() == v@.to_multiset(),
        sorted_by(r@, le64()),
        r@.len() == v@.len(),
{
    broadcast use vstd::seq_lib::group_to_multiset_ensures;

    let mut src = v;
    let mut out: Vec<u64> = Vec::new();
    let ghost orig = src@;
    while src.len() > 0
        invariant
            out@.to_multiset().add(src@.to_multiset()) =~= orig.to_multiset(),
            sorted_by(out@, le64()),
            forall|i: int, j: int|
                0 <= i < out@.len() && 0 <= j < src@.len() ==> #[trigger] out@[i]
                    <= #[trigger] src@[j],
        decreases src.len(),
    {
        let mut min_idx: usize = 0;
        let mut k: usize = 1;
        while k < src.len()
            invariant
                0 < src@.len(),
                min_idx < k <= src@.len(),
                forall|j: int| 0 <= j < k ==> src@[min_idx as int] <= #[trigger] src@[j],
            decreases src.len() - k,
        {
            if src[k] < src[min_idx] {
                min_idx = k;
            }
            k = k + 1;
        }
        let m = src[min_idx];
        proof {
            broadcast use vstd::seq_lib::group_to_multiset_ensures;

            assert(src@.remove(min_idx as int).to_multiset() =~= src@.to_multiset().remove(m));
            assert forall|j: int| 0 <= j < src@.remove(min_idx as int).len() implies m
                <= #[trigger] src@.remove(min_idx as int)[j] by {
                if j < min_idx {
                    assert(src@.remove(min_idx as int)[j] == src@[j]);
                } else {
                    assert(src@.remove(min_idx as int)[j] == src@[j + 1]);
                }
            }
            assert(out@.push(m).to_multiset() =~= out@.to_multiset().insert(m));
            assert(out@.to_multiset().insert(m).add(src@.to_multiset().remove(m)) =~= out@
                .to_multiset().add(src@.to_multiset()));
        }
        out.push(m);
        src.remove(min_idx);
    }
    proof {
        assert(src@.to_multiset() =~= Multiset::<u64>::empty());
        assert(out@.to_multiset() =~= orig.to_multiset());
        lemma_canon_bytes_ensures(orig);
        lemma_le64_total_ordering();
        lemma_sorted_unique(out@, canon_bytes(orig), le64());
    }
    out
}

/// Packs the given slot bytes canonically: equal byte multisets give equal
/// encodings.
pub fn canon_encode(bytes: Vec<u64>) -> (r: u64)
    requires
        bytes@.len() == 8,
        forall|i: int| 0 <= i < 8 ==> #[trigger] bytes@[i] < 256,
    ensures
        r as int == canon_pack(bytes@),
        spec_bytes(r) == canon_bytes(bytes@),
{
    let ghost orig = bytes@;
    let sorted = sort_bytes(bytes);
    proof {
        lemma_pointwise_transfer(orig, sorted@, |b: u64| b < 256);
        assert forall|i: int| 0 <= i < 8 implies #[trigger] sorted@[i] < 256 by {
            assert((|b: u64| b < 256)(sorted@[i]));
        }
    }
    let r = pack_bytes(&sorted);
    r
}

/// Whether the sequence holds the given value.
pub fn contains_u64(v: &Vec<u64>, x: u64) -> (r: bool)
    ensures
        r == v@.contains(x),
{
    let mut i: usize = 0;
    while i < v.len()
        invariant
            i <= v@.len(),
            forall|j: int| 0 <= j < i ==> #[trigger] v@[j] != x,
        decreases v@.len() - i,
    {
        if v[i] == x {
            return true;
        }
        i = i + 1;
    }
    false
}

} // verus!
