// SPDX-License-Identifier: Apache-2.0

//! The mathematical model: which positions of a byte sequence hold a 1, and
//! in which order they are listed.

use vstd::prelude::*;

verus! {

/// Whether bit number `k` of `byte` is 1, bit 0 being the least significant.
pub open spec fn bit_of_byte(byte: u8, k: u8) -> bool {
    k < 8 && (byte >> k) & 1 == 1
}

/// The number of bit positions that `bytes` has.
pub open spec fn bit_count(bytes: Seq<u8>) -> nat {
    8 * bytes.len()
}

/// Whether `p` is a position of `bytes` whose bit is 1: bit `p % 8` of byte
/// `p / 8`. No position outside `bytes` is set.
pub open spec fn bit_is_set(bytes: Seq<u8>, p: int) -> bool {
    0 <= p < bit_count(bytes) && bit_of_byte(bytes[p / 8], (p % 8) as u8)
}

/// The set positions of `bytes` that are not below `start`, lowest first.
pub open spec fn positions_from(bytes: Seq<u8>, start: int) -> Seq<int>
    decreases bit_count(bytes) - start,
{
    if start >= bit_count(bytes) {
        Seq::empty()
    } else if bit_is_set(bytes, start) {
        seq![start] + positions_from(bytes, start + 1)
    } else {
        positions_from(bytes, start + 1)
    }
}

/// All set positions of `bytes`, lowest first.
pub open spec fn set_positions(bytes: Seq<u8>) -> Seq<int> {
    positions_from(bytes, 0)
}

/// A list of machine-sized positions, read as mathematical integers.
pub open spec fn as_positions(v: Seq<usize>) -> Seq<int> {
    v.map_values(|p: usize| p as int)
}

/// Each element of `s` is below every element that comes after it.
pub open spec fn strictly_ascending(s: Seq<int>) -> bool {
    forall|i: int, j: int| 0 <= i < j < s.len() ==> s[i] < s[j]
}

/// Every element of `positions_from(bytes, start)` is a set position of
/// `bytes` that is not below `start`.
pub proof fn lemma_positions_from_sound(bytes: Seq<u8>, start: int)
    ensures
        forall|i: int|
            0 <= i < positions_from(bytes, start).len() ==> {
                &&& start <= #[trigger] positions_from(bytes, start)[i]
                &&& bit_is_set(bytes, positions_from(bytes, start)[i])
            },
    decreases bit_count(bytes) - start,
{
    if start < bit_count(bytes) {
        lemma_positions_from_sound(bytes, start + 1);
        let here = positions_from(bytes, start);
        let rest = positions_from(bytes, start + 1);
        assert forall|i: int| 0 <= i < here.len() implies start <= #[trigger] here[i]
            && bit_is_set(bytes, here[i]) by {
            if !bit_is_set(bytes, start) {
                assert(here[i] == rest[i]);
            } else if i > 0 {
                assert(here[i] == rest[i - 1]);
            }
        }
    }
}

/// `positions_from(bytes, start)` lists its positions in strictly ascending
/// order.
pub proof fn lemma_positions_from_ascending(bytes: Seq<u8>, start: int)
    ensures
        strictly_ascending(positions_from(bytes, start)),
    decreases bit_count(bytes) - start,
{
    if start < bit_count(bytes) {
        lemma_positions_from_ascending(bytes, start + 1);
        lemma_positions_from_sound(bytes, start + 1);
        let here = positions_from(bytes, start);
        let rest = positions_from(bytes, start + 1);
        assert forall|i: int, j: int| 0 <= i < j < here.len() implies here[i] < here[j] by {
            if bit_is_set(bytes, start) {
                assert(here[j] == rest[j - 1]);
                if i > 0 {
                    assert(here[i] == rest[i - 1]);
                }
            }
        }
    }
}

/// Every set position of `bytes` that is not below `start` occurs in
/// `positions_from(bytes, start)`.
pub proof fn lemma_positions_from_complete(bytes: Seq<u8>, start: int, p: int)
    requires
        start <= p,
        bit_is_set(bytes, p),
    ensures
        positions_from(bytes, start).contains(p),
    decreases p - start,
{
    if start < p {
        lemma_positions_from_complete(bytes, start + 1, p);
        let rest = positions_from(bytes, start + 1);
        let i: int = choose|i: int| 0 <= i < rest.len() && rest[i] == p;
        if bit_is_set(bytes, start) {
            assert(positions_from(bytes, start)[i + 1] == p);
        }
    } else {
        assert(positions_from(bytes, start)[0] == p);
    }
}

/// `positions_from(bytes, start)` holds exactly the set positions of `bytes`
/// that are not below `start`, each of them once.
pub proof fn lemma_positions_from_exact(bytes: Seq<u8>, start: int)
    ensures
        forall|p: int| #[trigger]
            positions_from(bytes, start).contains(p) <==> start <= p && bit_is_set(bytes, p),
        positions_from(bytes, start).no_duplicates(),
{
    let here = positions_from(bytes, start);
    lemma_positions_from_sound(bytes, start);
    lemma_positions_from_ascending(bytes, start);
    assert forall|p: int| #[trigger] here.contains(p) <==> start <= p && bit_is_set(bytes, p) by {
        if start <= p && bit_is_set(bytes, p) {
            lemma_positions_from_complete(bytes, start, p);
        }
    }
    assert forall|i: int, j: int| 0 <= i < here.len() && 0 <= j < here.len() && i != j implies here[i]
        != here[j] by {
        assert(i < j || j < i);
    }
}

/// Positions that are not set add nothing: where no position from `start`
/// up to `p` is set, the list from `start` is the list from `p`.
pub proof fn lemma_positions_from_skips_unset(bytes: Seq<u8>, start: int, p: int)
    requires
        start <= p,
        forall|q: int| start <= q < p ==> !bit_is_set(bytes, q),
    ensures
        positions_from(bytes, start) == positions_from(bytes, p),
    decreases p - start,
{
    if start < p {
        lemma_positions_from_skips_unset(bytes, start + 1, p);
    }
}

/// The listed positions ascend strictly: none is produced twice, and none
/// before a lower one.
pub proof fn lemma_set_positions_ascending(bytes: Seq<u8>)
    ensures
        strictly_ascending(set_positions(bytes)),
{
    lemma_positions_from_ascending(bytes, 0);
}

/// The listed positions are exactly the positions of `bytes` whose bit is 1:
/// none is left out, none is added, none occurs twice.
pub proof fn lemma_set_positions_exact(bytes: Seq<u8>)
    ensures
        forall|p: int| #[trigger] set_positions(bytes).contains(p) <==> bit_is_set(bytes, p),
        set_positions(bytes).no_duplicates(),
{
    lemma_positions_from_exact(bytes, 0);
}

/// Bytes that are all zero, however many, have no set position. So has the
/// empty sequence.
pub proof fn lemma_zero_bytes_have_no_positions(bytes: Seq<u8>)
    requires
        forall|i: int| 0 <= i < bytes.len() ==> bytes[i] == 0,
    ensures
        set_positions(bytes) == Seq::<int>::empty(),
{
    let listed = set_positions(bytes);
    lemma_positions_from_sound(bytes, 0);
    if listed.len() > 0 {
        let p: int = listed[0];
        let k: u8 = (p % 8) as u8;
        assert(bit_is_set(bytes, p));
        assert((0u8 >> k) & 1 == 0) by (bit_vector);
    }
}

/// Two strictly ascending lists with the same elements are the same list.
pub proof fn lemma_ascending_lists_agree(a: Seq<int>, b: Seq<int>)
    requires
        strictly_ascending(a),
        strictly_ascending(b),
        forall|p: int| a.contains(p) <==> b.contains(p),
    ensures
        a == b,
    decreases a.len(),
{
    if a.len() == 0 {
        if b.len() > 0 {
            assert(b.contains(b[0]));
        }
    } else {
        // Each list holds the other's first element, and nothing below its own.
        assert(a.contains(a[0]));
        let j: int = choose|j: int| 0 <= j < b.len() && b[j] == a[0];
        assert(b.contains(b[0]));
        let i: int = choose|i: int| 0 <= i < a.len() && a[i] == b[0];
        assert(a[0] == b[0]);
        let a1 = a.drop_first();
        let b1 = b.drop_first();
        assert forall|p: int| a1.contains(p) <==> b1.contains(p) by {
            if a1.contains(p) {
                let m: int = choose|m: int| 0 <= m < a1.len() && a1[m] == p;
                assert(a[0] < a[m + 1]);
                assert(a.contains(p));
                let n: int = choose|n: int| 0 <= n < b.len() && b[n] == p;
                assert(b1[n - 1] == p);
            }
            if b1.contains(p) {
                let m: int = choose|m: int| 0 <= m < b1.len() && b1[m] == p;
                assert(b[0] < b[m + 1]);
                assert(b.contains(p));
                let n: int = choose|n: int| 0 <= n < a.len() && a[n] == p;
                assert(a1[n - 1] == p);
            }
        }
        assert forall|m: int, n: int| 0 <= m < n < a1.len() implies a1[m] < a1[n] by {
            assert(a[m + 1] < a[n + 1]);
        }
        assert forall|m: int, n: int| 0 <= m < n < b1.len() implies b1[m] < b1[n] by {
            assert(b[m + 1] < b[n + 1]);
        }
        lemma_ascending_lists_agree(a1, b1);
        assert(a =~= seq![a[0]] + a1);
        assert(b =~= seq![b[0]] + b1);
    }
}

/// Ascending order and the bits of `bytes` leave one list only: a strictly
/// ascending list of exactly the set positions is `set_positions(bytes)`.
pub proof fn lemma_set_positions_unique(bytes: Seq<u8>, s: Seq<int>)
    requires
        strictly_ascending(s),
        forall|p: int| s.contains(p) <==> bit_is_set(bytes, p),
    ensures
        s == set_positions(bytes),
{
    lemma_set_positions_ascending(bytes);
    lemma_set_positions_exact(bytes);
    lemma_ascending_lists_agree(s, set_positions(bytes));
}

} // verus!
