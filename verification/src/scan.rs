// SPDX-License-Identifier: Apache-2.0

//! The abstract state of a scan, what one request does to it, and the laws
//! that hold of any run of requests.

use crate::positions::{
    bit_count, bit_is_set, lemma_positions_from_ascending, lemma_positions_from_exact,
    lemma_positions_from_skips_unset, positions_from,
};
use vstd::prelude::*;

verus! {

/// The bytes under observation and the position to be examined next. A
/// cursor at `bit_count(bytes)` has run off the end.
pub struct Scan {
    pub bytes: Seq<u8>,
    pub cursor: int,
}

impl Scan {
    /// The positions still to be produced, lowest first.
    pub open spec fn remaining(self) -> Seq<int> {
        positions_from(self.bytes, self.cursor)
    }

    /// Whether the cursor has run off the end of the bytes.
    pub open spec fn exhausted(self) -> bool {
        self.cursor >= bit_count(self.bytes)
    }

    /// What the next request produces: the first of the remaining positions,
    /// or nothing when none remains.
    pub open spec fn next_item(self) -> Option<int> {
        if self.remaining().len() > 0 {
            Some(self.remaining().first())
        } else {
            None
        }
    }

    /// The scan after the next request: the same bytes, with the cursor just
    /// past the position produced, or off the end when nothing was produced.
    pub open spec fn after_next(self) -> Scan {
        match self.next_item() {
            Some(p) => Scan { bytes: self.bytes, cursor: p + 1 },
            None => Scan { bytes: self.bytes, cursor: bit_count(self.bytes) as int },
        }
    }

    /// The scan after `n` requests.
    pub open spec fn after_requests(self, n: nat) -> Scan
        decreases n,
    {
        if n == 0 {
            self
        } else {
            self.after_next().after_requests((n - 1) as nat)
        }
    }
}

/// A request produces the lowest set position that is not below the cursor,
/// and nothing exactly when there is no such position.
pub proof fn lemma_next_item_is_lowest(s: Scan)
    ensures
        match s.next_item() {
            Some(p) => {
                &&& s.cursor <= p
                &&& bit_is_set(s.bytes, p)
                &&& forall|q: int| s.cursor <= q < p ==> !bit_is_set(s.bytes, q)
            },
            None => forall|q: int| s.cursor <= q ==> !bit_is_set(s.bytes, q),
        },
{
    let rest = s.remaining();
    lemma_positions_from_exact(s.bytes, s.cursor);
    lemma_positions_from_ascending(s.bytes, s.cursor);
    if rest.len() > 0 {
        let p: int = rest.first();
        assert(rest.contains(p));
        assert forall|q: int| s.cursor <= q < p implies !bit_is_set(s.bytes, q) by {
            if bit_is_set(s.bytes, q) {
                assert(rest.contains(q));
                let i: int = choose|i: int| 0 <= i < rest.len() && rest[i] == q;
                assert(i == 0 || rest[0] < rest[i]);
            }
        }
    } else {
        assert forall|q: int| s.cursor <= q implies !bit_is_set(s.bytes, q) by {
            if bit_is_set(s.bytes, q) {
                assert(rest.contains(q));
            }
        }
    }
}

/// A request takes the first of the remaining positions away and leaves the
/// others as they were.
pub proof fn lemma_after_next_remaining(s: Scan)
    ensures
        s.after_next().remaining() == if s.remaining().len() > 0 {
            s.remaining().drop_first()
        } else {
            s.remaining()
        },
{
    lemma_next_item_is_lowest(s);
    match s.next_item() {
        Some(p) => {
            lemma_positions_from_skips_unset(s.bytes, s.cursor, p);
            assert(positions_from(s.bytes, p + 1) =~= positions_from(s.bytes, p).drop_first());
        },
        None => {},
    }
}

/// A request that produces nothing leaves the scan off the end, and there it
/// stays: the request after it produces nothing and changes nothing.
pub proof fn lemma_exhaustion_is_final(s: Scan)
    requires
        s.next_item() is None,
    ensures
        s.after_next().exhausted(),
        s.after_next().next_item() is None,
        s.after_next().after_next() == s.after_next(),
{
}

/// After `n` requests the bytes are as they were, and the first `n` of the
/// remaining positions are gone, or all of them where there were fewer. So
/// the request that follows produces the remaining position of index `n`,
/// and nothing where there is none.
pub proof fn lemma_after_requests(s: Scan, n: nat)
    ensures
        s.after_requests(n).bytes == s.bytes,
        s.after_requests(n).remaining() == if n <= s.remaining().len() {
            s.remaining().skip(n as int)
        } else {
            Seq::<int>::empty()
        },
        s.after_requests(n).next_item() == if n < s.remaining().len() {
            Some(s.remaining()[n as int])
        } else {
            None
        },
    decreases n,
{
    let rest = s.remaining();
    if n == 0 {
        assert(rest.skip(0) =~= rest);
    } else {
        lemma_after_next_remaining(s);
        lemma_after_requests(s.after_next(), (n - 1) as nat);
        if n <= rest.len() {
            assert(rest.drop_first().skip(n - 1) =~= rest.skip(n as int));
        }
    }
}

/// Requests never touch the bytes: a scan given up after any number of them
/// leaves the bytes as they were.
pub proof fn lemma_bytes_are_kept(s: Scan, n: nat)
    ensures
        s.after_requests(n).bytes == s.bytes,
{
    lemma_after_requests(s, n);
}

/// Once a request has produced nothing, no later request produces anything,
/// however many follow.
pub proof fn lemma_nothing_follows_nothing(s: Scan, n: nat, m: nat)
    requires
        s.after_requests(n).next_item() is None,
        n <= m,
    ensures
        s.after_requests(m).next_item() is None,
{
    lemma_after_requests(s, n);
    lemma_after_requests(s, m);
}

/// Of two positions that a run of requests produces, the later is the
/// higher.
pub proof fn lemma_later_items_are_higher(s: Scan, n: nat, m: nat)
    requires
        n < m,
    ensures
        match (s.after_requests(n).next_item(), s.after_requests(m).next_item()) {
            (Some(p), Some(q)) => p < q,
            _ => true,
        },
{
    lemma_after_requests(s, n);
    lemma_after_requests(s, m);
    lemma_positions_from_ascending(s.bytes, s.cursor);
}

/// A run of requests produces every set position that is not below the
/// cursor: each is the item of some request.
pub proof fn lemma_every_set_position_is_produced(s: Scan, p: int)
    requires
        s.cursor <= p,
        bit_is_set(s.bytes, p),
    ensures
        exists|n: nat| s.after_requests(n).next_item() == Some(p),
{
    lemma_positions_from_exact(s.bytes, s.cursor);
    assert(s.remaining().contains(p));
    let i: int = choose|i: int| 0 <= i < s.remaining().len() && s.remaining()[i] == p;
    lemma_after_requests(s, i as nat);
}

/// A run of requests produces set positions only, none of them below the
/// cursor.
pub proof fn lemma_only_set_positions_are_produced(s: Scan, n: nat)
    ensures
        s.after_requests(n).next_item() matches Some(p) ==> s.cursor <= p && bit_is_set(
            s.bytes,
            p,
        ),
{
    lemma_after_requests(s, n);
    lemma_positions_from_exact(s.bytes, s.cursor);
    if n < s.remaining().len() {
        assert(s.remaining().contains(s.remaining()[n as int]));
    }
}

} // verus!
