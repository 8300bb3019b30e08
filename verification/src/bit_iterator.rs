// SPDX-License-Identifier: Apache-2.0

//! A cursor over a byte slice that hands out, one at a time and lowest
//! first, the positions of the bits that are set.

use crate::positions::{
    as_positions, bit_count, bit_is_set, lemma_positions_from_ascending,
    lemma_positions_from_exact, positions_from, set_positions, strictly_ascending,
};
use crate::scan::{lemma_after_next_remaining, Scan};
use vstd::prelude::*;

verus! {

/// A single-pass, forward-only scan of a byte slice for its set bits.
///
/// The slice is only observed. `index` is the byte under the cursor and
/// `pos` the bit within it, bit 0 being the least significant. A cursor that
/// has run off the end rests at `index == data.len()`, `pos == 0`.
#[derive(Copy, Clone, Debug, PartialEq, Eq)]
pub struct BitIterator<'a> {
    data: &'a [u8],
    index: usize,
    pos: u8,
}

impl<'a> View for BitIterator<'a> {
    type V = Scan;

    closed spec fn view(&self) -> Scan {
        Scan { bytes: self.data@, cursor: self.index * 8 + self.pos }
    }
}

impl<'a> BitIterator<'a> {
    #[verifier::type_invariant]
    spec fn inv(self) -> bool {
        &&& self.index <= self.data@.len()
        &&& self.pos < 8
        &&& self.index == self.data@.len() ==> self.pos == 0
    }

    /// Starts a scan of `data` at position 0. Any slice will do, the empty
    /// one too.
    pub fn new(data: &'a [u8]) -> (it: Self)
        ensures
            it@ == (Scan { bytes: data@, cursor: 0 }),
            it@.remaining() == set_positions(data@),
    {
        Self { data, index: 0, pos: 0 }
    }

    /// Whether the bit under the cursor is 1. A cursor that has run off the
    /// end is over no bit, and the answer is `false`.
    pub fn is_cur_bit_set(&self) -> (set: bool)
        ensures
            set == bit_is_set(self@.bytes, self@.cursor),
    {
        proof {
            use_type_invariant(self);
        }
        match self.data.get(self.index) {
            Some(byte) => (*byte >> self.pos) & 1 == 1,
            None => false,
        }
    }

    /// Moves the cursor to the next position. From the last position, or
    /// from beyond it, there is none: the step fails and leaves the cursor
    /// off the end.
    pub fn next_bit(&mut self) -> (step: Result<(), ()>)
        ensures
            final(self)@.bytes == old(self)@.bytes,
            step is Ok <==> old(self)@.cursor + 1 < bit_count(old(self)@.bytes),
            step is Ok ==> final(self)@.cursor == old(self)@.cursor + 1,
            step is Err ==> final(self)@.cursor == bit_count(old(self)@.bytes),
    {
        proof {
            use_type_invariant(&*self);
        }
        let len: usize = self.data.len();
        if self.index >= len || (self.pos == 7 && self.index == len - 1) {
            self.pos = 0;
            self.index = len;
            return Err(());
        }
        if self.pos == 7 {
            self.pos = 0;
            self.index += 1;
        } else {
            self.pos += 1;
        }
        Ok(())
    }

    /// Produces the lowest set position at or after the cursor and moves the
    /// cursor just past it, or produces `None` when no set position is left
    /// and moves the cursor off the end. After `None`, every later call
    /// gives `None` again.
    ///
    /// A position is a `usize`, so the slice must be short enough for each
    /// of its positions to be one.
    pub fn next(&mut self) -> (item: Option<usize>)
        requires
            bit_count(old(self)@.bytes) <= usize::MAX,
        ensures
            final(self)@ == old(self)@.after_next(),
            match item {
                Some(p) => old(self)@.next_item() == Some(p as int),
                None => old(self)@.next_item() is None,
            },
    {
        loop
            invariant
                bit_count(self@.bytes) <= usize::MAX,
                self@.bytes == old(self)@.bytes,
                self@.remaining() == old(self)@.remaining(),
            decreases bit_count(self@.bytes) - self@.cursor,
        {
            proof {
                use_type_invariant(&*self);
            }
            if self.is_cur_bit_set() {
                let cur_pos: usize = self.index * 8 + self.pos as usize;
                let _ = self.next_bit();
                return Some(cur_pos);
            }
            let ghost skipped: int = self@.cursor;
            if self.next_bit().is_err() {
                assert(positions_from(self@.bytes, skipped + 1).len() == 0);
                return None;
            }
        }
    }

    /// Runs the scan to its end and returns every position it produced, in
    /// the order of production: the set positions at or after the cursor,
    /// each once, lowest first.
    pub fn collect(self) -> (out: Vec<usize>)
        requires
            bit_count(self@.bytes) <= usize::MAX,
        ensures
            as_positions(out@) == self@.remaining(),
            strictly_ascending(as_positions(out@)),
            forall|p: int| #[trigger]
                as_positions(out@).contains(p) <==> self@.cursor <= p && bit_is_set(
                    self@.bytes,
                    p,
                ),
    {
        let mut it = self;
        let mut out: Vec<usize> = Vec::new();
        loop
            invariant
                bit_count(self@.bytes) <= usize::MAX,
                it@.bytes == self@.bytes,
                as_positions(out@) + it@.remaining() == self@.remaining(),
            decreases it@.remaining().len(),
        {
            let ghost before: Scan = it@;
            let ghost listed: Seq<int> = as_positions(out@);
            match it.next() {
                Some(p) => {
                    out.push(p);
                    proof {
                        lemma_after_next_remaining(before);
                        assert(listed.push(p as int) + before.remaining().drop_first()
                            =~= listed + before.remaining());
                    }
                },
                None => {
                    proof {
                        lemma_positions_from_ascending(self@.bytes, self@.cursor);
                        lemma_positions_from_exact(self@.bytes, self@.cursor);
                    }
                    return out;
                },
            }
        }
    }
}

} // verus!
