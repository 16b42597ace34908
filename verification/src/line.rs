//! The fixed-capacity scratch line the searcher uses while descending glob
//! edges: it accumulates the pattern prefix under consideration and is
//! unwound as the walk backs out of a subtree.

use vstd::prelude::*;

use crate::error::HwdbError;

verus! {

/// Capacity of the glob scratch line, in bytes.  A well-formed database
/// never comes close: a pattern longer than this can only arise from a
/// malformed trie, which the searcher reports instead of growing without
/// bound.
pub const LINE_MAX: usize = 2048;

/// A fixed-capacity byte line supporting push and unwind.
pub struct LineBuf {
    buf: Vec<u8>,
}

impl View for LineBuf {
    type V = Seq<u8>;

    closed spec fn view(&self) -> Seq<u8> {
        self.buf@
    }
}

impl LineBuf {
    /// The line never exceeds its capacity.
    pub open spec fn inv(&self) -> bool {
        self@.len() <= LINE_MAX
    }

    /// An empty line.
    pub fn new() -> (r: LineBuf)
        ensures
            r@ == Seq::<u8>::empty(),
            r.inv(),
    {
        LineBuf { buf: Vec::new() }
    }

    /// The accumulated bytes.
    pub fn bytes(&self) -> (r: &Vec<u8>)
        ensures
            r@ == self@,
    {
        &self.buf
    }

    /// The current length.
    pub fn len(&self) -> (r: usize)
        ensures
            r == self@.len(),
    {
        self.buf.len()
    }

    /// Appends one byte; fails with [`HwdbError::LineOverflow`], leaving
    /// the line unchanged, when the capacity is already reached.
    pub fn add_char(&mut self, c: u8) -> (r: Result<(), HwdbError>)
        requires
            old(self).inv(),
        ensures
            final(self).inv(),
            match r {
                Ok(()) => old(self)@.len() < LINE_MAX && final(self)@ == old(self)@.push(c),
                Err(e) => e == HwdbError::LineOverflow && old(self)@.len() == LINE_MAX
                    && final(self)@ == old(self)@,
            },
    {
        if self.buf.len() >= LINE_MAX {
            return Err(HwdbError::LineOverflow);
        }
        self.buf.push(c);
        Ok(())
    }

    /// Removes the last byte.
    pub fn remove_char(&mut self)
        requires
            old(self)@.len() > 0,
        ensures
            final(self)@ == old(self)@.drop_last(),
    {
        let _ = self.buf.pop();
        proof {
            assert(self@ =~= old(self)@.drop_last());
        }
    }

    /// Appends `s[from..]`; fails with [`HwdbError::LineOverflow`], leaving
    /// the line unchanged, when that would exceed the capacity.
    pub fn add_tail(&mut self, s: &Vec<u8>, from: usize) -> (r: Result<(), HwdbError>)
        requires
            old(self).inv(),
            from <= s@.len(),
        ensures
            final(self).inv(),
            match r {
                Ok(()) => old(self)@.len() + (s@.len() - from) <= LINE_MAX
                    && final(self)@ == old(self)@ + s@.skip(from as int),
                Err(e) => e == HwdbError::LineOverflow && old(self)@.len() + (s@.len() - from)
                    > LINE_MAX && final(self)@ == old(self)@,
            },
    {
        let tail = s.len() - from;
        if tail > LINE_MAX - self.buf.len() {
            return Err(HwdbError::LineOverflow);
        }
        let mut k: usize = from;
        while k < s.len()
            invariant
                from <= k <= s@.len(),
                s@.len() - from <= LINE_MAX - old(self)@.len(),
                self@ == old(self)@ + s@.subrange(from as int, k as int),
            decreases s@.len() - k,
        {
            proof {
                assert(self@.len() < LINE_MAX);
            }
            self.buf.push(s[k]);
            proof {
                assert(self@ =~= old(self)@ + s@.subrange(from as int, k + 1));
            }
            k = k + 1;
        }
        proof {
            assert(s@.subrange(from as int, s@.len() as int) =~= s@.skip(from as int));
        }
        Ok(())
    }

    /// Unwinds the line back to length `n`.
    pub fn rewind_to(&mut self, n: usize)
        requires
            n <= old(self)@.len(),
        ensures
            final(self)@ == old(self)@.take(n as int),
    {
        self.buf.truncate(n);
        proof {
            assert(self@ =~= old(self)@.take(n as int));
        }
    }
}

} // verus!
