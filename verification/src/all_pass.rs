//! The cursor state of an all-pass filter's delay line.  The per-sample
//! arithmetic is floating point and lives outside the verified library;
//! this holds the ring-buffer bookkeeping it runs on.

use vstd::prelude::*;

verus! {

/// A ring-buffer cursor: a fixed length and the position the next
/// sample is read from and written to.
#[derive(Clone, Copy, PartialEq, Eq, Structural, Debug)]
pub struct DelayLine {
    /// The number of samples the line delays by.
    pub length: usize,
    /// The current read/write position, always inside the buffer.
    pub index: usize,
}

impl DelayLine {
    /// A cursor over a fresh buffer of the given length.
    pub fn new(delay_length: usize) -> (r: DelayLine)
        requires
            delay_length > 0,
        ensures
            r.length == delay_length,
            r.index == 0,
            r.wf(),
    {
        DelayLine { length: delay_length, index: 0 }
    }

    /// The position stays inside the buffer.
    pub open spec fn wf(self) -> bool {
        self.index < self.length
    }

    /// Advance the cursor one sample, wrapping at the end of the buffer.
    pub fn advance(&mut self)
        requires
            old(self).wf(),
        ensures
            final(self).wf(),
            final(self).length == old(self).length,
            final(self).index == (if old(self).index + 1 == old(self).length {
                0int
            } else {
                old(self).index + 1
            }),
    {
        if self.index + 1 == self.length {
            self.index = 0;
        } else {
            self.index = self.index + 1;
        }
    }
}

/// An all-pass filter's structural state: the delay line its feedback
/// loop reads and writes.
#[derive(Clone, Copy, PartialEq, Eq, Structural, Debug)]
pub struct AllPass {
    /// The delay line behind the filter.
    pub delay_line: DelayLine,
}

impl AllPass {
    /// A filter over a fresh delay line of the given length.
    pub fn new(delay_length: usize) -> (r: AllPass)
        requires
            delay_length > 0,
        ensures
            r.delay_line.length == delay_length,
            r.delay_line.index == 0,
            r.delay_line.wf(),
    {
        AllPass { delay_line: DelayLine::new(delay_length) }
    }
}

} // verus!
