//! Exponentially growing chunk schedule over an index range.

use vstd::prelude::*;

verus! {

/// Yields consecutive index ranges `[start, end)` whose length doubles
/// each step, the last one clipped to the range end.
pub struct ExponentialChunks {
    /// Exclusive end of the whole range.
    pub len: usize,
    /// Length of the next chunk.
    pub k: usize,
    /// Start of the next chunk.
    pub start: usize,
}

impl ExponentialChunks {
    /// A schedule over `[0, len)` starting with chunks of `initial_chunk`.
    pub fn new(len: usize, initial_chunk: usize) -> (r: ExponentialChunks)
        ensures
            r.len == len,
            r.k == initial_chunk,
            r.start == 0,
    {
        ExponentialChunks { len, k: initial_chunk, start: 0 }
    }

    /// The next chunk, or `None` once the range is exhausted.
    pub fn next(&mut self) -> (r: Option<(usize, usize)>)
        ensures
            final(self).len == old(self).len,
            old(self).start >= old(self).len ==> (r is None && *final(self) == *old(self)),
            old(self).start < old(self).len ==> (r matches Some(c) && c.0 == old(self).start
                && c.0 < c.1 <= old(self).len && final(self).start == c.1 && c.1 == (
            if 1 <= old(self).k && old(self).k < old(self).len - old(self).start {
                old(self).start + old(self).k
            } else {
                old(self).len as int
            }) && (c.1 < old(self).len ==> final(self).k == (
            if 2 * old(self).k > usize::MAX {
                usize::MAX as int
            } else {
                2 * old(self).k
            })) && (c.1 == old(self).len ==> final(self).k == old(self).k)),
    {
        if self.start >= self.len {
            return None;
        }
        let start = self.start;
        let end = if self.k >= 1 && self.k < self.len - self.start {
            self.start + self.k
        } else {
            self.len
        };
        if end < self.len {
            self.k = if self.k > usize::MAX / 2 {
                usize::MAX
            } else {
                2 * self.k
            };
        }
        self.start = end;
        Some((start, end))
    }
}

} // verus!
