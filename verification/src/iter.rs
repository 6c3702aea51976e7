//! Streaming deduplication of adjacent equal values.

use vstd::prelude::*;

verus! {

/// First index at or after `pos` whose value differs from `prev`, or
/// the length if none does.
pub open spec fn next_distinct(items: Seq<u32>, pos: int, prev: Option<u32>) -> int
    decreases items.len() - pos,
{
    if pos < 0 || pos >= items.len() {
        items.len() as int
    } else if prev == Some(items[pos]) {
        next_distinct(items, pos + 1, prev)
    } else {
        pos
    }
}

/// Walks a value sequence, skipping items equal to the one last
/// returned.
pub struct Dedup {
    items: Vec<u32>,
    pos: usize,
    prev: Option<u32>,
}

impl Dedup {
    pub closed spec fn items_view(self) -> Seq<u32> {
        self.items@
    }

    pub closed spec fn pos_view(self) -> int {
        self.pos as int
    }

    pub closed spec fn prev_view(self) -> Option<u32> {
        self.prev
    }

    pub open spec fn wf(self) -> bool {
        0 <= self.pos_view() <= self.items_view().len()
    }

    /// A deduplicating cursor over `items`.
    pub fn new(items: Vec<u32>) -> (r: Dedup)
        ensures
            r.wf(),
            r.items_view() == items@,
            r.pos_view() == 0,
            r.prev_view() is None,
    {
        Dedup { items, pos: 0, prev: None }
    }

    /// The next value that differs from the previously returned one.
    pub fn next(&mut self) -> (r: Option<u32>)
        requires
            old(self).wf(),
        ensures
            final(self).wf(),
            final(self).items_view() == old(self).items_view(),
            ({
                let np = next_distinct(
                    old(self).items_view(),
                    old(self).pos_view(),
                    old(self).prev_view(),
                );
                if np < old(self).items_view().len() {
                    r == Some(old(self).items_view()[np]) && final(self).pos_view() == np + 1
                        && final(self).prev_view() == Some(old(self).items_view()[np])
                } else {
                    r is None && final(self).pos_view() == old(self).items_view().len()
                        && final(self).prev_view() == old(self).prev_view()
                }
            }),
    {
        while self.pos < self.items.len()
            invariant
                self.wf(),
                self.items_view() == old(self).items_view(),
                self.prev == old(self).prev_view(),
                next_distinct(self.items@, self.pos as int, self.prev) == next_distinct(
                    old(self).items_view(),
                    old(self).pos_view(),
                    old(self).prev_view(),
                ),
            decreases self.items@.len() - self.pos,
        {
            let x = self.items[self.pos];
            match self.prev {
                Some(p) => {
                    if p != x {
                        self.pos = self.pos + 1;
                        self.prev = Some(x);
                        return Some(x);
                    }
                },
                None => {
                    self.pos = self.pos + 1;
                    self.prev = Some(x);
                    return Some(x);
                },
            }
            self.pos = self.pos + 1;
        }
        None
    }
}

} // verus!
