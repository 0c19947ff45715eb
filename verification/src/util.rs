//! One-token lookahead over a borrowed sequence.

use vstd::prelude::*;

verus! {

/// An iterator-like source that can show its next item without consuming
/// it.
pub trait PeekableIterator {
    type Item;

    fn peek(&mut self) -> Option<&Self::Item>;
}

/// A cursor over a borrowed vector: the items from `pos` on are still to
/// be consumed.
pub struct SliceCursor<'a, T> {
    pub items: &'a Vec<T>,
    pub pos: usize,
}

impl<'a, T> SliceCursor<'a, T> {
    /// Stand at the front of `items`.
    pub fn new(items: &'a Vec<T>) -> (c: Self)
        ensures
            c.items == items,
            c.pos == 0,
    {
        SliceCursor { items, pos: 0 }
    }

    /// Consume one item.
    pub fn advance(&mut self)
        requires
            old(self).pos < old(self).items@.len(),
        ensures
            final(self).items == old(self).items,
            final(self).pos == old(self).pos + 1,
    {
        let _ = self.items.len();
        self.pos = self.pos + 1;
    }
}

impl<'a, T> PeekableIterator for SliceCursor<'a, T> {
    type Item = T;

    fn peek(&mut self) -> (r: Option<&T>) {
        if self.pos < self.items.len() {
            Some(&self.items[self.pos])
        } else {
            Option::None
        }
    }
}

} // verus!
