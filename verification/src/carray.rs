//! A bounds-checked view over a contiguous sequence of values, standing in
//! for a raw argument-vector: it can never be read past its declared length.

use vstd::prelude::*;

verus! {

/// A contiguous, immutably owned sequence of values with checked indexing.
pub struct CArray<T> {
    items: Vec<T>,
}

/// A cursor over the first `max` entries of a [`CArray`].
pub struct Iter<'a, T> {
    array: &'a CArray<T>,
    index: usize,
    max: usize,
}

impl<T> CArray<T> {
    /// The sequence of values held by the array.
    pub closed spec fn view(&self) -> Seq<T> {
        self.items@
    }

    /// Wrap an owned sequence of values.
    pub fn new(items: Vec<T>) -> (a: CArray<T>)
        ensures
            a@ == items@,
    {
        CArray { items }
    }

    /// The number of values held.
    pub fn len(&self) -> (n: usize)
        ensures
            n == self@.len(),
    {
        self.items.len()
    }

    /// The value at position `i`.
    pub fn index(&self, i: usize) -> (r: &T)
        requires
            i < self@.len(),
        ensures
            *r == self@[i as int],
    {
        &self.items[i]
    }

    /// A cursor over the first `len` entries.
    pub fn iter_to(&self, len: usize) -> (it: Iter<'_, T>)
        requires
            len <= self@.len(),
        ensures
            it.wf(),
            it.elems() == self@,
            it.pos() == 0,
            it.limit() == len,
    {
        Iter { array: self, index: 0, max: len }
    }
}

impl<'a, T> Iter<'a, T> {
    /// The cursor stays within the length it was declared with.
    pub closed spec fn wf(&self) -> bool {
        self.index <= self.max && self.max <= self.array@.len()
    }

    /// The values of the underlying array.
    pub closed spec fn elems(&self) -> Seq<T> {
        self.array@
    }

    /// The current position of the cursor.
    pub closed spec fn pos(&self) -> int {
        self.index as int
    }

    /// The position the cursor stops at.
    pub closed spec fn limit(&self) -> int {
        self.max as int
    }

    /// The next value, or `None` once the cursor has reached its limit.
    pub fn next(&mut self) -> (r: Option<&'a T>)
        requires
            old(self).wf(),
        ensures
            final(self).wf(),
            final(self).elems() == old(self).elems(),
            final(self).limit() == old(self).limit(),
            old(self).pos() < old(self).limit() ==> final(self).pos() == old(self).pos() + 1
                && (r matches Some(v) && *v == old(self).elems()[old(self).pos()]),
            old(self).pos() >= old(self).limit() ==> r is None && final(self).pos() == old(
                self,
            ).pos(),
    {
        if self.index < self.max {
            let out = self.array.index(self.index);
            self.index = self.index + 1;
            Some(out)
        } else {
            None
        }
    }
}

} // verus!
