//! A buffer that is handed over when it is full.

use vstd::prelude::*;

verus! {

/// A buffer of entries.
pub struct VectorQueue<T> {
    buffer: Vec<T>,
}

impl<T> View for VectorQueue<T> {
    type V = Seq<T>;

    closed spec fn view(&self) -> Seq<T> {
        self.buffer@
    }
}

impl<T> Default for VectorQueue<T> {
    /// The empty buffer.
    fn default() -> (queue: Self)
        ensures
            queue@ == Seq::<T>::empty(),
    {
        VectorQueue { buffer: Vec::new() }
    }
}

impl<T> VectorQueue<T> {
    /// Adds an entry at the end.
    pub fn push(&mut self, value: T)
        ensures
            final(self)@ == old(self)@.push(value),
    {
        self.buffer.push(value);
    }

    /// The entry at `index`.
    pub fn get(&self, index: usize) -> (value: &T)
        requires
            index < self@.len(),
        ensures
            *value == self@[index as int],
    {
        &self.buffer[index]
    }

    /// How many entries there are.
    pub fn len(&self) -> (len: usize)
        ensures
            len == self@.len(),
    {
        self.buffer.len()
    }

    /// Whether there are no entries.
    pub fn is_empty(&self) -> (empty: bool)
        ensures
            empty == (self@.len() == 0),
    {
        self.buffer.len() == 0
    }

    /// Whether `capacity` is reached.
    pub fn is_full(&self, capacity: usize) -> (full: bool)
        ensures
            full == (self@.len() >= capacity),
    {
        self.buffer.len() >= capacity
    }

    /// Hands out the entries and leaves the buffer empty.
    pub fn take(&mut self) -> (entries: Vec<T>)
        ensures
            entries@ == old(self)@,
            final(self)@ == Seq::<T>::empty(),
    {
        let mut entries: Vec<T> = Vec::new();
        std::mem::swap(&mut self.buffer, &mut entries);
        entries
    }

    /// Exchanges the entries with those of `other`.
    pub fn swap(&mut self, other: &mut Vec<T>)
        ensures
            final(self)@ == old(other)@,
            final(other)@ == old(self)@,
    {
        std::mem::swap(&mut self.buffer, other);
    }
}

} // verus!
