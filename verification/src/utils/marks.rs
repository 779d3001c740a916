//! One mark for every node of a graph, kept in a vector of bits that many
//! threads can read and write at once.
use crate::utils::atomic_bits::{bits_of, count_bits, get_bit, new_bits, set_bit, swap_bit};
use sux::bits::AtomicBitVec;
use vstd::prelude::*;

verus! {

/// A table of marks.
pub struct Marks {
    bits: AtomicBitVec,
}

impl View for Marks {
    type V = Seq<bool>;

    closed spec fn view(&self) -> Seq<bool> {
        bits_of(self.bits)
    }
}

impl Marks {
    /// A table of `len` marks, none of which is set.
    pub fn new(len: usize) -> (marks: Marks)
        ensures
            marks@.len() == len,
            forall|i: int| 0 <= i < len ==> !(#[trigger] marks@[i]),
    {
        Marks { bits: new_bits(len) }
    }

    /// The number of marks.
    pub fn len(&self) -> (len: usize)
        ensures
            len == self@.len(),
    {
        count_bits(&self.bits)
    }

    /// The mark at `index`.
    pub fn get(&self, index: usize) -> (mark: bool)
        requires
            index < self@.len(),
        ensures
            mark == self@[index as int],
    {
        get_bit(&self.bits, index)
    }

    /// Sets the mark at `index` to `value`.
    pub fn set(&mut self, index: usize, value: bool)
        requires
            index < old(self)@.len(),
        ensures
            final(self)@ == old(self)@.update(index as int, value),
    {
        set_bit(&mut self.bits, index, value)
    }

    /// Sets the mark at `index` to `value` and returns what it was.
    pub fn swap(&mut self, index: usize, value: bool) -> (was: bool)
        requires
            index < old(self)@.len(),
        ensures
            was == old(self)@[index as int],
            final(self)@ == old(self)@.update(index as int, value),
    {
        swap_bit(&mut self.bits, index, value)
    }
}

} // verus!
