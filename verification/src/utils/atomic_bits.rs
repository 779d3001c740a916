//! What the library takes from vectors of bits that many threads can read
//! and write at once.
use crate::utils::bit_tables::{all_clear, bit_at, with_bit};
use std::sync::atomic::Ordering;
use sux::bits::AtomicBitVec;
use sux::traits::AtomicBitVecOps;
use vstd::prelude::*;

verus! {

/// `sux::bits::AtomicBitVec`: a vector of bits that many threads can read
/// and write at once. Nothing is seen of what is inside.
#[verifier::external_type_specification]
#[verifier::external_body]
#[verifier::reject_recursive_types(B)]
pub struct ExAtomicBitVec<B>(AtomicBitVec<B>);

/// The bits that a vector of bits holds.
pub uninterp spec fn bits_of(bits: AtomicBitVec) -> Seq<bool>;

/// `AtomicBitVec::new`: a vector of `len` bits, none of which is set.
#[verifier::external_body]
pub(crate) fn new_bits(len: usize) -> (bits: AtomicBitVec)
    ensures
        bits_of(bits) == all_clear(len),
{
    AtomicBitVec::new(len)
}

/// `AtomicBitVec::len`: the number of bits.
#[verifier::external_body]
pub(crate) fn count_bits(bits: &AtomicBitVec) -> (len: usize)
    ensures
        len == bits_of(*bits).len(),
{
    bits.len()
}

/// `AtomicBitVecOps::get`, with relaxed ordering: the bit at `index`.
#[verifier::external_body]
pub(crate) fn get_bit(bits: &AtomicBitVec, index: usize) -> (bit: bool)
    requires
        index < bits_of(*bits).len(),
    ensures
        bit == bit_at(bits_of(*bits), index),
{
    bits.get(index, Ordering::Relaxed)
}

/// `AtomicBitVecOps::set`, with relaxed ordering: the bit at `index` takes
/// the value, and no other bit changes.
#[verifier::external_body]
pub(crate) fn set_bit(bits: &mut AtomicBitVec, index: usize, value: bool)
    requires
        index < bits_of(*old(bits)).len(),
    ensures
        bits_of(*final(bits)) == with_bit(bits_of(*old(bits)), index, value),
{
    bits.set(index, value, Ordering::Relaxed)
}

/// `AtomicBitVecOps::swap`, with relaxed ordering: the bit at `index` takes
/// the value, no other bit changes, and what the bit was is returned.
#[verifier::external_body]
pub(crate) fn swap_bit(bits: &mut AtomicBitVec, index: usize, value: bool) -> (was: bool)
    requires
        index < bits_of(*old(bits)).len(),
    ensures
        was == bit_at(bits_of(*old(bits)), index),
        bits_of(*final(bits)) == with_bit(bits_of(*old(bits)), index, value),
{
    bits.swap(index, value, Ordering::Relaxed)
}

} // verus!
