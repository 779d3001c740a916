//! Tables of bits, as the contracts of the vectors of bits speak of them.
use vstd::prelude::*;

verus! {

/// The table of `len` bits of which none is set.
pub open spec fn all_clear(len: usize) -> Seq<bool> {
    Seq::new(len as nat, |i: int| false)
}

/// The bit at `index`.
pub open spec fn bit_at(bits: Seq<bool>, index: usize) -> bool {
    bits[index as int]
}

/// The table with the bit at `index` set to `value`.
pub open spec fn with_bit(bits: Seq<bool>, index: usize, value: bool) -> Seq<bool> {
    bits.update(index as int, value)
}

} // verus!
