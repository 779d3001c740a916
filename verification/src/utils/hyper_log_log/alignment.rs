//! The widest word type at whose boundaries counters of a given size end.
use vstd::prelude::*;

verus! {

/// The name of the widest unsigned type whose number of bits divides
/// `bits`, as a sequence of characters.
pub open spec fn alignment_name(bits: usize) -> Seq<char> {
    if bits % 128 == 0 {
        "u128"@
    } else if bits % 64 == 0 {
        "u64"@
    } else if bits % 32 == 0 {
        "u32"@
    } else if bits % 16 == 0 {
        "u16"@
    } else {
        "u8"@
    }
}

/// The name of the widest unsigned type whose number of bits divides
/// `bits`: counters of `bits` bits fill whole words of that type.
pub fn min_alignment(bits: usize) -> (name: String)
    ensures
        name@ == alignment_name(bits),
{
    let name: &str = if bits % 128 == 0 {
        "u128"
    } else if bits % 64 == 0 {
        "u64"
    } else if bits % 32 == 0 {
        "u32"
    } else if bits % 16 == 0 {
        "u16"
    } else {
        "u8"
    };
    name.to_string()
}

} // verus!
