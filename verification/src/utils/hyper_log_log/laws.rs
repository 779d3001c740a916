//! What holds of insertions and merges whatever the counters hold.
use crate::utils::hyper_log_log::bit_fields::valid_register_size;
use crate::utils::hyper_log_log::broadword::{max64, merged_word, merged_words, select_word};
use crate::utils::hyper_log_log::counter_array::{
    filled_by, hash_rank, hash_register, lemma_hash_in_range, register_size_for,
    registers_after_add, registers_after_adds, registers_for, registers_max,
};
use vstd::arithmetic::power2::{lemma2_to64, lemma2_to64_rest, pow2};
use vstd::prelude::*;

verus! {

/// Inserting an element a second time leaves every register as the first
/// insertion left it.
pub proof fn lemma_add_twice(registers: Seq<u64>, hash: u64, p: nat, r: nat)
    requires
        4 <= p < 58,
        valid_register_size(r),
        registers.len() == registers_for(p),
    ensures
        registers_after_add(registers_after_add(registers, hash, p, r), hash, p, r)
            == registers_after_add(registers, hash, p, r),
{
    lemma_hash_in_range(hash, p as u64, r as u64);
    let once = registers_after_add(registers, hash, p, r);
    assert(registers_after_add(once, hash, p, r) =~= once);
}

/// An insertion lowers no register.
pub proof fn lemma_add_never_lowers(registers: Seq<u64>, hash: u64, p: nat, r: nat, j: int)
    requires
        4 <= p < 58,
        valid_register_size(r),
        registers.len() == registers_for(p),
        0 <= j < registers.len(),
    ensures
        registers_after_add(registers, hash, p, r)[j] >= registers[j],
{
    lemma_hash_in_range(hash, p as u64, r as u64);
}

/// Insertions keep the number of registers and lower none of them.
pub proof fn lemma_adds_never_lower(registers: Seq<u64>, hashes: Seq<u64>, p: nat, r: nat, j: int)
    requires
        4 <= p < 58,
        valid_register_size(r),
        registers.len() == registers_for(p),
        0 <= j < registers.len(),
    ensures
        registers_after_adds(registers, hashes, p, r).len() == registers.len(),
        registers_after_adds(registers, hashes, p, r)[j] >= registers[j],
    decreases hashes.len(),
{
    if hashes.len() > 0 {
        lemma_adds_never_lower(registers, hashes.drop_last(), p, r, j);
        lemma_hash_in_range(hashes.last(), p as u64, r as u64);
        lemma_add_never_lowers(
            registers_after_adds(registers, hashes.drop_last(), p, r),
            hashes.last(),
            p,
            r,
            j,
        );
    }
}

/// No insertion leaves the counter as it was: without elements the
/// registers are those at the start, and with any the register that the
/// last hash selects holds at least the rank of that hash, which is 1 or
/// more.
pub proof fn lemma_filled(registers: Seq<u64>, start: Seq<u64>, count: nat, p: nat, r: nat)
    requires
        4 <= p < 58,
        valid_register_size(r),
        start.len() == registers_for(p),
        filled_by(registers, start, count, p, r),
    ensures
        registers.len() == start.len(),
        forall|j: int| 0 <= j < start.len() ==> #[trigger] registers[j] >= start[j],
        count == 0 ==> registers == start,
        count > 0 ==> exists|j: int| 0 <= j < registers.len() && #[trigger] registers[j] >= 1,
{
    let hashes = choose|hashes: Seq<u64>|
        hashes.len() == count && registers == #[trigger] registers_after_adds(start, hashes, p, r);
    assert forall|j: int| 0 <= j < start.len() implies #[trigger] registers[j] >= start[j] by {
        lemma_adds_never_lower(start, hashes, p, r, j);
    }
    if start.len() > 0 {
        lemma_adds_never_lower(start, hashes, p, r, 0);
    } else {
        assert((1u64 << 4u64) == 16) by (bit_vector);
    }
    if count > 0 {
        let rest = registers_after_adds(start, hashes.drop_last(), p, r);
        lemma_hash_in_range(hashes.last(), p as u64, r as u64);
        lemma_adds_never_lower(start, hashes.drop_last(), p, r, 0);
        let j = hash_register(hashes.last(), p);
        assert(registers[j] >= hash_rank(hashes.last(), p, r));
    }
}

proof fn lemma_select_same(x: u64, m: u64)
    by (bit_vector)
    ensures
        select_word(x, x, m) == x,
{
}

/// Merging a counter into itself changes no word of it.
pub proof fn lemma_merge_with_itself(x: Seq<u64>, r: nat)
    ensures
        merged_words(x, x, r) == x,
{
    reveal(merged_words);
    assert forall|i: int| 0 <= i < x.len() implies merged_word(x, x, r, i) == x[i] by {
        lemma_select_same(
            x[i],
            crate::utils::hyper_log_log::broadword::spread_at(
                crate::utils::hyper_log_log::broadword::less_words(x, x, r),
                r,
                i,
            ),
        );
    }
    assert(merged_words(x, x, r) =~= x);
}

/// Merging `b` into `a` and then the result into `b` leaves both with the
/// same registers: the larger of the two at every position.
pub proof fn lemma_merge_both_ways(a: Seq<u64>, b: Seq<u64>)
    requires
        a.len() == b.len(),
    ensures
        registers_max(b, registers_max(a, b)) == registers_max(a, b),
        registers_max(a, b) == registers_max(b, a),
        forall|j: int| 0 <= j < a.len() ==> #[trigger] registers_max(a, b)[j] == max64(a[j], b[j]),
{
    assert(registers_max(b, registers_max(a, b)) =~= registers_max(a, b));
    assert(registers_max(a, b) =~= registers_max(b, a));
}

/// A merge lowers no register.
pub proof fn lemma_merge_never_lowers(a: Seq<u64>, b: Seq<u64>, j: int)
    requires
        a.len() == b.len(),
        0 <= j < a.len(),
    ensures
        registers_max(a, b)[j] >= a[j],
        registers_max(a, b)[j] >= b[j],
{
}

/// The width of a register for at most `n` elements is the least `k >= 5`
/// with `n <= 2^(2^k)`.
pub proof fn lemma_register_size_is_least(n: nat)
    requires
        n <= u64::MAX,
    ensures
        n <= pow2(pow2(register_size_for(n))),
        register_size_for(n) >= 5,
        register_size_for(n) > 5 ==> n > pow2(pow2((register_size_for(n) - 1) as nat)),
{
    lemma2_to64();
    lemma2_to64_rest();
}

} // verus!
