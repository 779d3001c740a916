//! An array of HyperLogLog counters in one bit-packed buffer, its builder,
//! and the handle through which one counter is read and written.
use crate::utils::hyper_log_log::bit_fields::{
    get_register, lemma_register_in_subrange, lemma_scale, low_mask, register_at, set_register,
    valid_register_size,
};
use crate::utils::hyper_log_log::broadword::{
    block_words, is_lsb_mask, is_msb_mask, lemma_merged_registers, lsb_mask_word, max64,
    merge_words, merged_words, msb_mask_word,
};
use std::hash::Hasher;
use vstd::prelude::*;
use vstd::std_specs::hash::DefaultHasherAdditionalSpecFns;

verus! {

/// Why an array of counters cannot be built or two arrays cannot be swapped.
#[derive(Clone, Copy, Debug, PartialEq, Eq, Structural)]
pub enum HyperLogLogError {
    /// Fewer than 16 registers per counter were asked for.
    TooFewRegisters,
    /// The registers of one counter do not fill a whole number of words.
    Misaligned,
    /// The bits of the array cannot be counted in a `usize`.
    TooLarge,
    /// Two arrays differ in the number of counters, of registers, or in the
    /// width of a register.
    Mismatch,
}

impl HyperLogLogError {
    /// What the error says, in words.
    pub open spec fn spec_message(self) -> Seq<char> {
        match self {
            HyperLogLogError::TooFewRegisters => "a counter needs 16 registers at least"@,
            HyperLogLogError::Misaligned => "the registers of a counter do not fill whole words"@,
            HyperLogLogError::TooLarge => "the array of counters is too large"@,
            HyperLogLogError::Mismatch => "the arrays of counters differ in shape"@,
        }
    }

    /// What the error says, in words.
    pub fn message(&self) -> (text: String)
        ensures
            text@ == self.spec_message(),
    {
        let text: &str = match self {
            HyperLogLogError::TooFewRegisters => "a counter needs 16 registers at least",
            HyperLogLogError::Misaligned => "the registers of a counter do not fill whole words",
            HyperLogLogError::TooLarge => "the array of counters is too large",
            HyperLogLogError::Mismatch => "the arrays of counters differ in shape",
        };
        text.to_string()
    }
}

/// The width of a register for at most `n` distinct elements: the least `k`
/// with `n <= 2^(2^k)`, and at least 5.
pub open spec fn register_size_for(n: nat) -> nat {
    if n <= 0x1_0000_0000 {
        5
    } else {
        6
    }
}

/// The bit that is set in every hash before its trailing zeros are counted,
/// so that the count stays below `2^r - 1`.
pub open spec fn sentinel_for(r: nat) -> u64 {
    if r == 5 {
        0x4000_0000
    } else {
        0x4000_0000_0000_0000
    }
}

/// The number of registers of a counter with `2^p` of them.
pub open spec fn registers_for(p: nat) -> nat {
    (1u64 << (p as u64)) as nat
}

/// The registers that `words` holds when read as `m` registers of `r` bits.
pub open spec fn registers_of(words: Seq<u64>, r: nat, m: nat) -> Seq<u64> {
    Seq::new(m, |j: int| register_at(words, r, j))
}

/// Register by register, the larger of `a` and `b`.
pub open spec fn registers_max(a: Seq<u64>, b: Seq<u64>) -> Seq<u64> {
    Seq::new(a.len(), |j: int| max64(a[j], b[j]))
}

/// The register that a hash selects in a counter of `2^p` registers.
pub open spec fn hash_register(hash: u64, p: nat) -> int {
    (hash & low_mask(p as u64)) as int
}

/// The value that a hash proposes for its register: one more than the
/// number of trailing zeros of the hash without its `p` lowest bits, the
/// sentinel bit set.
pub open spec fn hash_rank(hash: u64, p: nat, r: nat) -> u64 {
    (((hash >> (p as u64)) | sentinel_for(r)).trailing_zeros() + 1) as u64
}

/// `len`, or 1 where `len` is zero.
pub open spec fn at_least_one(len: nat) -> nat {
    if len == 0 {
        1
    } else {
        len
    }
}

/// The base-2 logarithm of the number of registers per counter that a
/// builder starts with.
pub const DEFAULT_LOG_2_NUM_REGISTERS: usize = 6;

/// The outcome that `build` owes for `2^p` registers per counter, at most
/// `n` elements and `len` counters: the error, or `None` where it succeeds.
pub open spec fn build_error(p: nat, n: nat, len: nat) -> Option<HyperLogLogError> {
    if p < 4 {
        Some(HyperLogLogError::TooFewRegisters)
    } else if p >= 58 {
        Some(HyperLogLogError::TooLarge)
    } else if (registers_for(p) * register_size_for(n)) % 64 != 0 {
        Some(HyperLogLogError::Misaligned)
    } else if at_least_one(len) * (registers_for(p) * register_size_for(n)) > usize::MAX {
        Some(HyperLogLogError::TooLarge)
    } else {
        None
    }
}

/// With the number of registers that a builder starts with, an array is
/// built whenever its bits can be counted in a `usize`, whatever the bound
/// on the number of elements.
pub proof fn lemma_default_builds(n: nat, len: nat)
    ensures
        registers_for(DEFAULT_LOG_2_NUM_REGISTERS as nat) == 64,
        build_error(DEFAULT_LOG_2_NUM_REGISTERS as nat, n, len) is None <==> at_least_one(len) * (64
            * register_size_for(n)) <= usize::MAX,
{
    assert((1u64 << 6u64) == 64) by (bit_vector);
}

proof fn lemma_counter_range(c: int, n: int, w: int)
    by (nonlinear_arith)
    requires
        0 <= c < n,
        0 <= w,
    ensures
        0 <= c * w,
        c * w + w <= n * w,
{
}

proof fn lemma_whole_blocks(p: u64)
    by (bit_vector)
    requires
        4 <= p < 58,
    ensures
        1 <= (1u64 << p) <= 0x0200_0000_0000_0000u64,
        ((1u64 << p) * 5) % 64 == 0 ==> (((1u64 << p) * 5) / 64) % 5 == 0,
        ((1u64 << p) * 6) % 64 == 0 ==> (((1u64 << p) * 6) / 64) % 3 == 0,
        ((1u64 << p) - 1) as u64 == low_mask(p),
{
}

/// Builder of a [`HyperLogLogCounterArray`].
#[derive(Clone, Copy, Debug)]
pub struct HyperLogLogCounterArrayBuilder {
    log_2_num_registers: usize,
    num_elements: usize,
}

impl HyperLogLogCounterArrayBuilder {
    /// The base-2 logarithm of the number of registers per counter that the
    /// builder holds.
    pub closed spec fn spec_log_2_num_registers(&self) -> nat {
        self.log_2_num_registers as nat
    }

    /// The bound on the number of distinct elements that the builder holds.
    pub closed spec fn spec_num_elements(&self) -> nat {
        self.num_elements as nat
    }

    /// A builder for counters of 64 registers that expect one element. A
    /// counter of that many registers fills whole words, whatever the size
    /// of a register.
    pub fn new() -> (b: Self)
        ensures
            b.spec_log_2_num_registers() == DEFAULT_LOG_2_NUM_REGISTERS,
            b.spec_num_elements() == 1,
    {
        HyperLogLogCounterArrayBuilder {
            log_2_num_registers: DEFAULT_LOG_2_NUM_REGISTERS,
            num_elements: 1,
        }
    }

    /// Sets the base-2 logarithm of the number of registers per counter.
    pub fn log_2_num_registers(self, log_2_num_registers: usize) -> (b: Self)
        ensures
            b.spec_log_2_num_registers() == log_2_num_registers,
            b.spec_num_elements() == self.spec_num_elements(),
    {
        HyperLogLogCounterArrayBuilder { log_2_num_registers, num_elements: self.num_elements }
    }

    /// Sets the upper bound on the number of distinct elements that a
    /// counter will see.
    pub fn num_elements_upper_bound(self, num_elements: usize) -> (b: Self)
        ensures
            b.spec_log_2_num_registers() == self.spec_log_2_num_registers(),
            b.spec_num_elements() == num_elements,
    {
        HyperLogLogCounterArrayBuilder {
            log_2_num_registers: self.log_2_num_registers,
            num_elements,
        }
    }

    /// Builds an array of `len` counters with all registers at zero.
    ///
    /// Fails when fewer than 16 registers per counter are asked for, when the
    /// registers of a counter do not fill whole words, and when the array
    /// would hold more bits than a `usize` counts.
    pub fn build(self, len: usize) -> (res: Result<HyperLogLogCounterArray, HyperLogLogError>)
        ensures
            match res {
                Ok(array) => {
                    &&& build_error(
                        self.spec_log_2_num_registers(),
                        self.spec_num_elements(),
                        len as nat,
                    ) is None
                    &&& array.wf()
                    &&& array.spec_num_counters() == len
                    &&& array.spec_log_2_num_registers() == self.spec_log_2_num_registers()
                    &&& array.spec_register_size() == register_size_for(self.spec_num_elements())
                    &&& forall|c: int, j: int|
                        0 <= c < len && 0 <= j < array.spec_num_registers()
                            ==> #[trigger] array.registers(c)[j] == 0
                },
                Err(e) => build_error(
                    self.spec_log_2_num_registers(),
                    self.spec_num_elements(),
                    len as nat,
                ) == Some(e),
            },
    {
        let p: usize = self.log_2_num_registers;
        if p < 4 {
            return Err(HyperLogLogError::TooFewRegisters);
        }
        if p >= 58 {
            return Err(HyperLogLogError::TooLarge);
        }
        let register_size: usize = HyperLogLogCounterArray::register_size_from_number_of_elements(
            self.num_elements,
        );
        proof {
            lemma_whole_blocks(p as u64);
        }
        let registers: u64 = 1u64 << (p as u64);
        let counter_bits: u64 = registers * (register_size as u64);
        if counter_bits % 64 != 0 {
            return Err(HyperLogLogError::Misaligned);
        }
        let words_per_counter: u64 = counter_bits / 64;
        let count: u128 = if len == 0 {
            1
        } else {
            len as u128
        };
        assert(count * counter_bits <= 0x1_0000_0000_0000_0000 * 0x1000_0000_0000_0000)
            by (nonlinear_arith)
            requires
                0 <= count <= 0x1_0000_0000_0000_0000,
                0 <= counter_bits <= 0x1000_0000_0000_0000,
        ;
        let total_bits: u128 = count * (counter_bits as u128);
        if total_bits > usize::MAX as u128 {
            return Err(HyperLogLogError::TooLarge);
        }
        assert(counter_bits <= total_bits && len * counter_bits <= total_bits) by (nonlinear_arith)
            requires
                total_bits == count * counter_bits,
                count >= 1,
                count >= len,
                counter_bits >= 0,
        ;
        let words_per_counter: usize = words_per_counter as usize;
        let num_registers: usize = registers as usize;
        assert(len * words_per_counter * 64 == len * counter_bits && len * words_per_counter <= len
            * counter_bits) by (nonlinear_arith)
            requires
                words_per_counter * 64 == counter_bits,
        ;
        let total_words: usize = len * words_per_counter;
        let bits: Vec<u64> = vec![0u64; total_words];
        let mut msb_mask: Vec<u64> = Vec::new();
        let mut lsb_mask: Vec<u64> = Vec::new();
        let mut i: usize = 0;
        while i < words_per_counter
            invariant
                i <= words_per_counter,
                valid_register_size(register_size as nat),
                msb_mask@.len() == i,
                lsb_mask@.len() == i,
                is_msb_mask(msb_mask@, register_size as nat),
                is_lsb_mask(lsb_mask@, register_size as nat),
            decreases words_per_counter - i,
        {
            msb_mask.push(msb_mask_word(register_size, i));
            lsb_mask.push(lsb_mask_word(register_size, i));
            i += 1;
        }
        let array = HyperLogLogCounterArray {
            bits,
            num_counters: len,
            num_registers,
            num_registers_minus_1: registers - 1,
            log_2_num_registers: p,
            register_size,
            sentinel_mask: if register_size == 5 {
                0x4000_0000
            } else {
                0x4000_0000_0000_0000
            },
            msb_mask,
            lsb_mask,
            residual_mask: u64::MAX,
        };
        proof {
            assert forall|c: int, j: int|
                0 <= c < len && 0 <= j < array.spec_num_registers() implies #[trigger] array.registers(
                c,
            )[j] == 0 by {
                lemma_counter_range(c, len as int, words_per_counter as int);
                array.lemma_zero_words(c, j);
            }
        }
        Ok(array)
    }
}

impl Default for HyperLogLogCounterArrayBuilder {
    fn default() -> (b: Self)
        ensures
            b.spec_log_2_num_registers() == DEFAULT_LOG_2_NUM_REGISTERS,
            b.spec_num_elements() == 1,
    {
        HyperLogLogCounterArrayBuilder::new()
    }
}

/// An array of HyperLogLog counters. Counter `c` owns the words
/// `c * words_per_counter` to `(c + 1) * words_per_counter - 1` of one
/// buffer, and holds its registers bit-packed in them.
pub struct HyperLogLogCounterArray {
    /// The registers of all counters.
    bits: Vec<u64>,
    /// The number of counters.
    num_counters: usize,
    /// The number of registers per counter.
    num_registers: usize,
    /// The number of registers per counter minus 1.
    num_registers_minus_1: u64,
    /// The base-2 logarithm of the number of registers per counter.
    log_2_num_registers: usize,
    /// The width of a register in bits.
    register_size: usize,
    /// The bit that caps the number of trailing zeros of a hash.
    sentinel_mask: u64,
    /// One counter's worth of words with the highest bit of each register.
    msb_mask: Vec<u64>,
    /// One counter's worth of words with the lowest bit of each register.
    lsb_mask: Vec<u64>,
    /// The bits of a counter's last word that belong to its registers.
    residual_mask: u64,
}

impl HyperLogLogCounterArray {
    /// The invariant of the array.
    pub closed spec fn wf(&self) -> bool {
        &&& valid_register_size(self.register_size as nat)
        &&& 4 <= self.log_2_num_registers < 58
        &&& self.num_registers == registers_for(self.log_2_num_registers as nat)
        &&& self.num_registers_minus_1 == low_mask(self.log_2_num_registers as u64)
        &&& self.sentinel_mask == sentinel_for(self.register_size as nat)
        &&& self.num_registers * self.register_size == 64 * self.msb_mask@.len()
        &&& self.msb_mask@.len() % (block_words(self.register_size as nat) as nat) == 0
        &&& self.lsb_mask@.len() == self.msb_mask@.len()
        &&& is_msb_mask(self.msb_mask@, self.register_size as nat)
        &&& is_lsb_mask(self.lsb_mask@, self.register_size as nat)
        &&& self.residual_mask == u64::MAX
        &&& self.bits@.len() == self.num_counters * self.msb_mask@.len()
        &&& 64 * self.bits@.len() <= usize::MAX
    }

    /// The number of counters.
    pub closed spec fn spec_num_counters(&self) -> nat {
        self.num_counters as nat
    }

    /// The number of registers per counter.
    pub closed spec fn spec_num_registers(&self) -> nat {
        self.num_registers as nat
    }

    /// The base-2 logarithm of the number of registers per counter.
    pub closed spec fn spec_log_2_num_registers(&self) -> nat {
        self.log_2_num_registers as nat
    }

    /// The width of a register in bits.
    pub closed spec fn spec_register_size(&self) -> nat {
        self.register_size as nat
    }

    /// The number of words that one counter occupies.
    pub closed spec fn spec_words_per_counter(&self) -> nat {
        self.msb_mask@.len()
    }

    /// All words of the array.
    pub closed spec fn spec_words(&self) -> Seq<u64> {
        self.bits@
    }

    /// The words of counter `c`.
    pub open spec fn counter_words(&self, c: int) -> Seq<u64> {
        self.spec_words().subrange(
            c * self.spec_words_per_counter(),
            c * self.spec_words_per_counter() + self.spec_words_per_counter(),
        )
    }

    /// The registers of counter `c`.
    pub open spec fn registers(&self, c: int) -> Seq<u64> {
        registers_of(self.counter_words(c), self.spec_register_size(), self.spec_num_registers())
    }

    /// What two arrays must share for their buffers to be swapped or a
    /// counter of one to be copied into the other.
    pub open spec fn same_shape(&self, other: &Self) -> bool {
        &&& self.spec_num_counters() == other.spec_num_counters()
        &&& self.spec_log_2_num_registers() == other.spec_log_2_num_registers()
        &&& self.spec_register_size() == other.spec_register_size()
    }

    /// What follows from the invariant about the sizes.
    pub proof fn lemma_sizes(&self)
        requires
            self.wf(),
        ensures
            valid_register_size(self.spec_register_size()),
            4 <= self.spec_log_2_num_registers() < 58,
            self.spec_num_registers() == registers_for(self.spec_log_2_num_registers()),
            16 <= self.spec_num_registers(),
            self.spec_num_registers() * self.spec_register_size() == 64
                * self.spec_words_per_counter(),
            self.spec_words_per_counter() % (block_words(self.spec_register_size()) as nat) == 0,
            self.spec_words().len() == self.spec_num_counters() * self.spec_words_per_counter(),
            64 * self.spec_words().len() <= usize::MAX,
    {
        let p = self.log_2_num_registers as u64;
        assert(16 <= (1u64 << p)) by (bit_vector)
            requires
                4 <= p < 58,
        ;
    }

    /// Two arrays of the same shape have counters of the same size.
    pub proof fn lemma_same_shape(&self, other: &Self)
        requires
            self.wf(),
            other.wf(),
            self.same_shape(other),
        ensures
            self.spec_num_registers() == other.spec_num_registers(),
            self.spec_words_per_counter() == other.spec_words_per_counter(),
            self.spec_words().len() == other.spec_words().len(),
    {
    }

    proof fn lemma_zero_words(&self, c: int, j: int)
        requires
            valid_register_size(self.register_size as nat),
            self.num_registers * self.register_size == 64 * self.msb_mask@.len(),
            0 <= c,
            c * self.msb_mask@.len() + self.msb_mask@.len() <= self.bits@.len(),
            0 <= j < self.num_registers,
            forall|i: int| 0 <= i < self.bits@.len() ==> self.bits@[i] == 0,
        ensures
            self.registers(c)[j] == 0,
    {
        let r = self.register_size as nat;
        lemma_scale(r, j);
        let s = ((r * j) % 64) as u64;
        assert(crate::utils::hyper_log_log::bit_fields::field(0, 0, s, r as u64) == 0) by {
            assert(crate::utils::hyper_log_log::bit_fields::field(0, 0, s, 5) == 0) by (bit_vector)
                requires
                    s < 64,
            ;
            assert(crate::utils::hyper_log_log::bit_fields::field(0, 0, s, 6) == 0) by (bit_vector)
                requires
                    s < 64,
            ;
        }
    }

    /// The width of a register for at most `n` distinct elements.
    pub fn register_size_from_number_of_elements(n: usize) -> (r: usize)
        ensures
            r == register_size_for(n as nat),
            valid_register_size(r as nat),
    {
        if (n as u64) <= 0x1_0000_0000u64 {
            5
        } else {
            6
        }
    }

    /// The number of counters.
    pub fn len(&self) -> (n: usize)
        ensures
            n == self.spec_num_counters(),
    {
        self.num_counters
    }

    /// The width of a register in bits.
    pub fn register_size(&self) -> (r: usize)
        ensures
            r == self.spec_register_size(),
    {
        self.register_size
    }

    /// The number of registers per counter.
    pub fn num_registers(&self) -> (m: usize)
        ensures
            m == self.spec_num_registers(),
    {
        self.num_registers
    }

    /// The base-2 logarithm of the number of registers per counter.
    pub fn log_2_num_registers(&self) -> (p: usize)
        ensures
            p == self.spec_log_2_num_registers(),
    {
        self.log_2_num_registers
    }

    /// The number of counters that together fill whole words. Every counter
    /// fills whole words, so this is 1.
    pub fn chunk_size(&self) -> (size: usize)
        ensures
            size == 1,
    {
        1
    }

    /// The number of words that one counter occupies.
    pub fn words_per_counter(&self) -> (w: usize)
        ensures
            w == self.spec_words_per_counter(),
    {
        self.msb_mask.len()
    }

    /// The mask of the bits of a counter's last word that hold registers.
    /// Counters fill whole words, so all bits are set.
    pub fn residual_mask(&self) -> (mask: u64)
        requires
            self.wf(),
        ensures
            mask == u64::MAX,
    {
        self.residual_mask
    }

    /// All words of the array, counter after counter.
    pub fn as_slice(&self) -> (words: &[u64])
        ensures
            words@ == self.spec_words(),
    {
        self.bits.as_slice()
    }

    /// `self` is `before` but for the words of counter `c`.
    pub open spec fn differs_only_at(&self, before: &Self, c: int) -> bool {
        &&& self.wf()
        &&& self.same_shape(before)
        &&& forall|d: int|
            0 <= d < self.spec_num_counters() && d != c ==> #[trigger] self.counter_words(d)
                == before.counter_words(d)
    }

    proof fn lemma_differs_only_at(&self, before: &Self, c: int)
        requires
            before.wf(),
            0 <= c < before.num_counters,
            self.num_counters == before.num_counters,
            self.num_registers == before.num_registers,
            self.num_registers_minus_1 == before.num_registers_minus_1,
            self.log_2_num_registers == before.log_2_num_registers,
            self.register_size == before.register_size,
            self.sentinel_mask == before.sentinel_mask,
            self.msb_mask == before.msb_mask,
            self.lsb_mask == before.lsb_mask,
            self.residual_mask == before.residual_mask,
            self.bits@.len() == before.bits@.len(),
            forall|i: int|
                0 <= i < self.bits@.len() && !(c * self.msb_mask@.len() <= i < c
                    * self.msb_mask@.len() + self.msb_mask@.len()) ==> self.bits@[i]
                    == before.bits@[i],
        ensures
            self.differs_only_at(before, c),
    {
        let w = self.msb_mask@.len() as int;
        assert forall|d: int|
            0 <= d < self.spec_num_counters() && d != c implies #[trigger] self.counter_words(d)
            == before.counter_words(d) by {
            lemma_counter_range(d, self.num_counters as int, w);
            if d < c {
                lemma_counter_range(d, c, w);
            } else {
                lemma_counter_range(c, d, w);
            }
            assert(self.counter_words(d) =~= before.counter_words(d));
        }
    }

    /// Sets every register of every counter to zero.
    pub fn clear(&mut self)
        requires
            old(self).wf(),
        ensures
            final(self).wf(),
            final(self).same_shape(old(self)),
            forall|c: int, j: int|
                0 <= c < final(self).spec_num_counters() && 0 <= j < final(self).spec_num_registers()
                    ==> #[trigger] final(self).registers(c)[j] == 0,
    {
        let mut i: usize = 0;
        while i < self.bits.len()
            invariant
                i <= self.bits@.len(),
                self.bits@.len() == old(self).bits@.len(),
                self.num_counters == old(self).num_counters,
                self.num_registers == old(self).num_registers,
                self.num_registers_minus_1 == old(self).num_registers_minus_1,
                self.log_2_num_registers == old(self).log_2_num_registers,
                self.register_size == old(self).register_size,
                self.sentinel_mask == old(self).sentinel_mask,
                self.msb_mask == old(self).msb_mask,
                self.lsb_mask == old(self).lsb_mask,
                self.residual_mask == old(self).residual_mask,
                forall|k: int| 0 <= k < i ==> self.bits@[k] == 0,
            decreases self.bits@.len() - i,
        {
            self.bits.set(i, 0);
            i += 1;
        }
        proof {
            assert forall|c: int, j: int|
                0 <= c < self.spec_num_counters()
                    && 0 <= j < self.spec_num_registers() implies #[trigger] self.registers(
                c,
            )[j] == 0 by {
                lemma_counter_range(c, self.num_counters as int, self.msb_mask@.len() as int);
                self.lemma_zero_words(c, j);
            }
        }
    }

    /// Swaps the registers of two arrays of the same shape, and refuses two
    /// arrays that differ in the number of counters, the number of registers
    /// or the width of a register.
    pub fn swap_with(&mut self, other: &mut Self) -> (res: Result<(), HyperLogLogError>)
        requires
            old(self).wf(),
            old(other).wf(),
        ensures
            final(self).wf(),
            final(other).wf(),
            final(self).same_shape(old(self)),
            final(other).same_shape(old(other)),
            res is Ok <==> old(self).same_shape(old(other)),
            res matches Err(e) ==> e == HyperLogLogError::Mismatch
                && final(self).spec_words() == old(self).spec_words()
                && final(other).spec_words() == old(other).spec_words(),
            res is Ok ==> final(self).spec_words() == old(other).spec_words()
                && final(other).spec_words() == old(self).spec_words(),
    {
        if self.num_counters != other.num_counters || self.log_2_num_registers
            != other.log_2_num_registers || self.register_size != other.register_size {
            return Err(HyperLogLogError::Mismatch);
        }
        std::mem::swap(&mut self.bits, &mut other.bits);
        Ok(())
    }

    /// A handle to counter `index`, not cached.
    pub fn get_counter(&self, index: usize) -> (counter: HyperLogLogCounter)
        requires
            index < self.spec_num_counters(),
        ensures
            counter.spec_index() == index,
            counter.spec_cached() is None,
            !counter.spec_changed(),
            self.wf() ==> counter.wf(self),
    {
        HyperLogLogCounter { index, cached_bits: None, changed: false }
    }

    /// Scratch space for merges into counters of this array: it holds no
    /// word yet, and has room for the words of one counter.
    pub fn get_thread_helper(&self) -> (helper: ThreadHelper)
        ensures
            helper.held() == (Seq::<u64>::empty(), Seq::<u64>::empty()),
    {
        ThreadHelper {
            acc: Vec::with_capacity(self.msb_mask.len()),
            y: Vec::with_capacity(self.msb_mask.len()),
        }
    }

    /// A handle to every counter, in order.
    pub fn into_vec(&self) -> (counters: Vec<HyperLogLogCounter>)
        ensures
            counters@.len() == self.spec_num_counters(),
            forall|i: int|
                0 <= i < counters@.len() ==> (#[trigger] counters@[i]).spec_index() == i
                    && counters@[i].spec_cached() is None && !counters@[i].spec_changed(),
    {
        let mut counters: Vec<HyperLogLogCounter> = Vec::with_capacity(self.num_counters);
        let mut i: usize = 0;
        while i < self.num_counters
            invariant
                i <= self.num_counters,
                counters@.len() == i,
                forall|k: int|
                    0 <= k < i ==> (#[trigger] counters@[k]).spec_index() == k
                        && counters@[k].spec_cached() is None && !counters@[k].spec_changed(),
            decreases self.num_counters - i,
        {
            counters.push(self.get_counter(i));
            i += 1;
        }
        counters
    }
}

/// Scratch space that a thread keeps between merges.
pub struct ThreadHelper {
    acc: Vec<u64>,
    y: Vec<u64>,
}

impl ThreadHelper {
    /// The words that the two lists of the scratch space hold: what the
    /// last merge has left there.
    pub closed spec fn held(&self) -> (Seq<u64>, Seq<u64>) {
        (self.acc@, self.y@)
    }
}

/// A handle to one counter of a [`HyperLogLogCounterArray`]: its index and,
/// once [`cache`](HyperLogLogCounter::cache) was called, a private copy of
/// its words on which every later operation works until the copy is
/// committed.
pub struct HyperLogLogCounter {
    /// The index of the counter in its array.
    index: usize,
    /// The private copy of the counter's words.
    cached_bits: Option<Vec<u64>>,
    /// Whether the private copy was modified since it was made or committed.
    changed: bool,
}

impl HyperLogLogCounter {
    /// The index of the counter in its array.
    pub closed spec fn spec_index(&self) -> nat {
        self.index as nat
    }

    /// The private copy of the counter's words, if there is one.
    pub closed spec fn spec_cached(&self) -> Option<Seq<u64>> {
        match self.cached_bits {
            Some(bits) => Some(bits@),
            None => None,
        }
    }

    /// Whether the private copy was modified.
    pub closed spec fn spec_changed(&self) -> bool {
        self.changed
    }

    /// The handle fits the array.
    pub open spec fn wf(&self, array: &HyperLogLogCounterArray) -> bool {
        &&& array.wf()
        &&& self.spec_index() < array.spec_num_counters()
        &&& match self.spec_cached() {
            Some(words) => words.len() == array.spec_words_per_counter(),
            None => !self.spec_changed(),
        }
    }

    /// The words that the handle reads: its private copy, or else the words
    /// of its counter in the array.
    pub open spec fn words(&self, array: &HyperLogLogCounterArray) -> Seq<u64> {
        match self.spec_cached() {
            Some(words) => words,
            None => array.counter_words(self.spec_index() as int),
        }
    }

    /// The registers that the handle reads.
    pub open spec fn registers(&self, array: &HyperLogLogCounterArray) -> Seq<u64> {
        registers_of(self.words(array), array.spec_register_size(), array.spec_num_registers())
    }

    /// The index of the counter in its array.
    pub fn counter_index(&self) -> (index: usize)
        ensures
            index == self.spec_index(),
    {
        self.index
    }

    /// The index of the chunk of counters to which the counter belongs: a
    /// chunk is one counter, so this is the index of the counter.
    pub fn chunk_index(&self) -> (index: usize)
        ensures
            index == self.spec_index(),
    {
        self.index
    }

    /// Whether the counter is the last of its chunk; a chunk is one
    /// counter, so it is.
    pub fn is_last_of_chunk(&self) -> (last: bool)
        ensures
            last,
    {
        true
    }

    /// The index of the counter's first register among all registers of the
    /// array.
    pub fn offset(&self, array: &HyperLogLogCounterArray) -> (offset: usize)
        requires
            self.wf(array),
        ensures
            offset == self.spec_index() * array.spec_num_registers(),
    {
        proof {
            lemma_counter_range(
                self.index as int,
                array.num_counters as int,
                array.msb_mask@.len() as int,
            );
            assert(self.index * array.num_registers <= self.index * (64 * array.msb_mask@.len()))
                by (nonlinear_arith)
                requires
                    array.num_registers <= 64 * array.msb_mask@.len(),
            ;
            assert(self.index * (64 * array.msb_mask@.len()) == 64 * (self.index
                * array.msb_mask@.len())) by (nonlinear_arith);
        }
        self.index * array.num_registers
    }

    /// Whether the private copy was modified since it was made or committed.
    pub fn is_changed(&self) -> (changed: bool)
        ensures
            changed == (self.spec_cached() is Some && self.spec_changed()),
    {
        self.cached_bits.is_some() && self.changed
    }

    /// Whether the handle works on a private copy.
    pub fn is_cached(&self) -> (cached: bool)
        ensures
            cached == self.spec_cached() is Some,
    {
        self.cached_bits.is_some()
    }

    /// The private copy of the counter's words, if there is one.
    pub fn cached_words(&self) -> (words: Option<&Vec<u64>>)
        ensures
            match words {
                Some(w) => self.spec_cached() == Some(w@),
                None => self.spec_cached() is None,
            },
    {
        self.cached_bits.as_ref()
    }
    proof fn lemma_layout(&self, array: &HyperLogLogCounterArray, j: int)
        requires
            self.wf(array),
            0 <= j < array.num_registers,
        ensures
            (j + 1) * array.register_size <= 64 * array.msb_mask@.len(),
            0 <= self.index * array.msb_mask@.len(),
            self.index * array.msb_mask@.len() + array.msb_mask@.len() <= array.bits@.len(),
            64 * (self.index * array.msb_mask@.len()) == array.register_size * (self.index
                * array.num_registers),
            0 <= self.index * array.num_registers,
            (self.index * array.num_registers + j + 1) * array.register_size <= 64
                * array.bits@.len(),
            self.index * array.num_registers + j < usize::MAX,
            self.registers(array)[j] == register_at(
                self.words(array),
                array.register_size as nat,
                j,
            ),
            self.spec_cached() is None ==> self.registers(array)[j] == register_at(
                array.bits@,
                array.register_size as nat,
                self.index * array.num_registers + j,
            ),
    {
        let c = self.index as int;
        let n = array.num_counters as int;
        let w = array.msb_mask@.len() as int;
        let m = array.num_registers as int;
        let r = array.register_size as int;
        lemma_counter_range(c, n, w);
        assert((j + 1) * r <= m * r) by (nonlinear_arith)
            requires
                0 <= j < m,
                0 <= r,
        ;
        assert(64 * (c * w) == r * (c * m)) by (nonlinear_arith)
            requires
                m * r == 64 * w,
        ;
        assert((c * m + j + 1) * r == r * (c * m) + (j + 1) * r) by (nonlinear_arith);
        assert(c * m + j + 1 <= (c * m + j + 1) * r) by (nonlinear_arith)
            requires
                0 <= c * m + j + 1,
                1 <= r,
        ;
        if self.spec_cached() is None {
            lemma_register_in_subrange(array.bits@, r as nat, c * w, w, c * m, j);
        }
    }

    /// Reads register `j`.
    pub fn get_register(&self, array: &HyperLogLogCounterArray, j: usize) -> (v: u64)
        requires
            self.wf(array),
            j < array.spec_num_registers(),
        ensures
            v == self.registers(array)[j as int],
            v <= low_mask(array.spec_register_size() as u64),
    {
        proof {
            self.lemma_layout(array, j as int);
        }
        match &self.cached_bits {
            Some(bits) => get_register(bits, array.register_size, j),
            None => get_register(&array.bits, array.register_size, self.index * array.num_registers + j),
        }
    }

    /// Writes `v` into register `j`: of the private copy if there is one,
    /// and else of the array.
    pub fn set_register(&mut self, array: &mut HyperLogLogCounterArray, j: usize, v: u64)
        requires
            old(self).wf(old(array)),
            j < old(array).spec_num_registers(),
            v <= low_mask(old(array).spec_register_size() as u64),
        ensures
            final(self).wf(final(array)),
            final(self).spec_index() == old(self).spec_index(),
            final(self).spec_cached() is Some <==> old(self).spec_cached() is Some,
            final(self).registers(final(array)) == old(self).registers(old(array)).update(
                j as int,
                v,
            ),
            final(array).differs_only_at(old(array), old(self).spec_index() as int),
            old(self).spec_cached() is Some ==> final(array).spec_words() == old(array).spec_words(),
            final(self).spec_changed() == (old(self).spec_changed() || (old(self).spec_cached()
                is Some && old(self).registers(old(array))[j as int] != v)),
    {
        let ghost before = old(self).registers(old(array));
        let r: usize = array.register_size;
        proof {
            self.lemma_layout(array, j as int);
        }
        if self.cached_bits.is_some() {
            let mut bits: Vec<u64> = self.cached_bits.take().unwrap();
            let ghost cached_before = bits@;
            let old_value: u64 = get_register(&bits, r, j);
            if old_value != v {
                set_register(&mut bits, r, j, v);
                self.changed = true;
            }
            proof {
                assert forall|k: int| 0 <= k < array.num_registers implies register_at(
                    bits@,
                    r as nat,
                    k,
                ) == before.update(j as int, v)[k] by {
                    assert((k + 1) * r <= array.num_registers * r) by (nonlinear_arith)
                        requires
                            0 <= k < array.num_registers,
                            0 <= r,
                    ;
                }
            }
            self.cached_bits = Some(bits);
            proof {
                assert(self.registers(array) =~= before.update(j as int, v));
                array.lemma_differs_only_at(old(array), self.index as int);
            }
        } else {
            let ghost c = self.index as int;
            let ghost w = array.msb_mask@.len() as int;
            let ghost m = array.num_registers as int;
            let global: usize = self.index * array.num_registers + j;
            set_register(&mut array.bits, r, global, v);
            proof {
                lemma_scale(r as nat, global as int);
                lemma_scale(r as nat, c * m);
                assert forall|i: int|
                    0 <= i < array.bits@.len() && !(c * w <= i < c * w + w) implies array.bits@[i]
                    == old(array).bits@[i] by {
                    assert((c * m + m) * r == r * (c * m) + m * r) by (nonlinear_arith);
                }
                array.lemma_differs_only_at(old(array), c);
                assert forall|k: int| 0 <= k < m implies register_at(
                    array.counter_words(c),
                    r as nat,
                    k,
                ) == before.update(j as int, v)[k] by {
                    assert((k + 1) * r <= m * r) by (nonlinear_arith)
                        requires
                            0 <= k < m,
                            0 <= r,
                    ;
                    assert((c * m + k + 1) * r == r * (c * m) + (k + 1) * r) by (nonlinear_arith);
                    lemma_register_in_subrange(array.bits@, r as nat, c * w, w, c * m, k);
                    lemma_register_in_subrange(old(array).bits@, r as nat, c * w, w, c * m, k);
                }
                assert(self.registers(array) =~= before.update(j as int, v));
            }
        }
    }
    /// Adds an element by its hash: the register that the hash selects
    /// becomes the larger of what it held and the rank of the hash. Where
    /// the register already holds as much, no word is written.
    pub fn add_hash(&mut self, array: &mut HyperLogLogCounterArray, hash: u64)
        requires
            old(self).wf(old(array)),
        ensures
            final(self).wf(final(array)),
            final(self).spec_index() == old(self).spec_index(),
            final(self).spec_cached() is Some <==> old(self).spec_cached() is Some,
            final(self).registers(final(array)) == registers_after_add(
                old(self).registers(old(array)),
                hash,
                old(array).spec_log_2_num_registers(),
                old(array).spec_register_size(),
            ),
            final(array).differs_only_at(old(array), old(self).spec_index() as int),
            old(self).spec_cached() is Some ==> final(array).spec_words() == old(array).spec_words(),
            registers_after_add(
                old(self).registers(old(array)),
                hash,
                old(array).spec_log_2_num_registers(),
                old(array).spec_register_size(),
            ) == old(self).registers(old(array))
                ==> final(self).words(final(array)) == old(self).words(old(array))
                && final(self).spec_changed() == old(self).spec_changed(),
            final(self).spec_changed() == (old(self).spec_changed() || (old(self).spec_cached()
                is Some && hash_rank(
                hash,
                old(array).spec_log_2_num_registers(),
                old(array).spec_register_size(),
            ) > old(self).registers(old(array))[hash_register(
                hash,
                old(array).spec_log_2_num_registers(),
            )])),
    {
        let p: usize = array.log_2_num_registers;
        let r: usize = array.register_size;
        let j: usize = (hash & array.num_registers_minus_1) as usize;
        let capped: u64 = (hash >> (p as u64)) | array.sentinel_mask;
        let rank: u64 = capped.trailing_zeros() as u64 + 1;
        proof {
            lemma_hash_in_range(hash, p as u64, r as u64);
            array.lemma_differs_only_at(array, self.index as int);
        }
        let current: u64 = self.get_register(array, j);
        if current < rank {
            self.set_register(array, j, rank);
        } else {
            proof {
                let before = self.registers(array);
                assert(before.update(j as int, current) =~= before);
            }
        }
    }

    /// Adds an element to the counter.
    pub fn add(&mut self, array: &mut HyperLogLogCounterArray, element: usize)
        requires
            old(self).wf(old(array)),
        ensures
            final(self).wf(final(array)),
            final(self).spec_index() == old(self).spec_index(),
            final(self).spec_cached() is Some <==> old(self).spec_cached() is Some,
            final(self).registers(final(array)) == registers_after_add(
                old(self).registers(old(array)),
                element_hash(element),
                old(array).spec_log_2_num_registers(),
                old(array).spec_register_size(),
            ),
            final(array).differs_only_at(old(array), old(self).spec_index() as int),
            old(self).spec_cached() is Some ==> final(array).spec_words() == old(array).spec_words(),
            registers_after_add(
                old(self).registers(old(array)),
                element_hash(element),
                old(array).spec_log_2_num_registers(),
                old(array).spec_register_size(),
            ) == old(self).registers(old(array))
                ==> final(self).words(final(array)) == old(self).words(old(array))
                && final(self).spec_changed() == old(self).spec_changed(),
            final(self).spec_changed() == (old(self).spec_changed() || (old(self).spec_cached()
                is Some && hash_rank(
                element_hash(element),
                old(array).spec_log_2_num_registers(),
                old(array).spec_register_size(),
            ) > old(self).registers(old(array))[hash_register(
                element_hash(element),
                old(array).spec_log_2_num_registers(),
            )])),
    {
        let hash: u64 = hash_element(element);
        self.add_hash(array, hash);
    }

    /// Sets every register of the counter to zero.
    pub fn clear(&mut self, array: &mut HyperLogLogCounterArray)
        requires
            old(self).wf(old(array)),
        ensures
            final(self).wf(final(array)),
            final(self).spec_index() == old(self).spec_index(),
            final(self).spec_cached() is Some <==> old(self).spec_cached() is Some,
            final(self).registers(final(array)) == Seq::new(
                old(array).spec_num_registers(),
                |j: int| 0u64,
            ),
            final(array).differs_only_at(old(array), old(self).spec_index() as int),
            old(self).spec_cached() is Some ==> final(array).spec_words() == old(array).spec_words(),
    {
        let m: usize = array.num_registers;
        let mut j: usize = 0;
        proof {
            array.lemma_differs_only_at(array, self.index as int);
        }
        while j < m
            invariant
                j <= m,
                m == array.spec_num_registers(),
                self.wf(array),
                self.spec_index() == old(self).spec_index(),
                self.spec_cached() is Some <==> old(self).spec_cached() is Some,
                array.differs_only_at(old(array), old(self).spec_index() as int),
                old(self).spec_cached() is Some ==> array.spec_words() == old(array).spec_words(),
                forall|k: int| 0 <= k < j ==> self.registers(array)[k] == 0,
            decreases m - j,
        {
            let ghost step = *array;
            self.set_register(array, j, 0);
            proof {
                assert forall|d: int|
                    0 <= d < array.spec_num_counters()
                        && d != self.spec_index() implies #[trigger] array.counter_words(
                    d,
                ) == old(array).counter_words(d) by {
                    assert(array.counter_words(d) == step.counter_words(d));
                }
            }
            j += 1;
        }
        proof {
            assert(self.registers(array) =~= Seq::new(
                old(array).spec_num_registers(),
                |j: int| 0u64,
            ));
        }
    }

    /// Merges `other` into this counter register by register: every
    /// register becomes the larger of the two.
    pub fn merge(&mut self, array: &mut HyperLogLogCounterArray, other: &HyperLogLogCounter)
        requires
            old(self).wf(old(array)),
            other.wf(old(array)),
        ensures
            final(self).wf(final(array)),
            other.wf(final(array)),
            final(self).spec_index() == old(self).spec_index(),
            final(self).spec_cached() is Some <==> old(self).spec_cached() is Some,
            final(self).registers(final(array)) == registers_max(
                old(self).registers(old(array)),
                other.registers(old(array)),
            ),
            final(array).differs_only_at(old(array), old(self).spec_index() as int),
            old(self).spec_cached() is Some ==> final(array).spec_words() == old(array).spec_words(),
    {
        let m: usize = array.num_registers;
        let ghost mine = self.registers(array);
        let ghost theirs = other.registers(array);
        let mut j: usize = 0;
        proof {
            array.lemma_differs_only_at(array, self.index as int);
        }
        while j < m
            invariant
                j <= m,
                m == array.spec_num_registers(),
                mine.len() == m,
                theirs.len() == m,
                self.wf(array),
                other.wf(array),
                self.spec_index() == old(self).spec_index(),
                self.spec_cached() is Some <==> old(self).spec_cached() is Some,
                array.differs_only_at(old(array), old(self).spec_index() as int),
                old(self).spec_cached() is Some ==> array.spec_words() == old(array).spec_words(),
                forall|k: int| 0 <= k < j ==> self.registers(array)[k] == max64(mine[k], theirs[k]),
                forall|k: int| j <= k < m ==> self.registers(array)[k] == mine[k],
                forall|k: int| j <= k < m ==> other.registers(array)[k] == theirs[k],
            decreases m - j,
        {
            let current: u64 = self.get_register(array, j);
            let other_value: u64 = other.get_register(array, j);
            if other_value > current {
                let ghost step = *array;
                let ghost step_regs = self.registers(array);
                let ghost step_theirs = other.registers(array);
                self.set_register(array, j, other_value);
                proof {
                    assert forall|d: int|
                        0 <= d < array.spec_num_counters()
                            && d != self.spec_index() implies #[trigger] array.counter_words(
                        d,
                    ) == old(array).counter_words(d) by {
                        assert(array.counter_words(d) == step.counter_words(d));
                    }
                    assert forall|k: int| j < k < m implies other.registers(array)[k]
                        == theirs[k] by {
                        if other.spec_cached() is None {
                            if other.spec_index() == self.spec_index() {
                                if self.spec_cached() is None {
                                    assert(other.registers(array)[k] == step_regs.update(
                                        j as int,
                                        other_value,
                                    )[k]);
                                    assert(step_theirs[k] == step_regs[k]);
                                }
                            } else {
                                assert(array.counter_words(other.spec_index() as int)
                                    == step.counter_words(other.spec_index() as int));
                            }
                        }
                    }
                }
            }
            j += 1;
        }
        proof {
            assert(self.registers(array) =~= registers_max(mine, theirs));
        }
    }

    /// Copies the words of the counter from the array into a private copy,
    /// on which the handle works from now on. A private copy that the handle
    /// already had is dropped with what was written to it.
    pub fn cache(&mut self, array: &HyperLogLogCounterArray)
        requires
            old(self).wf(array),
        ensures
            final(self).wf(array),
            final(self).spec_index() == old(self).spec_index(),
            final(self).spec_cached() == Some(array.counter_words(old(self).spec_index() as int)),
            !final(self).spec_changed(),
    {
        let w: usize = array.msb_mask.len();
        proof {
            lemma_counter_range(self.index as int, array.num_counters as int, w as int);
        }
        let bits: Vec<u64> = copy_words(&array.bits, self.index * w, w);
        self.cached_bits = Some(bits);
        self.changed = false;
    }

    /// Writes the private copy back into the array, and keeps it or drops
    /// it. The handle must have one, and it must have been modified.
    pub fn commit_changes(&mut self, array: &mut HyperLogLogCounterArray, keep_cached: bool)
        requires
            old(self).wf(old(array)),
            old(self).spec_cached() is Some,
            old(self).spec_changed(),
        ensures
            final(self).wf(final(array)),
            final(self).spec_index() == old(self).spec_index(),
            final(self).spec_cached() == (if keep_cached {
                old(self).spec_cached()
            } else {
                None
            }),
            !final(self).spec_changed(),
            final(array).counter_words(old(self).spec_index() as int) == old(self).words(
                old(array),
            ),
            final(self).words(final(array)) == old(self).words(old(array)),
            final(array).differs_only_at(old(array), old(self).spec_index() as int),
    {
        let w: usize = array.msb_mask.len();
        proof {
            lemma_counter_range(self.index as int, array.num_counters as int, w as int);
        }
        let bits: Vec<u64> = self.cached_bits.take().unwrap();
        write_words(&mut array.bits, self.index * w, &bits, 0, w);
        proof {
            array.lemma_differs_only_at(old(array), self.index as int);
            assert(bits@.subrange(0, w as int) =~= bits@);
        }
        self.changed = false;
        if keep_cached {
            self.cached_bits = Some(bits);
        }
    }

    /// Writes the private copy back into the array and keeps it.
    pub fn sync_to_backend(&mut self, array: &mut HyperLogLogCounterArray)
        requires
            old(self).wf(old(array)),
            old(self).spec_cached() is Some,
            old(self).spec_changed(),
        ensures
            final(self).wf(final(array)),
            final(self).spec_index() == old(self).spec_index(),
            final(self).spec_cached() == old(self).spec_cached(),
            !final(self).spec_changed(),
            final(array).counter_words(old(self).spec_index() as int) == old(self).words(
                old(array),
            ),
            final(array).differs_only_at(old(array), old(self).spec_index() as int),
    {
        self.commit_changes(array, true);
    }

    /// Sets the content of this counter to that of `counter`, a counter of
    /// the array `source` of the same shape. With a private copy, the copy
    /// takes the content and counts as modified where it now differs from
    /// the counter's words in the array.
    pub fn set_to(
        &mut self,
        array: &mut HyperLogLogCounterArray,
        counter: &HyperLogLogCounter,
        source: &HyperLogLogCounterArray,
    )
        requires
            old(self).wf(old(array)),
            counter.wf(source),
            old(array).same_shape(source),
        ensures
            final(self).wf(final(array)),
            final(self).spec_index() == old(self).spec_index(),
            final(self).spec_cached() is Some <==> old(self).spec_cached() is Some,
            final(self).words(final(array)) == counter.words(source),
            final(self).registers(final(array)) == counter.registers(source),
            final(array).differs_only_at(old(array), old(self).spec_index() as int),
            old(self).spec_cached() is Some ==> final(array).spec_words() == old(array).spec_words()
                && final(self).spec_changed() == (counter.words(source)
                != old(array).counter_words(old(self).spec_index() as int)),
    {
        let w: usize = array.msb_mask.len();
        proof {
            array.lemma_same_shape(source);
            lemma_counter_range(self.index as int, array.num_counters as int, w as int);
            lemma_counter_range(counter.index as int, source.num_counters as int, w as int);
        }
        let content: Vec<u64> = match &counter.cached_bits {
            Some(bits) => copy_words(bits, 0, w),
            None => copy_words(&source.bits, counter.index * w, w),
        };
        proof {
            if counter.spec_cached() is Some {
                assert(counter.spec_cached().unwrap().subrange(0, w as int)
                    =~= counter.spec_cached().unwrap());
            }
            assert(content@ == counter.words(source));
            array.lemma_differs_only_at(array, self.index as int);
        }
        if self.cached_bits.is_some() {
            self.changed = words_differ(&content, 0, &array.bits, self.index * w, w);
            proof {
                assert(content@.subrange(0, w as int) =~= content@);
            }
            self.cached_bits = Some(content);
        } else {
            write_words(&mut array.bits, self.index * w, &content, 0, w);
            proof {
                array.lemma_differs_only_at(old(array), self.index as int);
                assert(content@.subrange(0, w as int) =~= content@);
            }
        }
    }

    /// Merges `other` into the private copy of this counter, on whole words,
    /// and says whether a word of the copy changed. The array is only read.
    pub fn merge_cached(
        &mut self,
        array: &HyperLogLogCounterArray,
        other: &HyperLogLogCounter,
        helper: &mut ThreadHelper,
    ) -> (changed: bool)
        requires
            old(self).wf(array),
            other.wf(array),
            old(self).spec_cached() is Some,
        ensures
            final(self).wf(array),
            final(self).spec_index() == old(self).spec_index(),
            final(self).spec_cached() is Some,
            final(self).words(array) == merged_words(
                old(self).words(array),
                other.words(array),
                array.spec_register_size(),
            ),
            changed <==> final(self).words(array) != old(self).words(array),
            final(self).spec_changed() == (old(self).spec_changed() || changed),
    {
        let w: usize = array.msb_mask.len();
        let r: usize = array.register_size;
        let ghost mine = self.words(array);
        let ghost theirs = other.words(array);
        proof {
            lemma_counter_range(other.index as int, array.num_counters as int, w as int);
        }
        let mut bits: Vec<u64> = self.cached_bits.take().unwrap();
        let changed: bool = match &other.cached_bits {
            Some(other_bits) => merge_words(
                &mut bits,
                0,
                other_bits,
                0,
                w,
                &array.msb_mask,
                &array.lsb_mask,
                r,
                array.residual_mask,
                &mut helper.acc,
            ),
            None => merge_words(
                &mut bits,
                0,
                &array.bits,
                other.index * w,
                w,
                &array.msb_mask,
                &array.lsb_mask,
                r,
                array.residual_mask,
                &mut helper.acc,
            ),
        };
        proof {
            assert(mine.subrange(0, w as int) =~= mine);
            assert(bits@.subrange(0, w as int) =~= bits@);
            if other.spec_cached() is Some {
                assert(theirs.subrange(0, w as int) =~= theirs);
            }
        }
        if changed {
            self.changed = true;
        }
        self.cached_bits = Some(bits);
        changed
    }

    /// Merges `other` into the words of this counter in the array.
    fn merge_into_array(
        &self,
        array: &mut HyperLogLogCounterArray,
        other: &HyperLogLogCounter,
        helper: &mut ThreadHelper,
    ) -> (changed: bool)
        requires
            self.wf(old(array)),
            other.wf(old(array)),
            self.spec_cached() is None,
        ensures
            self.wf(final(array)),
            other.wf(final(array)),
            final(array).counter_words(self.spec_index() as int) == merged_words(
                old(array).counter_words(self.spec_index() as int),
                other.words(old(array)),
                old(array).spec_register_size(),
            ),
            changed <==> final(array).counter_words(self.spec_index() as int) != old(array).counter_words(self.spec_index() as int),
            final(array).differs_only_at(old(array), self.spec_index() as int),
    {
        let w: usize = array.msb_mask.len();
        let r: usize = array.register_size;
        let ghost mine = self.words(array);
        let ghost theirs = other.words(array);
        proof {
            lemma_counter_range(self.index as int, array.num_counters as int, w as int);
            lemma_counter_range(other.index as int, array.num_counters as int, w as int);
        }
        let changed: bool;
        match &other.cached_bits {
            Some(other_bits) => {
                changed = merge_words(
                    &mut array.bits,
                    self.index * w,
                    other_bits,
                    0,
                    w,
                    &array.msb_mask,
                    &array.lsb_mask,
                    r,
                    array.residual_mask,
                    &mut helper.acc,
                );
            },
            None => {
                helper.y = copy_words(&array.bits, other.index * w, w);
                changed = merge_words(
                    &mut array.bits,
                    self.index * w,
                    &helper.y,
                    0,
                    w,
                    &array.msb_mask,
                    &array.lsb_mask,
                    r,
                    array.residual_mask,
                    &mut helper.acc,
                );
            },
        }
        proof {
            assert(theirs.subrange(0, w as int) =~= theirs);
            array.lemma_differs_only_at(old(array), self.index as int);
            let now = array.counter_words(self.index as int);
            if now == mine {
                assert forall|i: int| 0 <= i < array.bits@.len() implies array.bits@[i] == old(array).bits@[i] by {
                    if self.index * w <= i < self.index * w + w {
                        assert(now[i - self.index * w] == mine[i - self.index * w]);
                    }
                }
                assert(array.bits@ =~= old(array).bits@);
            }
        }
        changed
    }

    /// Merges `other` into this counter on whole words and says whether a
    /// word of this counter changed. Every register ends as the larger of
    /// the two. With a private copy, the copy takes the result and counts as
    /// modified if it changed.
    pub fn merge_unsafe(
        &mut self,
        array: &mut HyperLogLogCounterArray,
        other: &HyperLogLogCounter,
        helper: &mut ThreadHelper,
    ) -> (changed: bool)
        requires
            old(self).wf(old(array)),
            other.wf(old(array)),
        ensures
            final(self).wf(final(array)),
            other.wf(final(array)),
            final(self).spec_index() == old(self).spec_index(),
            final(self).spec_cached() is Some <==> old(self).spec_cached() is Some,
            final(self).words(final(array)) == merged_words(
                old(self).words(old(array)),
                other.words(old(array)),
                old(array).spec_register_size(),
            ),
            final(self).registers(final(array)) == registers_max(
                old(self).registers(old(array)),
                other.registers(old(array)),
            ),
            changed <==> final(self).words(final(array)) != old(self).words(old(array)),
            final(array).differs_only_at(old(array), old(self).spec_index() as int),
            old(self).spec_cached() is Some ==> final(array).spec_words() == old(array).spec_words()
                && final(self).spec_changed() == (old(self).spec_changed()
                || changed),
    {
        proof {
            let w = array.msb_mask@.len() as int;
            lemma_counter_range(self.index as int, array.num_counters as int, w);
            lemma_counter_range(other.index as int, array.num_counters as int, w);
            array.lemma_differs_only_at(array, self.index as int);
            lemma_merge_registers(
                self.words(array),
                other.words(array),
                array.register_size as nat,
                array.num_registers as nat,
            );
        }
        if self.cached_bits.is_some() {
            self.merge_cached(array, other, helper)
        } else {
            self.merge_into_array(array, other, helper)
        }
    }

    /// The registers of the counter, in order.
    pub fn register_values(&self, array: &HyperLogLogCounterArray) -> (values: Vec<u64>)
        requires
            self.wf(array),
        ensures
            values@ == self.registers(array),
    {
        let m: usize = array.num_registers;
        let mut values: Vec<u64> = Vec::with_capacity(m);
        let mut j: usize = 0;
        while j < m
            invariant
                j <= m,
                m == array.spec_num_registers(),
                self.wf(array),
                values@.len() == j,
                forall|k: int| 0 <= k < j ==> values@[k] == self.registers(array)[k],
            decreases m - j,
        {
            values.push(self.get_register(array, j));
            j += 1;
        }
        assert(values@ =~= self.registers(array));
        values
    }
}

/// A copy of the `len` words of `source` that start at `start`.
fn copy_words(source: &Vec<u64>, start: usize, len: usize) -> (words: Vec<u64>)
    requires
        start + len <= source@.len(),
    ensures
        words@ == source@.subrange(start as int, start + len),
{
    let mut words: Vec<u64> = Vec::with_capacity(len);
    let mut i: usize = 0;
    assert(source.len() <= usize::MAX);
    while i < len
        invariant
            i <= len,
            start + len <= source@.len() <= usize::MAX,
            words@.len() == i,
            forall|k: int| 0 <= k < i ==> words@[k] == source@[start + k],
        decreases len - i,
    {
        words.push(source[start + i]);
        i += 1;
    }
    assert(words@ =~= source@.subrange(start as int, start + len));
    words
}

/// Overwrites the `len` words of `target` that start at `start` with the
/// `len` words of `source` that start at `source_start`.
fn write_words(
    target: &mut Vec<u64>,
    start: usize,
    source: &Vec<u64>,
    source_start: usize,
    len: usize,
)
    requires
        start + len <= old(target)@.len(),
        source_start + len <= source@.len(),
    ensures
        final(target)@.len() == old(target)@.len(),
        final(target)@.subrange(start as int, start + len) == source@.subrange(
            source_start as int,
            source_start + len,
        ),
        forall|i: int|
            0 <= i < old(target)@.len() && !(start <= i < start + len) ==> final(target)@[i]
                == old(target)@[i],
{
    let mut i: usize = 0;
    assert(target.len() <= usize::MAX && source.len() <= usize::MAX);
    while i < len
        invariant
            i <= len,
            target@.len() == old(target)@.len(),
            start + len <= target@.len() <= usize::MAX,
            source_start + len <= source@.len() <= usize::MAX,
            forall|q: int|
                start <= q < start + i ==> #[trigger] target@[q] == source@[q - start + source_start],
            forall|k: int|
                0 <= k < target@.len() && !(start <= k < start + len) ==> target@[k] == old(target)@[k],
        decreases len - i,
    {
        target.set(start + i, source[source_start + i]);
        i += 1;
    }
    assert(target@.subrange(start as int, start + len) =~= source@.subrange(
        source_start as int,
        source_start + len,
    ));
}

/// Whether the `len` words of `a` from `a_start` differ from the `len` words
/// of `b` from `b_start`.
fn words_differ(a: &Vec<u64>, a_start: usize, b: &Vec<u64>, b_start: usize, len: usize) -> (d:
    bool)
    requires
        a_start + len <= a@.len(),
        b_start + len <= b@.len(),
    ensures
        d == (a@.subrange(a_start as int, a_start + len) != b@.subrange(
            b_start as int,
            b_start + len,
        )),
{
    let mut i: usize = 0;
    assert(a.len() <= usize::MAX && b.len() <= usize::MAX);
    while i < len
        invariant
            i <= len,
            a_start + len <= a@.len() <= usize::MAX,
            b_start + len <= b@.len() <= usize::MAX,
            forall|q: int| a_start <= q < a_start + i ==> #[trigger] a@[q] == b@[q - a_start + b_start],
        decreases len - i,
    {
        if a[a_start + i] != b[b_start + i] {
            assert(a@.subrange(a_start as int, a_start + len)[i as int] != b@.subrange(
                b_start as int,
                b_start + len,
            )[i as int]);
            return true;
        }
        i += 1;
    }
    assert(a@.subrange(a_start as int, a_start + len) =~= b@.subrange(
        b_start as int,
        b_start + len,
    ));
    false
}

/// The registers of merged words are the larger registers.
pub proof fn lemma_merge_registers(x: Seq<u64>, y: Seq<u64>, r: nat, m: nat)
    requires
        valid_register_size(r),
        x.len() == y.len(),
        x.len() % (block_words(r) as nat) == 0,
        m * r == 64 * x.len(),
    ensures
        registers_of(merged_words(x, y, r), r, m) == registers_max(
            registers_of(x, r, m),
            registers_of(y, r, m),
        ),
{
    assert forall|j: int| 0 <= j < m implies register_at(merged_words(x, y, r), r, j) == max64(
        register_at(x, r, j),
        register_at(y, r, j),
    ) by {
        assert((j + 1) * r <= m * r) by (nonlinear_arith)
            requires
                0 <= j < m,
                0 <= r,
        ;
        lemma_merged_registers(x, y, r, j);
    }
    assert(registers_of(merged_words(x, y, r), r, m) =~= registers_max(
        registers_of(x, r, m),
        registers_of(y, r, m),
    ));
}

/// The registers of a counter after an element with the given hash was
/// added to it.
pub open spec fn registers_after_add(registers: Seq<u64>, hash: u64, p: nat, r: nat) -> Seq<u64> {
    registers.update(
        hash_register(hash, p),
        max64(registers[hash_register(hash, p)], hash_rank(hash, p, r)),
    )
}

/// The registers of a counter after elements with the given hashes were
/// added to it, one after the other.
pub open spec fn registers_after_adds(registers: Seq<u64>, hashes: Seq<u64>, p: nat, r: nat) -> Seq<
    u64,
>
    decreases hashes.len(),
{
    if hashes.len() == 0 {
        registers
    } else {
        registers_after_add(
            registers_after_adds(registers, hashes.drop_last(), p, r),
            hashes.last(),
            p,
            r,
        )
    }
}

/// `registers` is what a counter that held `start` holds after `count`
/// elements were added to it, whatever their hashes.
pub open spec fn filled_by(registers: Seq<u64>, start: Seq<u64>, count: nat, p: nat, r: nat) -> bool {
    exists|hashes: Seq<u64>|
        hashes.len() == count && registers == #[trigger] registers_after_adds(start, hashes, p, r)
}

/// One more element added: the list of hashes grows by its hash.
pub proof fn lemma_one_more_add(registers: Seq<u64>, hashes: Seq<u64>, hash: u64, p: nat, r: nat)
    ensures
        registers_after_adds(registers, hashes.push(hash), p, r) == registers_after_add(
            registers_after_adds(registers, hashes, p, r),
            hash,
            p,
            r,
        ),
{
    assert(hashes.push(hash).drop_last() =~= hashes);
}

/// The hash of an element: what the default hasher of the standard library
/// makes of the eight bytes of the element, lowest byte first.
pub open spec fn element_hash(element: usize) -> u64 {
    std::hash::DefaultHasher::spec_finish(
        seq![vstd::bytes::spec_u64_to_le_bytes(element as u64)],
    )
}

/// Hashes an element.
pub fn hash_element(element: usize) -> (hash: u64)
    ensures
        hash == element_hash(element),
{
    let mut hasher = std::hash::DefaultHasher::new();
    let bytes: Vec<u8> = vstd::bytes::u64_to_le_bytes(element as u64);
    hasher.write(bytes.as_slice());
    assert(hasher@ =~= seq![vstd::bytes::spec_u64_to_le_bytes(element as u64)]);
    hasher.finish()
}

proof fn lemma_sentinel_caps(x: u64)
    by (bit_vector)
    ensures
        ((x | 0x4000_0000u64) >> 30u64) & 1 == 1,
        ((x | 0x4000_0000_0000_0000u64) >> 62u64) & 1 == 1,
        low_mask(5) == 31,
        low_mask(6) == 63,
{
}

proof fn lemma_register_index_in_range(hash: u64, p: u64)
    by (bit_vector)
    requires
        4 <= p < 58,
    ensures
        (hash & low_mask(p)) < (1u64 << p),
{
}

/// A hash selects a register of the counter and proposes a value that the
/// register can hold.
pub proof fn lemma_hash_in_range(hash: u64, p: u64, r: u64)
    requires
        4 <= p < 58,
        valid_register_size(r as nat),
    ensures
        0 <= hash_register(hash, p as nat) < registers_for(p as nat),
        1 <= hash_rank(hash, p as nat, r as nat) <= low_mask(r),
{
    lemma_register_index_in_range(hash, p);
    let capped = (hash >> p) | sentinel_for(r as nat);
    vstd::std_specs::bits::axiom_u64_trailing_zeros(capped);
    lemma_sentinel_caps(hash >> p);
    if r == 5 {
        if capped.trailing_zeros() > 30 {
            assert((capped >> 30u64) & 1u64 == 0u64);
        }
    } else {
        if capped.trailing_zeros() > 62 {
            assert((capped >> 62u64) & 1u64 == 0u64);
        }
    }
}

} // verus!
