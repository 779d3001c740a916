//! Registers of a fixed width packed into 64-bit words, least significant
//! bits first: register `j` of width `r` occupies the bits `r * j` to
//! `r * j + r - 1` of the bit string that the words spell out.
use vstd::prelude::*;

verus! {

/// Number of bits in a word of the backing storage.
pub const WORD_BITS: usize = 64;

/// The word with its `r` lowest bits set.
pub open spec fn low_mask(r: u64) -> u64 {
    ((1u64 << r) - 1) as u64
}

/// The `r` bits that start at bit `s` of the 128-bit string `hi:lo`.
pub open spec fn field(lo: u64, hi: u64, s: u64, r: u64) -> u64 {
    if s + r <= 64 {
        (lo >> s) & low_mask(r)
    } else {
        ((lo >> s) | (hi << ((64 - s) as u64))) & low_mask(r)
    }
}

/// The word at position `q`, and zero past the end.
pub open spec fn word_or_zero(words: Seq<u64>, q: int) -> u64 {
    if 0 <= q < words.len() {
        words[q]
    } else {
        0
    }
}

/// The value of register `j` when `words` is read as registers of `r` bits.
pub open spec fn register_at(words: Seq<u64>, r: nat, j: int) -> u64 {
    let t = r * j;
    field(words[t / 64], word_or_zero(words, t / 64 + 1), (t % 64) as u64, r as u64)
}

/// The widths that a register can have.
pub open spec fn valid_register_size(r: nat) -> bool {
    r == 5 || r == 6
}

/// `lo` with the bits `s` to `s + len - 1` replaced by the low `len` bits
/// of `v`.
pub open spec fn with_bits(lo: u64, s: u64, len: u64, v: u64) -> u64 {
    (lo & !(low_mask(len) << s)) | ((v & low_mask(len)) << s)
}

proof fn lemma_field_bound(lo: u64, hi: u64, s: u64, r: u64)
    by (bit_vector)
    requires
        s < 64,
        1 <= r <= 6,
    ensures
        field(lo, hi, s, r) <= low_mask(r),
        low_mask(r) < 64,
{
}

proof fn lemma_write_inside(lo: u64, hi: u64, s: u64, r: u64, v: u64)
    by (bit_vector)
    requires
        s < 64,
        1 <= r <= 6,
        s + r <= 64,
        v <= low_mask(r),
    ensures
        field(with_bits(lo, s, r, v), hi, s, r) == v,
{
}

proof fn lemma_write_across(lo: u64, hi: u64, s: u64, r: u64, v: u64)
    by (bit_vector)
    requires
        s < 64,
        1 <= r <= 6,
        s + r > 64,
        v <= low_mask(r),
    ensures
        field(
            with_bits(lo, s, (64 - s) as u64, v),
            with_bits(hi, 0, (s + r - 64) as u64, v >> ((64 - s) as u64)),
            s,
            r,
        ) == v,
{
}

/// Replacing bits of the low word leaves a field alone that lies wholly
/// below or wholly above them.
proof fn lemma_low_word_elsewhere(lo: u64, hi: u64, s: u64, len: u64, v: u64, s2: u64, r: u64)
    by (bit_vector)
    requires
        s < 64,
        1 <= len <= 6,
        s + len <= 64,
        s2 < 64,
        1 <= r <= 6,
        s2 + r <= s || s + len <= s2,
    ensures
        field(with_bits(lo, s, len, v), hi, s2, r) == field(lo, hi, s2, r),
{
}

/// Replacing bits of the high word leaves a field alone that ends below
/// them.
proof fn lemma_high_word_elsewhere(lo: u64, hi: u64, s: u64, len: u64, v: u64, s2: u64, r: u64)
    by (bit_vector)
    requires
        s < 64,
        1 <= len <= 6,
        s + len <= 64,
        s2 < 64,
        1 <= r <= 6,
        s2 + r <= 64 + s,
    ensures
        field(lo, with_bits(hi, s, len, v), s2, r) == field(lo, hi, s2, r),
{
}

/// With only two widths, a product with the width is a linear term.
pub proof fn lemma_scale(r: nat, j: int)
    by (nonlinear_arith)
    requires
        valid_register_size(r),
    ensures
        r * j == (if r == 5 {
            5 * j
        } else {
            6 * j
        }),
        (j + 1) * r == r * j + r,
        j * r == r * j,
{
}

/// A field that fits into its low word does not depend on the high word.
pub proof fn lemma_field_ignores_high(lo: u64, hi: u64, hi2: u64, s: u64, r: u64)
    requires
        s + r <= 64,
    ensures
        field(lo, hi, s, r) == field(lo, hi2, s, r),
{
}

/// A register of a run of words is a register of the whole sequence, at the
/// index moved by the registers that come before the run.
pub proof fn lemma_register_in_subrange(
    w: Seq<u64>,
    r: nat,
    start: int,
    len: int,
    base: int,
    j: int,
)
    requires
        valid_register_size(r),
        0 <= start,
        0 <= len,
        start + len <= w.len(),
        0 <= base,
        64 * start == r * base,
        0 <= j,
        (j + 1) * r <= 64 * len,
    ensures
        register_at(w.subrange(start, start + len), r, j) == register_at(w, r, base + j),
{
    lemma_scale(r, j);
    lemma_scale(r, base);
    lemma_scale(r, base + j);
    let sub = w.subrange(start, start + len);
    let t = r * j;
    let q = t / 64;
    let s = t % 64;
    assert(r * (base + j) == 64 * start + t);
    assert((64 * start + t) / 64 == start + q);
    assert((64 * start + t) % 64 == s);
    assert(sub[q] == w[start + q]);
    if q + 1 < len {
        assert(sub[q + 1] == w[start + q + 1]);
    } else {
        assert(s + r <= 64);
    }
}

/// The word with its `len` lowest bits set.
pub fn mask_of(len: usize) -> (m: u64)
    requires
        len < 64,
    ensures
        m == low_mask(len as u64),
{
    let shift: u64 = len as u64;
    assert((1u64 << shift) >= 1) by (bit_vector)
        requires
            shift < 64,
    ;
    (1u64 << shift) - 1
}

/// Reads register `j` of width `r`.
pub fn get_register(words: &Vec<u64>, r: usize, j: usize) -> (v: u64)
    requires
        valid_register_size(r as nat),
        (j + 1) * r <= 64 * words@.len(),
        64 * words@.len() <= usize::MAX,
    ensures
        v == register_at(words@, r as nat, j as int),
        v <= low_mask(r as u64),
        low_mask(r as u64) < 64,
{
    proof {
        lemma_scale(r as nat, j as int);
    }
    let t: usize = r * j;
    let q: usize = t / WORD_BITS;
    let s: usize = t % WORD_BITS;
    let mask: u64 = mask_of(r);
    let lo: u64 = words[q];
    proof {
        assert((1u64 << 5u64) == 32 && (1u64 << 6u64) == 64) by (bit_vector);
        lemma_field_bound(lo, word_or_zero(words@, q + 1), s as u64, r as u64);
    }
    if s + r <= WORD_BITS {
        (lo >> (s as u64)) & mask
    } else {
        let hi: u64 = words[q + 1];
        ((lo >> (s as u64)) | (hi << ((WORD_BITS - s) as u64))) & mask
    }
}

/// Writes `v` into register `j` of width `r` and leaves every other
/// register as it was.
pub fn set_register(words: &mut Vec<u64>, r: usize, j: usize, v: u64)
    requires
        valid_register_size(r as nat),
        (j + 1) * r <= 64 * old(words)@.len(),
        64 * old(words)@.len() <= usize::MAX,
        v <= low_mask(r as u64),
    ensures
        final(words)@.len() == old(words)@.len(),
        register_at(final(words)@, r as nat, j as int) == v,
        forall|k: int|
            0 <= k && (k + 1) * r <= 64 * old(words)@.len() && k != j ==> #[trigger] register_at(
                final(words)@,
                r as nat,
                k,
            ) == register_at(old(words)@, r as nat, k),
        forall|i: int|
            0 <= i < old(words)@.len() && (i + 1) * 64 <= r * j ==> final(words)@[i] == old(words)@[i],
        forall|i: int|
            0 <= i < old(words)@.len() && (j + 1) * r <= i * 64 ==> final(words)@[i] == old(words)@[i],
{
    proof {
        lemma_scale(r as nat, j as int);
    }
    let t: usize = r * j;
    let q: usize = t / WORD_BITS;
    let s: usize = t % WORD_BITS;
    let ghost before = words@;
    proof {
        assert((1u64 << 5u64) == 32 && (1u64 << 6u64) == 64) by (bit_vector);
    }
    if s + r <= WORD_BITS {
        let mask: u64 = mask_of(r);
        let lo: u64 = words[q];
        let new_lo: u64 = (lo & !(mask << (s as u64))) | ((v & mask) << (s as u64));
        words.set(q, new_lo);
        proof {
            lemma_write_inside(lo, word_or_zero(before, q + 1), s as u64, r as u64, v);
            assert forall|k: int|
                0 <= k && (k + 1) * r <= 64 * before.len() && k != j implies #[trigger] register_at(
                words@,
                r as nat,
                k,
            ) == register_at(before, r as nat, k) by {
                lemma_scale(r as nat, k);
                let t2 = r * k;
                let q2 = t2 / 64;
                let s2 = t2 % 64;
                if q2 == q {
                    lemma_low_word_elsewhere(
                        lo,
                        word_or_zero(before, q + 1),
                        s as u64,
                        r as u64,
                        v,
                        s2 as u64,
                        r as u64,
                    );
                } else if q2 + 1 == q {
                    if s2 + r <= 64 {
                        lemma_field_ignores_high(before[q2], lo, new_lo, s2 as u64, r as u64);
                    } else {
                        lemma_high_word_elsewhere(
                            before[q2],
                            lo,
                            s as u64,
                            r as u64,
                            v,
                            s2 as u64,
                            r as u64,
                        );
                    }
                }
            }
        }
    } else {
        let low_len: usize = WORD_BITS - s;
        let high_len: usize = s + r - WORD_BITS;
        let low_len_mask: u64 = mask_of(low_len);
        let high_len_mask: u64 = mask_of(high_len);
        let lo: u64 = words[q];
        let hi: u64 = words[q + 1];
        let new_lo: u64 = (lo & !(low_len_mask << (s as u64))) | ((v & low_len_mask) << (
        s as u64));
        let high_part: u64 = v >> (low_len as u64);
        let new_hi: u64 = (hi & !(high_len_mask << 0u64)) | ((high_part & high_len_mask) << 0u64);
        words.set(q, new_lo);
        words.set(q + 1, new_hi);
        proof {
            lemma_write_across(lo, hi, s as u64, r as u64, v);
            assert forall|k: int|
                0 <= k && (k + 1) * r <= 64 * before.len() && k != j implies #[trigger] register_at(
                words@,
                r as nat,
                k,
            ) == register_at(before, r as nat, k) by {
                lemma_scale(r as nat, k);
                let t2 = r * k;
                let q2 = t2 / 64;
                let s2 = t2 % 64;
                if q2 == q {
                    // below the written register, in its low word
                    lemma_low_word_elsewhere(
                        lo,
                        hi,
                        s as u64,
                        low_len as u64,
                        v,
                        s2 as u64,
                        r as u64,
                    );
                    lemma_field_ignores_high(new_lo, hi, new_hi, s2 as u64, r as u64);
                } else if q2 + 1 == q {
                    if s2 + r <= 64 {
                        lemma_field_ignores_high(before[q2], lo, new_lo, s2 as u64, r as u64);
                    } else {
                        lemma_high_word_elsewhere(
                            before[q2],
                            lo,
                            s as u64,
                            low_len as u64,
                            v,
                            s2 as u64,
                            r as u64,
                        );
                    }
                } else if q2 == q + 1 {
                    lemma_low_word_elsewhere(
                        hi,
                        word_or_zero(before, q + 2),
                        0,
                        high_len as u64,
                        high_part,
                        s2 as u64,
                        r as u64,
                    );
                }
            }
        }
    }
}

} // verus!
