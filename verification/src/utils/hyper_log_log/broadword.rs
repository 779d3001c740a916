//! The register-by-register maximum of two packed counters, computed on
//! whole words.
//!
//! Let `H` be the word sequence with the highest bit of every register set
//! and `L` the one with the lowest bit of every register set. A first pass
//! compares the registers of `x` and `y`, leaving in each register's highest
//! bit whether `y < x` there:
//!
//! `z = ((((y | H) - (x & !H)) | (y ^ x)) ^ (y | !x)) & H`
//!
//! A second pass widens each of those bits to its whole register,
//!
//! `m = ((((z >> r - 1) | H) - L) | H) ^ z`
//!
//! which is all ones where `y >= x`, and takes `y` there and `x` elsewhere.
//! Both subtractions run over the whole sequence with a borrow from word to
//! word; no borrow ever crosses the boundary of a register.
//!
//! Registers of 5 bits repeat their layout every 5 words (64 registers) and
//! registers of 6 bits every 3 words (32 registers). The proofs go block by
//! block.
use crate::utils::hyper_log_log::bit_fields::{field, register_at, valid_register_size, word_or_zero};
use vstd::prelude::*;

verus! {

/// Words after which the layout of registers of `r` bits repeats.
pub open spec fn block_words(r: nat) -> int {
    if r == 5 {
        5
    } else {
        3
    }
}

/// Registers in a block of `block_words(r)` words.
pub open spec fn block_registers(r: nat) -> int {
    if r == 5 {
        64
    } else {
        32
    }
}

/// Word `i` of the mask with the highest bit of every register set.
pub open spec fn msb_word(r: nat, i: int) -> u64 {
    if r == 5 {
        if i % 5 == 0 {
            0x0842108421084210
        } else if i % 5 == 1 {
            0x1084210842108421
        } else if i % 5 == 2 {
            0x2108421084210842
        } else if i % 5 == 3 {
            0x4210842108421084
        } else {
            0x8421084210842108
        }
    } else {
        if i % 3 == 0 {
            0x0820820820820820
        } else if i % 3 == 1 {
            0x2082082082082082
        } else {
            0x8208208208208208
        }
    }
}

/// Word `i` of the mask with the lowest bit of every register set.
pub open spec fn lsb_word(r: nat, i: int) -> u64 {
    if r == 5 {
        if i % 5 == 0 {
            0x1084210842108421
        } else if i % 5 == 1 {
            0x2108421084210842
        } else if i % 5 == 2 {
            0x4210842108421084
        } else if i % 5 == 3 {
            0x8421084210842108
        } else {
            0x0842108421084210
        }
    } else {
        if i % 3 == 0 {
            0x1041041041041041
        } else if i % 3 == 1 {
            0x4104104104104104
        } else {
            0x0410410410410410
        }
    }
}

/// `words` is the first `words.len()` words of the highest-bit mask.
pub open spec fn is_msb_mask(words: Seq<u64>, r: nat) -> bool {
    forall|i: int| 0 <= i < words.len() ==> #[trigger] words[i] == msb_word(r, i)
}

/// `words` is the first `words.len()` words of the lowest-bit mask.
pub open spec fn is_lsb_mask(words: Seq<u64>, r: nat) -> bool {
    forall|i: int| 0 <= i < words.len() ==> #[trigger] words[i] == lsb_word(r, i)
}

/// The larger of two words.
pub open spec fn max64(a: u64, b: u64) -> u64 {
    if a >= b {
        a
    } else {
        b
    }
}

/// `a - b` modulo 2^64.
pub open spec fn wrapping_diff(a: u64, b: u64) -> u64 {
    if a >= b {
        (a - b) as u64
    } else {
        (a + 0x1_0000_0000_0000_0000 - b) as u64
    }
}

/// One word of a multiple-precision subtraction: `a - b - borrow` modulo
/// 2^64.
pub open spec fn sub_word(a: u64, b: u64, borrow: bool) -> u64 {
    if borrow {
        wrapping_diff(wrapping_diff(a, 1), b)
    } else {
        wrapping_diff(a, b)
    }
}

/// The borrow that `a - b - borrow` hands to the next word.
pub open spec fn sub_borrow(a: u64, b: u64, borrow: bool) -> bool {
    if !borrow {
        a < b
    } else if a != 0 {
        wrapping_diff(a, 1) < b
    } else {
        true
    }
}

/// One word of the comparison before it is cut down to the highest bits.
pub open spec fn less_raw(x: u64, y: u64, h: u64, borrow: bool) -> u64 {
    (sub_word(y | h, x & !h, borrow) | (y ^ x)) ^ (y | !x)
}

/// One word of the comparison `z`.
pub open spec fn less_word(x: u64, y: u64, h: u64, borrow: bool) -> u64 {
    less_raw(x, y, h, borrow) & h
}

/// The borrow that the comparison hands to the next word.
pub open spec fn less_borrow(x: u64, y: u64, h: u64, borrow: bool) -> bool {
    sub_borrow(y | h, x & !h, borrow)
}

/// The borrow that enters word `i` of the comparison of `x` and `y`.
pub open spec fn less_borrow_into(x: Seq<u64>, y: Seq<u64>, r: nat, i: int) -> bool
    decreases i,
{
    if i <= 0 {
        false
    } else {
        less_borrow(x[i - 1], y[i - 1], msb_word(r, i - 1), less_borrow_into(x, y, r, i - 1))
    }
}

/// Word `i` of the comparison of `x` and `y`.
pub open spec fn less_at(x: Seq<u64>, y: Seq<u64>, r: nat, i: int) -> u64 {
    less_word(x[i], y[i], msb_word(r, i), less_borrow_into(x, y, r, i))
}

/// The minuend of the second subtraction: `z` shifted down by `r - 1` bits,
/// with the bits that come in from the next word, and the highest bits set.
pub open spec fn spread_in(z: u64, z_next: u64, h: u64, r: u64) -> u64 {
    (z >> ((r - 1) as u64)) | (z_next << ((65 - r) as u64)) | h
}

/// One word of the selection mask `m`.
pub open spec fn spread_word(z: u64, z_next: u64, h: u64, l: u64, r: u64, borrow: bool) -> u64 {
    (sub_word(spread_in(z, z_next, h, r), l, borrow) | h) ^ z
}

/// The borrow that the second subtraction hands to the next word.
pub open spec fn spread_borrow(z: u64, z_next: u64, h: u64, l: u64, r: u64, borrow: bool) -> bool {
    sub_borrow(spread_in(z, z_next, h, r), l, borrow)
}

/// The borrow that enters word `i` of the second subtraction.
pub open spec fn spread_borrow_into(z: Seq<u64>, r: nat, i: int) -> bool
    decreases i,
{
    if i <= 0 {
        false
    } else {
        spread_borrow(
            z[i - 1],
            word_or_zero(z, i),
            msb_word(r, i - 1),
            lsb_word(r, i - 1),
            r as u64,
            spread_borrow_into(z, r, i - 1),
        )
    }
}

/// Word `i` of the selection mask that belongs to the comparison `z`.
pub open spec fn spread_at(z: Seq<u64>, r: nat, i: int) -> u64 {
    spread_word(
        z[i],
        word_or_zero(z, i + 1),
        msb_word(r, i),
        lsb_word(r, i),
        r as u64,
        spread_borrow_into(z, r, i),
    )
}

/// `y` where the mask `m` is set and `x` elsewhere.
pub open spec fn select_word(x: u64, y: u64, m: u64) -> u64 {
    x ^ ((x ^ y) & m)
}

/// Register `k` of a block of five words that holds 64 registers of 5 bits.
pub open spec fn block5_register(w0: u64, w1: u64, w2: u64, w3: u64, w4: u64, k: u64) -> u64 {
    let t = (5 * k) as u64;
    if t < 64 {
        field(w0, w1, t, 5)
    } else if t < 128 {
        field(w1, w2, (t - 64) as u64, 5)
    } else if t < 192 {
        field(w2, w3, (t - 128) as u64, 5)
    } else if t < 256 {
        field(w3, w4, (t - 192) as u64, 5)
    } else {
        field(w4, 0, (t - 256) as u64, 5)
    }
}

/// Register `k` of a block of three words that holds 32 registers of 6 bits.
pub open spec fn block6_register(w0: u64, w1: u64, w2: u64, k: u64) -> u64 {
    let t = (6 * k) as u64;
    if t < 64 {
        field(w0, w1, t, 6)
    } else if t < 128 {
        field(w1, w2, (t - 64) as u64, 6)
    } else {
        field(w2, 0, (t - 128) as u64, 6)
    }
}

/// On a block of 5-bit registers that no borrow enters, the two passes give
/// the larger register at every position, and no borrow leaves the block.
proof fn lemma_block5(
    x0: u64,
    x1: u64,
    x2: u64,
    x3: u64,
    x4: u64,
    y0: u64,
    y1: u64,
    y2: u64,
    y3: u64,
    y4: u64,
    k: u64,
)
    by (bit_vector)
    requires
        k < 64,
    ensures
        ({
            let c1 = less_borrow(x0, y0, 0x0842108421084210u64, false);
            let c2 = less_borrow(x1, y1, 0x1084210842108421u64, c1);
            let c3 = less_borrow(x2, y2, 0x2108421084210842u64, c2);
            let c4 = less_borrow(x3, y3, 0x4210842108421084u64, c3);
            let c5 = less_borrow(x4, y4, 0x8421084210842108u64, c4);
            let z0 = less_word(x0, y0, 0x0842108421084210u64, false);
            let z1 = less_word(x1, y1, 0x1084210842108421u64, c1);
            let z2 = less_word(x2, y2, 0x2108421084210842u64, c2);
            let z3 = less_word(x3, y3, 0x4210842108421084u64, c3);
            let z4 = less_word(x4, y4, 0x8421084210842108u64, c4);
            let g1 = spread_borrow(
                z0,
                z1,
                0x0842108421084210u64,
                0x1084210842108421u64,
                5,
                false,
            );
            let g2 = spread_borrow(z1, z2, 0x1084210842108421u64, 0x2108421084210842u64, 5, g1);
            let g3 = spread_borrow(z2, z3, 0x2108421084210842u64, 0x4210842108421084u64, 5, g2);
            let g4 = spread_borrow(z3, z4, 0x4210842108421084u64, 0x8421084210842108u64, 5, g3);
            let g5 = spread_borrow(z4, 0, 0x8421084210842108u64, 0x0842108421084210u64, 5, g4);
            let m0 = spread_word(z0, z1, 0x0842108421084210u64, 0x1084210842108421u64, 5, false);
            let m1 = spread_word(z1, z2, 0x1084210842108421u64, 0x2108421084210842u64, 5, g1);
            let m2 = spread_word(z2, z3, 0x2108421084210842u64, 0x4210842108421084u64, 5, g2);
            let m3 = spread_word(z3, z4, 0x4210842108421084u64, 0x8421084210842108u64, 5, g3);
            let m4 = spread_word(z4, 0, 0x8421084210842108u64, 0x0842108421084210u64, 5, g4);
            &&& !c5
            &&& !g5
            &&& block5_register(
                select_word(x0, y0, m0),
                select_word(x1, y1, m1),
                select_word(x2, y2, m2),
                select_word(x3, y3, m3),
                select_word(x4, y4, m4),
                k,
            ) == max64(
                block5_register(x0, x1, x2, x3, x4, k),
                block5_register(y0, y1, y2, y3, y4, k),
            )
        }),
{
}

/// The same for a block of 6-bit registers.
proof fn lemma_block6(x0: u64, x1: u64, x2: u64, y0: u64, y1: u64, y2: u64, k: u64)
    by (bit_vector)
    requires
        k < 32,
    ensures
        ({
            let c1 = less_borrow(x0, y0, 0x0820820820820820u64, false);
            let c2 = less_borrow(x1, y1, 0x2082082082082082u64, c1);
            let c3 = less_borrow(x2, y2, 0x8208208208208208u64, c2);
            let z0 = less_word(x0, y0, 0x0820820820820820u64, false);
            let z1 = less_word(x1, y1, 0x2082082082082082u64, c1);
            let z2 = less_word(x2, y2, 0x8208208208208208u64, c2);
            let g1 = spread_borrow(
                z0,
                z1,
                0x0820820820820820u64,
                0x1041041041041041u64,
                6,
                false,
            );
            let g2 = spread_borrow(z1, z2, 0x2082082082082082u64, 0x4104104104104104u64, 6, g1);
            let g3 = spread_borrow(z2, 0, 0x8208208208208208u64, 0x0410410410410410u64, 6, g2);
            let m0 = spread_word(z0, z1, 0x0820820820820820u64, 0x1041041041041041u64, 6, false);
            let m1 = spread_word(z1, z2, 0x2082082082082082u64, 0x4104104104104104u64, 6, g1);
            let m2 = spread_word(z2, 0, 0x8208208208208208u64, 0x0410410410410410u64, 6, g2);
            &&& !c3
            &&& !g3
            &&& block6_register(
                select_word(x0, y0, m0),
                select_word(x1, y1, m1),
                select_word(x2, y2, m2),
                k,
            ) == max64(block6_register(x0, x1, x2, k), block6_register(y0, y1, y2, k))
        }),
{
}

/// The first word of a block has no highest bit of a register among the
/// bits that the shift of the second pass carries into the word before it.
proof fn lemma_nothing_shifted_in(v: u64)
    by (bit_vector)
    ensures
        ((v & 0x0842108421084210u64) << 60u64) == 0,
        ((v & 0x0820820820820820u64) << 59u64) == 0,
{
}

/// Register `64 * b + k` of `w` is register `k` of its block `b`.
pub proof fn lemma_register_in_block5(w: Seq<u64>, b: int, k: int)
    requires
        0 <= b,
        5 * b + 5 <= w.len(),
        0 <= k < 64,
    ensures
        register_at(w, 5, 64 * b + k) == block5_register(
            w[5 * b],
            w[5 * b + 1],
            w[5 * b + 2],
            w[5 * b + 3],
            w[5 * b + 4],
            k as u64,
        ),
{
}

/// Register `32 * b + k` of `w` is register `k` of its block `b`.
pub proof fn lemma_register_in_block6(w: Seq<u64>, b: int, k: int)
    requires
        0 <= b,
        3 * b + 3 <= w.len(),
        0 <= k < 32,
    ensures
        register_at(w, 6, 32 * b + k) == block6_register(
            w[3 * b],
            w[3 * b + 1],
            w[3 * b + 2],
            k as u64,
        ),
{
}


/// The comparison of `x` and `y`, word by word.
#[verifier::opaque]
pub open spec fn less_words(x: Seq<u64>, y: Seq<u64>, r: nat) -> Seq<u64> {
    Seq::new(x.len(), |i: int| less_at(x, y, r, i))
}

/// Word `i` of what the two passes make of `x` and `y`.
pub open spec fn merged_word(x: Seq<u64>, y: Seq<u64>, r: nat, i: int) -> u64 {
    select_word(x[i], y[i], spread_at(less_words(x, y, r), r, i))
}

/// What the two passes make of `x` and `y`.
#[verifier::opaque]
pub open spec fn merged_words(x: Seq<u64>, y: Seq<u64>, r: nat) -> Seq<u64> {
    Seq::new(x.len(), |i: int| merged_word(x, y, r, i))
}

proof fn lemma_block5_step(x: Seq<u64>, y: Seq<u64>, b: int, k: int)
    requires
        x.len() == y.len(),
        0 <= b,
        5 * b + 5 <= x.len(),
        0 <= k < 64,
        !less_borrow_into(x, y, 5, 5 * b),
        !spread_borrow_into(less_words(x, y, 5), 5, 5 * b),
    ensures
        !less_borrow_into(x, y, 5, 5 * b + 5),
        !spread_borrow_into(less_words(x, y, 5), 5, 5 * b + 5),
        register_at(merged_words(x, y, 5), 5, 64 * b + k) == max64(
            register_at(x, 5, 64 * b + k),
            register_at(y, 5, 64 * b + k),
        ),
{
    reveal(less_words);
    reveal(merged_words);
    let i = 5 * b;
    let z = less_words(x, y, 5);
    let n = merged_words(x, y, 5);
    lemma_block5(
        x[i],
        x[i + 1],
        x[i + 2],
        x[i + 3],
        x[i + 4],
        y[i],
        y[i + 1],
        y[i + 2],
        y[i + 3],
        y[i + 4],
        k as u64,
    );
    let c1 = less_borrow_into(x, y, 5, i + 1);
    let c2 = less_borrow_into(x, y, 5, i + 2);
    let c3 = less_borrow_into(x, y, 5, i + 3);
    let c4 = less_borrow_into(x, y, 5, i + 4);
    let c5 = less_borrow_into(x, y, 5, i + 5);
    assert(c1 == less_borrow(x[i], y[i], 0x0842108421084210u64, false));
    assert(c2 == less_borrow(x[i + 1], y[i + 1], 0x1084210842108421u64, c1));
    assert(c3 == less_borrow(x[i + 2], y[i + 2], 0x2108421084210842u64, c2));
    assert(c4 == less_borrow(x[i + 3], y[i + 3], 0x4210842108421084u64, c3));
    assert(c5 == less_borrow(x[i + 4], y[i + 4], 0x8421084210842108u64, c4));
    assert(z[i] == less_word(x[i], y[i], 0x0842108421084210u64, false));
    assert(z[i + 1] == less_word(x[i + 1], y[i + 1], 0x1084210842108421u64, c1));
    assert(z[i + 2] == less_word(x[i + 2], y[i + 2], 0x2108421084210842u64, c2));
    assert(z[i + 3] == less_word(x[i + 3], y[i + 3], 0x4210842108421084u64, c3));
    assert(z[i + 4] == less_word(x[i + 4], y[i + 4], 0x8421084210842108u64, c4));
    let z_next = word_or_zero(z, i + 5);
    assert((z_next << 60u64) == 0 && (0u64 << 60u64) == 0) by {
        assert((0u64 << 60u64) == 0) by (bit_vector);
        if i + 5 < z.len() {
            lemma_nothing_shifted_in(
                less_raw(x[i + 5], y[i + 5], msb_word(5, i + 5), less_borrow_into(x, y, 5, i + 5)),
            );
        }
    }
    assert(spread_in(z[i + 4], z_next, 0x8421084210842108u64, 5) == spread_in(
        z[i + 4],
        0,
        0x8421084210842108u64,
        5,
    ));
    let g1 = spread_borrow_into(z, 5, i + 1);
    let g2 = spread_borrow_into(z, 5, i + 2);
    let g3 = spread_borrow_into(z, 5, i + 3);
    let g4 = spread_borrow_into(z, 5, i + 4);
    let g5 = spread_borrow_into(z, 5, i + 5);
    assert(g1 == spread_borrow(
        z[i],
        z[i + 1],
        0x0842108421084210u64,
        0x1084210842108421u64,
        5,
        false,
    ));
    assert(g2 == spread_borrow(
        z[i + 1],
        z[i + 2],
        0x1084210842108421u64,
        0x2108421084210842u64,
        5,
        g1,
    ));
    assert(g3 == spread_borrow(
        z[i + 2],
        z[i + 3],
        0x2108421084210842u64,
        0x4210842108421084u64,
        5,
        g2,
    ));
    assert(g4 == spread_borrow(
        z[i + 3],
        z[i + 4],
        0x4210842108421084u64,
        0x8421084210842108u64,
        5,
        g3,
    ));
    assert(g5 == spread_borrow(
        z[i + 4],
        0,
        0x8421084210842108u64,
        0x0842108421084210u64,
        5,
        g4,
    ));
    assert(n[i] == select_word(
        x[i],
        y[i],
        spread_word(z[i], z[i + 1], 0x0842108421084210u64, 0x1084210842108421u64, 5, false),
    ));
    assert(n[i + 1] == select_word(
        x[i + 1],
        y[i + 1],
        spread_word(z[i + 1], z[i + 2], 0x1084210842108421u64, 0x2108421084210842u64, 5, g1),
    ));
    assert(n[i + 2] == select_word(
        x[i + 2],
        y[i + 2],
        spread_word(z[i + 2], z[i + 3], 0x2108421084210842u64, 0x4210842108421084u64, 5, g2),
    ));
    assert(n[i + 3] == select_word(
        x[i + 3],
        y[i + 3],
        spread_word(z[i + 3], z[i + 4], 0x4210842108421084u64, 0x8421084210842108u64, 5, g3),
    ));
    assert(n[i + 4] == select_word(
        x[i + 4],
        y[i + 4],
        spread_word(z[i + 4], 0, 0x8421084210842108u64, 0x0842108421084210u64, 5, g4),
    ));
    lemma_register_in_block5(x, b, k);
    lemma_register_in_block5(y, b, k);
    lemma_register_in_block5(n, b, k);
}

proof fn lemma_block6_step(x: Seq<u64>, y: Seq<u64>, b: int, k: int)
    requires
        x.len() == y.len(),
        0 <= b,
        3 * b + 3 <= x.len(),
        0 <= k < 32,
        !less_borrow_into(x, y, 6, 3 * b),
        !spread_borrow_into(less_words(x, y, 6), 6, 3 * b),
    ensures
        !less_borrow_into(x, y, 6, 3 * b + 3),
        !spread_borrow_into(less_words(x, y, 6), 6, 3 * b + 3),
        register_at(merged_words(x, y, 6), 6, 32 * b + k) == max64(
            register_at(x, 6, 32 * b + k),
            register_at(y, 6, 32 * b + k),
        ),
{
    reveal(less_words);
    reveal(merged_words);
    let i = 3 * b;
    let z = less_words(x, y, 6);
    let n = merged_words(x, y, 6);
    lemma_block6(x[i], x[i + 1], x[i + 2], y[i], y[i + 1], y[i + 2], k as u64);
    let c1 = less_borrow_into(x, y, 6, i + 1);
    let c2 = less_borrow_into(x, y, 6, i + 2);
    let c3 = less_borrow_into(x, y, 6, i + 3);
    assert(c1 == less_borrow(x[i], y[i], 0x0820820820820820u64, false));
    assert(c2 == less_borrow(x[i + 1], y[i + 1], 0x2082082082082082u64, c1));
    assert(c3 == less_borrow(x[i + 2], y[i + 2], 0x8208208208208208u64, c2));
    assert(z[i] == less_word(x[i], y[i], 0x0820820820820820u64, false));
    assert(z[i + 1] == less_word(x[i + 1], y[i + 1], 0x2082082082082082u64, c1));
    assert(z[i + 2] == less_word(x[i + 2], y[i + 2], 0x8208208208208208u64, c2));
    let z_next = word_or_zero(z, i + 3);
    assert((z_next << 59u64) == 0 && (0u64 << 59u64) == 0) by {
        assert((0u64 << 59u64) == 0) by (bit_vector);
        if i + 3 < z.len() {
            lemma_nothing_shifted_in(
                less_raw(x[i + 3], y[i + 3], msb_word(6, i + 3), less_borrow_into(x, y, 6, i + 3)),
            );
        }
    }
    assert(spread_in(z[i + 2], z_next, 0x8208208208208208u64, 6) == spread_in(
        z[i + 2],
        0,
        0x8208208208208208u64,
        6,
    ));
    let g1 = spread_borrow_into(z, 6, i + 1);
    let g2 = spread_borrow_into(z, 6, i + 2);
    let g3 = spread_borrow_into(z, 6, i + 3);
    assert(g1 == spread_borrow(
        z[i],
        z[i + 1],
        0x0820820820820820u64,
        0x1041041041041041u64,
        6,
        false,
    ));
    assert(g2 == spread_borrow(
        z[i + 1],
        z[i + 2],
        0x2082082082082082u64,
        0x4104104104104104u64,
        6,
        g1,
    ));
    assert(g3 == spread_borrow(
        z[i + 2],
        0,
        0x8208208208208208u64,
        0x0410410410410410u64,
        6,
        g2,
    ));
    assert(n[i] == select_word(
        x[i],
        y[i],
        spread_word(z[i], z[i + 1], 0x0820820820820820u64, 0x1041041041041041u64, 6, false),
    ));
    assert(n[i + 1] == select_word(
        x[i + 1],
        y[i + 1],
        spread_word(z[i + 1], z[i + 2], 0x2082082082082082u64, 0x4104104104104104u64, 6, g1),
    ));
    assert(n[i + 2] == select_word(
        x[i + 2],
        y[i + 2],
        spread_word(z[i + 2], 0, 0x8208208208208208u64, 0x0410410410410410u64, 6, g2),
    ));
    lemma_register_in_block6(x, b, k);
    lemma_register_in_block6(y, b, k);
    lemma_register_in_block6(n, b, k);
}

/// No borrow enters a block, in either pass.
proof fn lemma_no_borrow(x: Seq<u64>, y: Seq<u64>, r: nat, b: int)
    requires
        valid_register_size(r),
        x.len() == y.len(),
        0 <= b,
        block_words(r) * b <= x.len(),
    ensures
        !less_borrow_into(x, y, r, block_words(r) * b),
        !spread_borrow_into(less_words(x, y, r), r, block_words(r) * b),
    decreases b,
{
    if b > 0 {
        lemma_no_borrow(x, y, r, b - 1);
        if r == 5 {
            lemma_block5_step(x, y, b - 1, 0);
        } else {
            lemma_block6_step(x, y, b - 1, 0);
        }
    }
}

/// The two passes leave in every register the larger of the two registers
/// that stood there in `x` and in `y`.
pub proof fn lemma_merged_registers(x: Seq<u64>, y: Seq<u64>, r: nat, j: int)
    requires
        valid_register_size(r),
        x.len() == y.len(),
        x.len() % (block_words(r) as nat) == 0,
        0 <= j,
        (j + 1) * r <= 64 * x.len(),
    ensures
        register_at(merged_words(x, y, r), r, j) == max64(
            register_at(x, r, j),
            register_at(y, r, j),
        ),
{
    crate::utils::hyper_log_log::bit_fields::lemma_scale(r, j);
    let per = block_registers(r);
    let b = j / per;
    let k = j % per;
    if r == 5 {
        let blocks = x.len() as int / 5;
        assert(x.len() == 5 * blocks);
        assert(b < blocks);
        lemma_no_borrow(x, y, r, b);
        lemma_block5_step(x, y, b, k);
    } else {
        let blocks = x.len() as int / 3;
        assert(x.len() == 3 * blocks);
        assert(b < blocks);
        lemma_no_borrow(x, y, r, b);
        lemma_block6_step(x, y, b, k);
    }
}


/// Word `i` of the highest-bit mask for registers of `r` bits.
pub fn msb_mask_word(r: usize, i: usize) -> (w: u64)
    requires
        valid_register_size(r as nat),
    ensures
        w == msb_word(r as nat, i as int),
{
    if r == 5 {
        let p: usize = i % 5;
        if p == 0 {
            0x0842108421084210
        } else if p == 1 {
            0x1084210842108421
        } else if p == 2 {
            0x2108421084210842
        } else if p == 3 {
            0x4210842108421084
        } else {
            0x8421084210842108
        }
    } else {
        let p: usize = i % 3;
        if p == 0 {
            0x0820820820820820
        } else if p == 1 {
            0x2082082082082082
        } else {
            0x8208208208208208
        }
    }
}

/// Word `i` of the lowest-bit mask for registers of `r` bits.
pub fn lsb_mask_word(r: usize, i: usize) -> (w: u64)
    requires
        valid_register_size(r as nat),
    ensures
        w == lsb_word(r as nat, i as int),
{
    if r == 5 {
        let p: usize = i % 5;
        if p == 0 {
            0x1084210842108421
        } else if p == 1 {
            0x2108421084210842
        } else if p == 2 {
            0x4210842108421084
        } else if p == 3 {
            0x8421084210842108
        } else {
            0x0842108421084210
        }
    } else {
        let p: usize = i % 3;
        if p == 0 {
            0x1041041041041041
        } else if p == 1 {
            0x4104104104104104
        } else {
            0x0410410410410410
        }
    }
}

/// One word of a multiple-precision subtraction with the borrow that came
/// from the word below; returns the difference and the borrow for the word
/// above.
pub fn subtract_word(a: u64, b: u64, borrow: bool) -> (res: (u64, bool))
    ensures
        res.0 == sub_word(a, b, borrow),
        res.1 == sub_borrow(a, b, borrow),
{
    let mut x: u64 = a;
    let mut next: bool = borrow;
    if !borrow {
        next = x < b;
    } else if x != 0 {
        x = x.wrapping_sub(1);
        next = x < b;
    } else {
        x = x.wrapping_sub(1);
    }
    (x.wrapping_sub(b), next)
}

/// One word of the first pass: the comparison word and the borrow for the
/// word above.
fn less_step(x_word: u64, y_word: u64, h: u64, borrow: bool) -> (res: (u64, bool))
    ensures
        res.0 == less_word(x_word, y_word, h, borrow),
        res.1 == less_borrow(x_word, y_word, h, borrow),
{
    let (d, next) = subtract_word(y_word | h, x_word & !h, borrow);
    (((d | (y_word ^ x_word)) ^ (y_word | !x_word)) & h, next)
}

/// One word of the second pass: the merged word and the borrow for the
/// word above.
fn select_step(
    x_word: u64,
    y_word: u64,
    z_word: u64,
    z_next: u64,
    h: u64,
    l: u64,
    r: usize,
    borrow: bool,
) -> (res: (u64, bool))
    requires
        valid_register_size(r as nat),
    ensures
        res.0 == select_word(x_word, y_word, spread_word(z_word, z_next, h, l, r as u64, borrow)),
        res.1 == spread_borrow(z_word, z_next, h, l, r as u64, borrow),
{
    let shifted: u64 = (z_word >> ((r - 1) as u64)) | (z_next << ((65 - r) as u64)) | h;
    let (e, next) = subtract_word(shifted, l, borrow);
    let m: u64 = (e | h) ^ z_word;
    (x_word ^ ((x_word ^ y_word) & m), next)
}

/// The word `w` with the bits outside `residual_mask` taken from `current`.
fn keep_residual(current: u64, w: u64, residual_mask: u64) -> (res: u64)
    requires
        residual_mask == u64::MAX,
    ensures
        res == w,
        current & residual_mask == current,
{
    assert(((current & !0xffff_ffff_ffff_ffffu64) | (w & 0xffff_ffff_ffff_ffffu64)) == w)
        by (bit_vector);
    assert(current & 0xffff_ffff_ffff_ffffu64 == current) by (bit_vector);
    (current & !residual_mask) | (w & residual_mask)
}

/// Merges the `len` words of `y` that start at `y_offset` into the `len`
/// words of `x` that start at `x_offset`, on whole words, and says whether
/// `x` changed. `acc` is scratch space.
pub fn merge_words(
    x: &mut Vec<u64>,
    x_offset: usize,
    y: &Vec<u64>,
    y_offset: usize,
    len: usize,
    msb: &Vec<u64>,
    lsb: &Vec<u64>,
    r: usize,
    residual_mask: u64,
    acc: &mut Vec<u64>,
) -> (changed: bool)
    requires
        valid_register_size(r as nat),
        x_offset + len <= old(x)@.len(),
        y_offset + len <= y@.len(),
        msb@.len() == len,
        lsb@.len() == len,
        is_msb_mask(msb@, r as nat),
        is_lsb_mask(lsb@, r as nat),
        residual_mask == u64::MAX,
    ensures
        final(x)@.len() == old(x)@.len(),
        final(x)@.subrange(x_offset as int, x_offset + len) == merged_words(
            old(x)@.subrange(x_offset as int, x_offset + len),
            y@.subrange(y_offset as int, y_offset + len),
            r as nat,
        ),
        forall|i: int|
            0 <= i < old(x)@.len() && !(x_offset <= i < x_offset + len) ==> final(x)@[i] == old(x)@[i],
        changed <==> final(x)@ != old(x)@,
{
    let ghost xs = x@.subrange(x_offset as int, x_offset + len);
    let ghost ys = y@.subrange(y_offset as int, y_offset + len);
    let ghost z = less_words(xs, ys, r as nat);
    let ghost n = merged_words(xs, ys, r as nat);
    proof {
        reveal(less_words);
        reveal(merged_words);
    }
    assert(x.len() <= usize::MAX && y.len() <= usize::MAX);
    assert(z.len() == len && n.len() == len);
    assert(forall|k: int| 0 <= k < len ==> #[trigger] z[k] == less_at(xs, ys, r as nat, k));
    assert(forall|k: int| 0 <= k < len ==> #[trigger] n[k] == merged_word(xs, ys, r as nat, k));
    assert(forall|k: int|
        0 <= k < len ==> merged_word(xs, ys, r as nat, k) == select_word(
            xs[k],
            ys[k],
            #[trigger] spread_at(z, r as nat, k),
        ));
    acc.clear();
    let mut borrow: bool = false;
    let mut i: usize = 0;
    while i < len
        invariant
            i <= len,
            x@ == old(x)@,
            x_offset + len <= x@.len() <= usize::MAX,
            y_offset + len <= y@.len() <= usize::MAX,
            xs == x@.subrange(x_offset as int, x_offset + len),
            ys == y@.subrange(y_offset as int, y_offset + len),
            z.len() == len,
            forall|k: int| 0 <= k < len ==> #[trigger] z[k] == less_at(xs, ys, r as nat, k),
            msb@.len() == len,
            is_msb_mask(msb@, r as nat),
            residual_mask == u64::MAX,
            acc@.len() == i,
            forall|k: int| 0 <= k < i ==> acc@[k] == z[k],
            borrow == less_borrow_into(xs, ys, r as nat, i as int),
        decreases len - i,
    {
        let x_word: u64 = x[x_offset + i];
        let y_word: u64 = y[y_offset + i];
        let x_masked: u64 = if i + 1 == len {
            keep_residual(0, x_word, residual_mask)
        } else {
            x_word
        };
        let y_masked: u64 = if i + 1 == len {
            keep_residual(0, y_word, residual_mask)
        } else {
            y_word
        };
        let h: u64 = msb[i];
        let (z_word, next) = less_step(x_masked, y_masked, h, borrow);
        proof {
            assert(x_masked == xs[i as int]);
            assert(y_masked == ys[i as int]);
            assert(h == msb_word(r as nat, i as int));
            assert(z_word == z[i as int]);
            assert(next == less_borrow_into(xs, ys, r as nat, i + 1));
        }
        acc.push(z_word);
        borrow = next;
        i += 1;
    }
    let mut changed: bool = false;
    let mut borrow: bool = false;
    let mut i: usize = 0;
    let ghost mut witness: int = 0;
    while i < len
        invariant
            i <= len,
            valid_register_size(r as nat),
            x@.len() == old(x)@.len(),
            x_offset + len <= x@.len() <= usize::MAX,
            y_offset + len <= y@.len() <= usize::MAX,
            xs == old(x)@.subrange(x_offset as int, x_offset + len),
            ys == y@.subrange(y_offset as int, y_offset + len),
            z.len() == len,
            n.len() == len,
            forall|k: int|
                0 <= k < len ==> #[trigger] n[k] == select_word(
                    xs[k],
                    ys[k],
                    spread_at(z, r as nat, k),
                ),
            msb@.len() == len,
            lsb@.len() == len,
            is_msb_mask(msb@, r as nat),
            is_lsb_mask(lsb@, r as nat),
            residual_mask == u64::MAX,
            acc@.len() == len,
            forall|k: int| 0 <= k < len ==> acc@[k] == z[k],
            borrow == spread_borrow_into(z, r as nat, i as int),
            forall|k: int| 0 <= k < i ==> x@[x_offset + k] == n[k],
            forall|k: int| i <= k < len ==> x@[x_offset + k] == xs[k],
            forall|k: int|
                0 <= k < x@.len() && !(x_offset <= k < x_offset + len) ==> x@[k] == old(x)@[k],
            changed ==> 0 <= witness < i && n[witness] != xs[witness],
            !changed ==> forall|k: int| 0 <= k < i ==> n[k] == xs[k],
        decreases len - i,
    {
        let z_word: u64 = acc[i];
        let z_next: u64 = if i + 1 == len {
            0
        } else {
            acc[i + 1]
        };
        let h: u64 = msb[i];
        let l: u64 = lsb[i];
        let current: u64 = x[x_offset + i];
        let y_word: u64 = y[y_offset + i];
        let x_masked: u64 = if i + 1 == len {
            keep_residual(0, current, residual_mask)
        } else {
            current
        };
        let y_masked: u64 = if i + 1 == len {
            keep_residual(0, y_word, residual_mask)
        } else {
            y_word
        };
        let (selected, next) = select_step(x_masked, y_masked, z_word, z_next, h, l, r, borrow);
        let new_word: u64 = if i + 1 == len {
            keep_residual(current, selected, residual_mask)
        } else {
            selected
        };
        proof {
            assert(x_masked == xs[i as int]);
            assert(y_masked == ys[i as int]);
            assert(h == msb_word(r as nat, i as int));
            assert(l == lsb_word(r as nat, i as int));
            assert(z_word == z[i as int]);
            assert(z_next == word_or_zero(z, i + 1));
            assert(new_word == n[i as int]);
            assert(next == spread_borrow_into(z, r as nat, i + 1));
        }
        if new_word != current {
            changed = true;
            x.set(x_offset + i, new_word);
            proof {
                witness = i as int;
            }
        }
        borrow = next;
        i += 1;
    }
    proof {
        assert(x@.subrange(x_offset as int, x_offset + len) =~= n);
        if !changed {
            assert forall|k: int| 0 <= k < x@.len() implies x@[k] == old(x)@[k] by {
                if x_offset <= k < x_offset + len {
                    let d = k - x_offset;
                    assert(x@[x_offset + d] == n[d]);
                    assert(n[d] == xs[d]);
                }
            }
            assert(x@ =~= old(x)@);
        } else {
            assert(x@[x_offset + witness] == n[witness]);
            assert(x@[x_offset + witness] != old(x)@[x_offset + witness]);
        }
    }
    changed
}

} // verus!
