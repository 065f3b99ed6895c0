//! What the word operations of the successor step compute, in terms of powers of two.

use crate::successor::{lowest_run, trailing_ones, trailing_zeros};
use crate::word::{lemma_pow2_zero, minimal_word};
use vstd::arithmetic::power2::{lemma_pow2_pos, lemma_pow2_unfold, pow2};
use vstd::prelude::*;

verus! {

/// The lowest set bit of `w`, as the word operations isolate it.
pub open spec fn low_bit(w: u64) -> u64 {
    w & ((!w + 1) as u64)
}

/// `w & (!w + 1)` is two to the number of zeros at the low end of `w`.
pub proof fn lemma_low_bit(w: u64)
    requires
        w != 0,
    ensures
        !w < u64::MAX,
        low_bit(w) == pow2(trailing_zeros(w as nat)),
    decreases w,
{
    assert(!w < u64::MAX) by (bit_vector)
        requires
            w != 0,
    ;
    if w % 2 == 1 {
        lemma_pow2_zero();
        assert(w & ((!w + 1) as u64) == 1) by (bit_vector)
            requires
                w % 2 == 1,
        ;
    } else {
        let h = w / 2;
        lemma_low_bit(h);
        lemma_pow2_unfold(trailing_zeros(w as nat));
        assert(w & ((!w + 1) as u64) == 2 * (h & ((!h + 1) as u64))) by (bit_vector)
            requires
                w % 2 == 0,
                w != 0,
                h == w / 2,
        ;
    }
}

/// Adding one to an odd number changes its low run of ones and the zero above it.
pub proof fn lemma_xor_increment(w: u64)
    requires
        w % 2 == 1,
        w < u64::MAX,
    ensures
        w ^ ((w + 1) as u64) == pow2(trailing_ones(w as nat) + 1) - 1,
    decreases w,
{
    let h = w / 2;
    lemma_pow2_unfold(trailing_ones(w as nat) + 1);
    if h % 2 == 0 {
        assert(trailing_ones(h as nat) == 0);
        lemma_pow2_unfold(1);
        lemma_pow2_zero();
        assert(w ^ ((w + 1) as u64) == 3) by (bit_vector)
            requires
                w % 4 == 1,
        ;
    } else {
        lemma_xor_increment(h);
        assert(w ^ ((w + 1) as u64) == 2 * (h ^ ((h + 1) as u64)) + 1) by (bit_vector)
            requires
                w % 4 == 3,
                w < u64::MAX,
                h == w / 2,
        ;
    }
}

/// Adding its lowest set bit to a number changes its lowest run of ones and the zero
/// above it.
pub proof fn lemma_xor_run(w: u64)
    requires
        w != 0,
        w + low_bit(w) <= u64::MAX,
    ensures
        w ^ ((w + low_bit(w)) as u64) == (pow2(lowest_run(w as nat) + 1) - 1) * low_bit(w),
    decreases w,
{
    let a = low_bit(w);
    lemma_low_bit(w);
    if w % 2 == 1 {
        lemma_pow2_zero();
        lemma_xor_increment(w);
        let x = pow2(lowest_run(w as nat) + 1) - 1;
        assert(x * 1 == x) by (nonlinear_arith);
    } else {
        let h = w / 2;
        let ah = low_bit(h);
        let x = pow2(lowest_run(w as nat) + 1) - 1;
        lemma_low_bit(h);
        lemma_pow2_unfold(trailing_zeros(w as nat));
        assert(a == 2 * ah);
        lemma_xor_run(h);
        assert(w ^ ((w + a) as u64) == 2 * (h ^ ((h + ah) as u64))) by (bit_vector)
            requires
                w % 2 == 0,
                h == w / 2,
                a == 2 * ah,
                w + a <= u64::MAX,
        ;
        assert(2 * (x * ah) == x * (2 * ah)) by (nonlinear_arith);
    }
}

/// The mask of the successor step: a one in every second place, from the second lowest on.
pub const ALTERNATING_MASK: u128 = 0xaaaa_aaaa_aaaa_aaaa_aaaa_aaaa_aaaa_aaaa;

/// Of `2k` ones at the low end the mask keeps every second, which leaves ones and zeros in
/// turn.
pub proof fn lemma_mask_low_ones(k: nat)
    requires
        k <= 32,
    ensures
        1 <= pow2(2 * k) <= 0x1_0000_0000_0000_0000,
        ((pow2(2 * k) - 1) as u128) & ALTERNATING_MASK == minimal_word(k),
    decreases k,
{
    vstd::arithmetic::power2::lemma2_to64();
    lemma_pow2_pos(2 * k);
    if 2 * k < 64 {
        vstd::arithmetic::power2::lemma_pow2_strictly_increases(2 * k, 64);
    }
    if k == 0 {
        assert(0u128 & ALTERNATING_MASK == 0) by (bit_vector);
    } else {
        let x = (pow2(2 * k) - 1) as u128;
        let y = (pow2((2 * (k - 1)) as nat) - 1) as u128;
        lemma_mask_low_ones((k - 1) as nat);
        lemma_pow2_unfold(2 * k);
        lemma_pow2_unfold((2 * k - 1) as nat);
        assert(x == 4 * y + 3);
        assert(x & ALTERNATING_MASK == 4 * (y & ALTERNATING_MASK) + 2) by (bit_vector)
            requires
                x == 4 * y + 3,
                y <= 0xffff_ffff_ffff_ffff,
        ;
    }
}

/// Joining a number below `2^j` to a multiple of `2^j` by `|` adds the two.
pub proof fn lemma_or_adds(low: u128, high: u128, j: nat, factor: nat)
    requires
        low < pow2(j),
        high == factor * pow2(j),
    ensures
        low | high == low + high,
    decreases j,
{
    if j == 0 {
        lemma_pow2_zero();
        assert(low | high == low + high) by (bit_vector)
            requires
                low == 0,
        ;
    } else {
        let p = pow2((j - 1) as nat);
        lemma_pow2_unfold(j);
        assert(high == 2 * (factor * p)) by (nonlinear_arith)
            requires
                high == factor * (2 * p),
        ;
        lemma_or_adds(low / 2, high / 2, (j - 1) as nat, factor);
        assert(low | high == 2 * ((low / 2) | (high / 2)) + low % 2) by (bit_vector)
            requires
                high % 2 == 0,
        ;
    }
}

} // verus!
