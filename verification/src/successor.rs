//! The step from a Dyck word to the next larger one of the same semilength.

use crate::bitwise::{
    lemma_low_bit, lemma_mask_low_ones, lemma_or_adds, lemma_xor_run, ALTERNATING_MASK,
};
use crate::word::{
    alternating, bits, count_ones, height, is_dyck_word, is_dyck_word_of,
    lemma_alternating, lemma_alternating_stays_up, lemma_bits_leading_one, lemma_bits_len,
    lemma_bits_len_monotone, lemma_bits_of_value, lemma_height_concat, lemma_height_counts,
    lemma_least_completion, lemma_ones, lemma_pow2_zero, lemma_push,
    lemma_stays_up_concat, lemma_value_bound, lemma_value_concat, lemma_value_injective,
    lemma_value_max, lemma_value_of_bits, lemma_zeros, lemma_zeros_stay_up, maximal_word,
    minimal_word, repeat, semilength, stays_up, value,
};
use vstd::arithmetic::power2::{lemma_pow2_adds, lemma_pow2_pos, lemma_pow2_unfold, pow2};
use vstd::prelude::*;

verus! {

/// The number of zeros at the low end of `w`.
pub open spec fn trailing_zeros(w: nat) -> nat
    decreases w,
{
    if w == 0 || w % 2 == 1 {
        0
    } else {
        1 + trailing_zeros(w / 2)
    }
}

/// `w` without the zeros at its low end.
pub open spec fn odd_part(w: nat) -> nat
    decreases w,
{
    if w == 0 || w % 2 == 1 {
        w
    } else {
        odd_part(w / 2)
    }
}

/// The number of ones at the low end of `w`.
pub open spec fn trailing_ones(w: nat) -> nat
    decreases w,
{
    if w % 2 == 0 {
        0
    } else {
        1 + trailing_ones(w / 2)
    }
}

/// `w` without the ones at its low end.
pub open spec fn above_ones(w: nat) -> nat
    decreases w,
{
    if w % 2 == 0 {
        w
    } else {
        above_ones(w / 2)
    }
}

/// The length of the lowest run of ones in `w`.
pub open spec fn lowest_run(w: nat) -> nat {
    trailing_ones(odd_part(w))
}

/// The step to the next word: the zero above the lowest run of ones becomes a one, and of
/// the ones of the run all but one go to the low end, each followed by a zero.
pub open spec fn successor(w: nat) -> nat {
    w + pow2(trailing_zeros(w)) + minimal_word((lowest_run(w) - 1) as nat)
}

/// `next` is a Dyck word of the semilength of `w`, larger than `w`, and no Dyck word lies
/// between the two.
pub open spec fn is_next_dyck_word(w: nat, next: nat) -> bool {
    &&& is_dyck_word(next)
    &&& bits(next).len() == bits(w).len()
    &&& w < next
    &&& forall|v: nat| w < v < next ==> !is_dyck_word(v)
}

/// A positive number is its odd part, shifted up by the zeros at its low end.
pub proof fn lemma_trailing_zeros(w: nat)
    requires
        w > 0,
    ensures
        w == odd_part(w) * pow2(trailing_zeros(w)),
        odd_part(w) % 2 == 1,
    decreases w,
{
    if w % 2 == 1 {
        lemma_pow2_zero();
        assert(w * 1 == w) by (nonlinear_arith);
    } else {
        lemma_trailing_zeros(w / 2);
        lemma_pow2_unfold(trailing_zeros(w));
        let o = odd_part(w);
        let p = pow2(trailing_zeros(w / 2));
        assert(2 * (o * p) == o * (2 * p)) by (nonlinear_arith);
    }
}

/// A number is an even part, shifted up by the ones at its low end, and those ones.
pub proof fn lemma_trailing_ones(w: nat)
    ensures
        w == above_ones(w) * pow2(trailing_ones(w)) + pow2(trailing_ones(w)) - 1,
        above_ones(w) % 2 == 0,
        w % 2 == 1 ==> trailing_ones(w) >= 1,
    decreases w,
{
    if w % 2 == 0 {
        lemma_pow2_zero();
        assert(w * 1 == w) by (nonlinear_arith);
    } else {
        lemma_trailing_ones(w / 2);
        lemma_pow2_unfold(trailing_ones(w));
        let q = above_ones(w);
        let p = pow2(trailing_ones(w / 2));
        assert(2 * (q * p) == q * (2 * p)) by (nonlinear_arith);
    }
}

/// The digits of `w` above the zero that stands over its lowest run of ones, as a number.
pub open spec fn front(w: nat) -> nat {
    above_ones(odd_part(w)) / 2
}

/// The digits of `w` in four parts: the front, a zero, the lowest run of ones, the zeros
/// at the low end.
pub open spec fn shape(w: nat) -> Seq<bool> {
    bits(front(w)) + seq![false] + repeat(true, lowest_run(w)) + repeat(
        false,
        trailing_zeros(w),
    )
}

/// The digits of the successor of `w`: the front, a one, zeros down to the ground, and the
/// other ones of the run, each followed by a zero.
pub open spec fn successor_shape(w: nat) -> Seq<bool> {
    bits(front(w)) + seq![true] + repeat(
        false,
        (trailing_zeros(w) - lowest_run(w) + 2) as nat,
    ) + alternating((lowest_run(w) - 1) as nat)
}

/// A positive number is the value of its four parts, whether or not its front is empty.
pub proof fn lemma_shape_value(w: nat)
    requires
        w > 0,
    ensures
        lowest_run(w) >= 1,
        value(shape(w)) == w,
        w == ((2 * front(w)) * pow2(lowest_run(w)) + pow2(lowest_run(w)) - 1) * pow2(
            trailing_zeros(w),
        ),
{
    let t = trailing_zeros(w);
    let r = lowest_run(w);
    let o = odd_part(w);
    let a = bits(front(w));
    let ab = a + seq![false];
    let abc = ab + repeat(true, r);
    lemma_trailing_zeros(w);
    lemma_trailing_ones(o);
    lemma_value_of_bits(front(w));
    assert(ab =~= a.push(false));
    lemma_push(a, false);
    lemma_ones(r);
    lemma_zeros(t);
    lemma_value_concat(ab, repeat(true, r));
    lemma_value_concat(abc, repeat(false, t));
    assert(value(ab) == above_ones(o));
    assert(value(abc) == o);
}

/// A Dyck word other than the largest of its semilength has a zero above its lowest run of
/// ones, and digits above that zero.
pub proof fn lemma_dyck_shape(w: nat, n: nat)
    requires
        is_dyck_word_of(w, n),
        w != maximal_word(n),
    ensures
        w > 0,
        front(w) > 0,
        bits(w) == shape(w),
        1 <= lowest_run(w) <= trailing_zeros(w),
        height(bits(front(w))) == trailing_zeros(w) - lowest_run(w) + 1,
        stays_up(0, bits(front(w))),
        bits(front(w)).len() + 1 + lowest_run(w) + trailing_zeros(w) == 2 * n,
{
    let t = trailing_zeros(w);
    let r = lowest_run(w);
    let a = bits(front(w));
    let ab = a + seq![false];
    let c = repeat(true, r);
    let d = repeat(false, t);
    let abc = ab + c;
    if w == 0 {
        assert(bits(w).len() == 0);
        lemma_pow2_zero();
        assert(maximal_word(0) == 0);
    }
    lemma_shape_value(w);
    lemma_ones(r);
    lemma_zeros(t);
    if front(w) == 0 {
        // The word is a run of ones and a run of zeros, which is the largest word.
        let s = c + d;
        assert(bits(0) =~= Seq::<bool>::empty());
        lemma_value_concat(c, d);
        assert(value(s) == (pow2(r) - 1) * pow2(t));
        assert(w == value(s)) by (nonlinear_arith)
            requires
                w == ((2 * 0) * pow2(r) + pow2(r) - 1) * pow2(t),
                value(s) == (pow2(r) - 1) * pow2(t),
        ;
        lemma_bits_of_value(s);
        lemma_height_concat(c, d);
        assert(r == t && r == n);
    }
    lemma_bits_leading_one(front(w));
    lemma_bits_of_value(shape(w));
    lemma_height_concat(a, seq![false]);
    lemma_height_concat(ab, c);
    lemma_height_concat(abc, d);
    lemma_stays_up_concat(0, abc, d);
    lemma_stays_up_concat(0, ab, c);
    lemma_stays_up_concat(0, a, seq![false]);
    assert(seq![false] =~= Seq::<bool>::empty().push(false));
    lemma_push(Seq::<bool>::empty(), false);
    assert(seq![false].take(1) =~= seq![false]);
}

/// The successor of a Dyck word other than the largest is a Dyck word of the same
/// semilength, with the digits that `successor_shape` gives.
pub proof fn lemma_successor_shape(w: nat, n: nat)
    requires
        is_dyck_word_of(w, n),
        w != maximal_word(n),
    ensures
        bits(successor(w)) == successor_shape(w),
        is_dyck_word_of(successor(w), n),
        minimal_word((lowest_run(w) - 1) as nat) < pow2(lowest_run(w) + trailing_zeros(w)),
{
    let t = trailing_zeros(w);
    let r = lowest_run(w);
    let k = (r - 1) as nat;
    let down = (t - r + 2) as nat;
    let a = bits(front(w));
    let one = seq![true];
    let ab = a + one;
    let c = repeat(false, down);
    let d = alternating(k);
    let abc = ab + c;
    lemma_dyck_shape(w, n);
    lemma_shape_value(w);
    lemma_value_of_bits(front(w));
    assert(ab =~= a.push(true));
    lemma_push(a, true);
    lemma_zeros(down);
    lemma_alternating(k);
    lemma_value_concat(ab, c);
    lemma_value_concat(abc, d);
    lemma_pow2_adds(down, 2 * k);
    lemma_pow2_adds(r, t);
    assert(down + 2 * k == r + t);
    let f = front(w) as int;
    let pr = pow2(r) as int;
    let pt = pow2(t) as int;
    let prt = pow2(r + t) as int;
    assert(value(abc) == (2 * f + 1) * pow2(down));
    assert(value(abc + d) == ((2 * f + 1) * pow2(down)) * pow2(2 * k) + minimal_word(k));
    assert(((2 * f + 1) * pow2(down)) * pow2(2 * k) == (2 * f + 1) * prt) by (nonlinear_arith)
        requires
            prt == pow2(down) * pow2(2 * k),
    ;
    assert(w + pt == (2 * f + 1) * prt) by (nonlinear_arith)
        requires
            w == ((2 * f) * pr + pr - 1) * pt,
            prt == pr * pt,
    ;
    assert(value(successor_shape(w)) == successor(w));
    lemma_bits_leading_one(front(w));
    lemma_bits_of_value(successor_shape(w));
    // The successor is balanced.
    lemma_height_concat(a, one);
    lemma_height_concat(ab, c);
    lemma_height_concat(abc, d);
    lemma_stays_up_concat(0, abc, d);
    lemma_stays_up_concat(0, ab, c);
    lemma_stays_up_concat(0, a, one);
    lemma_zeros_stay_up(height(ab), down);
    lemma_alternating_stays_up(height(abc), k);
    assert(one.take(0) =~= Seq::<bool>::empty());
    assert(one.take(1) =~= one);
    assert(stays_up(height(a), one)) by {
        assert forall|j: int| 0 <= j <= one.len() implies height(a) + height(
            #[trigger] one.take(j),
        ) >= 0 by {
            if j == 0 {
                assert(one.take(0) =~= Seq::<bool>::empty());
            } else {
                assert(one.take(1) =~= one);
            }
        }
    }
    // The low part of the successor is below the place of the new one.
    lemma_pow2_pos(down);
    assert(minimal_word(k) < prt) by (nonlinear_arith)
        requires
            3 * minimal_word(k) + 2 == 2 * pow2(2 * k),
            prt == pow2(down) * pow2(2 * k),
            pow2(down) >= 1,
    ;
}

/// No Dyck word lies between a Dyck word and its successor.
pub proof fn lemma_no_word_between(w: nat, n: nat, v: nat)
    requires
        is_dyck_word_of(w, n),
        w != maximal_word(n),
        w < v < successor(w),
    ensures
        !is_dyck_word(v),
{
    let t = trailing_zeros(w);
    let r = lowest_run(w);
    let k = (r - 1) as nat;
    let f = front(w) as int;
    let a = bits(front(w));
    let m = a.len() as int;
    let low = pow2(r + t) as int;
    lemma_dyck_shape(w, n);
    lemma_shape_value(w);
    lemma_successor_shape(w, n);
    lemma_bits_len_monotone(w, v);
    lemma_bits_len_monotone(v, successor(w));
    if is_dyck_word(v) {
        let s = bits(v);
        let head = s.take(m);
        let mid = seq![s[m]];
        let tail = s.skip(m + 1);
        let digit = if s[m] { 1int } else { 0int };
        let x = 2 * value(head) + digit;
        let y = value(tail) as int;
        let y_w = (pow2(r) - 1) * pow2(t);
        let y_next = minimal_word(k) as int;
        assert(s =~= head + mid + tail);
        assert(head + mid =~= head.push(s[m]));
        lemma_push(head, s[m]);
        lemma_value_of_bits(v);
        lemma_value_of_bits(front(w));
        lemma_value_concat(head + mid, tail);
        lemma_value_bound(tail);
        lemma_height_concat(head + mid, tail);
        lemma_stays_up_concat(0, head + mid, tail);
        lemma_height_counts(tail);
        lemma_pow2_adds(r, t);
        lemma_pow2_pos(t);
        lemma_pow2_pos(r);
        assert(v == x * low + y);
        assert(w == (2 * f) * low + y_w && 0 <= y_w < low) by (nonlinear_arith)
            requires
                w == ((2 * f) * pow2(r) + pow2(r) - 1) * pow2(t),
                low == pow2(r) * pow2(t),
                y_w == (pow2(r) - 1) * pow2(t),
                pow2(t) > 0,
                pow2(r) > 0,
        ;
        assert(successor(w) == (2 * f + 1) * low + y_next) by (nonlinear_arith)
            requires
                successor(w) == w + pow2(t) + y_next,
                w == ((2 * f) * pow2(r) + pow2(r) - 1) * pow2(t),
                low == pow2(r) * pow2(t),
        ;
        assert(x == 2 * f || x == 2 * f + 1) by (nonlinear_arith)
            requires
                (2 * f) * low + y_w < x * low + y < (2 * f + 1) * low + y_next,
                0 <= y_w,
                0 <= y < low,
                y_next < low,
        ;
        assert(value(head) == f);
        lemma_value_injective(head, a);
        if x == 2 * f {
            // Above the low part `v` is `w`, and the low part of `w` is the largest there is.
            assert(!s[m]);
            assert(y > y_w) by (nonlinear_arith)
                requires
                    (2 * f) * low + y_w < x * low + y,
                    x == 2 * f,
            ;
            lemma_value_max(tail);
            assert(count_ones(tail) == r);
        } else {
            // Above the low part `v` is the successor, whose low part is the least there is.
            assert(s[m]);
            assert(y < y_next) by (nonlinear_arith)
                requires
                    x * low + y < (2 * f + 1) * low + y_next,
                    x == 2 * f + 1,
            ;
            lemma_least_completion((t - r + 2) as nat, k, tail);
        }
        assert(false);
    }
}

/// The successor of a Dyck word other than the largest of its semilength is the next
/// Dyck word.
pub proof fn lemma_successor_is_next(w: nat, n: nat)
    requires
        is_dyck_word_of(w, n),
        w != maximal_word(n),
    ensures
        is_next_dyck_word(w, successor(w)),
        is_dyck_word_of(successor(w), n),
{
    lemma_successor_shape(w, n);
    lemma_pow2_pos(trailing_zeros(w));
    assert forall|v: nat| w < v < successor(w) implies !is_dyck_word(v) by {
        lemma_no_word_between(w, n, v);
    }
}

/// A word has at most one next Dyck word.
pub proof fn lemma_next_dyck_word_unique(w: nat, x: nat, y: nat)
    requires
        is_next_dyck_word(w, x),
        is_next_dyck_word(w, y),
    ensures
        x == y,
{
}

/// A Dyck word held in 64 bits has a semilength of 32 at most.
pub proof fn lemma_word_fits(w: u64)
    ensures
        bits(w as nat).len() <= 64,
        semilength(w as nat) <= 32,
{
    let len = bits(w as nat).len();
    lemma_bits_len(w as nat);
    vstd::arithmetic::power2::lemma2_to64();
    if len > 64 {
        if len - 1 > 64 {
            vstd::arithmetic::power2::lemma_pow2_strictly_increases(64, (len - 1) as nat);
        }
    }
}

/// The next Dyck word after `w` in increasing order, by a fixed number of word operations.
///
/// `w` must be a Dyck word and not the largest of its semilength; whether it is so is not
/// tested. The result fits in 64 bits.
pub fn next_dyck_word_bin(w: u64) -> (next: u128)
    requires
        is_dyck_word(w as nat),
        w != maximal_word(semilength(w as nat)),
    ensures
        next == successor(w as nat),
        is_next_dyck_word(w as nat, next as nat),
        next <= u64::MAX,
{
    let ghost n = semilength(w as nat);
    let ghost t = trailing_zeros(w as nat);
    let ghost r = lowest_run(w as nat);
    let ghost k = (r - 1) as nat;
    proof {
        lemma_height_counts(bits(w as nat));
        lemma_word_fits(w);
        lemma_dyck_shape(w as nat, n);
        lemma_shape_value(w as nat);
        lemma_successor_is_next(w as nat, n);
        lemma_successor_shape(w as nat, n);
        lemma_bits_len(successor(w as nat));
        lemma_low_bit(w);
        vstd::arithmetic::power2::lemma2_to64();
        if 2 * n < 64 {
            vstd::arithmetic::power2::lemma_pow2_strictly_increases(2 * n, 64);
        }
        assert(successor(w as nat) < 0x1_0000_0000_0000_0000);
        lemma_pow2_pos(t);
    }
    // The lowest set bit: two to the number of zeros at the low end.
    let a: u64 = w & (!w + 1);
    assert(a == pow2(t));
    // The lowest run of ones gives way to a one in the place above it.
    let b: u64 = w + a;
    let c: u64 = w ^ b;
    proof {
        lemma_xor_run(w);
    }
    let ghost run = pow2(r + 1) - 1;
    assert(c == run * a);
    // The run, moved to the low end and less its two lowest ones.
    let c: u128 = (c as u128 / a as u128) >> 2;
    proof {
        let moved = (run * a) as u128 / a as u128;
        vstd::arithmetic::div_mod::lemma_div_multiples_vanish(run, a as int);
        assert(run * a == a * run) by (nonlinear_arith);
        assert(moved == run);
        lemma_pow2_unfold(r + 1);
        lemma_pow2_unfold(r);
        assert(moved >> 2 == moved / 4) by (bit_vector);
        assert(c == pow2(k) - 1);
        lemma_mask_low_ones(k);
        lemma_pow2_adds(k, k);
    }
    let c: u128 = c.wrapping_add(1);
    assert(c == pow2(k));
    assert(c * c == pow2(2 * k));
    let mask: u128 = ALTERNATING_MASK;
    proof {
        // The new one stands in a multiple of two to the length of the low part.
        let f = front(w as nat);
        lemma_pow2_adds(r, t);
        assert(b == (2 * f + 1) * pow2(r + t)) by (nonlinear_arith)
            requires
                w == ((2 * f) * pow2(r) + pow2(r) - 1) * pow2(t),
                b == w + pow2(t),
                pow2(r + t) == pow2(r) * pow2(t),
        ;
        lemma_or_adds((minimal_word(k)) as u128, b as u128, r + t, 2 * f + 1);
    }
    ((c * c - 1) & mask) | b as u128
}

} // verus!
