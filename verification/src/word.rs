//! Digit strings and the numbers they denote; Dyck words.
//!
//! A digit string is a `Seq<bool>`, most significant digit first, `true` for
//! the digit one. A natural number stands for the digit string that is its
//! binary expansion without leading zeros, so that zero is the empty string.

use vstd::arithmetic::power2::{lemma2_to64, lemma_pow2_pos, lemma_pow2_unfold, pow2};
use vstd::prelude::*;

verus! {

/// The binary expansion of `w`, most significant digit first, without leading zeros.
pub open spec fn bits(w: nat) -> Seq<bool>
    decreases w,
{
    if w == 0 {
        Seq::empty()
    } else {
        bits(w / 2).push(w % 2 == 1)
    }
}

/// The number that the digit string `s` denotes.
pub open spec fn value(s: Seq<bool>) -> nat
    decreases s.len(),
{
    if s.len() == 0 {
        0
    } else {
        2 * value(s.drop_last()) + if s.last() { 1nat } else { 0nat }
    }
}

/// The number of ones in `s` less the number of zeros.
pub open spec fn height(s: Seq<bool>) -> int
    decreases s.len(),
{
    if s.len() == 0 {
        0
    } else {
        height(s.drop_last()) + if s.last() { 1int } else { -1int }
    }
}

/// Starting `above` the ground, no prefix of `s` goes below it.
pub open spec fn stays_up(above: int, s: Seq<bool>) -> bool {
    forall|k: int| 0 <= k <= s.len() ==> above + height(#[trigger] s.take(k)) >= 0
}

/// `s` has as many ones as zeros, and no prefix of it has more zeros than ones.
pub open spec fn balanced(s: Seq<bool>) -> bool {
    height(s) == 0 && stays_up(0, s)
}

/// `w` is the number of a Dyck word.
pub open spec fn is_dyck_word(w: nat) -> bool {
    balanced(bits(w))
}

/// Half the number of digits of `w`: the semilength of the word, if `w` is a Dyck word.
pub open spec fn semilength(w: nat) -> nat {
    bits(w).len() / 2
}

/// `w` is a Dyck word of semilength `n`.
pub open spec fn is_dyck_word_of(w: nat, n: nat) -> bool {
    is_dyck_word(w) && bits(w).len() == 2 * n
}

/// Two to the power zero is one.
pub proof fn lemma_pow2_zero()
    ensures
        pow2(0) == 1,
{
    lemma2_to64();
}

/// A number is the value of its binary expansion.
pub proof fn lemma_value_of_bits(w: nat)
    ensures
        value(bits(w)) == w,
    decreases w,
{
    if w > 0 {
        lemma_value_of_bits(w / 2);
        assert(bits(w).drop_last() =~= bits(w / 2));
    }
}

/// A binary expansion starts with a one.
pub proof fn lemma_bits_leading_one(w: nat)
    requires
        w > 0,
    ensures
        bits(w).len() > 0,
        bits(w)[0],
    decreases w,
{
    if w >= 2 {
        lemma_bits_leading_one(w / 2);
    } else {
        assert(bits(0).len() == 0);
        assert(bits(w) =~= seq![true]);
    }
}

/// A digit string that is empty or starts with a one is the binary expansion of its value.
pub proof fn lemma_bits_of_value(s: Seq<bool>)
    requires
        s.len() == 0 || s[0],
    ensures
        bits(value(s)) == s,
    decreases s.len(),
{
    if s.len() == 0 {
    } else if s.len() == 1 {
        assert(value(s.drop_last()) == 0);
        assert(bits(0) =~= Seq::<bool>::empty());
        assert(bits(1) =~= seq![true]);
        assert(s =~= seq![true]);
    } else {
        let front = s.drop_last();
        lemma_bits_of_value(front);
        lemma_bits_leading_one_value(front);
        assert(value(s) / 2 == value(front));
        assert(s =~= front.push(s.last()));
    }
}

/// A digit string that starts with a one denotes a positive number.
pub proof fn lemma_bits_leading_one_value(s: Seq<bool>)
    requires
        s.len() > 0,
        s[0],
    ensures
        value(s) > 0,
    decreases s.len(),
{
    if s.len() > 1 {
        lemma_bits_leading_one_value(s.drop_last());
    }
}

/// A string of `n` digits denotes a number below `2^n`.
pub proof fn lemma_value_bound(s: Seq<bool>)
    ensures
        value(s) < pow2(s.len()),
    decreases s.len(),
{
    if s.len() == 0 {
        lemma_pow2_zero();
    } else {
        lemma_value_bound(s.drop_last());
        lemma_pow2_unfold(s.len());
    }
}

/// A positive number of `n` digits is at least `2^(n - 1)` and below `2^n`.
pub proof fn lemma_bits_len(w: nat)
    ensures
        w < pow2(bits(w).len()),
        w > 0 ==> pow2((bits(w).len() - 1) as nat) <= w,
    decreases w,
{
    if w == 0 {
        lemma_pow2_zero();
    } else {
        lemma_bits_len(w / 2);
        lemma_pow2_unfold(bits(w).len());
        if w >= 2 {
            lemma_pow2_unfold((bits(w).len() - 1) as nat);
        } else {
            assert(bits(w / 2).len() == 0);
            lemma_pow2_zero();
        }
    }
}

/// The value of two strings joined: the first is shifted by the length of the second.
pub proof fn lemma_value_concat(a: Seq<bool>, b: Seq<bool>)
    ensures
        value(a + b) == value(a) * pow2(b.len()) + value(b),
    decreases b.len(),
{
    if b.len() == 0 {
        lemma_pow2_zero();
        assert(a + b =~= a);
        assert(value(a) * 1 == value(a)) by (nonlinear_arith);
    } else {
        lemma_value_concat(a, b.drop_last());
        lemma_pow2_unfold(b.len());
        assert((a + b).drop_last() =~= a + b.drop_last());
        let x = value(a);
        let p = pow2((b.len() - 1) as nat);
        assert(2 * (x * p) == x * (2 * p)) by (nonlinear_arith);
    }
}

/// The height of two strings joined is the sum of their heights.
pub proof fn lemma_height_concat(a: Seq<bool>, b: Seq<bool>)
    ensures
        height(a + b) == height(a) + height(b),
    decreases b.len(),
{
    if b.len() == 0 {
        assert(a + b =~= a);
    } else {
        lemma_height_concat(a, b.drop_last());
        assert((a + b).drop_last() =~= a + b.drop_last());
    }
}

/// Two strings joined stay up exactly when the first does and the second does from where
/// the first ends.
pub proof fn lemma_stays_up_concat(above: int, a: Seq<bool>, b: Seq<bool>)
    ensures
        stays_up(above, a + b) <==> stays_up(above, a) && stays_up(above + height(a), b),
{
    let s = a + b;
    if stays_up(above, s) {
        assert forall|k: int| 0 <= k <= a.len() implies above + height(#[trigger] a.take(k))
            >= 0 by {
            assert(s.take(k) =~= a.take(k));
        }
        assert forall|k: int| 0 <= k <= b.len() implies above + height(a) + height(
            #[trigger] b.take(k),
        ) >= 0 by {
            assert(s.take(a.len() + k) =~= a + b.take(k));
            lemma_height_concat(a, b.take(k));
        }
    }
    if stays_up(above, a) && stays_up(above + height(a), b) {
        assert forall|k: int| 0 <= k <= s.len() implies above + height(#[trigger] s.take(k))
            >= 0 by {
            if k <= a.len() {
                assert(s.take(k) =~= a.take(k));
            } else {
                assert(s.take(k) =~= a + b.take(k - a.len()));
                lemma_height_concat(a, b.take(k - a.len()));
            }
        }
    }
}

/// Strings of equal length that denote the same number are equal.
pub proof fn lemma_value_injective(a: Seq<bool>, b: Seq<bool>)
    requires
        a.len() == b.len(),
        value(a) == value(b),
    ensures
        a == b,
    decreases a.len(),
{
    if a.len() > 0 {
        lemma_value_injective(a.drop_last(), b.drop_last());
        assert(a =~= a.drop_last().push(a.last()));
        assert(b =~= b.drop_last().push(b.last()));
    } else {
        assert(a =~= b);
    }
}

/// The number of ones in `s`.
pub open spec fn count_ones(s: Seq<bool>) -> nat
    decreases s.len(),
{
    if s.len() == 0 {
        0
    } else {
        count_ones(s.drop_last()) + if s.last() { 1nat } else { 0nat }
    }
}

/// The height of a string in terms of its ones: each digit that is not a one is a zero.
pub proof fn lemma_height_counts(s: Seq<bool>)
    ensures
        count_ones(s) <= s.len(),
        height(s) == 2 * count_ones(s) - s.len(),
    decreases s.len(),
{
    if s.len() > 0 {
        lemma_height_counts(s.drop_last());
    }
}

/// A digit more at the end doubles the value and adds the digit; the height moves by one.
pub proof fn lemma_push(s: Seq<bool>, d: bool)
    ensures
        value(s.push(d)) == 2 * value(s) + if d { 1nat } else { 0nat },
        height(s.push(d)) == height(s) + if d { 1int } else { -1int },
        count_ones(s.push(d)) == count_ones(s) + if d { 1nat } else { 0nat },
{
    assert(s.push(d).drop_last() =~= s);
}

/// `n` copies of the digit `d`.
pub open spec fn repeat(d: bool, n: nat) -> Seq<bool> {
    Seq::new(n, |i: int| d)
}

/// The digits one and zero in turn, `k` times.
pub open spec fn alternating(k: nat) -> Seq<bool> {
    Seq::new(2 * k, |i: int| i % 2 == 0)
}

/// The number of the word `1010...10` of semilength `n`.
pub open spec fn minimal_word(n: nat) -> nat
    decreases n,
{
    if n == 0 {
        0
    } else {
        4 * minimal_word((n - 1) as nat) + 2
    }
}

/// The number of the word `11...100...0` of semilength `n`.
pub open spec fn maximal_word(n: nat) -> nat {
    ((pow2(n) - 1) * pow2(n)) as nat
}

/// A run of `n` zeros: its value, its height, its ones.
pub proof fn lemma_zeros(n: nat)
    ensures
        value(repeat(false, n)) == 0,
        height(repeat(false, n)) == -n,
        count_ones(repeat(false, n)) == 0,
    decreases n,
{
    if n > 0 {
        lemma_zeros((n - 1) as nat);
        assert(repeat(false, n).drop_last() =~= repeat(false, (n - 1) as nat));
    }
}

/// A run of `n` ones: its value, its height, its ones.
pub proof fn lemma_ones(n: nat)
    ensures
        value(repeat(true, n)) == pow2(n) - 1,
        height(repeat(true, n)) == n,
        count_ones(repeat(true, n)) == n,
    decreases n,
{
    if n > 0 {
        lemma_ones((n - 1) as nat);
        lemma_pow2_unfold(n);
        assert(repeat(true, n).drop_last() =~= repeat(true, (n - 1) as nat));
    } else {
        lemma_pow2_zero();
    }
}

/// Ones and zeros in turn, `k` times: the value, in the recursive and in the closed form,
/// the height and the ones.
pub proof fn lemma_alternating(k: nat)
    ensures
        value(alternating(k)) == minimal_word(k),
        height(alternating(k)) == 0,
        count_ones(alternating(k)) == k,
        3 * minimal_word(k) + 2 == 2 * pow2(2 * k),
    decreases k,
{
    if k > 0 {
        let s = alternating(k);
        lemma_alternating((k - 1) as nat);
        lemma_pow2_unfold(2 * k);
        lemma_pow2_unfold((2 * k - 1) as nat);
        let shorter = alternating((k - 1) as nat);
        assert(s =~= shorter.push(true).push(false));
        lemma_push(shorter, true);
        lemma_push(shorter.push(true), false);
    } else {
        lemma_pow2_zero();
    }
}

/// A run of zeros stays up exactly when it starts at least as high as it is long.
pub proof fn lemma_zeros_stay_up(above: int, n: nat)
    ensures
        stays_up(above, repeat(false, n)) <==> above >= n,
{
    let s = repeat(false, n);
    if stays_up(above, s) {
        assert(s.take(n as int) =~= s);
        lemma_zeros(n);
    }
    if above >= n {
        assert forall|k: int| 0 <= k <= s.len() implies above + height(#[trigger] s.take(k))
            >= 0 by {
            assert(s.take(k) =~= repeat(false, k as nat));
            lemma_zeros(k as nat);
        }
    }
}

/// A run of ones stays up exactly when it starts on or above the ground.
pub proof fn lemma_ones_stay_up(above: int, n: nat)
    ensures
        stays_up(above, repeat(true, n)) <==> above >= 0,
{
    let s = repeat(true, n);
    if stays_up(above, s) {
        assert(s.take(0) =~= Seq::<bool>::empty());
    }
    if above >= 0 {
        assert forall|k: int| 0 <= k <= s.len() implies above + height(#[trigger] s.take(k))
            >= 0 by {
            assert(s.take(k) =~= repeat(true, k as nat));
            lemma_ones(k as nat);
        }
    }
}

/// Ones and zeros in turn stay up exactly when they start on or above the ground.
pub proof fn lemma_alternating_stays_up(above: int, k: nat)
    ensures
        stays_up(above, alternating(k)) <==> above >= 0,
{
    let s = alternating(k);
    if stays_up(above, s) {
        assert(s.take(0) =~= Seq::<bool>::empty());
    }
    if above >= 0 {
        assert forall|j: int| 0 <= j <= s.len() implies above + height(#[trigger] s.take(j))
            >= 0 by {
            let pairs = (j / 2) as nat;
            lemma_alternating(pairs);
            if j % 2 == 0 {
                assert(s.take(j) =~= alternating(pairs));
            } else {
                assert(s.take(j).drop_last() =~= alternating(pairs));
                assert(s.take(j).last());
            }
        }
    }
}

/// No string with `count_ones(s)` ones denotes more than the one that has them all in front.
pub proof fn lemma_value_max(s: Seq<bool>)
    ensures
        count_ones(s) <= s.len(),
        value(s) <= (pow2(count_ones(s)) - 1) * pow2((s.len() - count_ones(s)) as nat),
    decreases s.len(),
{
    lemma_height_counts(s);
    if s.len() == 0 {
        lemma_pow2_zero();
    } else {
        let front = s.drop_last();
        lemma_value_max(front);
        lemma_height_counts(front);
        let o = count_ones(front);
        let z = (front.len() - o) as nat;
        let po = pow2(o) as int;
        let pz = pow2(z) as int;
        let v = value(front) as int;
        assert(v <= (po - 1) * pz);
        lemma_pow2_pos(z);
        if s.last() {
            lemma_pow2_unfold(o + 1);
            assert(2 * v + 1 <= (2 * po - 1) * pz) by (nonlinear_arith)
                requires
                    v <= (po - 1) * pz,
                    pz >= 1,
            ;
        } else {
            lemma_pow2_unfold(z + 1);
            assert(2 * v <= (po - 1) * (2 * pz)) by (nonlinear_arith)
                requires
                    v <= (po - 1) * pz,
            ;
        }
    }
}

/// Of the strings that start `above` the ground, stay up and end on the ground, none denotes
/// less than the one that goes straight down and then takes ones and zeros in turn.
pub proof fn lemma_least_completion(above: nat, k: nat, s: Seq<bool>)
    requires
        s.len() == above + 2 * k,
        stays_up(above as int, s),
        above + height(s) == 0,
    ensures
        value(s) >= minimal_word(k),
    decreases s.len(),
{
    if k > 0 {
        let first = seq![s[0]];
        let rest = s.drop_first();
        assert(s =~= first + rest);
        assert(first =~= Seq::<bool>::empty().push(s[0]));
        lemma_push(Seq::<bool>::empty(), s[0]);
        lemma_value_concat(first, rest);
        lemma_height_concat(first, rest);
        lemma_stays_up_concat(above as int, first, rest);
        lemma_alternating(k);
        lemma_alternating((k - 1) as nat);
        lemma_pow2_unfold(2 * k);
        lemma_pow2_unfold((2 * k - 1) as nat);
        assert(first.take(1) =~= first);
        if s[0] {
            assert(value(s) == 1 * pow2(rest.len()) + value(rest));
            if above == 0 {
                lemma_least_completion(1, (k - 1) as nat, rest);
                assert(rest.len() == 2 * k - 1);
            } else {
                if rest.len() > 2 * k {
                    vstd::arithmetic::power2::lemma_pow2_strictly_increases(2 * k, rest.len());
                }
            }
        } else {
            assert(above > 0);
            assert(value(s) == 0 * pow2(rest.len()) + value(rest));
            lemma_least_completion((above - 1) as nat, k, rest);
        }
    }
}

/// The larger of two numbers has at least as many digits.
pub proof fn lemma_bits_len_monotone(v: nat, w: nat)
    requires
        v <= w,
    ensures
        bits(v).len() <= bits(w).len(),
    decreases w,
{
    if v > 0 {
        lemma_bits_len_monotone(v / 2, w / 2);
    }
}

/// A Dyck word of semilength `n` has `n` ones among its `2n` digits.
pub proof fn lemma_dyck_word_counts(w: nat, n: nat)
    requires
        is_dyck_word_of(w, n),
    ensures
        count_ones(bits(w)) == n,
        bits(w).len() - count_ones(bits(w)) == n,
{
    lemma_height_counts(bits(w));
}

/// The word `1010...10` is a Dyck word, and no Dyck word of its semilength is smaller.
pub proof fn lemma_minimal_word(n: nat)
    ensures
        bits(minimal_word(n)) == alternating(n),
        bits(minimal_word(n)).len() == 2 * n,
        count_ones(bits(minimal_word(n))) == n,
        is_dyck_word_of(minimal_word(n), n),
        forall|v: nat| is_dyck_word_of(v, n) ==> minimal_word(n) <= v,
{
    let s = alternating(n);
    lemma_alternating(n);
    lemma_alternating_stays_up(0, n);
    lemma_bits_of_value(s);
    assert forall|v: nat| is_dyck_word_of(v, n) implies minimal_word(n) <= v by {
        lemma_least_completion(0, n, bits(v));
        lemma_value_of_bits(v);
    }
}

/// The word `11...100...0` is a Dyck word, and no Dyck word of its semilength is larger.
pub proof fn lemma_maximal_word(n: nat)
    ensures
        bits(maximal_word(n)) == repeat(true, n) + repeat(false, n),
        is_dyck_word_of(maximal_word(n), n),
        forall|v: nat| is_dyck_word_of(v, n) ==> v <= maximal_word(n),
{
    let s = repeat(true, n) + repeat(false, n);
    lemma_ones(n);
    lemma_zeros(n);
    lemma_value_concat(repeat(true, n), repeat(false, n));
    lemma_height_concat(repeat(true, n), repeat(false, n));
    lemma_stays_up_concat(0, repeat(true, n), repeat(false, n));
    lemma_ones_stay_up(0, n);
    lemma_zeros_stay_up(n as int, n);
    lemma_pow2_pos(n);
    assert(value(s) == maximal_word(n));
    lemma_bits_of_value(s);
    assert forall|v: nat| is_dyck_word_of(v, n) implies v <= maximal_word(n) by {
        lemma_dyck_word_counts(v, n);
        lemma_value_max(bits(v));
        lemma_value_of_bits(v);
    }
}

} // verus!
