//! The number of Dyck words of each semilength.

use crate::catalan::{ballot, catalan, lemma_catalan_exact};
use crate::word::{
    balanced, bits, count_ones, height, is_dyck_word_of, lemma_bits_of_value, lemma_height_counts,
    lemma_ones, lemma_ones_stay_up, lemma_push, lemma_value_injective, lemma_value_of_bits,
    repeat, stays_up, value,
};
use vstd::prelude::*;
use vstd::relations::injective_on;
use vstd::set_lib::{lemma_map_size, lemma_set_disjoint_lens};

verus! {

/// The digit strings of `ones` ones and `zeros` zeros in which no prefix holds more zeros
/// than ones.
pub open spec fn paths(ones: nat, zeros: nat) -> Set<Seq<bool>> {
    Set::new(|s: Seq<bool>| s.len() == ones + zeros && count_ones(s) == ones && stays_up(0, s))
}

/// The Dyck words of semilength `n`.
pub open spec fn dyck_words(n: nat) -> Set<nat> {
    Set::new(|w: nat| is_dyck_word_of(w, n))
}

/// A string that holds as many ones as digits is a run of ones.
proof fn lemma_all_ones(s: Seq<bool>)
    requires
        count_ones(s) == s.len(),
    ensures
        s == repeat(true, s.len()),
    decreases s.len(),
{
    if s.len() > 0 {
        lemma_height_counts(s.drop_last());
        lemma_all_ones(s.drop_last());
        assert(s =~= s.drop_last().push(s.last()));
    }
    assert(s =~= repeat(true, s.len()));
}

/// A string that stays up, with one more digit that leaves it on or above the ground,
/// stays up.
proof fn lemma_stays_up_push(s: Seq<bool>, d: bool)
    requires
        stays_up(0, s),
        height(s.push(d)) >= 0,
    ensures
        stays_up(0, s.push(d)),
{
    let longer = s.push(d);
    assert forall|k: int| 0 <= k <= longer.len() implies height(#[trigger] longer.take(k))
        >= 0 by {
        if k <= s.len() {
            assert(longer.take(k) =~= s.take(k));
        } else {
            assert(longer.take(k) =~= longer);
        }
    }
}

/// A string that stays up does so without its last digit.
proof fn lemma_stays_up_drop_last(s: Seq<bool>)
    requires
        stays_up(0, s),
        s.len() > 0,
    ensures
        stays_up(0, s.drop_last()),
{
    let shorter = s.drop_last();
    assert forall|k: int| 0 <= k <= shorter.len() implies height(#[trigger] shorter.take(k))
        >= 0 by {
        assert(shorter.take(k) =~= s.take(k));
    }
}

/// The ballot numbers count the strings that never hold more zeros than ones.
pub proof fn lemma_paths_count(ones: nat, zeros: nat)
    ensures
        paths(ones, zeros).finite(),
        paths(ones, zeros).len() == ballot(ones, zeros),
    decreases ones + zeros,
{
    let all = paths(ones, zeros);
    if zeros > ones {
        assert forall|s: Seq<bool>| !all.contains(s) by {
            if all.contains(s) {
                lemma_height_counts(s);
                assert(s.take(s.len() as int) =~= s);
            }
        }
        assert(all =~= Set::<Seq<bool>>::empty());
    } else if zeros == 0 {
        let run = repeat(true, ones);
        lemma_ones(ones);
        lemma_ones_stay_up(0, ones);
        assert forall|s: Seq<bool>| all.contains(s) implies s == run by {
            lemma_all_ones(s);
        }
        assert(all =~= Set::<Seq<bool>>::empty().insert(run));
    } else {
        let with_one = paths((ones - 1) as nat, zeros);
        let with_zero = paths(ones, (zeros - 1) as nat);
        let push_one = |s: Seq<bool>| s.push(true);
        let push_zero = |s: Seq<bool>| s.push(false);
        let ending_in_one = with_one.map(push_one);
        let ending_in_zero = with_zero.map(push_zero);
        lemma_paths_count((ones - 1) as nat, zeros);
        lemma_paths_count(ones, (zeros - 1) as nat);
        assert(injective_on(push_one, with_one)) by {
            assert forall|a: Seq<bool>, b: Seq<bool>| #[trigger]
                push_one(a) == #[trigger] push_one(b) implies a == b by {
                assert(a =~= a.push(true).drop_last());
                assert(b =~= b.push(true).drop_last());
            }
        }
        assert(injective_on(push_zero, with_zero)) by {
            assert forall|a: Seq<bool>, b: Seq<bool>| #[trigger]
                push_zero(a) == #[trigger] push_zero(b) implies a == b by {
                assert(a =~= a.push(false).drop_last());
                assert(b =~= b.push(false).drop_last());
            }
        }
        lemma_map_size(with_one, ending_in_one, push_one);
        lemma_map_size(with_zero, ending_in_zero, push_zero);
        assert forall|s: Seq<bool>| all.contains(s) <==> ending_in_one.contains(s)
            || ending_in_zero.contains(s) by {
            if all.contains(s) {
                let shorter = s.drop_last();
                assert(s =~= shorter.push(s.last()));
                lemma_stays_up_drop_last(s);
                if s.last() {
                    assert(with_one.contains(shorter) && s == push_one(shorter));
                } else {
                    assert(with_zero.contains(shorter) && s == push_zero(shorter));
                }
            }
            if ending_in_one.contains(s) {
                let shorter = choose|x: Seq<bool>| with_one.contains(x) && s == push_one(x);
                lemma_push(shorter, true);
                lemma_height_counts(s);
                lemma_stays_up_push(shorter, true);
            }
            if ending_in_zero.contains(s) {
                let shorter = choose|x: Seq<bool>| with_zero.contains(x) && s == push_zero(x);
                lemma_push(shorter, false);
                lemma_height_counts(s);
                lemma_stays_up_push(shorter, false);
            }
        }
        assert(all =~= ending_in_one + ending_in_zero);
        assert(ending_in_one.disjoint(ending_in_zero)) by {
            assert forall|s: Seq<bool>|
                !(ending_in_one.contains(s) && ending_in_zero.contains(s)) by {
                if ending_in_one.contains(s) && ending_in_zero.contains(s) {
                    let a = choose|x: Seq<bool>| with_one.contains(x) && s == push_one(x);
                    let b = choose|x: Seq<bool>| with_zero.contains(x) && s == push_zero(x);
                    assert(a.push(true).last() != b.push(false).last());
                }
            }
        }
        lemma_set_disjoint_lens(ending_in_one, ending_in_zero);
    }
}

/// The Catalan numbers count the Dyck words: there are `catalan(n)` of semilength `n`.
pub proof fn lemma_dyck_words_count(n: nat)
    ensures
        dyck_words(n).finite(),
        dyck_words(n).len() == catalan(n),
{
    let strings = paths(n, n);
    let words = dyck_words(n);
    let number = |s: Seq<bool>| value(s);
    lemma_paths_count(n, n);
    lemma_catalan_exact(n);
    assert(injective_on(number, strings)) by {
        assert forall|a: Seq<bool>, b: Seq<bool>|
            strings.contains(a) && strings.contains(b) && #[trigger] number(a) == #[trigger] number(
                b,
            ) implies a == b by {
            lemma_value_injective(a, b);
        }
    }
    assert forall|w: nat| words.contains(w) <==> strings.map(number).contains(w) by {
        if words.contains(w) {
            let s = bits(w);
            lemma_height_counts(s);
            lemma_value_of_bits(w);
            assert(strings.contains(s) && w == number(s));
        }
        if strings.map(number).contains(w) {
            let s = choose|x: Seq<bool>| strings.contains(x) && w == number(x);
            lemma_height_counts(s);
            assert(s.take(s.len() as int) =~= s);
            if s.len() > 0 {
                // The first digit is a one, or the string would start below the ground.
                let first = s.take(1);
                assert(first =~= Seq::<bool>::empty().push(s[0]));
                lemma_push(Seq::<bool>::empty(), s[0]);
            }
            lemma_bits_of_value(s);
            assert(balanced(s));
        }
    }
    assert(strings.map(number) =~= words);
    lemma_map_size(strings, words, number);
}

} // verus!
