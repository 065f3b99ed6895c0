//! The walk through all Dyck words of one semilength, in increasing order.

use crate::catalan::{catalan, catalan_number, lemma_catalan_monotone, lemma_catalan_exact};
use crate::count::{dyck_words, lemma_dyck_words_count};
use crate::successor::{
    is_next_dyck_word, lemma_successor_is_next, next_dyck_word_bin, successor,
};
use crate::text::{
    binary_string, lemma_text_round_trip, minimal_dyck_word, parse_binary_string, word_text,
};
use crate::word::{
    is_dyck_word_of, lemma_bits_len, lemma_maximal_word, lemma_minimal_word, maximal_word,
    minimal_word, semilength,
};
use vstd::arithmetic::power2::{lemma2_to64, lemma_pow2_strictly_increases};
use vstd::prelude::*;
use vstd::set_lib::lemma_subset_equality;

verus! {

/// The word that the walk through the Dyck words of semilength `n` reaches after `k` steps:
/// it starts at the least word and goes from each word to its successor.
pub open spec fn nth_dyck_word(n: nat, k: nat) -> nat
    decreases k,
{
    if k == 0 {
        minimal_word(n)
    } else {
        successor(nth_dyck_word(n, (k - 1) as nat))
    }
}

/// The Dyck words of semilength `n` that are not larger than `w`.
pub open spec fn words_up_to(n: nat, w: nat) -> Set<nat> {
    Set::new(|v: nat| is_dyck_word_of(v, n) && v <= w)
}

/// There is a Dyck word of every semilength.
pub proof fn lemma_catalan_positive(n: nat)
    ensures
        catalan(n) >= 1,
{
    lemma_catalan_exact(0);
    lemma_catalan_monotone(0, n);
}

/// After `k` steps, with `k` below the number of words, the walk stands on a Dyck word and
/// has been on each of the `k + 1` words up to it. Unless `k` is zero, the step before was
/// one from a word to the next Dyck word.
pub proof fn lemma_walk(n: nat, k: nat)
    requires
        k < catalan(n),
    ensures
        is_dyck_word_of(nth_dyck_word(n, k), n),
        words_up_to(n, nth_dyck_word(n, k)).finite(),
        words_up_to(n, nth_dyck_word(n, k)).len() == k + 1,
        forall|v: nat| #[trigger]
            words_up_to(n, nth_dyck_word(n, k)).contains(v) ==> exists|j: nat|
                j <= k && nth_dyck_word(n, j) == v,
        k > 0 ==> nth_dyck_word(n, (k - 1) as nat) != maximal_word(n) && is_next_dyck_word(
            nth_dyck_word(n, (k - 1) as nat),
            nth_dyck_word(n, k),
        ),
    decreases k,
{
    let here = nth_dyck_word(n, k);
    let passed = words_up_to(n, here);
    lemma_dyck_words_count(n);
    lemma_minimal_word(n);
    lemma_maximal_word(n);
    if k == 0 {
        assert(passed =~= Set::<nat>::empty().insert(here));
        assert forall|v: nat| #[trigger] passed.contains(v) implies exists|j: nat|
            j <= k && nth_dyck_word(n, j) == v by {
            assert(nth_dyck_word(n, 0) == v);
        }
    } else {
        let before = nth_dyck_word(n, (k - 1) as nat);
        let passed_before = words_up_to(n, before);
        lemma_walk(n, (k - 1) as nat);
        if before == maximal_word(n) {
            // Then every word would have been passed, and there are more than `k` words.
            assert(passed_before =~= dyck_words(n));
        }
        lemma_successor_is_next(before, n);
        assert(passed =~= passed_before.insert(here));
        assert forall|v: nat| #[trigger] passed.contains(v) implies exists|j: nat|
            j <= k && nth_dyck_word(n, j) == v by {
            if v == here {
                assert(nth_dyck_word(n, k) == v);
            } else {
                assert(passed_before.contains(v));
                let j = choose|j: nat| j <= k - 1 && nth_dyck_word(n, j) == v;
                assert(j <= k && nth_dyck_word(n, j) == v);
            }
        }
    }
}

/// The words of the walk grow from step to step.
pub proof fn lemma_walk_increases(n: nat, j: nat, k: nat)
    requires
        j < k < catalan(n),
    ensures
        nth_dyck_word(n, j) < nth_dyck_word(n, k),
    decreases k,
{
    lemma_walk(n, k);
    if j + 1 < k {
        lemma_walk_increases(n, j, (k - 1) as nat);
    }
}

/// The walk of `catalan(n) - 1` steps from the least word of semilength `n` visits the Dyck
/// words of that semilength, all of them, each once, in increasing order: every step before
/// the last starts from a word that is not the largest and leads to the next Dyck word, the
/// last word is the largest, and every Dyck word of semilength `n` is the word after some
/// number of steps.
pub proof fn lemma_enumeration_complete(n: nat)
    ensures
        catalan(n) >= 1,
        nth_dyck_word(n, 0) == minimal_word(n),
        nth_dyck_word(n, (catalan(n) - 1) as nat) == maximal_word(n),
        forall|k: nat| k < catalan(n) ==> is_dyck_word_of(#[trigger] nth_dyck_word(n, k), n),
        forall|k: nat|
            k + 1 < catalan(n) ==> #[trigger] nth_dyck_word(n, k) != maximal_word(n)
                && is_next_dyck_word(nth_dyck_word(n, k), nth_dyck_word(n, k + 1)),
        forall|j: nat, k: nat|
            j < k < catalan(n) ==> #[trigger] nth_dyck_word(n, j) < #[trigger] nth_dyck_word(n, k),
        forall|w: nat|
            is_dyck_word_of(w, n) ==> exists|k: nat|
                k < catalan(n) && #[trigger] nth_dyck_word(n, k) == w,
{
    let last = (catalan(n) - 1) as nat;
    let end = nth_dyck_word(n, last);
    lemma_catalan_positive(n);
    lemma_dyck_words_count(n);
    lemma_maximal_word(n);
    lemma_walk(n, last);
    lemma_subset_equality(words_up_to(n, end), dyck_words(n));
    assert(words_up_to(n, end).contains(maximal_word(n)));
    assert forall|k: nat| k < catalan(n) implies is_dyck_word_of(
        #[trigger] nth_dyck_word(n, k),
        n,
    ) by {
        lemma_walk(n, k);
    }
    assert forall|k: nat| k + 1 < catalan(n) implies #[trigger] nth_dyck_word(n, k)
        != maximal_word(n) && is_next_dyck_word(nth_dyck_word(n, k), nth_dyck_word(n, k + 1)) by {
        lemma_walk(n, k + 1);
        assert(nth_dyck_word(n, ((k + 1) - 1) as nat) == nth_dyck_word(n, k));
    }
    assert forall|j: nat, k: nat| j < k < catalan(n) implies #[trigger] nth_dyck_word(n, j)
        < #[trigger] nth_dyck_word(n, k) by {
        lemma_walk_increases(n, j, k);
    }
    assert forall|w: nat| is_dyck_word_of(w, n) implies exists|k: nat|
        k < catalan(n) && #[trigger] nth_dyck_word(n, k) == w by {
        assert(words_up_to(n, end).contains(w));
        let j = choose|j: nat| j <= last && nth_dyck_word(n, j) == w;
        assert(j < catalan(n) && nth_dyck_word(n, j) == w);
    }
}

/// The largest semilength whose words fit in 64 bits.
pub const MAX_SEMILENGTH: u64 = 32;

/// A Dyck word of a semilength up to `MAX_SEMILENGTH` fits in 64 bits.
pub proof fn lemma_word_in_range(w: nat, n: nat)
    requires
        is_dyck_word_of(w, n),
        n <= MAX_SEMILENGTH,
    ensures
        w <= u64::MAX,
        semilength(w) == n,
{
    lemma_bits_len(w);
    lemma2_to64();
    if 2 * n < 64 {
        lemma_pow2_strictly_increases(2 * n, 64);
    }
}

/// Where a walk stands: the semilength of its words and the number of steps taken.
pub struct Place {
    /// The semilength of the words of the walk.
    pub semilength: nat,
    /// The number of steps taken from the least word.
    pub steps: nat,
}

impl Place {
    /// The word at this place.
    pub open spec fn word(self) -> nat {
        nth_dyck_word(self.semilength, self.steps)
    }

    /// The number of words after this place.
    pub open spec fn remaining(self) -> int {
        catalan(self.semilength) - 1 - self.steps
    }
}

/// A walk through the Dyck words of one semilength, from the least to the largest.
///
/// It holds the word it stands on and the number of words still to come, and never
/// stands anywhere but on one of the words of its semilength.
pub struct Enumeration {
    semilength: u64,
    word: u64,
    remaining: u64,
}

impl View for Enumeration {
    type V = Place;

    /// The place of the walk: the steps taken are the words that are no longer to come.
    closed spec fn view(&self) -> Place {
        Place {
            semilength: self.semilength as nat,
            steps: (catalan(self.semilength as nat) - 1 - self.remaining) as nat,
        }
    }
}

impl Enumeration {
    /// The walk stands on the word of its place, and its place is one of the walk.
    #[verifier::type_invariant]
    spec fn inv(self) -> bool {
        &&& self.semilength <= MAX_SEMILENGTH
        &&& self.remaining < catalan(self.semilength as nat)
        &&& self.word == self@.word()
    }

    /// A walk through the words of semilength `n`, on the least of them.
    pub fn new(n: u64) -> (walk: Enumeration)
        requires
            n <= MAX_SEMILENGTH,
        ensures
            walk@ == (Place { semilength: n as nat, steps: 0 }),
    {
        proof {
            lemma_minimal_word(n as nat);
            lemma_word_in_range(minimal_word(n as nat), n as nat);
            lemma_text_round_trip(minimal_word(n as nat) as u64);
            lemma_catalan_positive(n as nat);
        }
        let text: String = minimal_dyck_word(n);
        let word: u64 = parse_binary_string(text.as_str()).unwrap();
        let remaining: u64 = catalan_number(n) - 1;
        Enumeration { semilength: n, word, remaining }
    }

    /// The semilength of the words of the walk.
    pub fn semilength(&self) -> (n: u64)
        ensures
            n == self@.semilength,
            n <= MAX_SEMILENGTH,
    {
        proof {
            use_type_invariant(self);
        }
        self.semilength
    }

    /// The word that the walk stands on.
    pub fn word(&self) -> (w: u64)
        ensures
            w == self@.word(),
            self@.steps < catalan(self@.semilength),
            is_dyck_word_of(w as nat, self@.semilength),
    {
        proof {
            use_type_invariant(self);
            lemma_walk(self@.semilength, self@.steps);
        }
        self.word
    }

    /// The number of words that the walk has not reached yet.
    pub fn remaining(&self) -> (count: u64)
        ensures
            count == self@.remaining(),
    {
        proof {
            use_type_invariant(self);
        }
        self.remaining
    }

    /// The text of the word that the walk stands on.
    pub fn text(&self) -> (text: String)
        ensures
            text@ == word_text(self@.word()),
    {
        proof {
            use_type_invariant(self);
        }
        binary_string(self.word as u128)
    }

    /// One step, to the next Dyck word. There must be a word left to step to.
    pub fn advance(&mut self)
        requires
            old(self)@.remaining() > 0,
        ensures
            final(self)@ == (Place {
                semilength: old(self)@.semilength,
                steps: old(self)@.steps + 1,
            }),
    {
        proof {
            use_type_invariant(&*self);
            lemma_enumeration_complete(self.semilength as nat);
            lemma_word_in_range(self.word as nat, self.semilength as nat);
        }
        let next: u128 = next_dyck_word_bin(self.word);
        *self = Enumeration {
            semilength: self.semilength,
            word: next as u64,
            remaining: self.remaining - 1,
        };
    }
}

} // verus!
