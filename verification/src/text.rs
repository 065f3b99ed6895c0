//! Words as text: the prefix `0b` and the binary digits, most significant first.

use crate::word::{
    alternating, bits, lemma_minimal_word, lemma_push, lemma_value_of_bits, minimal_word, value,
};
use itertools::Itertools;
use vstd::arithmetic::power2::pow2;
use vstd::prelude::*;
use vstd::std_specs::iter::IteratorSpec;
use vstd::string::StringExecFns;

verus! {

/// Why a text is not a number in binary.
#[derive(Debug, Clone, Copy, PartialEq, Eq)]
pub enum ParseError {
    /// The text holds this character where a binary digit was expected.
    InvalidDigit(char),
}

/// The character for a binary digit.
pub open spec fn digit_char(d: bool) -> char {
    if d {
        '1'
    } else {
        '0'
    }
}

/// A digit string as characters.
pub open spec fn digits_text(s: Seq<bool>) -> Seq<char> {
    Seq::new(s.len(), |i: int| digit_char(s[i]))
}

/// The text of a number: `0b`, then its binary digits without leading zeros.
pub open spec fn word_text(w: nat) -> Seq<char> {
    seq!['0', 'b'] + digits_text(bits(w))
}

/// `c` is one of the two binary digits.
pub open spec fn is_binary_digit(c: char) -> bool {
    c == '0' || c == '1'
}

/// What follows the first two characters of a text.
pub open spec fn written_digits(text: Seq<char>) -> Seq<char> {
    if text.len() <= 2 {
        Seq::empty()
    } else {
        text.skip(2)
    }
}

/// Characters as a digit string: `1` is the digit one, any other character the digit zero.
pub open spec fn read_digits(d: Seq<char>) -> Seq<bool> {
    Seq::new(d.len(), |i: int| d[i] == '1')
}

/// The first character of `d` that is no binary digit, if there is one.
pub open spec fn first_bad_digit(d: Seq<char>) -> Option<char>
    decreases d.len(),
{
    if d.len() == 0 {
        None
    } else if first_bad_digit(d.drop_last()) is Some {
        first_bad_digit(d.drop_last())
    } else if is_binary_digit(d.last()) {
        None
    } else {
        Some(d.last())
    }
}

/// What parsing makes of a text: the first two characters are passed over unread; the
/// rest are binary digits, of which the low 64 count.
pub open spec fn parsed(text: Seq<char>) -> Result<u64, ParseError> {
    let d = written_digits(text);
    match first_bad_digit(d) {
        Some(c) => Err(ParseError::InvalidDigit(c)),
        None => Ok((value(read_digits(d)) % pow2(64)) as u64),
    }
}

/// Every character of `d` is a binary digit.
pub open spec fn all_binary(d: Seq<char>) -> bool {
    forall|i: int| 0 <= i < d.len() ==> is_binary_digit(#[trigger] d[i])
}

/// The character at `i` is the first of `d` that is no binary digit.
pub open spec fn first_bad_at(d: Seq<char>, i: int) -> bool {
    0 <= i < d.len() && !is_binary_digit(d[i]) && all_binary(d.take(i))
}

/// `first_bad_digit` finds nothing exactly when every character is a binary digit, and
/// what it finds is the first character that is none.
pub proof fn lemma_first_bad_digit(d: Seq<char>)
    ensures
        first_bad_digit(d) is None <==> all_binary(d),
        first_bad_digit(d) is Some ==> exists|i: int|
            #[trigger] first_bad_at(d, i) && first_bad_digit(d) == Some(d[i]),
    decreases d.len(),
{
    if d.len() > 0 {
        let front = d.drop_last();
        lemma_first_bad_digit(front);
        if first_bad_digit(front) is Some {
            let i = choose|i: int|
                #[trigger] first_bad_at(front, i) && first_bad_digit(front) == Some(front[i]);
            assert(d.take(i) =~= front.take(i));
            assert(first_bad_at(d, i));
            assert(!is_binary_digit(d[i]));
        } else {
            assert(forall|i: int| 0 <= i < front.len() ==> front[i] == d[i]);
            if !is_binary_digit(d.last()) {
                assert(d.take(d.len() - 1) =~= front);
                assert(first_bad_at(d, d.len() - 1));
            }
        }
    }
}

/// One more digit at the end of a digit string, in arithmetic modulo `2^64`.
proof fn lemma_shift_in(so_far: nat, low: u64, d: bool, next: u64)
    requires
        low == so_far % pow2(64),
        next == (low << 1) + if d { 1int } else { 0int },
    ensures
        next == (2 * so_far + if d { 1nat } else { 0nat }) % pow2(64),
{
    vstd::arithmetic::power2::lemma2_to64();
    let m = 0x1_0000_0000_0000_0000int;
    assert(low << 1 == (2 * low) % 0x1_0000_0000_0000_0000) by (bit_vector);
    assert((low << 1) % 2 == 0) by (bit_vector);
    vstd::arithmetic::div_mod::lemma_mul_mod_noop_right(2, so_far as int, m);
    let bit = if d { 1int } else { 0int };
    vstd::arithmetic::div_mod::lemma_add_mod_noop_right(bit, 2 * (so_far as int), m);
    vstd::arithmetic::div_mod::lemma_small_mod(next as nat, m as nat);
}

/// Parses a text such as `0b10101010` to the number it denotes.
///
/// The first two characters are not looked at. Each character after them is a binary
/// digit, or the first that is none comes back as the error. Of more than 64 digits the
/// low 64 count.
pub fn parse_binary_string(binary_string: &str) -> (result: Result<u64, ParseError>)
    ensures
        result == parsed(binary_string@),
{
    broadcast use vstd::string::group_string_axioms;

    let mut chars = binary_string.chars();
    let _ = chars.next();
    let _ = chars.next();
    let ghost digits = written_digits(binary_string@);
    let ghost mut done: Seq<char> = Seq::empty();
    let mut result: u64 = 0;
    proof {
        assert(read_digits(done) =~= Seq::<bool>::empty());
        vstd::arithmetic::power2::lemma2_to64();
        assert(done + chars.remaining() =~= digits);
    }
    loop
        invariant
            digits == written_digits(binary_string@),
            done + chars.remaining() == digits,
            first_bad_digit(done) is None,
            result == value(read_digits(done)) % pow2(64),
            chars.decrease() is Some,
        decreases chars.decrease()->0,
    {
        match chars.next() {
            None => {
                assert(done =~= digits);
                return Ok(result);
            },
            Some(c) => {
                let ghost longer = done.push(c);
                proof {
                    assert(longer.drop_last() =~= done);
                    assert(longer + chars.remaining() =~= digits);
                    assert(read_digits(longer) =~= read_digits(done).push(c == '1'));
                    lemma_push(read_digits(done), c == '1');
                }
                match c {
                    '0' => {
                        let shifted: u64 = result << 1;
                        proof {
                            lemma_shift_in(value(read_digits(done)), result, false, shifted);
                        }
                        result = shifted;
                    },
                    '1' => {
                        let shifted: u64 = result << 1;
                        proof {
                            assert(shifted % 2 == 0) by (bit_vector)
                                requires
                                    shifted == result << 1,
                            ;
                            assert(shifted | 1 == shifted + 1) by (bit_vector)
                                requires
                                    shifted % 2 == 0,
                            ;
                            lemma_shift_in(
                                value(read_digits(done)),
                                result,
                                true,
                                (shifted | 1) as u64,
                            );
                        }
                        result = shifted | 1;
                    },
                    _ => {
                        proof {
                            lemma_bad_digit_found(done, chars.remaining(), c);
                        }
                        return Err(ParseError::InvalidDigit(c));
                    },
                }
                proof {
                    done = longer;
                }
            },
        }
    }
}

/// A first bad digit stays the first when more characters follow it.
proof fn lemma_bad_digit_found(done: Seq<char>, rest: Seq<char>, c: char)
    requires
        first_bad_digit(done) is None,
        !is_binary_digit(c),
    ensures
        first_bad_digit(done.push(c) + rest) == Some(c),
    decreases rest.len(),
{
    let found = done.push(c);
    assert(found.drop_last() =~= done);
    if rest.len() == 0 {
        assert(found + rest =~= found);
    } else {
        lemma_bad_digit_found(done, rest.drop_last(), c);
        assert((found + rest).drop_last() =~= found + rest.drop_last());
    }
}

/// Two sequences taken in turn, the first of `a` first; when one is used up, what is left
/// of the other follows.
pub open spec fn interleaved(a: Seq<char>, b: Seq<char>) -> Seq<char>
    decreases a.len() + b.len(),
{
    if a.len() == 0 {
        b
    } else {
        seq![a[0]] + interleaved(b, a.drop_first())
    }
}

/// `itertools::Itertools::interleave` on the characters of two vectors, collected into a
/// string. Not proved: the contract is taken from the crate.
///
/// The adaptor alternates elements from the two iterators, starting with the first, until
/// both have run out; once one has run out, it yields what is left of the other. This is
/// what `interleaved` says of the two sequences.
#[verifier::external_body]
fn interleave_chars(first: Vec<char>, second: Vec<char>) -> (merged: String)
    ensures
        merged@ == interleaved(first@, second@),
{
    first.into_iter().interleave(second).collect()
}

/// As many ones as zeros, interleaved, are ones and zeros in turn.
proof fn lemma_interleaved_runs(n: nat)
    ensures
        interleaved(Seq::new(n, |i: int| '1'), Seq::new(n, |i: int| '0')) == digits_text(
            alternating(n),
        ),
    decreases n,
{
    let ones = Seq::new(n, |i: int| '1');
    let zeros = Seq::new(n, |i: int| '0');
    if n == 0 {
        assert(zeros =~= digits_text(alternating(0)));
    } else {
        let m = (n - 1) as nat;
        let fewer_ones = Seq::new(m, |i: int| '1');
        let fewer_zeros = Seq::new(m, |i: int| '0');
        lemma_interleaved_runs(m);
        assert(ones.drop_first() =~= fewer_ones);
        assert(zeros.drop_first() =~= fewer_zeros);
        assert(interleaved(ones, zeros) == seq!['1'] + interleaved(zeros, fewer_ones));
        assert(interleaved(zeros, fewer_ones) == seq!['0'] + interleaved(fewer_ones, fewer_zeros));
        assert(seq!['1'] + (seq!['0'] + digits_text(alternating(m))) =~= digits_text(
            alternating(n),
        ));
    }
}

/// The text of the least Dyck word of semilength `n`: `0b`, then `10` taken `n` times.
///
/// The digits are laid out as `n` characters twice over, of four bytes each, and no
/// allocation may exceed `isize::MAX` bytes.
pub fn minimal_dyck_word(n: u64) -> (text: String)
    requires
        4 * n <= isize::MAX,
    ensures
        text@ == word_text(minimal_word(n as nat)),
        text@ == seq!['0', 'b'] + digits_text(alternating(n as nat)),
{
    let count: usize = n as usize;
    let zeros: Vec<char> = vec!['0'; count];
    let ones: Vec<char> = vec!['1'; count];
    proof {
        assert(zeros@ =~= Seq::new(n as nat, |i: int| '0'));
        assert(ones@ =~= Seq::new(n as nat, |i: int| '1'));
        lemma_interleaved_runs(n as nat);
        lemma_minimal_word(n as nat);
        reveal_strlit("0b");
        assert("0b"@ =~= seq!['0', 'b']);
    }
    let bin: String = interleave_chars(ones, zeros);
    "0b".to_owned().concat(bin.as_str())
}

/// The text of `w`: `0b`, then the binary digits of `w` without leading zeros, so that
/// zero has no digit.
pub fn binary_string(w: u128) -> (text: String)
    ensures
        text@ == word_text(w as nat),
{
    // The digits from the low end, then the text from the high end.
    let mut low_first: Vec<bool> = Vec::new();
    let mut rest: u128 = w;
    while rest != 0
        invariant
            bits(w as nat) == bits(rest as nat) + Seq::new(
                low_first.len() as nat,
                |j: int| low_first[low_first.len() - 1 - j],
            ),
        decreases rest,
    {
        let ghost before = low_first@;
        low_first.push(rest % 2 == 1);
        rest = rest / 2;
        proof {
            let after = low_first@;
            assert(bits(rest as nat).push(after.last()) + Seq::new(
                before.len(),
                |j: int| before[before.len() - 1 - j],
            ) =~= bits(rest as nat) + Seq::new(
                after.len(),
                |j: int| after[after.len() - 1 - j],
            ));
        }
    }
    let ghost digits = bits(w as nat);
    let count: usize = low_first.len();
    let mut text: String = "0b".to_owned();
    let mut i: usize = count;
    proof {
        reveal_strlit("0b");
        reveal_strlit("0");
        reveal_strlit("1");
        assert(digits =~= Seq::new(count as nat, |j: int| low_first[count - 1 - j]));
        assert(text@ =~= seq!['0', 'b'] + digits_text(digits.take(0)));
    }
    while i > 0
        invariant
            i <= count == low_first.len() == digits.len(),
            forall|j: int| 0 <= j < count ==> digits[j] == low_first[count - 1 - j],
            text@ == seq!['0', 'b'] + digits_text(digits.take(count - i)),
            "0"@ == seq!['0'],
            "1"@ == seq!['1'],
        decreases i,
    {
        i -= 1;
        if low_first[i] {
            text.append("1");
        } else {
            text.append("0");
        }
        proof {
            assert(text@ =~= seq!['0', 'b'] + digits_text(digits.take(count - i)));
        }
    }
    proof {
        assert(digits.take(count as int) =~= digits);
    }
    text
}

/// Parsing the text of a number of 64 bits gives the number back.
pub proof fn lemma_text_round_trip(w: u64)
    ensures
        parsed(word_text(w as nat)) == Ok::<u64, ParseError>(w),
{
    let s = bits(w as nat);
    let d = written_digits(word_text(w as nat));
    assert(d =~= digits_text(s));
    assert(all_binary(d));
    lemma_first_bad_digit(d);
    assert(read_digits(d) =~= s);
    lemma_value_of_bits(w as nat);
    vstd::arithmetic::power2::lemma2_to64();
    vstd::arithmetic::div_mod::lemma_small_mod(w as nat, pow2(64));
}

} // verus!
