use dyck::{binary_string, minimal_dyck_word, parse_binary_string, ParseError};

#[test]
fn minimal_word_of_semilength_zero_is_the_bare_prefix() {
    assert_eq!(minimal_dyck_word(0), "0b");
}

#[test]
fn minimal_word_alternates_ones_and_zeros() {
    assert_eq!(minimal_dyck_word(1), "0b10");
    assert_eq!(minimal_dyck_word(2), "0b1010");
    assert_eq!(minimal_dyck_word(3), "0b101010");
    assert_eq!(minimal_dyck_word(4), "0b10101010");
}

#[test]
fn minimal_word_has_as_many_ones_as_zeros() {
    for n in 0..40u64 {
        let text = minimal_dyck_word(n);
        let digits = &text[2..];
        assert_eq!(digits.len() as u64, 2 * n);
        assert_eq!(digits.chars().filter(|c| *c == '1').count() as u64, n);
        assert_eq!(digits.chars().filter(|c| *c == '0').count() as u64, n);
        assert_eq!(digits, "10".repeat(n as usize));
    }
}

#[test]
fn minimal_word_may_be_longer_than_a_machine_word() {
    let text = minimal_dyck_word(100);
    assert_eq!(text.len(), 202);
    assert!(text.starts_with("0b1010"));
    assert!(text.ends_with("1010"));
}

#[test]
fn parse_reads_binary_digits() {
    assert_eq!(parse_binary_string("0b101010"), Ok(42));
    assert_eq!(parse_binary_string("0b111000"), Ok(56));
    assert_eq!(parse_binary_string("0b0"), Ok(0));
    assert_eq!(parse_binary_string("0b1"), Ok(1));
    assert_eq!(parse_binary_string("0b0001"), Ok(1));
}

#[test]
fn parse_of_no_digits_is_zero() {
    assert_eq!(parse_binary_string("0b"), Ok(0));
    assert_eq!(parse_binary_string("0"), Ok(0));
    assert_eq!(parse_binary_string(""), Ok(0));
}

#[test]
fn parse_does_not_look_at_the_first_two_characters() {
    assert_eq!(parse_binary_string("xy11"), Ok(3));
    assert_eq!(parse_binary_string("1111"), Ok(3));
    assert_eq!(parse_binary_string("é≠101"), Ok(5));
}

#[test]
fn parse_reports_the_invalid_digit() {
    assert_eq!(parse_binary_string("0b102"), Err(ParseError::InvalidDigit('2')));
    assert_eq!(parse_binary_string("0b10 1"), Err(ParseError::InvalidDigit(' ')));
    assert_eq!(parse_binary_string("0b0b"), Err(ParseError::InvalidDigit('b')));
    assert_eq!(parse_binary_string("0bé"), Err(ParseError::InvalidDigit('é')));
}

#[test]
fn parse_reports_the_first_of_several_invalid_digits() {
    assert_eq!(parse_binary_string("0b1a0z"), Err(ParseError::InvalidDigit('a')));
    assert_eq!(parse_binary_string("0bzy"), Err(ParseError::InvalidDigit('z')));
}

#[test]
fn parse_keeps_the_low_64_digits() {
    let ones = format!("0b{}", "1".repeat(64));
    assert_eq!(parse_binary_string(&ones), Ok(u64::MAX));
    let more_ones = format!("0b{}", "1".repeat(70));
    assert_eq!(parse_binary_string(&more_ones), Ok(u64::MAX));
    let one_and_zeros = format!("0b1{}", "0".repeat(64));
    assert_eq!(parse_binary_string(&one_and_zeros), Ok(0));
    let high_and_low = format!("0b1{}1", "0".repeat(63));
    assert_eq!(parse_binary_string(&high_and_low), Ok(1));
}

#[test]
fn binary_string_writes_the_digits_after_the_prefix() {
    assert_eq!(binary_string(42), "0b101010");
    assert_eq!(binary_string(56), "0b111000");
    assert_eq!(binary_string(1), "0b1");
    assert_eq!(binary_string(2), "0b10");
}

#[test]
fn binary_string_of_zero_has_no_digit() {
    assert_eq!(binary_string(0), "0b");
}

#[test]
fn binary_string_of_wide_numbers() {
    assert_eq!(binary_string(u64::MAX as u128), format!("0b{}", "1".repeat(64)));
    assert_eq!(binary_string(u128::MAX), format!("0b{}", "1".repeat(128)));
    assert_eq!(binary_string(1u128 << 100), format!("0b1{}", "0".repeat(100)));
}

#[test]
fn binary_string_agrees_with_the_standard_formatting() {
    for w in 1..2000u128 {
        assert_eq!(binary_string(w), format!("{:#b}", w));
    }
}

#[test]
fn text_round_trip() {
    for w in 0..5000u64 {
        assert_eq!(parse_binary_string(&binary_string(w as u128)), Ok(w));
    }
    for w in [u64::MAX, u64::MAX - 1, 1 << 63, 0xaaaa_aaaa_aaaa_aaaa, 0xffff_ffff_0000_0000] {
        assert_eq!(parse_binary_string(&binary_string(w as u128)), Ok(w));
    }
}

#[test]
fn minimal_word_parses_to_the_alternating_number() {
    assert_eq!(parse_binary_string(&minimal_dyck_word(0)), Ok(0));
    assert_eq!(parse_binary_string(&minimal_dyck_word(3)), Ok(42));
    assert_eq!(parse_binary_string(&minimal_dyck_word(32)), Ok(0xaaaa_aaaa_aaaa_aaaa));
}
