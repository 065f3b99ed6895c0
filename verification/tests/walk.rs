use dyck::{
    binary_string, catalan_number, minimal_dyck_word, next_dyck_word_bin, parse_binary_string,
    Enumeration, MAX_SEMILENGTH,
};

fn is_balanced(w: u64, n: u64) -> bool {
    let mut height: i64 = 0;
    for i in (0..2 * n).rev() {
        height += if (w >> i) & 1 == 1 { 1 } else { -1 };
        if height < 0 {
            return false;
        }
    }
    height == 0
}

fn walk(n: u64) -> Vec<u64> {
    let mut walk = Enumeration::new(n);
    let mut words = vec![walk.word()];
    while walk.remaining() > 0 {
        walk.advance();
        words.push(walk.word());
    }
    words
}

#[test]
fn next_word_of_semilength_two() {
    assert_eq!(next_dyck_word_bin(0b1010), 0b1100);
}

#[test]
fn next_words_of_semilength_three() {
    assert_eq!(next_dyck_word_bin(0b101010), 0b101100);
    assert_eq!(next_dyck_word_bin(0b101100), 0b110010);
    assert_eq!(next_dyck_word_bin(0b110010), 0b110100);
    assert_eq!(next_dyck_word_bin(0b110100), 0b111000);
}

#[test]
fn next_word_moves_a_long_run_of_ones() {
    assert_eq!(next_dyck_word_bin(0b10111000), 0b11001010);
    assert_eq!(next_dyck_word_bin(0b1100111000), 0b1101001010);
}

#[test]
fn next_word_at_the_full_width() {
    assert_eq!(next_dyck_word_bin(0xaaaa_aaaa_aaaa_aaaa), 0xaaaa_aaaa_aaaa_aaac);
    assert_eq!(next_dyck_word_bin(0xbfff_ffff_8000_0000), 0xcaaa_aaaa_aaaa_aaaa);
    assert_eq!(next_dyck_word_bin(0xffff_fffe_8000_0000), 0xffff_ffff_0000_0000);
}

#[test]
fn next_word_is_the_same_on_every_call() {
    for w in [0b1010u64, 0b101100, 0b10111000, 0xaaaa_aaaa_aaaa_aaaa] {
        assert_eq!(next_dyck_word_bin(w), next_dyck_word_bin(w));
    }
}

#[test]
fn semilength_zero_is_one_empty_word() {
    assert_eq!(catalan_number(0), 1);
    assert_eq!(minimal_dyck_word(0), "0b");
    let walk = Enumeration::new(0);
    assert_eq!(walk.semilength(), 0);
    assert_eq!(walk.remaining(), 0);
    assert_eq!(walk.word(), 0);
    assert_eq!(walk.text(), "0b");
}

#[test]
fn semilength_one_is_one_word() {
    let walk = Enumeration::new(1);
    assert_eq!(walk.remaining(), 0);
    assert_eq!(walk.word(), 0b10);
    assert_eq!(walk.text(), "0b10");
}

#[test]
fn words_of_semilength_three() {
    assert_eq!(catalan_number(3), 5);
    let mut walk = Enumeration::new(3);
    let mut lines = vec![walk.text()];
    while walk.remaining() > 0 {
        walk.advance();
        lines.push(walk.text());
    }
    assert_eq!(lines, vec!["0b101010", "0b101100", "0b110010", "0b110100", "0b111000"]);
    assert_eq!(self::walk(3), vec![42, 44, 50, 52, 56]);
}

#[test]
fn walk_by_text_as_a_driver_would() {
    // From each line to the next through its number, starting at the least word.
    let count = catalan_number(4);
    let mut line = minimal_dyck_word(4);
    let mut lines = vec![line.clone()];
    for _ in 1..count {
        let word = parse_binary_string(&line).unwrap();
        line = binary_string(next_dyck_word_bin(word));
        lines.push(line.clone());
    }
    assert_eq!(lines.len(), 14);
    assert_eq!(lines[0], "0b10101010");
    assert_eq!(lines[1], "0b10101100");
    assert_eq!(lines[13], "0b11110000");
    let mut walk = Enumeration::new(4);
    for (i, line) in lines.iter().enumerate() {
        assert_eq!(&walk.text(), line);
        if i + 1 < lines.len() {
            walk.advance();
        }
    }
}

#[test]
fn walk_counts_down_the_remaining_words() {
    let mut walk = Enumeration::new(5);
    let mut left = catalan_number(5) - 1;
    assert_eq!(walk.remaining(), left);
    while walk.remaining() > 0 {
        walk.advance();
        left -= 1;
        assert_eq!(walk.remaining(), left);
        assert_eq!(walk.semilength(), 5);
    }
    assert_eq!(left, 0);
}

#[test]
fn walk_visits_as_many_words_as_the_catalan_number() {
    for n in 0..=12u64 {
        assert_eq!(walk(n).len() as u64, catalan_number(n));
    }
}

#[test]
fn walk_is_strictly_increasing_and_balanced() {
    for n in 0..=12u64 {
        let words = walk(n);
        for pair in words.windows(2) {
            assert!(pair[0] < pair[1]);
        }
        for w in words {
            assert!(is_balanced(w, n));
            if n > 0 {
                assert_eq!(64 - w.leading_zeros() as u64, 2 * n);
            }
        }
    }
}

#[test]
fn walk_starts_at_the_least_and_ends_at_the_largest_word() {
    for n in 0..=12u64 {
        let words = walk(n);
        assert_eq!(Ok(words[0]), parse_binary_string(&minimal_dyck_word(n)));
        assert_eq!(words[words.len() - 1], ((1u64 << n) - 1) << n);
    }
}

#[test]
fn walk_agrees_with_a_search_of_all_numbers() {
    for n in 0..=10u64 {
        let found: Vec<u64> = (0..1u64 << (2 * n)).filter(|w| is_balanced(*w, n)).collect();
        assert_eq!(walk(n), found);
    }
}

#[test]
fn walk_at_the_largest_semilength() {
    assert_eq!(MAX_SEMILENGTH, 32);
    let mut walk = Enumeration::new(32);
    assert_eq!(walk.word(), 0xaaaa_aaaa_aaaa_aaaa);
    assert_eq!(walk.remaining(), 55534064877048197);
    assert_eq!(walk.text(), format!("0b{}", "10".repeat(32)));
    walk.advance();
    assert_eq!(walk.word(), 0xaaaa_aaaa_aaaa_aaac);
    assert_eq!(walk.remaining(), 55534064877048196);
}
