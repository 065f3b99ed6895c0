use dyck::{catalan_number, MAX_CATALAN_INDEX};

#[test]
fn check_catalan_numbers() {
    let c_5 = catalan_number(5);
    assert_eq!(c_5, 42);
}

#[test]
fn catalan_base_cases() {
    assert_eq!(catalan_number(0), 1);
    assert_eq!(catalan_number(1), 1);
}

#[test]
fn catalan_small_values() {
    let expected: [u64; 11] = [1, 1, 2, 5, 14, 42, 132, 429, 1430, 4862, 16796];
    for (n, value) in expected.iter().enumerate() {
        assert_eq!(catalan_number(n as u64), *value);
    }
}

#[test]
fn catalan_follows_the_closed_form() {
    // (n + 2) C(n + 1) == (4n + 2) C(n), which is the closed form step by step.
    for n in 0..MAX_CATALAN_INDEX {
        let here = catalan_number(n) as u128;
        let next = catalan_number(n + 1) as u128;
        assert_eq!((n as u128 + 2) * next, (4 * n as u128 + 2) * here);
    }
}

#[test]
fn catalan_follows_the_recurrence() {
    for n in 0..20u64 {
        let mut sum: u64 = 0;
        for j in 0..=n {
            sum += catalan_number(j) * catalan_number(n - j);
        }
        assert_eq!(catalan_number(n + 1), sum);
    }
}

#[test]
fn catalan_at_the_limit() {
    assert_eq!(MAX_CATALAN_INDEX, 36);
    assert_eq!(catalan_number(32), 55534064877048198);
    assert_eq!(catalan_number(35), 3116285494907301262);
    assert_eq!(catalan_number(36), 11959798385860453492);
}
