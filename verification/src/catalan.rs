//! The Catalan numbers.

use crate::sums::{
    lemma_sum_congruence, lemma_sum_head, lemma_sum_linear, lemma_sum_reverse, sum,
};
use vstd::prelude::*;

verus! {

/// `n!`.
pub open spec fn factorial(n: nat) -> nat
    decreases n,
{
    if n == 0 {
        1
    } else {
        n * factorial((n - 1) as nat)
    }
}

/// The `n`-th Catalan number, `(2n)! / (n! (n + 1)!)`.
pub open spec fn catalan(n: nat) -> nat {
    factorial(2 * n) / (factorial(n) * factorial(n + 1))
}

/// The number of strings of `ones` ones and `zeros` zeros in which no prefix
/// holds more zeros than ones, counted by the last digit of the string.
pub open spec fn ballot(ones: nat, zeros: nat) -> nat
    decreases ones + zeros,
{
    if zeros > ones {
        0
    } else if zeros == 0 {
        1
    } else {
        ballot((ones - 1) as nat, zeros) + ballot(ones, (zeros - 1) as nat)
    }
}

/// A factorial is not zero.
pub proof fn lemma_factorial_positive(n: nat)
    ensures
        factorial(n) > 0,
    decreases n,
{
    if n > 0 {
        lemma_factorial_positive((n - 1) as nat);
        assert(n * factorial((n - 1) as nat) > 0) by (nonlinear_arith)
            requires
                n > 0,
                factorial((n - 1) as nat) > 0,
        ;
    }
}

/// The ballot numbers in closed form, cleared of the division:
/// `ballot(a, b) * b! * (a + 1)! == (a + 1 - b) * (a + b)!`.
pub proof fn lemma_ballot_closed_form(ones: nat, zeros: nat)
    requires
        zeros <= ones + 1,
    ensures
        ballot(ones, zeros) * (factorial(zeros) * factorial(ones + 1)) == (ones + 1 - zeros)
            * factorial(ones + zeros),
    decreases ones + zeros,
{
    let a = ones as int;
    let b = zeros as int;
    let total = factorial(ones + zeros) as int;
    let d = (factorial(zeros) * factorial(ones + 1)) as int;
    if zeros > ones {
        assert(ballot(ones, zeros) == 0 && a + 1 - b == 0);
        assert(0 * d == 0 && 0 * total == 0);
    } else if zeros == 0 {
        assert(factorial(0) == 1);
        let fo = factorial(ones) as int;
        assert(ballot(ones, zeros) * d == (a + 1 - b) * total) by (nonlinear_arith)
            requires
                ballot(ones, zeros) == 1,
                b == 0,
                total == fo,
                d == 1 * ((a + 1) * fo),
        ;
    } else {
        let with_one = ballot((ones - 1) as nat, zeros) as int;
        let with_zero = ballot(ones, (zeros - 1) as nat) as int;
        let p = factorial((ones + zeros - 1) as nat) as int;
        let fz = factorial((zeros - 1) as nat) as int;
        let fo = factorial(ones) as int;
        let d_one = (factorial(zeros) * factorial(ones)) as int;
        let d_zero = (factorial((zeros - 1) as nat) * factorial(ones + 1)) as int;
        lemma_ballot_closed_form((ones - 1) as nat, zeros);
        lemma_ballot_closed_form(ones, (zeros - 1) as nat);
        assert(with_one * d_one == (a - b) * p);
        assert(with_zero * d_zero == (a + 2 - b) * p);
        assert(total == (a + b) * p);
        assert(d == (a + 1) * d_one) by (nonlinear_arith)
            requires
                d == factorial(zeros) * ((a + 1) * fo),
                d_one == factorial(zeros) * fo,
        ;
        assert(d == b * d_zero) by (nonlinear_arith)
            requires
                d == (b * fz) * factorial(ones + 1),
                d_zero == fz * factorial(ones + 1),
        ;
        assert(with_one * d == (a + 1) * (with_one * d_one)) by (nonlinear_arith)
            requires
                d == (a + 1) * d_one,
        ;
        assert(with_zero * d == b * (with_zero * d_zero)) by (nonlinear_arith)
            requires
                d == b * d_zero,
        ;
        assert((with_one + with_zero) * d == with_one * d + with_zero * d) by (nonlinear_arith);
        assert((a + 1) * ((a - b) * p) + b * ((a + 2 - b) * p) == (a + 1 - b) * ((a + b) * p))
            by (nonlinear_arith);
    }
}

/// The Catalan numbers are whole: the division in `catalan` leaves no remainder.
pub proof fn lemma_catalan_exact(n: nat)
    ensures
        catalan(n) * (factorial(n) * factorial(n + 1)) == factorial(2 * n),
        catalan(n) == ballot(n, n),
{
    let d = factorial(n) * factorial(n + 1);
    lemma_factorial_positive(n);
    lemma_factorial_positive(n + 1);
    lemma_ballot_closed_form(n, n);
    assert(d > 0) by (nonlinear_arith)
        requires
            d == factorial(n) * factorial(n + 1),
            factorial(n) > 0,
            factorial(n + 1) > 0,
    ;
    assert(ballot(n, n) * d == factorial(2 * n));
    vstd::arithmetic::div_mod::lemma_div_multiples_vanish(ballot(n, n) as int, d as int);
    assert(ballot(n, n) * d == d * ballot(n, n)) by (nonlinear_arith);
}

/// Each Catalan number from the one before: `(n + 2) C(n + 1) == (4n + 2) C(n)`.
pub proof fn lemma_catalan_step(n: nat)
    ensures
        (n + 2) * catalan(n + 1) == (4 * n + 2) * catalan(n),
{
    let c0 = catalan(n) as int;
    let c1 = catalan(n + 1) as int;
    let f0 = factorial(n) as int;
    let f1 = factorial(n + 1) as int;
    let f2 = factorial(n + 2) as int;
    let x0 = f0 * f1;
    let x1 = f1 * f2;
    let g0 = factorial(2 * n) as int;
    let g1 = factorial(2 * n + 1) as int;
    let g2 = factorial(2 * (n + 1)) as int;
    let k = (n + 1) * x0;
    lemma_catalan_exact(n);
    lemma_catalan_exact(n + 1);
    lemma_factorial_positive(n);
    lemma_factorial_positive(n + 1);
    assert(c0 * x0 == g0);
    assert(c1 * x1 == g2);
    assert(f1 == (n + 1) * f0);
    assert(f2 == (n + 2) * f1);
    assert(g1 == (2 * n + 1) * g0);
    assert(g2 == (2 * n + 2) * g1);
    assert(x1 == (n + 2) * k) by (nonlinear_arith)
        requires
            x1 == f1 * f2,
            x0 == f0 * f1,
            k == (n + 1) * x0,
            f1 == (n + 1) * f0,
            f2 == (n + 2) * f1,
    ;
    assert(k * ((n + 2) * c1) == c1 * x1) by (nonlinear_arith)
        requires
            x1 == (n + 2) * k,
    ;
    assert(k * ((4 * n + 2) * c0) == (2 * n + 2) * ((2 * n + 1) * (c0 * x0))) by (nonlinear_arith)
        requires
            k == (n + 1) * x0,
    ;
    assert(k > 0) by (nonlinear_arith)
        requires
            k == (n + 1) * (f0 * f1),
            f0 > 0,
            f1 > 0,
    ;
    assert((n + 2) * c1 == (4 * n + 2) * c0) by (nonlinear_arith)
        requires
            k > 0,
            k * ((n + 2) * c1) == k * ((4 * n + 2) * c0),
    ;
}

/// The first `k` terms of the sum `C(0) C(m) + C(1) C(m - 1) + ... + C(m) C(0)`.
pub open spec fn convolution(m: nat, k: nat) -> nat
    decreases k,
{
    if k == 0 {
        0
    } else {
        convolution(m, (k - 1) as nat) + catalan((k - 1) as nat) * catalan((m - (k - 1)) as nat)
    }
}

/// The `j`-th term of the sum that `convolution(m, _)` cuts short.
pub open spec fn convolution_term(m: nat, j: int) -> int {
    (catalan(j as nat) * catalan((m - j) as nat)) as int
}

/// The partial sums that `convolution` defines are sums in the sense of `sum`.
pub proof fn lemma_convolution_is_sum(m: nat, k: nat)
    ensures
        convolution(m, k) == sum(|j: int| convolution_term(m, j), k),
    decreases k,
{
    if k > 0 {
        lemma_convolution_is_sum(m, (k - 1) as nat);
    }
}

/// The partial sums of the convolution grow with the number of terms.
pub proof fn lemma_convolution_monotone(m: nat, j: nat, k: nat)
    requires
        j <= k,
    ensures
        convolution(m, j) <= convolution(m, k),
    decreases k - j,
{
    if j < k {
        lemma_convolution_monotone(m, j + 1, k);
    }
}

/// In the full convolution, weighting the `j`-th term by `j` gives half of `m` times the sum.
proof fn lemma_weighted_convolution(m: nat)
    ensures
        2 * sum(|j: int| j * convolution_term(m, j), m + 1) == m * sum(
            |j: int| convolution_term(m, j),
            m + 1,
        ),
{
    let h = |j: int| convolution_term(m, j);
    let f = |j: int| j * convolution_term(m, j);
    let f_rev = |j: int| f((m + 1) - 1 - j);
    let mixed = |j: int| m * h(j) + (-1) * f(j);
    lemma_sum_reverse(f, m + 1);
    assert forall|j: int| 0 <= j < m + 1 implies #[trigger] f_rev(j) == mixed(j) by {
        let x = catalan(j as nat) as int;
        let y = catalan((m - j) as nat) as int;
        assert(f_rev(j) == (m - j) * (y * x));
        assert(mixed(j) == m * (x * y) + (-1) * (j * (x * y)));
        assert((m - j) * (y * x) == m * (x * y) + (-1) * (j * (x * y))) by (nonlinear_arith);
    }
    lemma_sum_congruence(f_rev, mixed, m + 1);
    lemma_sum_linear(m as int, h, -1, f, m + 1);
}

/// The recurrence of the Catalan numbers:
/// `C(n + 1) == C(0) C(n) + C(1) C(n - 1) + ... + C(n) C(0)`.
pub proof fn lemma_catalan_recurrence(n: nat)
    ensures
        catalan(n + 1) == convolution(n, n + 1),
    decreases n,
{
    lemma_catalan_exact(0);
    lemma_catalan_exact(1);
    reveal_with_fuel(ballot, 3);
    assert(catalan(0) == 1 && catalan(1) == 1);
    if n == 0 {
        reveal_with_fuel(convolution, 2);
        assert(convolution(0, 1) == catalan(0) * catalan(0));
    } else {
        let m = (n - 1) as nat;
        let h = |j: int| convolution_term(n, j);
        let h_low = |j: int| convolution_term(m, j);
        let weighted = |j: int| j * convolution_term(n, j);
        let weighted_low = |j: int| j * convolution_term(m, j);
        let s = sum(h, n + 1);
        let t = sum(weighted, n + 1);
        let s_low = sum(h_low, n);
        let t_low = sum(weighted_low, n);
        lemma_catalan_recurrence(m);
        lemma_convolution_is_sum(m, n);
        lemma_convolution_is_sum(n, n + 1);
        lemma_weighted_convolution(n);
        lemma_weighted_convolution(m);
        assert(s_low == catalan(n));
        assert(2 * t == n * s);
        assert(2 * t_low == (n - 1) * s_low);
        // The sum of (k + 2) C(k + 1) C(n - 1 - k), taken two ways.
        let u = |j: int| 1 * weighted(j) + 1 * h(j);
        let u_tail = |k: int| u(k + 1);
        let stepped = |k: int| 4 * weighted_low(k) + 2 * h_low(k);
        assert forall|k: int| 0 <= k < n implies #[trigger] u_tail(k) == stepped(k) by {
            let x0 = catalan(k as nat) as int;
            let x1 = catalan((k + 1) as nat) as int;
            let y = catalan((m - k) as nat) as int;
            lemma_catalan_step(k as nat);
            assert((k + 2) * x1 == (4 * k + 2) * x0);
            assert((n - (k + 1)) as nat == (m - k) as nat);
            assert(u_tail(k) == 1 * ((k + 1) * (x1 * y)) + 1 * (x1 * y));
            assert(stepped(k) == 4 * (k * (x0 * y)) + 2 * (x0 * y));
            assert(1 * ((k + 1) * (x1 * y)) + 1 * (x1 * y) == ((k + 2) * x1) * y)
                by (nonlinear_arith);
            assert(4 * (k * (x0 * y)) + 2 * (x0 * y) == ((4 * k + 2) * x0) * y)
                by (nonlinear_arith);
        }
        lemma_sum_congruence(u_tail, stepped, n);
        lemma_sum_linear(4, weighted_low, 2, h_low, n);
        lemma_sum_head(u, n + 1);
        lemma_sum_linear(1, weighted, 1, h, n + 1);
        assert(u(0) == catalan(0) * catalan(n));
        assert(sum(u, n + 1) == t + s);
        assert(sum(stepped, n) == 4 * t_low + 2 * s_low);
        assert(t + s == catalan(n) + 4 * t_low + 2 * s_low);
        assert((n + 2) * s == (4 * n + 2) * catalan(n)) by (nonlinear_arith)
            requires
                2 * t == n * s,
                2 * t_low == (n - 1) * s_low,
                t + s == catalan(n) + 4 * t_low + 2 * s_low,
                s_low == catalan(n),
        ;
        lemma_catalan_step(n);
        assert(s == catalan(n + 1)) by (nonlinear_arith)
            requires
                (n + 2) * s == (4 * n + 2) * catalan(n),
                (n + 2) * catalan(n + 1) == (4 * n + 2) * catalan(n),
        ;
    }
}

/// The Catalan numbers do not decrease.
pub proof fn lemma_catalan_monotone(m: nat, n: nat)
    requires
        m <= n,
    ensures
        catalan(m) <= catalan(n),
    decreases n - m,
{
    if m < n {
        lemma_catalan_monotone(m + 1, n);
        lemma_catalan_step(m);
        assert(catalan(m) <= catalan(m + 1)) by (nonlinear_arith)
            requires
                (m + 2) * catalan(m + 1) == (4 * m + 2) * catalan(m),
        ;
    }
}

/// The largest index whose Catalan number fits in 64 bits.
pub const MAX_CATALAN_INDEX: u64 = 36;

/// Some Catalan numbers. `C(36)` is below `2^64`, and `C(37)` is not.
pub proof fn lemma_catalan_values()
    ensures
        catalan(0) == 1,
        catalan(1) == 1,
        catalan(2) == 2,
        catalan(3) == 5,
        catalan(4) == 14,
        catalan(5) == 42,
        catalan(6) == 132,
        catalan(7) == 429,
        catalan(8) == 1430,
        catalan(9) == 4862,
        catalan(10) == 16796,
        catalan(32) == 55534064877048198,
        catalan(36) == 11959798385860453492,
        catalan(37) == 45950804324621742364,
        catalan(36) <= u64::MAX < catalan(37),
{
    lemma_catalan_exact(0);
    assert(catalan(0) == 1);
    lemma_catalan_step(0);
    assert(2 * catalan(1) == 2 * catalan(0));
    assert(catalan(1) == 1);
    lemma_catalan_step(1);
    assert(3 * catalan(2) == 6 * catalan(1));
    assert(catalan(2) == 2);
    lemma_catalan_step(2);
    assert(4 * catalan(3) == 10 * catalan(2));
    assert(catalan(3) == 5);
    lemma_catalan_step(3);
    assert(5 * catalan(4) == 14 * catalan(3));
    assert(catalan(4) == 14);
    lemma_catalan_step(4);
    assert(6 * catalan(5) == 18 * catalan(4));
    assert(catalan(5) == 42);
    lemma_catalan_step(5);
    assert(7 * catalan(6) == 22 * catalan(5));
    assert(catalan(6) == 132);
    lemma_catalan_step(6);
    assert(8 * catalan(7) == 26 * catalan(6));
    assert(catalan(7) == 429);
    lemma_catalan_step(7);
    assert(9 * catalan(8) == 30 * catalan(7));
    assert(catalan(8) == 1430);
    lemma_catalan_step(8);
    assert(10 * catalan(9) == 34 * catalan(8));
    assert(catalan(9) == 4862);
    lemma_catalan_step(9);
    assert(11 * catalan(10) == 38 * catalan(9));
    assert(catalan(10) == 16796);
    lemma_catalan_step(10);
    assert(12 * catalan(11) == 42 * catalan(10));
    assert(catalan(11) == 58786);
    lemma_catalan_step(11);
    assert(13 * catalan(12) == 46 * catalan(11));
    assert(catalan(12) == 208012);
    lemma_catalan_step(12);
    assert(14 * catalan(13) == 50 * catalan(12));
    assert(catalan(13) == 742900);
    lemma_catalan_step(13);
    assert(15 * catalan(14) == 54 * catalan(13));
    assert(catalan(14) == 2674440);
    lemma_catalan_step(14);
    assert(16 * catalan(15) == 58 * catalan(14));
    assert(catalan(15) == 9694845);
    lemma_catalan_step(15);
    assert(17 * catalan(16) == 62 * catalan(15));
    assert(catalan(16) == 35357670);
    lemma_catalan_step(16);
    assert(18 * catalan(17) == 66 * catalan(16));
    assert(catalan(17) == 129644790);
    lemma_catalan_step(17);
    assert(19 * catalan(18) == 70 * catalan(17));
    assert(catalan(18) == 477638700);
    lemma_catalan_step(18);
    assert(20 * catalan(19) == 74 * catalan(18));
    assert(catalan(19) == 1767263190);
    lemma_catalan_step(19);
    assert(21 * catalan(20) == 78 * catalan(19));
    assert(catalan(20) == 6564120420);
    lemma_catalan_step(20);
    assert(22 * catalan(21) == 82 * catalan(20));
    assert(catalan(21) == 24466267020);
    lemma_catalan_step(21);
    assert(23 * catalan(22) == 86 * catalan(21));
    assert(catalan(22) == 91482563640);
    lemma_catalan_step(22);
    assert(24 * catalan(23) == 90 * catalan(22));
    assert(catalan(23) == 343059613650);
    lemma_catalan_step(23);
    assert(25 * catalan(24) == 94 * catalan(23));
    assert(catalan(24) == 1289904147324);
    lemma_catalan_step(24);
    assert(26 * catalan(25) == 98 * catalan(24));
    assert(catalan(25) == 4861946401452);
    lemma_catalan_step(25);
    assert(27 * catalan(26) == 102 * catalan(25));
    assert(catalan(26) == 18367353072152);
    lemma_catalan_step(26);
    assert(28 * catalan(27) == 106 * catalan(26));
    assert(catalan(27) == 69533550916004);
    lemma_catalan_step(27);
    assert(29 * catalan(28) == 110 * catalan(27));
    assert(catalan(28) == 263747951750360);
    lemma_catalan_step(28);
    assert(30 * catalan(29) == 114 * catalan(28));
    assert(catalan(29) == 1002242216651368);
    lemma_catalan_step(29);
    assert(31 * catalan(30) == 118 * catalan(29));
    assert(catalan(30) == 3814986502092304);
    lemma_catalan_step(30);
    assert(32 * catalan(31) == 122 * catalan(30));
    assert(catalan(31) == 14544636039226909);
    lemma_catalan_step(31);
    assert(33 * catalan(32) == 126 * catalan(31));
    assert(catalan(32) == 55534064877048198);
    lemma_catalan_step(32);
    assert(34 * catalan(33) == 130 * catalan(32));
    assert(catalan(33) == 212336130412243110);
    lemma_catalan_step(33);
    assert(35 * catalan(34) == 134 * catalan(33));
    assert(catalan(34) == 812944042149730764);
    lemma_catalan_step(34);
    assert(36 * catalan(35) == 138 * catalan(34));
    assert(catalan(35) == 3116285494907301262);
    lemma_catalan_step(35);
    assert(37 * catalan(36) == 142 * catalan(35));
    assert(catalan(36) == 11959798385860453492);
    lemma_catalan_step(36);
    assert(38 * catalan(37) == 146 * catalan(36));
}

/// The `n`-th Catalan number, by the recurrence over a table of the numbers before it.
///
/// `C(36)` is the last that fits in 64 bits, so `n` may not exceed `MAX_CATALAN_INDEX`.
pub fn catalan_number(n: u64) -> (count: u64)
    requires
        n <= MAX_CATALAN_INDEX,
    ensures
        count == catalan(n as nat),
{
    proof {
        lemma_catalan_exact(0);
        lemma_catalan_exact(1);
        reveal_with_fuel(ballot, 3);
        lemma_catalan_values();
    }
    if n == 0 || n == 1 {
        return 1;
    }
    let size: usize = n as usize;
    let mut table: Vec<u64> = vec![0u64; size + 1];
    table.set(0, 1);
    table.set(1, 1);
    for i in 2..size + 1
        invariant
            size == n <= 36,
            table.len() == size + 1,
            catalan(36) <= u64::MAX,
            forall|k: int| 0 <= k < i ==> table[k] == catalan(k as nat),
    {
        let mut acc: u64 = 0;
        for j in 0..i
            invariant
                2 <= i <= size <= 36,
                table.len() == size + 1,
                catalan(36) <= u64::MAX,
                forall|k: int| 0 <= k < i ==> table[k] == catalan(k as nat),
                acc == convolution((i - 1) as nat, j as nat),
        {
            proof {
                lemma_convolution_monotone((i - 1) as nat, (j + 1) as nat, i as nat);
                lemma_catalan_recurrence((i - 1) as nat);
                lemma_catalan_monotone(i as nat, 36);
                assert(table[j as int] == catalan(j as nat));
                assert(table[i - j - 1] == catalan((i - 1 - j) as nat));
            }
            acc = acc + table[j] * table[i - j - 1];
        }
        proof {
            lemma_catalan_recurrence((i - 1) as nat);
        }
        table.set(i, acc);
    }
    table[size]
}

/// The `n`-th Catalan number where it fits in 64 bits, and `None` where it does not.
pub fn checked_catalan_number(n: u64) -> (count: Option<u64>)
    ensures
        count is Some <==> catalan(n as nat) <= u64::MAX,
        count is Some <==> n <= MAX_CATALAN_INDEX,
        count matches Some(c) ==> c == catalan(n as nat),
{
    proof {
        lemma_catalan_values();
        if n <= 36 {
            lemma_catalan_monotone(n as nat, 36);
        } else {
            lemma_catalan_monotone(37, n as nat);
        }
    }
    if n <= MAX_CATALAN_INDEX {
        Some(catalan_number(n))
    } else {
        None
    }
}

} // verus!
