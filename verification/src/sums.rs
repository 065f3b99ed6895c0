//! Finite sums of integer-valued functions, and the few laws of them that the
//! Catalan recurrence needs.

use vstd::prelude::*;

verus! {

/// `f(0) + f(1) + ... + f(n - 1)`.
pub open spec fn sum(f: spec_fn(int) -> int, n: nat) -> int
    decreases n,
{
    if n == 0 {
        0
    } else {
        sum(f, (n - 1) as nat) + f(n - 1)
    }
}

/// Sums of functions that agree below `n` are equal.
pub proof fn lemma_sum_congruence(f: spec_fn(int) -> int, g: spec_fn(int) -> int, n: nat)
    requires
        forall|j: int| 0 <= j < n ==> #[trigger] f(j) == g(j),
    ensures
        sum(f, n) == sum(g, n),
    decreases n,
{
    if n > 0 {
        lemma_sum_congruence(f, g, (n - 1) as nat);
    }
}

/// Splitting off the first term: the rest is the sum of the shifted function.
pub proof fn lemma_sum_head(f: spec_fn(int) -> int, n: nat)
    requires
        n > 0,
    ensures
        sum(f, n) == f(0) + sum(|j: int| f(j + 1), (n - 1) as nat),
    decreases n,
{
    let shifted = |j: int| f(j + 1);
    if n == 1 {
        assert(sum(f, 0) == 0);
        assert(sum(shifted, 0) == 0);
    } else {
        lemma_sum_head(f, (n - 1) as nat);
        assert(sum(shifted, (n - 1) as nat) == sum(shifted, (n - 2) as nat) + shifted(n - 2));
    }
}

/// A sum does not change when its terms are taken in the opposite order.
pub proof fn lemma_sum_reverse(f: spec_fn(int) -> int, n: nat)
    ensures
        sum(f, n) == sum(|j: int| f(n - 1 - j), n),
    decreases n,
{
    let rev = |j: int| f(n - 1 - j);
    if n > 0 {
        let m = (n - 1) as nat;
        let rev_tail = |j: int| rev(j + 1);
        let rev_m = |j: int| f(m - 1 - j);
        lemma_sum_head(rev, n);
        lemma_sum_reverse(f, m);
        lemma_sum_congruence(rev_tail, rev_m, m);
    }
}

/// The sum of `a * f + b * g` is `a` times the sum of `f` plus `b` times the sum of `g`.
pub proof fn lemma_sum_linear(
    a: int,
    f: spec_fn(int) -> int,
    b: int,
    g: spec_fn(int) -> int,
    n: nat,
)
    ensures
        sum(|j: int| a * f(j) + b * g(j), n) == a * sum(f, n) + b * sum(g, n),
    decreases n,
{
    let h = |j: int| a * f(j) + b * g(j);
    if n > 0 {
        let m = (n - 1) as nat;
        lemma_sum_linear(a, f, b, g, m);
        let (sf, sg, x, y) = (sum(f, m), sum(g, m), f(n - 1), g(n - 1));
        assert(h(n - 1) == a * x + b * y);
        assert(a * (sf + x) + b * (sg + y) == a * sf + b * sg + (a * x + b * y))
            by (nonlinear_arith);
    }
}

} // verus!
