//! Finite sums of integer-valued functions, and the lemmas about them that
//! the linear algebra and the power series arithmetic are proved from.

use vstd::arithmetic::div_mod::*;
use vstd::arithmetic::mul::*;
use vstd::prelude::*;

verus! {

/// `f(0) + f(1) + ... + f(n - 1)`.
pub open spec fn sum(f: spec_fn(int) -> int, n: int) -> int
    decreases n,
{
    if n <= 0 {
        0
    } else {
        sum(f, n - 1) + f(n - 1)
    }
}

/// Sums of functions that agree on `0..n` are equal.
pub proof fn lemma_sum_ext(f: spec_fn(int) -> int, g: spec_fn(int) -> int, n: int)
    requires
        forall|i: int| 0 <= i < n ==> #[trigger] f(i) == g(i),
    ensures
        sum(f, n) == sum(g, n),
    decreases n,
{
    if n > 0 {
        lemma_sum_ext(f, g, n - 1);
    }
}

/// Sums of functions that are congruent on `0..n` are congruent.
pub proof fn lemma_sum_cong(f: spec_fn(int) -> int, g: spec_fn(int) -> int, n: int, p: int)
    requires
        p > 0,
        forall|i: int| 0 <= i < n ==> (#[trigger] f(i)) % p == g(i) % p,
    ensures
        sum(f, n) % p == sum(g, n) % p,
    decreases n,
{
    if n > 0 {
        lemma_sum_cong(f, g, n - 1, p);
        lemma_add_mod_noop(sum(f, n - 1), f(n - 1), p);
        lemma_add_mod_noop(sum(g, n - 1), g(n - 1), p);
    }
}

/// A sum of zeros is zero.
pub proof fn lemma_sum_zero(f: spec_fn(int) -> int, n: int)
    requires
        forall|i: int| 0 <= i < n ==> #[trigger] f(i) == 0,
    ensures
        sum(f, n) == 0,
    decreases n,
{
    if n > 0 {
        lemma_sum_zero(f, n - 1);
    }
}

/// A sum of multiples of `p` is a multiple of `p`.
pub proof fn lemma_sum_zero_mod(f: spec_fn(int) -> int, n: int, p: int)
    requires
        p > 0,
        forall|i: int| 0 <= i < n ==> (#[trigger] f(i)) % p == 0,
    ensures
        sum(f, n) % p == 0,
    decreases n,
{
    if n > 0 {
        lemma_sum_zero_mod(f, n - 1, p);
        lemma_add_mod_noop(sum(f, n - 1), f(n - 1), p);
    }
    lemma_small_mod(0, p as nat);
}

/// The sum of `a * f + b * g` is `a` times the sum of `f` plus `b` times the sum of `g`.
pub proof fn lemma_sum_linear(
    h: spec_fn(int) -> int,
    a: int,
    f: spec_fn(int) -> int,
    b: int,
    g: spec_fn(int) -> int,
    n: int,
)
    requires
        forall|i: int| 0 <= i < n ==> #[trigger] h(i) == a * f(i) + b * g(i),
    ensures
        sum(h, n) == a * sum(f, n) + b * sum(g, n),
    decreases n,
{
    if n > 0 {
        lemma_sum_linear(h, a, f, b, g, n - 1);
        lemma_mul_is_distributive_add(a, sum(f, n - 1), f(n - 1));
        lemma_mul_is_distributive_add(b, sum(g, n - 1), g(n - 1));
    } else {
        assert(a * 0 == 0);
        assert(b * 0 == 0);
    }
}

/// The sum of `a * f` is `a` times the sum of `f`.
pub proof fn lemma_sum_scale(h: spec_fn(int) -> int, a: int, f: spec_fn(int) -> int, n: int)
    requires
        forall|i: int| 0 <= i < n ==> #[trigger] h(i) == a * f(i),
    ensures
        sum(h, n) == a * sum(f, n),
    decreases n,
{
    if n > 0 {
        lemma_sum_scale(h, a, f, n - 1);
        lemma_mul_is_distributive_add(a, sum(f, n - 1), f(n - 1));
    } else {
        assert(a * 0 == 0);
    }
}

/// Changing one term changes the sum by the difference of that term.
pub proof fn lemma_sum_update(f: spec_fn(int) -> int, g: spec_fn(int) -> int, n: int, k: int)
    requires
        0 <= k < n,
        forall|i: int| 0 <= i < n && i != k ==> #[trigger] f(i) == g(i),
    ensures
        sum(g, n) == sum(f, n) + g(k) - f(k),
    decreases n,
{
    if n - 1 == k {
        lemma_sum_ext(f, g, n - 1);
    } else {
        lemma_sum_update(f, g, n - 1, k);
    }
}

/// A sum with at most one nonzero term equals that term.
pub proof fn lemma_sum_single(f: spec_fn(int) -> int, n: int, k: int)
    requires
        0 <= k < n,
        forall|i: int| 0 <= i < n && i != k ==> #[trigger] f(i) == 0,
    ensures
        sum(f, n) == f(k),
    decreases n,
{
    if n - 1 == k {
        lemma_sum_zero(f, n - 1);
    } else {
        lemma_sum_single(f, n - 1, k);
    }
}

/// Terms beyond `m` that vanish do not contribute.
pub proof fn lemma_sum_tail_zero(f: spec_fn(int) -> int, m: int, n: int)
    requires
        0 <= m <= n,
        forall|i: int| m <= i < n ==> #[trigger] f(i) == 0,
    ensures
        sum(f, n) == sum(f, m),
    decreases n,
{
    if n > m {
        lemma_sum_tail_zero(f, m, n - 1);
    }
}

/// A sum splits at any point `m` into a head and a shifted tail.
pub proof fn lemma_sum_split(f: spec_fn(int) -> int, g: spec_fn(int) -> int, m: int, n: int)
    requires
        0 <= m <= n,
        forall|i: int| 0 <= i < n - m ==> #[trigger] g(i) == f(m + i),
    ensures
        sum(f, n) == sum(f, m) + sum(g, n - m),
    decreases n,
{
    if n > m {
        lemma_sum_split(f, g, m, n - 1);
        assert(g(n - 1 - m) == f(m + (n - 1 - m)));
    }
}

/// Summing in the opposite order gives the same sum.
pub proof fn lemma_sum_reverse(f: spec_fn(int) -> int, g: spec_fn(int) -> int, n: int)
    requires
        forall|i: int| 0 <= i < n ==> #[trigger] g(i) == f(n - 1 - i),
    ensures
        sum(g, n) == sum(f, n),
    decreases n,
{
    if n > 0 {
        // g restricted to 0..n-1 is the reverse of the tail f(1), ..., f(n - 1)
        let f1 = |i: int| f(i + 1);
        assert forall|i: int| 0 <= i < n - 1 implies #[trigger] g(i) == f1(n - 2 - i) by {
            assert(g(i) == f(n - 1 - i));
        }
        lemma_sum_reverse(f1, g, n - 1);
        assert(g(n - 1) == f(0));
        lemma_sum_split(f, f1, 1, n);
        assert(sum(f, 1) == f(0)) by {
            reveal_with_fuel(sum, 2);
        }
    }
}

/// A double sum may be taken in either order.
pub proof fn lemma_sum_exchange(
    by_row: spec_fn(int) -> int,
    by_col: spec_fn(int) -> int,
    f: spec_fn(int, int) -> int,
    n: int,
    m: int,
)
    requires
        forall|j: int| 0 <= j < n ==> #[trigger] by_row(j) == sum(|l: int| f(j, l), m),
        forall|l: int| 0 <= l < m ==> #[trigger] by_col(l) == sum(|j: int| f(j, l), n),
    ensures
        sum(by_row, n) == sum(by_col, m),
    decreases n,
{
    if n <= 0 {
        assert forall|l: int| 0 <= l < m implies #[trigger] by_col(l) == 0 by {
            assert(sum(|j: int| f(j, l), n) == 0);
        }
        lemma_sum_zero(by_col, m);
    } else {
        let shorter = |l: int| sum(|j: int| f(j, l), n - 1);
        let last = |l: int| f(n - 1, l);
        lemma_sum_exchange(by_row, shorter, f, n - 1, m);
        assert forall|l: int| 0 <= l < m implies #[trigger] by_col(l) == 1 * shorter(l) + 1 * last(l) by {
            let col = |j: int| f(j, l);
            assert(sum(col, n) == sum(col, n - 1) + col(n - 1));
        }
        lemma_sum_linear(by_col, 1, shorter, 1, last, m);
        assert(by_row(n - 1) == sum(last, m));
    }
}

/// `f(0) * f(1) * ... * f(n - 1)`.
pub open spec fn product(f: spec_fn(int) -> int, n: int) -> int
    decreases n,
{
    if n <= 0 {
        1
    } else {
        product(f, n - 1) * f(n - 1)
    }
}

/// `1 * 2 * ... * n`.
pub open spec fn factorial(n: nat) -> int
    decreases n,
{
    if n == 0 {
        1
    } else {
        n * factorial((n - 1) as nat)
    }
}

} // verus!
