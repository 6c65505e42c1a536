//! Truncated power series as mathematical sequences.
//!
//! A series known to `n` terms is the sequence of its first `n` coefficients,
//! each a canonical residue modulo `p`. The operations of
//! [`crate::fixedseq::FixedSeq`] are specified by the functions of this module.

use crate::modarith::{add_mod, inv_mod, is_unit, mul_mod, neg_mod, sub_mod};
use crate::sums::sum;
use vstd::prelude::*;

verus! {

/// The smaller of two lengths.
pub open spec fn min_len(a: nat, b: nat) -> nat {
    if a <= b {
        a
    } else {
        b
    }
}

/// Every coefficient of `a` is a canonical residue modulo `p`.
pub open spec fn is_reduced(a: Seq<int>, p: int) -> bool {
    forall|i: int| 0 <= i < a.len() ==> 0 <= #[trigger] a[i] < p
}

/// The series with `n` known coefficients, all zero.
pub open spec fn s_zero(n: nat) -> Seq<int> {
    Seq::new(n, |i: int| 0int)
}

/// The constant series `c`, known to `n` terms.
pub open spec fn s_promote(c: int, n: nat) -> Seq<int> {
    Seq::new(n, |i: int| if i == 0 { c } else { 0int })
}

/// The series `x`, known to `n` terms.
pub open spec fn s_identity(n: nat) -> Seq<int> {
    Seq::new(n, |i: int| if i == 1 { 1int } else { 0int })
}

/// The sum of two series, known as far as both are.
pub open spec fn s_add(a: Seq<int>, b: Seq<int>, p: int) -> Seq<int> {
    Seq::new(min_len(a.len(), b.len()), |i: int| add_mod(a[i], b[i], p))
}

/// The difference of two series, known as far as both are.
pub open spec fn s_sub(a: Seq<int>, b: Seq<int>, p: int) -> Seq<int> {
    Seq::new(min_len(a.len(), b.len()), |i: int| sub_mod(a[i], b[i], p))
}

/// The negative of a series.
pub open spec fn s_neg(a: Seq<int>, p: int) -> Seq<int> {
    Seq::new(a.len(), |i: int| neg_mod(a[i], p))
}

/// Coefficient `k` of the Cauchy product of `a` and `b`, before reduction:
/// `a[0] * b[k] + a[1] * b[k - 1] + .. + a[k] * b[0]`.
pub open spec fn conv(a: Seq<int>, b: Seq<int>, k: int) -> int {
    sum(|i: int| a[i] * b[k - i], k + 1)
}

/// The product of two series, known as far as both are.
pub open spec fn s_mul(a: Seq<int>, b: Seq<int>, p: int) -> Seq<int> {
    Seq::new(min_len(a.len(), b.len()), |k: int| conv(a, b, k) % p)
}

/// The coefficientwise product of two series, known as far as both are.
pub open spec fn s_hadamard(a: Seq<int>, b: Seq<int>, p: int) -> Seq<int> {
    Seq::new(min_len(a.len(), b.len()), |i: int| mul_mod(a[i], b[i], p))
}

/// The series without its constant term, divided by `x`.
pub open spec fn s_lshift(a: Seq<int>) -> Seq<int> {
    Seq::new((if a.len() == 0 { 0 } else { a.len() - 1 }) as nat, |i: int| a[i + 1])
}

/// The series multiplied by `x`, known to one more term but to at most `cap`.
pub open spec fn s_rshift(a: Seq<int>, cap: nat) -> Seq<int> {
    Seq::new(min_len(cap, a.len() + 1), |i: int| if i == 0 { 0int } else { a[i - 1] })
}

/// What the quotient coefficients before `i` contribute to coefficient `i` of
/// the product: `q[0] * g[i] + .. + q[i - 1] * g[1]`.
pub open spec fn div_feedback(q: Seq<int>, g: Seq<int>, i: int) -> int {
    sum(|j: int| q[j] * g[i - j], i)
}

/// The first `n` coefficients of the quotient `f / g`, by long division:
/// `q[i] == (f[i] - (q[0] * g[i] + .. + q[i - 1] * g[1])) / g[0]`.
pub open spec fn s_div_prefix(f: Seq<int>, g: Seq<int>, n: nat, p: int) -> Seq<int>
    decreases n,
{
    if n == 0 {
        Seq::empty()
    } else {
        let q = s_div_prefix(f, g, (n - 1) as nat, p);
        q.push(
            mul_mod(sub_mod(f[n - 1], div_feedback(q, g, n - 1), p), inv_mod(g[0], p), p),
        )
    }
}

/// The quotient of two series, known as far as both are.
pub open spec fn s_div(f: Seq<int>, g: Seq<int>, p: int) -> Seq<int> {
    s_div_prefix(f, g, min_len(f.len(), g.len()), p)
}

/// A series can be divided by `g`: the constant term of `g` has an inverse.
/// Where no coefficient of `g` is known, none of the quotient is, and nothing
/// stands in the way.
pub open spec fn is_divisor(g: Seq<int>, p: int) -> bool {
    g.len() == 0 || is_unit(g[0], p)
}

/// A series can be substituted into another: its constant term is zero.
pub open spec fn is_substitutable(g: Seq<int>) -> bool {
    g.len() == 0 || g[0] == 0
}

/// The series `a` with `c` added to its constant term.
pub open spec fn s_add_const(a: Seq<int>, c: int, p: int) -> Seq<int> {
    Seq::new(a.len(), |i: int| if i == 0 { add_mod(a[i], c, p) } else { a[i] })
}

/// Horner's rule for `f(g)`, from coefficient `i` of `f` on, to `n` terms:
/// `f[i] + g * (f[i + 1] + g * (..))`.
pub open spec fn s_compose_from(f: Seq<int>, g: Seq<int>, i: int, n: nat, p: int) -> Seq<int>
    decreases n - i,
{
    if i >= n {
        s_zero(n)
    } else {
        s_add_const(s_mul(s_compose_from(f, g, i + 1, n, p), g, p), f[i], p)
    }
}

/// The composition `f(g)`, known as far as both are.
pub open spec fn s_compose(f: Seq<int>, g: Seq<int>, p: int) -> Seq<int> {
    s_compose_from(f, g, 0, min_len(f.len(), g.len()), p)
}

/// The position of the first nonzero coefficient of `a` before `n`, or `n` where there is none.
pub open spec fn first_nonzero(a: Seq<int>, n: int) -> int
    decreases n,
{
    if n <= 0 {
        0
    } else {
        let before = first_nonzero(a, n - 1);
        if before < n - 1 {
            before
        } else if a[n - 1] != 0 {
            n - 1
        } else {
            n
        }
    }
}

/// The series `a` with every coefficient but its first nonzero one replaced by zero.
pub open spec fn s_tail_term(a: Seq<int>) -> Seq<int> {
    Seq::new(
        a.len(),
        |i: int| if i == first_nonzero(a, a.len() as int) { a[i] } else { 0int },
    )
}

/// Long division to `n` terms gives `n` terms, and further terms do not change earlier ones.
pub proof fn lemma_div_prefix(f: Seq<int>, g: Seq<int>, n: nat, m: nat, p: int)
    requires
        m <= n,
    ensures
        s_div_prefix(f, g, n, p).len() == n,
        forall|i: int| 0 <= i < m ==> s_div_prefix(f, g, n, p)[i] == s_div_prefix(f, g, m, p)[i],
    decreases n,
{
    if n > 0 {
        lemma_div_prefix(f, g, (n - 1) as nat, if m < n { m } else { (n - 1) as nat }, p);
    }
}

} // verus!
