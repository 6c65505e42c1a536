//! Recognising recurrences: the shortest linear recurrence with constant
//! coefficients (Berlekamp and Massey), and recurrences with polynomial
//! coefficients by solving a linear system.

use crate::linalg::{is_basic_solution, solves};
use crate::mathtypes::{index_element, values, Field, Group, One, Ring, Zero};
use crate::matrix::{lemma_flat_index, Matrix};
use crate::modarith::{
    inv_mod, is_unit, lemma_inv_mod, mul_mod, neg_mod, pow_mod, sub_mod,
};
use crate::sums::{
    lemma_sum_cong, lemma_sum_exchange, lemma_sum_ext, lemma_sum_linear, lemma_sum_scale,
    lemma_sum_split, lemma_sum_tail_zero, lemma_sum_zero, sum,
};
use vstd::arithmetic::div_mod::*;
use vstd::arithmetic::mul::*;
use vstd::prelude::*;

verus! {

/// What the recurrence `rec` predicts for `s[k]` from the terms before it:
/// `rec[0] * s[k - 1] + rec[1] * s[k - 2] + ...`.
pub open spec fn predicted(rec: Seq<int>, s: Seq<int>, k: int) -> int {
    sum(|j: int| rec[j] * s[k - 1 - j], rec.len() as int)
}

/// `rec` is a linear recurrence of order `rec.len()` for `s`: it predicts
/// every term of `s` from index `rec.len()` on, modulo `p`.
pub open spec fn is_linear_recurrence(rec: Seq<int>, s: Seq<int>, p: int) -> bool {
    forall|k: int| rec.len() <= k < s.len() ==> s[k] % p == #[trigger] predicted(rec, s, k) % p
}

/// The discrepancy of the connection polynomial `c` at position `k`:
/// `c[0] * s[k] + c[1] * s[k - 1] + ...`.
pub open spec fn discrepancy(c: Seq<int>, s: Seq<int>, k: int) -> int {
    sum(|j: int| c[j] * s[k - j], c.len() as int)
}

/// The connection polynomial `c` has discrepancy zero at every position in `lo..hi`.
pub open spec fn generates(c: Seq<int>, s: Seq<int>, lo: int, hi: int, p: int) -> bool {
    forall|k: int| lo <= k < hi ==> #[trigger] discrepancy(c, s, k) % p == 0
}

/// The part of the discrepancy that comes from the terms before `s[k]`.
pub open spec fn feedback(c: Seq<int>, s: Seq<int>, k: int) -> int {
    sum(|l: int| c[l + 1] * s[k - 1 - l], c.len() - 1)
}

proof fn lemma_discrepancy_split(c: Seq<int>, s: Seq<int>, k: int)
    requires
        c.len() >= 1,
    ensures
        discrepancy(c, s, k) == c[0] * s[k] + feedback(c, s, k),
{
    let f = |j: int| c[j] * s[k - j];
    let g = |l: int| c[l + 1] * s[k - 1 - l];
    assert forall|l: int| 0 <= l < c.len() - 1 implies #[trigger] g(l) == f(1 + l) by {
        assert(k - 1 - l == k - (1 + l));
    }
    lemma_sum_split(f, g, 1, c.len() as int);
    assert(sum(f, 1) == f(0)) by {
        reveal_with_fuel(sum, 2);
    }
}

/// Zeros appended to a connection polynomial do not change its discrepancies.
proof fn lemma_discrepancy_pad(c: Seq<int>, c2: Seq<int>, s: Seq<int>, k: int)
    requires
        c.len() <= c2.len(),
        forall|j: int| 0 <= j < c.len() ==> #[trigger] c2[j] == c[j],
        forall|j: int| c.len() <= j < c2.len() ==> #[trigger] c2[j] == 0,
    ensures
        discrepancy(c2, s, k) == discrepancy(c, s, k),
{
    let f = |j: int| c[j] * s[k - j];
    let f2 = |j: int| c2[j] * s[k - j];
    assert forall|j: int| c.len() <= j < c2.len() implies #[trigger] f2(j) == 0 by {
        assert(c2[j] == 0);
        assert(0 * s[k - j] == 0);
    }
    lemma_sum_tail_zero(f2, c.len() as int, c2.len() as int);
    lemma_sum_ext(f2, f, c.len() as int);
}

/// Subtracting `a` times the polynomial `b` shifted by `m` from `c` subtracts
/// `a` times the discrepancy of `b`, taken `m` positions earlier.
proof fn lemma_discrepancy_combine(
    c: Seq<int>,
    b: Seq<int>,
    c2: Seq<int>,
    s: Seq<int>,
    a: int,
    m: int,
    k: int,
    p: int,
)
    requires
        p > 0,
        1 <= m <= c2.len(),
        c.len() == c2.len(),
        c2.len() - m <= b.len(),
        forall|j: int| 0 <= j < m ==> #[trigger] c2[j] == c[j],
        forall|j: int| m <= j < c2.len() ==> (#[trigger] c2[j]) % p == (c[j] - a * b[j - m]) % p,
        forall|j: int| c2.len() - m <= j < b.len() ==> #[trigger] b[j] == 0,
    ensures
        discrepancy(c2, s, k) % p == (discrepancy(c, s, k) - a * discrepancy(b, s, k - m)) % p,
{
    let n2 = c2.len() as int;
    let f2 = |j: int| c2[j] * s[k - j];
    let fc = |j: int| c[j] * s[k - j];
    let fb = |j: int| b[j] * s[k - m - j];
    let bs = |j: int| if j < m { 0int } else { b[j - m] * s[k - j] };
    let h = |j: int| 1 * fc(j) + (-a) * bs(j);
    assert forall|j: int| 0 <= j < n2 implies (#[trigger] f2(j)) % p == h(j) % p by {
        if j < m {
            assert(c2[j] == c[j]);
            assert((-a) * 0 == 0);
            assert(1 * fc(j) == fc(j));
        } else {
            lemma_mul_mod_noop_left(c2[j], s[k - j], p);
            lemma_mul_mod_noop_left(c[j] - a * b[j - m], s[k - j], p);
            assert((c[j] - a * b[j - m]) * s[k - j] == 1 * (c[j] * s[k - j]) + (-a) * (b[j - m]
                * s[k - j])) by (nonlinear_arith);
        }
    }
    lemma_sum_cong(f2, h, n2, p);
    lemma_sum_linear(h, 1, fc, -a, bs, n2);
    let g = |j: int| bs(m + j);
    lemma_sum_split(bs, g, m, n2);
    lemma_sum_zero(bs, m);
    assert forall|j: int| 0 <= j < n2 - m implies #[trigger] g(j) == fb(j) by {
        assert(k - (m + j) == k - m - j);
    }
    lemma_sum_ext(g, fb, n2 - m);
    assert forall|j: int| n2 - m <= j < b.len() implies #[trigger] fb(j) == 0 by {
        assert(b[j] == 0);
        assert(0 * s[k - m - j] == 0);
    }
    lemma_sum_tail_zero(fb, n2 - m, b.len() as int);
    assert(1 * sum(fc, n2) + (-a) * sum(bs, n2) == sum(fc, n2) - a * sum(fb, b.len() as int))
        by (nonlinear_arith)
        requires
            sum(bs, n2) == sum(fb, b.len() as int),
    ;
}

/// A connection polynomial with leading coefficient one and the recurrence
/// made of its negated other coefficients say the same of position `k`.
proof fn lemma_connection_recurrence(c: Seq<int>, rec: Seq<int>, s: Seq<int>, k: int, p: int)
    requires
        p > 0,
        c.len() == rec.len() + 1,
        c[0] == 1,
        forall|j: int| 0 <= j < rec.len() ==> (#[trigger] rec[j]) % p == (-c[j + 1]) % p,
    ensures
        discrepancy(c, s, k) % p == 0 <==> s[k] % p == predicted(rec, s, k) % p,
{
    lemma_discrepancy_split(c, s, k);
    assert(1 * s[k] == s[k]);
    let g = |l: int| c[l + 1] * s[k - 1 - l];
    let r = |j: int| rec[j] * s[k - 1 - j];
    let h = |j: int| (-1) * g(j);
    assert forall|j: int| 0 <= j < rec.len() implies (#[trigger] r(j)) % p == h(j) % p by {
        lemma_mul_mod_noop_left(rec[j], s[k - 1 - j], p);
        lemma_mul_mod_noop_left(-c[j + 1], s[k - 1 - j], p);
        assert((-c[j + 1]) * s[k - 1 - j] == (-1) * (c[j + 1] * s[k - 1 - j])) by (nonlinear_arith);
    }
    lemma_sum_cong(r, h, rec.len() as int, p);
    lemma_sum_scale(h, -1, g, rec.len() as int);
    let fb = feedback(c, s, k);
    assert(sum(h, rec.len() as int) == -fb);
    assert(predicted(rec, s, k) % p == (-fb) % p);
    // s[k] + fb == 0 exactly when s[k] == -fb, modulo p
    lemma_mod_equivalence(s[k], -fb, p);
}

/// A recurrence for a sequence is a recurrence for each of its prefixes.
proof fn lemma_recurrence_prefix(rec: Seq<int>, s: Seq<int>, i: int, p: int)
    requires
        0 <= i <= s.len(),
        is_linear_recurrence(rec, s, p),
    ensures
        is_linear_recurrence(rec, s.take(i), p),
{
    let t = s.take(i);
    assert forall|k: int| rec.len() <= k < t.len() implies t[k] % p == #[trigger] predicted(rec, t, k)
        % p by {
        let f = |j: int| rec[j] * s[k - 1 - j];
        let g = |j: int| rec[j] * t[k - 1 - j];
        assert forall|j: int| 0 <= j < rec.len() implies #[trigger] f(j) == g(j) by {
            assert(t[k - 1 - j] == s[k - 1 - j]);
        }
        lemma_sum_ext(f, g, rec.len() as int);
        assert(s[k] % p == predicted(rec, s, k) % p);
    }
}

/// Massey's bound: where a connection polynomial of order `c.len() - 1`
/// generates `s` up to position `n` but fails at `n`, every recurrence for
/// the first `n + 1` terms has order at least `n + 1 - (c.len() - 1)`.
proof fn lemma_massey_bound(c: Seq<int>, rec: Seq<int>, s: Seq<int>, n: int, p: int)
    requires
        p > 0,
        c.len() >= 1,
        c[0] == 1,
        0 <= n < s.len(),
        generates(c, s, c.len() - 1, n, p),
        discrepancy(c, s, n) % p != 0,
        is_linear_recurrence(rec, s.take(n + 1), p),
    ensures
        rec.len() >= n + 2 - c.len(),
{
    let big = c.len() - 1;
    let small = rec.len() as int;
    if small + big <= n {
        let t = s.take(n + 1);
        // what rec predicts at every position from `small` to `n` is the term itself
        assert forall|k: int| small <= k <= n implies s[k] % p == #[trigger] predicted(rec, s, k) % p by {
            let f = |j: int| rec[j] * s[k - 1 - j];
            let g = |j: int| rec[j] * t[k - 1 - j];
            assert forall|j: int| 0 <= j < rec.len() implies #[trigger] f(j) == g(j) by {
                assert(t[k - 1 - j] == s[k - 1 - j]);
            }
            lemma_sum_ext(f, g, small);
            assert(t[k] % p == predicted(rec, t, k) % p);
        }
        // what c feeds back at every position from `big` to `n - 1` is minus the term
        assert forall|x: int| big <= x < n implies (#[trigger] feedback(c, s, x)) % p == (-s[x]) % p by {
            lemma_discrepancy_split(c, s, x);
            assert(1 * s[x] == s[x]);
            assert(discrepancy(c, s, x) % p == 0);
            lemma_mod_equivalence(feedback(c, s, x), -s[x], p);
        }
        let term = |j: int, l: int| rec[j] * (c[l + 1] * s[n - 2 - j - l]);
        let by_row = |j: int| sum(|l: int| term(j, l), big);
        let by_col = |l: int| sum(|j: int| term(j, l), small);
        lemma_sum_exchange(by_row, by_col, term, small, big);
        // row j is rec[j] times the feedback at n - 1 - j
        let pr = |j: int| rec[j] * s[n - 1 - j];
        let neg_row = |j: int| (-1) * by_row(j);
        assert forall|j: int| 0 <= j < small implies (#[trigger] pr(j)) % p == neg_row(j) % p by {
            let x = n - 1 - j;
            let inner = |l: int| term(j, l);
            let fbk = |l: int| c[l + 1] * s[x - 1 - l];
            assert forall|l: int| 0 <= l < big implies #[trigger] inner(l) == rec[j] * fbk(l) by {
                assert(n - 2 - j - l == x - 1 - l);
            }
            lemma_sum_scale(inner, rec[j], fbk, big);
            assert(by_row(j) == rec[j] * feedback(c, s, x));
            assert(feedback(c, s, x) % p == (-s[x]) % p);
            lemma_mul_mod_noop_right(rec[j], feedback(c, s, x), p);
            lemma_mul_mod_noop_right(rec[j], -s[x], p);
            assert((by_row(j)) % p == (rec[j] * (-s[x])) % p);
            assert(rec[j] * (-s[x]) == -(rec[j] * s[x])) by (nonlinear_arith);
            assert((-1) * by_row(j) == -by_row(j));
            lemma_mod_equivalence(by_row(j), -pr(j), p);
            lemma_mod_equivalence(pr(j), -by_row(j), p);
        }
        lemma_sum_cong(pr, neg_row, small, p);
        lemma_sum_scale(neg_row, -1, by_row, small);
        assert(predicted(rec, s, n) % p == (-sum(by_row, small)) % p);
        // column l is c[l + 1] times the prediction at n - 1 - l
        let fb_n = |l: int| c[l + 1] * s[n - 1 - l];
        assert forall|l: int| 0 <= l < big implies (#[trigger] by_col(l)) % p == fb_n(l) % p by {
            let x = n - 1 - l;
            let inner = |j: int| term(j, l);
            let prd = |j: int| rec[j] * s[x - 1 - j];
            assert forall|j: int| 0 <= j < small implies #[trigger] inner(j) == c[l + 1] * prd(j) by {
                assert(n - 2 - j - l == x - 1 - j);
                assert(rec[j] * (c[l + 1] * s[x - 1 - j]) == c[l + 1] * (rec[j] * s[x - 1 - j]))
                    by (nonlinear_arith);
            }
            lemma_sum_scale(inner, c[l + 1], prd, small);
            assert(by_col(l) == c[l + 1] * predicted(rec, s, x));
            assert(s[x] % p == predicted(rec, s, x) % p);
            lemma_mul_mod_noop_right(c[l + 1], predicted(rec, s, x), p);
            lemma_mul_mod_noop_right(c[l + 1], s[x], p);
        }
        lemma_sum_cong(by_col, fb_n, big, p);
        assert(sum(by_col, big) % p == feedback(c, s, n) % p);
        // so s[n] is minus the feedback at n, and the discrepancy at n vanishes
        assert(s[n] % p == predicted(rec, s, n) % p);
        lemma_discrepancy_split(c, s, n);
        assert(1 * s[n] == s[n]);
        let fbn = feedback(c, s, n);
        let total = sum(by_row, small);
        assert(total % p == fbn % p);
        assert(s[n] % p == (-total) % p);
        lemma_mod_equivalence(s[n], -total, p);
        assert((s[n] + total) % p == 0);
        lemma_add_mod_noop_right(s[n], total, p);
        lemma_add_mod_noop_right(s[n], fbn, p);
        assert(false);
    }
}

/// A copy of a vector of ring elements.
pub fn copy_vec<T: Ring>(v: &Vec<T>) -> (r: Vec<T>)
    ensures
        r@ == v@,
{
    let mut r: Vec<T> = Vec::new();
    let mut k: usize = 0;
    while k < v.len()
        invariant
            k <= v.len(),
            r@.len() == k,
            forall|t: int| 0 <= t < k ==> #[trigger] r@[t] == v@[t],
        decreases v.len() - k,
    {
        r.push(v[k]);
        k += 1;
    }
    assert(r@ =~= v@);
    r
}

/// The shortest linear recurrence with constant coefficients that the whole
/// of `seq` satisfies, by the algorithm of Berlekamp and Massey.
///
/// Returns the coefficients `c[0], .., c[L - 1]` with
/// `seq[n] == c[0] * seq[n - 1] + .. + c[L - 1] * seq[n - L]` for every `n`
/// from `L` on, where `L` is the least order for which such coefficients
/// exist. Returns `None` where that order exceeds `max_deg`.
pub fn find_c_recursive<T: Field>(seq: &[T], max_deg: usize) -> (res: Option<Vec<T>>)
    requires
        seq@.len() < usize::MAX,
    ensures
        match res {
            Some(rec) => {
                &&& rec@.len() <= max_deg
                &&& is_linear_recurrence(values(rec@), values(seq@), T::modulus())
                &&& forall|other: Seq<int>| #[trigger]
                    is_linear_recurrence(other, values(seq@), T::modulus()) ==> other.len()
                        >= rec@.len()
            },
            None => forall|other: Seq<int>| #[trigger]
                is_linear_recurrence(other, values(seq@), T::modulus()) ==> other.len() > max_deg,
        },
{
    let n: usize = seq.len();
    let ghost p = T::modulus();
    let ghost s = values(seq@);
    let one = T::one();
    let zero = T::zero();
    let mut m: usize = 1;
    let mut l: usize = 0;
    let mut b = one;
    let mut cp: Vec<T> = Vec::new();
    cp.push(one);
    let mut bp: Vec<T> = Vec::new();
    bp.push(one);
    let ghost mut lb: int = 0;
    let mut i: usize = 0;
    proof {
        T::lemma_modulus();
    }
    while i < n
        invariant
            n == seq@.len(),
            n < usize::MAX,
            s == values(seq@),
            p == T::modulus(),
            p > 1,
            zero.value() == 0,
            i <= n,
            m >= 1,
            l + lb + m == i + 1,
            0 <= lb <= l,
            cp@.len() == l + 1,
            bp@.len() == l + 1,
            values(cp@)[0] == 1,
            generates(values(cp@), s, l as int, i as int, p),
            forall|j: int| lb < j < bp@.len() ==> #[trigger] values(bp@)[j] == 0,
            generates(values(bp@), s, lb, i - m, p),
            l >= 1 ==> discrepancy(values(bp@), s, i - m) % p == b.value(),
            b.value() != 0,
            forall|other: Seq<int>| #[trigger]
                is_linear_recurrence(other, s.take(i as int), p) ==> other.len() >= l,
        decreases n - i,
    {
        if l > max_deg {
            proof {
                assert forall|other: Seq<int>| #[trigger]
                    is_linear_recurrence(other, s, p) implies other.len() > max_deg by {
                    lemma_recurrence_prefix(other, s, i as int, p);
                }
            }
            return None;
        }
        let ghost c0 = values(cp@);
        let ghost bb = values(bp@);
        let ghost fd = |j: int| c0[j] * s[i - j];
        let mut d = seq[i];
        let mut j: usize = 1;
        proof {
            d.lemma_value_range();
            lemma_small_mod(d.value() as nat, p as nat);
            assert(sum(fd, 1) == fd(0)) by {
                reveal_with_fuel(sum, 2);
            }
            assert(1 * s[i as int] == s[i as int]);
        }
        while j < l + 1
            invariant
                1 <= j <= l + 1,
                l <= i < n,
                n < usize::MAX,
                n == seq@.len(),
                s == values(seq@),
                p == T::modulus(),
                p > 1,
                cp@.len() == l + 1,
                c0 == values(cp@),
                fd == |j: int| c0[j] * s[i - j],
                d.value() == sum(fd, j as int) % p,
            decreases l + 1 - j,
        {
            let ghost d0 = d.value();
            d = d.add(cp[j].mul(seq[i - j]));
            proof {
                let t = fd(j as int);
                assert(t == cp@[j as int].value() * seq@[i - j].value());
                lemma_add_mod_noop(sum(fd, j as int), t, p);
                lemma_add_mod_noop(d0, t % p, p);
                lemma_mod_twice(sum(fd, j as int), p);
                lemma_mod_twice(t, p);
            }
            j += 1;
        }
        assert(d.value() == discrepancy(c0, s, i as int) % p);
        if d.is_zero() {
            proof {
                assert forall|other: Seq<int>| #[trigger]
                    is_linear_recurrence(other, s.take(i + 1), p) implies other.len() >= l by {
                    lemma_recurrence_prefix(other, s.take(i + 1), i as int, p);
                    assert(s.take(i + 1).take(i as int) =~= s.take(i as int));
                }
            }
            m += 1;
        } else {
            let sw = l <= i - l;
            let ghost l0 = l;
            proof {
                // no recurrence for the first i + 1 terms is shorter than the new order
                assert forall|other: Seq<int>| #[trigger]
                    is_linear_recurrence(other, s.take(i + 1), p) implies other.len() >= l
                    && other.len() >= i + 1 - l by {
                    lemma_recurrence_prefix(other, s.take(i + 1), i as int, p);
                    assert(s.take(i + 1).take(i as int) =~= s.take(i as int));
                    lemma_small_mod(d.value() as nat, p as nat);
                    lemma_massey_bound(c0, other, s, i as int, p);
                }
            }
            let mut tmp: Vec<T> = Vec::new();
            if sw {
                l = i + 1 - l;
                while cp.len() < l + 1
                    invariant
                        l0 + 1 <= cp@.len() <= l + 1,
                        l < usize::MAX,
                        c0.len() == l0 + 1,
                        zero.value() == 0,
                        forall|j: int| 0 <= j < l0 + 1 ==> (#[trigger] cp@[j]).value() == c0[j],
                        forall|j: int| l0 + 1 <= j < cp@.len() ==> (#[trigger] cp@[j]).value() == 0,
                    decreases l + 1 - cp@.len(),
                {
                    cp.push(zero);
                }
                tmp = copy_vec(&cp);
            }
            let ghost c1 = values(cp@);
            proof {
                assert forall|k: int| #![trigger discrepancy(c1, s, k)] discrepancy(c1, s, k)
                    == discrepancy(c0, s, k) by {
                    if sw {
                        lemma_discrepancy_pad(c0, c1, s, k);
                    } else {
                        assert(c1 =~= c0);
                    }
                }
            }
            let a = match d.div(b) {
                Some(a) => a,
                None => {
                    proof {
                        b.lemma_value_range();
                        assert(!is_unit(b.value(), p));
                        T::lemma_field();
                    }
                    return None;
                },
            };
            let mut j: usize = m;
            while j < cp.len()
                invariant
                    m <= j <= cp@.len(),
                    m >= 1,
                    cp@.len() == l + 1,
                    cp@.len() == c1.len(),
                    bp@.len() == l0 + 1,
                    bb == values(bp@),
                    l + 1 - m <= l0 + 1,
                    p == T::modulus(),
                    forall|t: int| 0 <= t < m ==> (#[trigger] cp@[t]).value() == c1[t],
                    forall|t: int| j <= t < cp@.len() ==> (#[trigger] cp@[t]).value() == c1[t],
                    forall|t: int|
                        m <= t < j ==> (#[trigger] cp@[t]).value() == sub_mod(
                            c1[t],
                            mul_mod(a.value(), bb[t - m], p),
                            p,
                        ),
                decreases cp@.len() - j,
            {
                let v = cp[j].sub(a.mul(bp[j - m]));
                cp.set(j, v);
                j += 1;
            }
            let ghost c2 = values(cp@);
            proof {
                assert forall|t: int| m <= t < c2.len() implies (#[trigger] c2[t]) % p == (c1[t]
                    - a.value() * bb[t - m]) % p by {
                    lemma_sub_mod_noop_right(c1[t], a.value() * bb[t - m], p);
                    lemma_mod_twice(c1[t] - a.value() * bb[t - m], p);
                }
                assert forall|t: int| c2.len() - m <= t < bb.len() implies #[trigger] bb[t] == 0 by {
                    assert(lb < t);
                }
                // the new polynomial generates the sequence up to and including position i
                assert forall|k: int| l <= k < i + 1 implies #[trigger] discrepancy(c2, s, k) % p
                    == 0 by {
                    lemma_discrepancy_combine(c1, bb, c2, s, a.value(), m as int, k, p);
                    let dc = discrepancy(c1, s, k);
                    let db = discrepancy(bb, s, k - m);
                    assert(dc == discrepancy(c0, s, k));
                    if k < i {
                        assert(l0 <= k);
                        assert(discrepancy(c0, s, k) % p == 0);
                        assert(lb <= k - m < i - m);
                        assert(discrepancy(bb, s, k - m) % p == 0);
                        lemma_mul_mod_noop_right(a.value(), db, p);
                        assert(a.value() * 0 == 0);
                        lemma_sub_mod_noop(dc, a.value() * db, p);
                    } else {
                        // d - (d / b) * b == 0
                        assert(k == i);
                        assert(l0 >= 1);
                        assert(db % p == b.value());
                        assert(dc % p == d.value());
                        let ib = inv_mod(b.value(), p);
                        lemma_inv_mod(b.value(), p);
                        assert(a.value() == (d.value() * ib) % p);
                        lemma_mul_mod_noop_right(a.value(), db, p);
                        lemma_mul_mod_noop_left(d.value() * ib, b.value(), p);
                        lemma_mul_is_associative(d.value(), ib, b.value());
                        lemma_mul_mod_noop_right(d.value(), ib * b.value(), p);
                        lemma_mul_is_commutative(ib, b.value());
                        assert(d.value() * 1 == d.value());
                        assert((a.value() * db) % p == d.value() % p);
                        lemma_sub_mod_noop(dc, a.value() * db, p);
                        lemma_mod_twice(dc, p);
                        assert((d.value() - d.value() % p) % p == 0) by {
                            lemma_small_mod(d.value() as nat, p as nat);
                            lemma_small_mod(0, p as nat);
                        }
                    }
                }
            }
            m += 1;
            if sw {
                bp = tmp;
                b = d;
                m = 1;
                proof {
                    lb = l0 as int;
                    assert(values(bp@) =~= c1);
                    assert forall|k: int| lb <= k < i + 1 - 1 implies #[trigger] discrepancy(
                        values(bp@),
                        s,
                        k,
                    ) % p == 0 by {
                        assert(discrepancy(c0, s, k) % p == 0);
                    }
                    lemma_small_mod(d.value() as nat, p as nat);
                }
            }
        }
        i += 1;
    }
    if l > max_deg {
        proof {
            assert(s.take(n as int) =~= s);
        }
        return None;
    }
    let mut res: Vec<T> = Vec::new();
    let mut j: usize = 1;
    while j < l + 1
        invariant
            1 <= j <= l + 1,
            l < usize::MAX,
            cp@.len() == l + 1,
            res@.len() == j - 1,
            p == T::modulus(),
            forall|t: int|
                0 <= t < j - 1 ==> (#[trigger] res@[t]).value() == neg_mod(cp@[t + 1].value(), p),
        decreases l + 1 - j,
    {
        res.push(cp[j].neg());
        j += 1;
    }
    proof {
        let c = values(cp@);
        let rec = values(res@);
        assert(s.take(n as int) =~= s);
        assert forall|t: int| 0 <= t < rec.len() implies (#[trigger] rec[t]) % p == (-c[t + 1]) % p by {
            lemma_mod_twice(-c[t + 1], p);
        }
        assert forall|k: int| rec.len() <= k < s.len() implies s[k] % p == #[trigger] predicted(
            rec,
            s,
            k,
        ) % p by {
            lemma_connection_recurrence(c, rec, s, k, p);
            assert(discrepancy(c, s, k) % p == 0);
        }
    }
    Some(res)
}

/// The values of a sequence of coefficient lists.
pub open spec fn values2<T: Zero>(ps: Seq<Vec<T>>) -> Seq<Seq<int>> {
    Seq::new(ps.len(), |r: int| values(ps[r]@))
}

/// The value at `x` of the polynomial with the coefficients `c`, constant term first.
pub open spec fn poly_eval(c: Seq<int>, x: int, p: int) -> int
    decreases c.len(),
{
    if c.len() == 0 {
        0
    } else {
        (c[0] + x * poly_eval(c.skip(1), x, p)) % p
    }
}

/// `c` without its trailing zeros, but for the last remaining coefficient.
pub open spec fn strip_zeros(c: Seq<int>) -> Seq<int>
    decreases c.len(),
{
    if c.len() > 1 && c.last() == 0 {
        strip_zeros(c.drop_last())
    } else {
        c
    }
}

/// `c` is the constant polynomial zero.
pub open spec fn is_zero_poly(c: Seq<int>) -> bool {
    c.len() == 1 && c[0] == 0
}

/// `ps` without its leading zero polynomials, but for the last remaining polynomial.
pub open spec fn drop_zero_polys(ps: Seq<Seq<int>>) -> Seq<Seq<int>>
    decreases ps.len(),
{
    if ps.len() > 1 && is_zero_poly(ps[0]) {
        drop_zero_polys(ps.skip(1))
    } else {
        ps
    }
}

/// Every polynomial of `ps` without its trailing zeros.
pub open spec fn strip_all(ps: Seq<Seq<int>>) -> Seq<Seq<int>> {
    Seq::new(ps.len(), |k: int| strip_zeros(ps[k]))
}

/// The left side of the recurrence at position `n`:
/// `ps[0](n) * s[n] + ps[1](n) * s[n + 1] + ...`, modulo `p`.
pub open spec fn recurrence_at(ps: Seq<Seq<int>>, s: Seq<int>, n: int, p: int) -> int {
    sum(|r: int| poly_eval(ps[r], n, p) * s[n + r], ps.len() as int) % p
}

/// `ps` is a recurrence with polynomial coefficients for `s`: its left side
/// vanishes at every position at which all the terms it speaks of exist.
pub open spec fn is_p_recurrence(ps: Seq<Seq<int>>, s: Seq<int>, p: int) -> bool {
    forall|n: int| 0 <= n && n + ps.len() <= s.len() ==> #[trigger] recurrence_at(ps, s, n, p) == 0
}

/// The number of unknowns of the system for `max_num` polynomials of degree `max_deg`.
pub open spec fn p_rec_size(max_deg: nat, max_num: nat) -> nat {
    max_num * (max_deg + 1)
}

/// The linear system whose unknowns are the coefficients of the polynomials.
///
/// Column `max_num * j + k` belongs to the coefficient of `n^j` in polynomial
/// `k`. Row `i`, but for the last, states the recurrence at position `i`; the
/// last row states that the coefficients of the last polynomial add up to one.
pub open spec fn p_rec_system(s: Seq<int>, max_deg: nat, max_num: nat, p: int) -> Seq<Seq<int>> {
    let sz = p_rec_size(max_deg, max_num);
    Seq::new(
        sz,
        |i: int|
            Seq::new(
                sz,
                |col: int|
                    if i < sz - 1 {
                        mul_mod(
                            s[i + col % (max_num as int)],
                            pow_mod(i, (col / (max_num as int)) as nat, p),
                            p,
                        )
                    } else if col % (max_num as int) == max_num - 1 {
                        1int
                    } else {
                        0int
                    },
            ),
    )
}

/// The right side of the systems: zero, but for a one in the last row.
pub open spec fn unit_target(sz: nat) -> Seq<int> {
    Seq::new(sz, |i: int| if i == sz - 1 { 1int } else { 0int })
}

/// The solution vector `x` as `max_num` coefficient lists.
pub open spec fn unflatten(x: Seq<int>, max_deg: nat, max_num: nat) -> Seq<Seq<int>> {
    Seq::new(max_num, |k: int| Seq::new(max_deg + 1, |j: int| x[max_num * j + k]))
}

/// The recurrence that the solution `x` of the system stands for, in its
/// canonical form.
pub open spec fn p_rec_candidate(x: Seq<int>, max_deg: nat, max_num: nat) -> Seq<Seq<int>> {
    drop_zero_polys(strip_all(unflatten(x, max_deg, max_num)))
}

/// `s` has a linear recurrence with constant coefficients of order at most `max_deg`.
pub open spec fn has_linear_recurrence(s: Seq<int>, max_deg: nat, p: int) -> bool {
    exists|rec: Seq<int>| rec.len() <= max_deg && #[trigger] is_linear_recurrence(rec, s, p)
}

/// The system for `max_num` polynomials of degree `max_deg` has a basic
/// solution whose recurrence holds on the whole of `s`.
pub open spec fn p_rec_found(s: Seq<int>, max_deg: nat, max_num: nat, p: int) -> bool {
    exists|x: Seq<int>|
        {
            &&& #[trigger] is_basic_solution(
                p_rec_system(s, max_deg, max_num, p),
                unit_target(p_rec_size(max_deg, max_num)),
                x,
                p_rec_size(max_deg, max_num),
                p,
            )
            &&& is_p_recurrence(p_rec_candidate(x, max_deg, max_num), s, p)
        }
}

/// The search for `max_num` polynomials of degree `max_deg` comes to
/// nothing: `s` is too short for the system, the system has no solution, or
/// it has a basic solution whose recurrence fails somewhere on `s`.
pub open spec fn p_rec_missed(s: Seq<int>, max_deg: nat, max_num: nat, p: int) -> bool {
    ||| p_rec_size(max_deg, max_num) + max_num >= s.len() + 3
    ||| forall|x: Seq<int>|
        x.len() == p_rec_size(max_deg, max_num) ==> !#[trigger] solves(
            p_rec_system(s, max_deg, max_num, p),
            x,
            unit_target(p_rec_size(max_deg, max_num)),
            p,
        )
    ||| exists|x: Seq<int>|
        {
            &&& #[trigger] is_basic_solution(
                p_rec_system(s, max_deg, max_num, p),
                unit_target(p_rec_size(max_deg, max_num)),
                x,
                p_rec_size(max_deg, max_num),
                p,
            )
            &&& !is_p_recurrence(p_rec_candidate(x, max_deg, max_num), s, p)
        }
}

/// The system for `P(n) * s[n + 1] == Q(n) * s[n]`: the even columns belong
/// to the coefficients of `Q`, the odd ones to those of `P`; the last row
/// states that the coefficients of `P` add up to one.
pub open spec fn hyper_system(s: Seq<int>, max_deg: nat, p: int) -> Seq<Seq<int>> {
    let sz = 2 * (max_deg + 1);
    Seq::new(
        sz,
        |i: int|
            Seq::new(
                sz,
                |col: int|
                    if i < sz - 1 {
                        if col % 2 == 0 {
                            mul_mod(s[i], pow_mod(i, (col / 2) as nat, p), p)
                        } else {
                            mul_mod(neg_mod(s[i + 1], p), pow_mod(i, (col / 2) as nat, p), p)
                        }
                    } else if col % 2 == 1 {
                        1int
                    } else {
                        0int
                    },
            ),
    )
}

/// The entries of `x` at the positions `offset, offset + 2, ...`.
pub open spec fn every_other(x: Seq<int>, offset: int, count: nat) -> Seq<int> {
    Seq::new(count, |j: int| x[2 * j + offset])
}

/// `pp[n] * s[n + 1] == qq[n] * s[n]` at every position `n` with both terms.
pub open spec fn is_hypergeometric(pp: Seq<int>, qq: Seq<int>, s: Seq<int>, p: int) -> bool {
    forall|n: int|
        0 <= n && n + 1 < s.len() ==> #[trigger] mul_mod(poly_eval(pp, n, p), s[n + 1], p)
            == mul_mod(poly_eval(qq, n, p), s[n], p)
}

/// The value of a polynomial does not depend on the representative of its argument.
proof fn lemma_poly_eval_mod(c: Seq<int>, x: int, p: int)
    requires
        p > 0,
    ensures
        poly_eval(c, x % p, p) == poly_eval(c, x, p),
    decreases c.len(),
{
    if c.len() > 0 {
        lemma_poly_eval_mod(c.skip(1), x, p);
        let v = poly_eval(c.skip(1), x, p);
        lemma_mul_mod_noop_left(x, v, p);
        lemma_add_mod_noop_right(c[0], x * v, p);
        lemma_add_mod_noop_right(c[0], (x % p) * v, p);
    }
}

/// Powers do not depend on the representative of the base.
proof fn lemma_pow_mod_base(a: int, e: nat, p: int)
    requires
        p > 0,
    ensures
        pow_mod(a % p, e, p) == pow_mod(a, e, p),
    decreases e,
{
    if e > 0 {
        lemma_pow_mod_base(a, (e - 1) as nat, p);
        lemma_mul_mod_noop_left(a, pow_mod(a, (e - 1) as nat, p), p);
    }
}

/// The value of the polynomial with the coefficients `c` at `x`, by Horner's rule.
pub fn poly_eval_at<T: Ring>(c: &Vec<T>, x: T) -> (r: T)
    ensures
        r.value() == poly_eval(values(c@), x.value(), T::modulus()),
{
    let ghost p = T::modulus();
    let ghost cs = values(c@);
    let mut acc = T::zero();
    let mut j: usize = c.len();
    proof {
        T::lemma_modulus();
        assert(cs.skip(j as int).len() == 0);
    }
    while j > 0
        invariant
            j <= c@.len(),
            p == T::modulus(),
            p > 1,
            cs == values(c@),
            acc.value() == poly_eval(cs.skip(j as int), x.value(), p),
        decreases j,
    {
        j -= 1;
        let ghost prev = acc.value();
        acc = acc.mul(x).add(c[j]);
        proof {
            let tail = cs.skip(j as int);
            assert(tail.skip(1) =~= cs.skip(j + 1));
            assert(tail[0] == c@[j as int].value());
            lemma_mul_is_commutative(prev, x.value());
            lemma_add_mod_noop_right(tail[0], prev * x.value(), p);
        }
    }
    proof {
        assert(cs.skip(0) =~= cs);
    }
    acc
}

/// Removes the trailing zeros of `v`, but for its last remaining coefficient.
pub fn strip_trailing_zeros<T: Ring>(v: &mut Vec<T>)
    ensures
        values(final(v)@) == strip_zeros(values(old(v)@)),
{
    let ghost start = values(v@);
    let mut done = false;
    while !done
        invariant
            strip_zeros(values(v@)) == strip_zeros(start),
            done ==> strip_zeros(values(v@)) == values(v@),
        decreases v@.len() + (if done { 0int } else { 1int }),
    {
        if v.len() > 1 && v[v.len() - 1].is_zero() {
            let ghost before = values(v@);
            v.pop();
            proof {
                assert(values(v@) =~= before.drop_last());
            }
        } else {
            done = true;
        }
    }
}

/// A recurrence with polynomial coefficients of degree at most `max_deg`
/// that relates `max_num` consecutive terms of `seq`.
///
/// Returns polynomials `P_0, .., P_{r - 1}` with
/// `P_0(n) * seq[n] + .. + P_{r - 1}(n) * seq[n + r - 1] == 0` for every `n`
/// for which these terms exist. The coefficients solve the linear system
/// that states the recurrence at as many positions as there are unknowns,
/// with the coefficients of the last polynomial adding up to one; trailing
/// zero coefficients and leading zero polynomials are removed, and the
/// result is tested against the whole of `seq`.
pub fn find_p_recursive<T: Field>(seq: &[T], max_deg: usize, max_num: usize) -> (res: Option<
    Vec<Vec<T>>,
>)
    requires
        (seq@.len() + 3) * (seq@.len() + 3) <= usize::MAX,
    ensures
        max_num == 0 ==> res is None,
        p_rec_size(max_deg as nat, max_num as nat) + max_num >= seq@.len() + 3 ==> res is None,
        match res {
            Some(polys) => exists|x: Seq<int>|
                {
                    &&& #[trigger] is_basic_solution(
                        p_rec_system(values(seq@), max_deg as nat, max_num as nat, T::modulus()),
                        unit_target(p_rec_size(max_deg as nat, max_num as nat)),
                        x,
                        p_rec_size(max_deg as nat, max_num as nat),
                        T::modulus(),
                    )
                    &&& values2(polys@) == p_rec_candidate(x, max_deg as nat, max_num as nat)
                    &&& is_p_recurrence(values2(polys@), values(seq@), T::modulus())
                },
            None => {
                ||| max_num == 0
                ||| p_rec_size(max_deg as nat, max_num as nat) + max_num >= seq@.len() + 3
                ||| forall|x: Seq<int>|
                    x.len() == p_rec_size(max_deg as nat, max_num as nat) ==> !#[trigger] solves(
                        p_rec_system(values(seq@), max_deg as nat, max_num as nat, T::modulus()),
                        x,
                        unit_target(p_rec_size(max_deg as nat, max_num as nat)),
                        T::modulus(),
                    )
                ||| exists|x: Seq<int>|
                    {
                        &&& #[trigger] is_basic_solution(
                            p_rec_system(values(seq@), max_deg as nat, max_num as nat, T::modulus()),
                            unit_target(p_rec_size(max_deg as nat, max_num as nat)),
                            x,
                            p_rec_size(max_deg as nat, max_num as nat),
                            T::modulus(),
                        )
                        &&& !is_p_recurrence(
                            p_rec_candidate(x, max_deg as nat, max_num as nat),
                            values(seq@),
                            T::modulus(),
                        )
                    }
            },
        },
{
    let n: usize = seq.len();
    let ghost p = T::modulus();
    let ghost s = values(seq@);
    let ghost size = p_rec_size(max_deg as nat, max_num as nat);
    let ghost sys = p_rec_system(s, max_deg as nat, max_num as nat, p);
    let ghost e = unit_target(size);
    proof {
        T::lemma_modulus();
        assert(n + 3 <= (n + 3) * (n + 3)) by (nonlinear_arith);
    }
    if max_num == 0 {
        return None;
    }
    proof {
        assert(max_num * (max_deg + 1) >= max_deg + 1) by (nonlinear_arith)
            requires
                max_num >= 1,
        ;
    }
    let deg1: usize = match max_deg.checked_add(1) {
        Some(v) => v,
        None => {
            return None;
        },
    };
    let sz: usize = match max_num.checked_mul(deg1) {
        Some(v) => v,
        None => {
            return None;
        },
    };
    let total: usize = match sz.checked_add(max_num) {
        Some(v) => v,
        None => {
            return None;
        },
    };
    if total >= n + 3 {
        return None;
    }
    assert(sz == size);
    proof {
        assert(sz * sz <= (n + 3) * (n + 3)) by (nonlinear_arith)
            requires
                sz <= n + 3,
        ;
        assert(sz * (sz + 1) <= (n + 3) * (n + 3)) by (nonlinear_arith)
            requires
                sz + 1 <= n + 3,
        ;
    }
    let one = T::one();
    let zero = T::zero();
    let mut mat = Matrix::<T>::new(sz, sz);
    let mut targ: Vec<T> = Vec::new();
    let mut i: usize = 0;
    while i < sz - 1
        invariant
            i <= sz - 1,
            1 <= max_num,
            deg1 == max_deg + 1,
            sz == max_num * deg1,
            sz + max_num < n + 3,
            n == seq@.len(),
            s == values(seq@),
            p == T::modulus(),
            p > 1,
            sys == p_rec_system(s, max_deg as nat, max_num as nat, p),
            zero.value() == 0,
            one.value() == 1,
            mat.rows() == sz,
            mat.cols() == sz,
            targ@.len() == i,
            forall|t: int| 0 <= t < i ==> (#[trigger] targ@[t]).value() == 0,
            forall|i2: int, c2: int| 0 <= i2 < i && 0 <= c2 < sz ==> #[trigger] mat@[i2][c2] == sys[i2][c2],
            forall|i2: int, c2: int| i <= i2 < sz && 0 <= c2 < sz ==> #[trigger] mat@[i2][c2] == 0,
        decreases sz - 1 - i,
    {
        let xi = index_element::<T>(i);
        let mut jpow = one;
        let mut j: usize = 0;
        proof {
            assert(pow_mod(i as int, 0, p) == 1int % p);
            lemma_small_mod(1, p as nat);
        }
        while j < deg1
            invariant
                j <= deg1,
                i < sz - 1,
                1 <= max_num,
                deg1 == max_deg + 1,
                sz == max_num * deg1,
                sz + max_num < n + 3,
                n == seq@.len(),
                s == values(seq@),
                p == T::modulus(),
                p > 1,
                sys == p_rec_system(s, max_deg as nat, max_num as nat, p),
                xi.value() == (i as int) % p,
                jpow.value() == pow_mod(i as int, j as nat, p),
                mat.rows() == sz,
                mat.cols() == sz,
                forall|i2: int, c2: int|
                    0 <= i2 < i && 0 <= c2 < sz ==> #[trigger] mat@[i2][c2] == sys[i2][c2],
                forall|i2: int, c2: int| i < i2 < sz && 0 <= c2 < sz ==> #[trigger] mat@[i2][c2] == 0,
                forall|c2: int| 0 <= c2 < max_num * j ==> #[trigger] mat@[i as int][c2] == sys[i as int][c2],
            decreases deg1 - j,
        {
            let mut k: usize = 0;
            proof {
                lemma_flat_index(j as int, 0, deg1 as int, max_num as int);
                lemma_mul_is_commutative(j as int, max_num as int);
                lemma_mul_is_commutative(deg1 as int, max_num as int);
            }
            while k < max_num
                invariant
                    k <= max_num,
                    j < deg1,
                    i < sz - 1,
                    1 <= max_num,
                    deg1 == max_deg + 1,
                    sz == max_num * deg1,
                    max_num * j + max_num <= sz,
                    sz + max_num < n + 3,
                    n == seq@.len(),
                    s == values(seq@),
                    p == T::modulus(),
                    p > 1,
                    sys == p_rec_system(s, max_deg as nat, max_num as nat, p),
                    jpow.value() == pow_mod(i as int, j as nat, p),
                    mat.rows() == sz,
                    mat.cols() == sz,
                    forall|i2: int, c2: int|
                        0 <= i2 < i && 0 <= c2 < sz ==> #[trigger] mat@[i2][c2] == sys[i2][c2],
                    forall|i2: int, c2: int|
                        i < i2 < sz && 0 <= c2 < sz ==> #[trigger] mat@[i2][c2] == 0,
                    forall|c2: int|
                        0 <= c2 < max_num * j + k ==> #[trigger] mat@[i as int][c2] == sys[i as int][c2],
                decreases max_num - k,
            {
                let col: usize = max_num * j + k;
                let v = seq[i + k].mul(jpow);
                proof {
                    mat.lemma_view();
                    lemma_mul_is_commutative(j as int, max_num as int);
                    lemma_fundamental_div_mod_converse(col as int, max_num as int, j as int, k as int);
                    assert(sys[i as int][col as int] == v.value());
                }
                mat.set(i, col, v);
                k += 1;
            }
            let ghost before = jpow.value();
            jpow = jpow.mul(xi);
            proof {
                lemma_mul_mod_noop_right(before, i as int, p);
                lemma_mul_is_commutative(before, i as int);
                assert(max_num * (j + 1) == max_num * j + max_num) by (nonlinear_arith);
            }
            j += 1;
        }
        targ.push(zero);
        i += 1;
    }
    let mut j: usize = 0;
    while j < deg1
        invariant
            j <= deg1,
            1 <= max_num,
            deg1 == max_deg + 1,
            sz == max_num * deg1,
            p == T::modulus(),
            p > 1,
            one.value() == 1,
            sys == p_rec_system(s, max_deg as nat, max_num as nat, p),
            mat.rows() == sz,
            mat.cols() == sz,
            forall|i2: int, c2: int|
                0 <= i2 < sz - 1 && 0 <= c2 < sz ==> #[trigger] mat@[i2][c2] == sys[i2][c2],
            forall|c2: int| 0 <= c2 < max_num * j ==> #[trigger] mat@[sz - 1][c2] == sys[sz - 1][c2],
            forall|c2: int| max_num * j <= c2 < sz ==> #[trigger] mat@[sz - 1][c2] == 0,
        decreases deg1 - j,
    {
        proof {
            lemma_flat_index(j as int, max_num - 1, deg1 as int, max_num as int);
            lemma_mul_is_commutative(j as int, max_num as int);
            lemma_mul_is_commutative(deg1 as int, max_num as int);
            mat.lemma_view();
        }
        let col: usize = max_num * j + (max_num - 1);
        mat.set(sz - 1, col, one);
        proof {
            assert(max_num * (j + 1) == max_num * j + max_num) by (nonlinear_arith);
            assert forall|c2: int| 0 <= c2 < max_num * (j + 1) implies #[trigger] mat@[sz - 1][c2]
                == sys[sz - 1][c2] by {
                if c2 >= max_num * j {
                    lemma_fundamental_div_mod_converse(
                        c2,
                        max_num as int,
                        j as int,
                        c2 - max_num * j,
                    );
                }
            }
        }
        j += 1;
    }
    targ.push(one);
    proof {
        mat.lemma_view();
        assert(mat@ =~~= sys);
        assert(values(targ@) =~= e);
    }
    let ret = match mat.solve(targ.as_slice()) {
        Some(r) => r,
        None => {
            return None;
        },
    };
    let ghost x = values(ret@);
    let ghost raw = unflatten(x, max_deg as nat, max_num as nat);
    let mut polys: Vec<Vec<T>> = Vec::new();
    let mut k: usize = 0;
    while k < max_num
        invariant
            k <= max_num,
            1 <= max_num,
            deg1 == max_deg + 1,
            sz == max_num * deg1,
            ret@.len() == sz,
            x == values(ret@),
            raw == unflatten(x, max_deg as nat, max_num as nat),
            polys@.len() == k,
            forall|r: int| 0 <= r < k ==> values((#[trigger] polys@[r])@) == strip_zeros(raw[r]),
        decreases max_num - k,
    {
        let mut pk: Vec<T> = Vec::new();
        let mut j: usize = 0;
        while j < deg1
            invariant
                j <= deg1,
                k < max_num,
                deg1 == max_deg + 1,
                sz == max_num * deg1,
                ret@.len() == sz,
                pk@.len() == j,
                forall|t: int| 0 <= t < j ==> #[trigger] pk@[t] == ret@[max_num * t + k],
            decreases deg1 - j,
        {
            proof {
                lemma_flat_index(j as int, k as int, deg1 as int, max_num as int);
                lemma_mul_is_commutative(j as int, max_num as int);
                lemma_mul_is_commutative(deg1 as int, max_num as int);
            }
            pk.push(ret[max_num * j + k]);
            j += 1;
        }
        proof {
            assert forall|t: int| 0 <= t < deg1 implies values(pk@)[t] == #[trigger] raw[k as int][t] by {
                lemma_flat_index(t, k as int, deg1 as int, max_num as int);
                lemma_mul_is_commutative(t, max_num as int);
                lemma_mul_is_commutative(deg1 as int, max_num as int);
            }
            assert(values(pk@) =~= raw[k as int]);
        }
        strip_trailing_zeros(&mut pk);
        polys.push(pk);
        k += 1;
    }
    proof {
        assert(values2(polys@) =~= strip_all(raw));
    }
    let ghost stripped = strip_all(raw);
    let mut done = false;
    while !done
        invariant
            drop_zero_polys(values2(polys@)) == drop_zero_polys(stripped),
            done ==> drop_zero_polys(values2(polys@)) == values2(polys@),
        decreases polys@.len() + (if done { 0int } else { 1int }),
    {
        if polys.len() > 1 && polys[0].len() == 1 && polys[0][0].is_zero() {
            let ghost before = values2(polys@);
            polys.remove(0);
            proof {
                assert(is_zero_poly(before[0]));
                assert(values2(polys@) =~= before.skip(1));
            }
        } else {
            proof {
                let cur = values2(polys@);
                if cur.len() > 1 {
                    assert(cur[0] == values(polys@[0]@));
                    assert(!is_zero_poly(cur[0]));
                }
            }
            done = true;
        }
    }
    let ghost cand = values2(polys@);
    assert(cand == p_rec_candidate(x, max_deg as nat, max_num as nat));
    let np: usize = polys.len();
    if np <= n {
        let mut i: usize = 0;
        while i <= n - np
            invariant
                np <= n,
                n + 3 <= usize::MAX,
                i <= n - np + 1,
                np == polys@.len(),
                n == seq@.len(),
                s == values(seq@),
                p == T::modulus(),
                p > 1,
                cand == values2(polys@),
                cand == p_rec_candidate(x, max_deg as nat, max_num as nat),
                is_basic_solution(sys, e, x, size, p),
                sys == p_rec_system(values(seq@), max_deg as nat, max_num as nat, T::modulus()),
                e == unit_target(p_rec_size(max_deg as nat, max_num as nat)),
                size == p_rec_size(max_deg as nat, max_num as nat),
                forall|t: int| 0 <= t < i ==> #[trigger] recurrence_at(cand, s, t, p) == 0,
            decreases n - np + 1 - i,
        {
            let xi = index_element::<T>(i);
            let ghost f = |r: int| poly_eval(cand[r], i as int, p) * s[i + r];
            let mut sm = T::zero();
            let mut r: usize = 0;
            proof {
                lemma_small_mod(0, p as nat);
            }
            while r < np
                invariant
                    r <= np,
                    i + np <= n,
                    np == polys@.len(),
                    n == seq@.len(),
                    s == values(seq@),
                    p == T::modulus(),
                    p > 1,
                    cand == values2(polys@),
                    xi.value() == (i as int) % p,
                    f == |r: int| poly_eval(cand[r], i as int, p) * s[i + r],
                    sm.value() == sum(f, r as int) % p,
                decreases np - r,
            {
                let ghost before = sm.value();
                let psm = poly_eval_at(&polys[r], xi);
                sm = sm.add(psm.mul(seq[i + r]));
                proof {
                    lemma_poly_eval_mod(cand[r as int], i as int, p);
                    assert(psm.value() == poly_eval(cand[r as int], i as int, p));
                    let t = f(r as int);
                    assert(t == psm.value() * seq@[i + r].value());
                    lemma_add_mod_noop(sum(f, r as int), t, p);
                    lemma_add_mod_noop(before, t % p, p);
                    lemma_mod_twice(sum(f, r as int), p);
                    lemma_mod_twice(t, p);
                }
                r += 1;
            }
            assert(sm.value() == recurrence_at(cand, s, i as int, p));
            if !sm.is_zero() {
                proof {
                    assert(!is_p_recurrence(cand, s, p));
                }
                return None;
            }
            i += 1;
        }
    }
    Some(polys)
}

/// Polynomials `P` and `Q` of degree at most `max_deg` with
/// `P(n) * seq[n + 1] == Q(n) * seq[n]` for every `n` for which both terms exist.
///
/// Returns `(P, Q)`. The coefficients solve the linear system that states the
/// relation at as many positions as there are unknowns, with the coefficients
/// of `P` adding up to one; trailing zero coefficients are removed, and the
/// result is tested against the whole of `seq`.
pub fn find_hypergeometric<T: Field>(seq: &[T], max_deg: usize) -> (res: Option<(Vec<T>, Vec<T>)>)
    requires
        (seq@.len() + 3) * (seq@.len() + 3) <= usize::MAX,
    ensures
        2 * (max_deg + 1) > seq@.len() ==> res is None,
        match res {
            Some((pp, qq)) => exists|x: Seq<int>|
                {
                    &&& #[trigger] is_basic_solution(
                        hyper_system(values(seq@), max_deg as nat, T::modulus()),
                        unit_target((2 * (max_deg + 1)) as nat),
                        x,
                        (2 * (max_deg + 1)) as nat,
                        T::modulus(),
                    )
                    &&& values(pp@) == strip_zeros(every_other(x, 1, (max_deg + 1) as nat))
                    &&& values(qq@) == strip_zeros(every_other(x, 0, (max_deg + 1) as nat))
                    &&& is_hypergeometric(values(pp@), values(qq@), values(seq@), T::modulus())
                },
            None => {
                ||| 2 * (max_deg + 1) > seq@.len()
                ||| forall|x: Seq<int>|
                    x.len() == 2 * (max_deg + 1) ==> !#[trigger] solves(
                        hyper_system(values(seq@), max_deg as nat, T::modulus()),
                        x,
                        unit_target((2 * (max_deg + 1)) as nat),
                        T::modulus(),
                    )
                ||| exists|x: Seq<int>|
                    {
                        &&& #[trigger] is_basic_solution(
                            hyper_system(values(seq@), max_deg as nat, T::modulus()),
                            unit_target((2 * (max_deg + 1)) as nat),
                            x,
                            (2 * (max_deg + 1)) as nat,
                            T::modulus(),
                        )
                        &&& !is_hypergeometric(
                            strip_zeros(every_other(x, 1, (max_deg + 1) as nat)),
                            strip_zeros(every_other(x, 0, (max_deg + 1) as nat)),
                            values(seq@),
                            T::modulus(),
                        )
                    }
            },
        },
{
    let n: usize = seq.len();
    let ghost p = T::modulus();
    let ghost s = values(seq@);
    let ghost size = (2 * (max_deg + 1)) as nat;
    let ghost sys = hyper_system(s, max_deg as nat, p);
    let ghost e = unit_target(size);
    proof {
        T::lemma_modulus();
        assert(n + 3 <= (n + 3) * (n + 3)) by (nonlinear_arith);
    }
    let deg1: usize = match max_deg.checked_add(1) {
        Some(v) => v,
        None => {
            return None;
        },
    };
    let sz: usize = match deg1.checked_mul(2) {
        Some(v) => v,
        None => {
            return None;
        },
    };
    if sz > n {
        return None;
    }
    assert(sz == size);
    proof {
        assert(sz * sz <= (n + 3) * (n + 3)) by (nonlinear_arith)
            requires
                sz <= n + 3,
        ;
        assert(sz * (sz + 1) <= (n + 3) * (n + 3)) by (nonlinear_arith)
            requires
                sz + 1 <= n + 3,
        ;
    }
    let one = T::one();
    let zero = T::zero();
    let mut mat = Matrix::<T>::new(sz, sz);
    let mut targ: Vec<T> = Vec::new();
    let mut i: usize = 0;
    while i < sz - 1
        invariant
            i <= sz - 1,
            deg1 == max_deg + 1,
            sz == 2 * deg1,
            sz <= n,
            n == seq@.len(),
            s == values(seq@),
            p == T::modulus(),
            p > 1,
            sys == hyper_system(s, max_deg as nat, p),
            zero.value() == 0,
            one.value() == 1,
            mat.rows() == sz,
            mat.cols() == sz,
            targ@.len() == i,
            forall|t: int| 0 <= t < i ==> (#[trigger] targ@[t]).value() == 0,
            forall|i2: int, c2: int| 0 <= i2 < i && 0 <= c2 < sz ==> #[trigger] mat@[i2][c2] == sys[i2][c2],
            forall|i2: int, c2: int| i <= i2 < sz && 0 <= c2 < sz ==> #[trigger] mat@[i2][c2] == 0,
        decreases sz - 1 - i,
    {
        let xi = index_element::<T>(i);
        let here = seq[i];
        let next = seq[i + 1].neg();
        let mut jpow = one;
        let mut j: usize = 0;
        proof {
            assert(pow_mod(i as int, 0, p) == 1int % p);
            lemma_small_mod(1, p as nat);
        }
        while j < deg1
            invariant
                j <= deg1,
                i < sz - 1,
                deg1 == max_deg + 1,
                sz == 2 * deg1,
                sz <= n,
                n == seq@.len(),
                s == values(seq@),
                p == T::modulus(),
                p > 1,
                sys == hyper_system(s, max_deg as nat, p),
                xi.value() == (i as int) % p,
                here.value() == s[i as int],
                next.value() == neg_mod(s[i + 1], p),
                jpow.value() == pow_mod(i as int, j as nat, p),
                mat.rows() == sz,
                mat.cols() == sz,
                forall|i2: int, c2: int|
                    0 <= i2 < i && 0 <= c2 < sz ==> #[trigger] mat@[i2][c2] == sys[i2][c2],
                forall|i2: int, c2: int| i < i2 < sz && 0 <= c2 < sz ==> #[trigger] mat@[i2][c2] == 0,
                forall|c2: int| 0 <= c2 < 2 * j ==> #[trigger] mat@[i as int][c2] == sys[i as int][c2],
            decreases deg1 - j,
        {
            proof { mat.lemma_view(); }
            mat.set(i, 2 * j, here.mul(jpow));
            proof { mat.lemma_view(); }
            mat.set(i, 2 * j + 1, next.mul(jpow));
            let ghost before = jpow.value();
            jpow = jpow.mul(xi);
            proof {
                lemma_mul_mod_noop_right(before, i as int, p);
                lemma_mul_is_commutative(before, i as int);
            }
            j += 1;
        }
        targ.push(zero);
        i += 1;
    }
    let mut j: usize = 0;
    while j < deg1
        invariant
            j <= deg1,
            deg1 == max_deg + 1,
            sz == 2 * deg1,
            p == T::modulus(),
            p > 1,
            one.value() == 1,
            sys == hyper_system(s, max_deg as nat, p),
            mat.rows() == sz,
            mat.cols() == sz,
            forall|i2: int, c2: int|
                0 <= i2 < sz - 1 && 0 <= c2 < sz ==> #[trigger] mat@[i2][c2] == sys[i2][c2],
            forall|c2: int| 0 <= c2 < 2 * j ==> #[trigger] mat@[sz - 1][c2] == sys[sz - 1][c2],
            forall|c2: int| 2 * j <= c2 < sz ==> #[trigger] mat@[sz - 1][c2] == 0,
        decreases deg1 - j,
    {
        proof { mat.lemma_view(); }
        mat.set(sz - 1, 2 * j + 1, one);
        j += 1;
    }
    targ.push(one);
    proof {
        mat.lemma_view();
        assert(mat@ =~~= sys);
        assert(values(targ@) =~= e);
    }
    let ret = match mat.solve(targ.as_slice()) {
        Some(r) => r,
        None => {
            return None;
        },
    };
    let ghost x = values(ret@);
    let mut pp: Vec<T> = Vec::new();
    let mut qq: Vec<T> = Vec::new();
    let mut j: usize = 0;
    while j < deg1
        invariant
            j <= deg1,
            deg1 == max_deg + 1,
            sz == 2 * deg1,
            ret@.len() == sz,
            pp@.len() == j,
            qq@.len() == j,
            forall|t: int| 0 <= t < j ==> #[trigger] qq@[t] == ret@[2 * t],
            forall|t: int| 0 <= t < j ==> #[trigger] pp@[t] == ret@[2 * t + 1],
        decreases deg1 - j,
    {
        qq.push(ret[2 * j]);
        pp.push(ret[2 * j + 1]);
        j += 1;
    }
    proof {
        assert(values(pp@) =~= every_other(x, 1, deg1 as nat));
        assert(values(qq@) =~= every_other(x, 0, deg1 as nat));
    }
    strip_trailing_zeros(&mut pp);
    strip_trailing_zeros(&mut qq);
    let ghost pv = values(pp@);
    let ghost qv = values(qq@);
    let mut i: usize = 0;
    while i + 1 < n
        invariant
            i + 1 <= n,
            n == seq@.len(),
            s == values(seq@),
            p == T::modulus(),
            p > 1,
            pv == values(pp@),
            qv == values(qq@),
            pv == strip_zeros(every_other(x, 1, (max_deg + 1) as nat)),
            qv == strip_zeros(every_other(x, 0, (max_deg + 1) as nat)),
            is_basic_solution(sys, e, x, size, p),
            sys == hyper_system(values(seq@), max_deg as nat, T::modulus()),
            e == unit_target((2 * (max_deg + 1)) as nat),
            size == (2 * (max_deg + 1)) as nat,
            forall|t: int|
                0 <= t < i ==> #[trigger] mul_mod(poly_eval(pv, t, p), s[t + 1], p) == mul_mod(
                    poly_eval(qv, t, p),
                    s[t],
                    p,
                ),
        decreases n - i,
    {
        let xi = index_element::<T>(i);
        let psm = poly_eval_at(&pp, xi);
        let qsm = poly_eval_at(&qq, xi);
        proof {
            lemma_poly_eval_mod(pv, i as int, p);
            lemma_poly_eval_mod(qv, i as int, p);
        }
        if !psm.mul(seq[i + 1]).equals(&qsm.mul(seq[i])) {
            proof {
                assert(mul_mod(poly_eval(pv, i as int, p), s[i + 1], p) != mul_mod(
                    poly_eval(qv, i as int, p),
                    s[i as int],
                    p,
                ));
                assert(!is_hypergeometric(pv, qv, s, p));
            }
            return None;
        }
        i += 1;
    }
    Some((pp, qq))
}

} // verus!
