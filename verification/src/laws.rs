//! The algebraic laws of the coefficient fields and of series arithmetic.
//!
//! Each law is stated over the functions by which the contracts of the
//! executable operations are stated, so that it holds of the results of
//! these operations.

use crate::coeff::{MersP31, MersP61, ModIntP32};
use crate::fixedseq::FixedSeq;
use crate::interpolate::{hyper_system, p_rec_candidate, p_rec_size, p_rec_system, unit_target};
use crate::linalg::{
    dot, identity, is_basic_solution, is_canonical, is_rref, is_table, lemma_basic_solution_unique,
    lemma_rref_unique, mat_mul, mat_vec, same_kernel, solves,
};
use crate::mathtypes::{Field, Group, Zero};
use crate::modarith::{
    add_mod, all_units, divides, inv_mod, is_inverse, is_unit, lemma_add_mod_assoc,
    lemma_add_mod_noop_left, lemma_add_neg_mod, lemma_inv_mod, lemma_mul_mod_assoc,
    lemma_mul_mod_comm, lemma_mul_mod_distrib, lemma_mul_mod_one, lemma_one_is_unit, lemma_unit_mod,
    lemma_unit_nonzero, mul_mod, neg_mod, quot_mod, sub_mod, units_upto,
};
use crate::powerseries::{
    lah_number, lemma_factorial_unit, s_lah, s_lah_inv, euler_feedback, euler_inv_feedback, lemma_euler_inv_pre_len, lemma_euler_prefix_len, s_euler,
    s_euler_inv, s_euler_inv_pre, s_euler_prefix, s_point, divisor_term, mobius, mobius_partial,
    s_mobius, s_mobius_inv, s_mu, s_ones, s_inverse, s_inverse_ok, s_revert_iter, s_revert_ok,
    s_revert_step, lemma_rows_len, lemma_stirling_zero, s_stirling, s_stirling_inv, stirling1,
    stirling2, s_binomial, s_binomial_inv, s_diff_rows, s_sum_rows, s_pow, s_pow_loop, s_ratpow_ok,
    s_root, s_root_correction, s_root_error, s_root_iter, s_root_ok, s_root_slope, s_sqrt,
};
use crate::sums::{
    factorial, lemma_sum_cong, lemma_sum_exchange, lemma_sum_ext, lemma_sum_linear, lemma_sum_reverse,
    lemma_sum_scale, lemma_sum_single, lemma_sum_split, lemma_sum_tail_zero, lemma_sum_update,
    lemma_sum_zero, sum,
};
use crate::truncated::{
    conv, div_feedback, first_nonzero, is_divisor, is_reduced, is_substitutable, lemma_div_prefix,
    min_len, s_add, s_compose, s_compose_from, s_div, s_div_prefix, s_identity, s_mul, s_promote,
    s_lshift, s_sub, s_tail_term, s_zero,
};
use vstd::arithmetic::div_mod::*;
use vstd::arithmetic::mul::*;
use vstd::prelude::*;

verus! {

/// Every element and its negative add up to zero.
pub proof fn law_add_negative<T: Field>(x: T)
    ensures
        add_mod(x.value(), neg_mod(x.value(), T::modulus()), T::modulus()) == 0,
{
    T::lemma_modulus();
    lemma_add_neg_mod(x.value(), T::modulus());
}

/// Multiplying by one changes no element.
pub proof fn law_mul_one<T: Field>(x: T)
    ensures
        mul_mod(x.value(), 1, T::modulus()) == x.value(),
{
    T::lemma_modulus();
    x.lemma_value_range();
    lemma_mul_mod_one(x.value(), T::modulus());
}

/// Addition does not depend on the order of the summands.
pub proof fn law_add_commutative<T: Field>(x: T, y: T)
    ensures
        add_mod(x.value(), y.value(), T::modulus()) == add_mod(y.value(), x.value(), T::modulus()),
{
}

/// Addition is associative.
pub proof fn law_add_associative<T: Field>(x: T, y: T, z: T)
    ensures
        add_mod(add_mod(x.value(), y.value(), T::modulus()), z.value(), T::modulus()) == add_mod(
            x.value(),
            add_mod(y.value(), z.value(), T::modulus()),
            T::modulus(),
        ),
{
    T::lemma_modulus();
    lemma_add_mod_assoc(x.value(), y.value(), z.value(), T::modulus());
}

/// Multiplication does not depend on the order of the factors.
pub proof fn law_mul_commutative<T: Field>(x: T, y: T)
    ensures
        mul_mod(x.value(), y.value(), T::modulus()) == mul_mod(y.value(), x.value(), T::modulus()),
{
    lemma_mul_mod_comm(x.value(), y.value(), T::modulus());
}

/// Multiplication is associative.
pub proof fn law_mul_associative<T: Field>(x: T, y: T, z: T)
    ensures
        mul_mod(mul_mod(x.value(), y.value(), T::modulus()), z.value(), T::modulus()) == mul_mod(
            x.value(),
            mul_mod(y.value(), z.value(), T::modulus()),
            T::modulus(),
        ),
{
    T::lemma_modulus();
    lemma_mul_mod_assoc(x.value(), y.value(), z.value(), T::modulus());
}

/// Multiplication distributes over addition.
pub proof fn law_mul_distributive<T: Field>(x: T, y: T, z: T)
    ensures
        mul_mod(x.value(), add_mod(y.value(), z.value(), T::modulus()), T::modulus()) == add_mod(
            mul_mod(x.value(), y.value(), T::modulus()),
            mul_mod(x.value(), z.value(), T::modulus()),
            T::modulus(),
        ),
{
    T::lemma_modulus();
    lemma_mul_mod_distrib(x.value(), y.value(), z.value(), T::modulus());
}

/// Every invertible element times its inverse is one.
pub proof fn law_mul_inverse<T: Field>(x: T)
    requires
        is_unit(x.value(), T::modulus()),
    ensures
        mul_mod(x.value(), inv_mod(x.value(), T::modulus()), T::modulus()) == 1,
{
    T::lemma_modulus();
    lemma_inv_mod(x.value(), T::modulus());
}

/// Every nonzero element of a field has an inverse, and the product of
/// the two is one.
pub proof fn law_field_inverse<T: Field>(x: T)
    requires
        x.value() != 0,
    ensures
        is_unit(x.value(), T::modulus()),
        mul_mod(x.value(), inv_mod(x.value(), T::modulus()), T::modulus()) == 1,
{
    T::lemma_modulus();
    T::lemma_field();
    x.lemma_value_range();
    assert(is_unit(x.value(), T::modulus()));
    lemma_inv_mod(x.value(), T::modulus());
}

/// `n` has no divisor from `lo` up to but not including `hi`.
pub open spec fn no_divisor_between(n: int, lo: int, hi: int) -> bool
    decreases hi - lo,
{
    if lo >= hi {
        true
    } else {
        n % lo != 0 && no_divisor_between(n, lo + 1, hi)
    }
}

/// `n` is a prime number.
pub open spec fn is_prime(n: int) -> bool {
    n > 1 && forall|d: int| 1 < d < n ==> !#[trigger] divides(d, n)
}

proof fn lemma_no_divisor_at(n: int, lo: int, hi: int, k: int)
    requires
        0 < lo,
        no_divisor_between(n, lo, hi),
        lo <= k < hi,
    ensures
        n % k != 0,
    decreases hi - lo,
{
    if lo < k {
        lemma_no_divisor_at(n, lo + 1, hi, k);
    }
}

proof fn lemma_no_divisor_join(n: int, lo: int, mid: int, hi: int)
    requires
        0 < lo <= mid <= hi,
        no_divisor_between(n, lo, mid),
        no_divisor_between(n, mid, hi),
    ensures
        no_divisor_between(n, lo, hi),
    decreases mid - lo,
{
    if lo < mid {
        lemma_no_divisor_join(n, lo + 1, mid, hi);
    }
}

/// Eight integers in a row of which none divides `n`.
proof fn lemma_no_divisor_run(n: int, lo: int)
    requires
        lo > 0,
        n % lo != 0,
        n % (lo + 1) != 0,
        n % (lo + 2) != 0,
        n % (lo + 3) != 0,
        n % (lo + 4) != 0,
        n % (lo + 5) != 0,
        n % (lo + 6) != 0,
        n % (lo + 7) != 0,
    ensures
        no_divisor_between(n, lo, lo + 8),
{
    reveal_with_fuel(no_divisor_between, 9);
}

/// 65521 is a prime number: it has no divisor up to its square root.
pub proof fn lemma_65521_is_prime()
    ensures
        is_prime(65521),
{
    lemma_no_divisor_run(65521, 2);
    lemma_no_divisor_run(65521, 10);
    lemma_no_divisor_run(65521, 18);
    lemma_no_divisor_run(65521, 26);
    lemma_no_divisor_run(65521, 34);
    lemma_no_divisor_run(65521, 42);
    lemma_no_divisor_run(65521, 50);
    lemma_no_divisor_run(65521, 58);
    lemma_no_divisor_run(65521, 66);
    lemma_no_divisor_run(65521, 74);
    lemma_no_divisor_run(65521, 82);
    lemma_no_divisor_run(65521, 90);
    lemma_no_divisor_run(65521, 98);
    lemma_no_divisor_run(65521, 106);
    lemma_no_divisor_run(65521, 114);
    lemma_no_divisor_run(65521, 122);
    lemma_no_divisor_run(65521, 130);
    lemma_no_divisor_run(65521, 138);
    lemma_no_divisor_run(65521, 146);
    lemma_no_divisor_run(65521, 154);
    lemma_no_divisor_run(65521, 162);
    lemma_no_divisor_run(65521, 170);
    lemma_no_divisor_run(65521, 178);
    lemma_no_divisor_run(65521, 186);
    lemma_no_divisor_run(65521, 194);
    lemma_no_divisor_run(65521, 202);
    lemma_no_divisor_run(65521, 210);
    lemma_no_divisor_run(65521, 218);
    lemma_no_divisor_run(65521, 226);
    lemma_no_divisor_run(65521, 234);
    lemma_no_divisor_run(65521, 242);
    lemma_no_divisor_run(65521, 250);
    lemma_no_divisor_join(65521, 2, 10, 18);
    lemma_no_divisor_join(65521, 2, 18, 26);
    lemma_no_divisor_join(65521, 2, 26, 34);
    lemma_no_divisor_join(65521, 2, 34, 42);
    lemma_no_divisor_join(65521, 2, 42, 50);
    lemma_no_divisor_join(65521, 2, 50, 58);
    lemma_no_divisor_join(65521, 2, 58, 66);
    lemma_no_divisor_join(65521, 2, 66, 74);
    lemma_no_divisor_join(65521, 2, 74, 82);
    lemma_no_divisor_join(65521, 2, 82, 90);
    lemma_no_divisor_join(65521, 2, 90, 98);
    lemma_no_divisor_join(65521, 2, 98, 106);
    lemma_no_divisor_join(65521, 2, 106, 114);
    lemma_no_divisor_join(65521, 2, 114, 122);
    lemma_no_divisor_join(65521, 2, 122, 130);
    lemma_no_divisor_join(65521, 2, 130, 138);
    lemma_no_divisor_join(65521, 2, 138, 146);
    lemma_no_divisor_join(65521, 2, 146, 154);
    lemma_no_divisor_join(65521, 2, 154, 162);
    lemma_no_divisor_join(65521, 2, 162, 170);
    lemma_no_divisor_join(65521, 2, 170, 178);
    lemma_no_divisor_join(65521, 2, 178, 186);
    lemma_no_divisor_join(65521, 2, 186, 194);
    lemma_no_divisor_join(65521, 2, 194, 202);
    lemma_no_divisor_join(65521, 2, 202, 210);
    lemma_no_divisor_join(65521, 2, 210, 218);
    lemma_no_divisor_join(65521, 2, 218, 226);
    lemma_no_divisor_join(65521, 2, 226, 234);
    lemma_no_divisor_join(65521, 2, 234, 242);
    lemma_no_divisor_join(65521, 2, 242, 250);
    lemma_no_divisor_join(65521, 2, 250, 258);
    assert forall|d: int| 1 < d < 65521 implies !#[trigger] divides(d, 65521) by {
        if divides(d, 65521) {
            if d < 258 {
                lemma_no_divisor_at(65521, 2, 258, d);
            } else {
                let e = 65521int / d;
                lemma_fundamental_div_mod(65521, d);
                assert(65521 == d * e);
                assert(e < 258 && e > 1) by (nonlinear_arith)
                    requires
                        65521 == d * e,
                        258 <= d < 65521,
                ;
                lemma_mul_is_commutative(d, e);
                lemma_mod_multiples_basic(d, e);
                lemma_no_divisor_at(65521, 2, 258, e);
            }
        }
    }
}

/// A common divisor `g` of `a` and `b`, with integers `s` and `t` for which
/// `s * a + t * b == g`.
pub proof fn lemma_bezout(a: int, b: int) -> (r: (int, int, int))
    requires
        a >= 0,
        b >= 0,
        a + b > 0,
    ensures
        r.0 > 0,
        divides(r.0, a),
        divides(r.0, b),
        r.1 * a + r.2 * b == r.0,
    decreases b,
{
    if b == 0 {
        lemma_mod_self_0(a);
        assert(0int % a == 0);
        assert(1 * a + 0 * b == a);
        (a, 1, 0)
    } else {
        lemma_mod_bound(a, b);
        let (g, s, t) = lemma_bezout(b, a % b);
        let q = a / b;
        lemma_fundamental_div_mod(a, b);
        // a == b * q + a % b, and g divides b and a % b
        lemma_mul_mod_noop_left(b, q, g);
        assert(0 * q == 0);
        lemma_add_mod_noop(b * q, a % b, g);
        assert(divides(g, a));
        assert(t * a + (s - q * t) * b == g) by (nonlinear_arith)
            requires
                s * b + t * (a % b) == g,
                a == b * q + a % b,
        ;
        (g, t, s - q * t)
    }
}

/// Modulo a prime number every nonzero residue has an inverse.
pub proof fn lemma_prime_field(p: int)
    requires
        is_prime(p),
    ensures
        all_units(p),
{
    assert forall|a: int| 0 < a < p implies #[trigger] is_unit(a, p) by {
        let (g, s, t) = lemma_bezout(p, a);
        if g > a {
            lemma_small_mod(a as nat, g as nat);
        }
        assert(g <= a);
        if g > 1 {
            assert(divides(g, p));
        }
        assert(g == 1);
        // t * a == 1 - s * p
        lemma_mod_multiples_vanish(-s, t * a, p);
        assert(p * (-s) + t * a == 1 - 2 * (s * p)) by (nonlinear_arith)
            requires
                s * p + t * a == 1,
        ;
        lemma_mod_multiples_vanish(-2 * s, 1, p);
        assert(p * (-2 * s) + 1 == 1 - 2 * (s * p)) by (nonlinear_arith);
        lemma_small_mod(1, p as nat);
        assert((t * a) % p == 1);
        lemma_mul_mod_noop_left(t, a, p);
        lemma_mul_is_commutative(t % p, a);
        lemma_mod_bound(t, p);
        assert(is_inverse(a, t % p, p));
    }
}

/// The integers modulo 65521 form a field: every nonzero element of
/// `ModIntP32` has an inverse.
pub proof fn law_modintp32_is_field()
    ensures
        all_units(ModIntP32::modulus()),
{
    lemma_65521_is_prime();
    lemma_prime_field(65521);
}

/// No integer from 2 up to the square root of 2^31 - 1 divides 2^31 - 1.
#[verifier::rlimit(100)]
proof fn lemma_m31_no_small_divisor(d: u32)
    requires
        1 < d < 46342,
    ensures
        2147483647u32 % d != 0,
{
    if 1 < d && d <= 4000 {
        assert(2147483647u32 % d != 0) by (bit_vector)
            requires
                1 < d && d <= 4000,
        ;
    }
    if 4000 < d && d <= 8000 {
        assert(2147483647u32 % d != 0) by (bit_vector)
            requires
                4000 < d && d <= 8000,
        ;
    }
    if 8000 < d && d <= 12000 {
        assert(2147483647u32 % d != 0) by (bit_vector)
            requires
                8000 < d && d <= 12000,
        ;
    }
    if 12000 < d && d <= 18000 {
        assert(2147483647u32 % d != 0) by (bit_vector)
            requires
                12000 < d && d <= 18000,
        ;
    }
    if 18000 < d && d <= 24000 {
        assert(2147483647u32 % d != 0) by (bit_vector)
            requires
                18000 < d && d <= 24000,
        ;
    }
    if 24000 < d && d <= 30000 {
        assert(2147483647u32 % d != 0) by (bit_vector)
            requires
                24000 < d && d <= 30000,
        ;
    }
    if 30000 < d && d <= 38000 {
        assert(2147483647u32 % d != 0) by (bit_vector)
            requires
                30000 < d && d <= 38000,
        ;
    }
    if 38000 < d && d <= 46341 {
        assert(2147483647u32 % d != 0) by (bit_vector)
            requires
                38000 < d && d <= 46341,
        ;
    }
}

/// 2^31 - 1 is a prime number.
pub proof fn lemma_m31_is_prime()
    ensures
        is_prime(2147483647),
{
    assert forall|d: int| 1 < d < 2147483647 implies !#[trigger] divides(d, 2147483647) by {
        if divides(d, 2147483647) {
            if d < 46342 {
                lemma_m31_no_small_divisor(d as u32);
            } else {
                let e = 2147483647int / d;
                lemma_fundamental_div_mod(2147483647, d);
                assert(2147483647 == d * e);
                assert(e < 46342 && e > 1) by (nonlinear_arith)
                    requires
                        2147483647 == d * e,
                        46342 <= d < 2147483647,
                ;
                lemma_mul_is_commutative(d, e);
                lemma_mod_multiples_basic(d, e);
                lemma_m31_no_small_divisor(e as u32);
            }
        }
    }
}

/// The integers modulo 2^31 - 1 form a field: every nonzero element of
/// `MersP31` has an inverse.
pub proof fn law_mersp31_is_field()
    ensures
        all_units(MersP31::modulus()),
{
    lemma_m31_is_prime();
    lemma_prime_field(2147483647);
}

/// The integers modulo 2^61 - 1 form a field: every nonzero element of
/// `MersP61` has an inverse.
pub proof fn law_mersp61_is_field()
    ensures
        all_units(MersP61::modulus()),
{
    crate::mersenne::lemma_m61_all_units();
}

/// Addition of series is associative.
pub proof fn law_series_add_associative(f: Seq<int>, g: Seq<int>, h: Seq<int>, p: int)
    requires
        p > 0,
    ensures
        s_add(s_add(f, g, p), h, p) == s_add(f, s_add(g, h, p), p),
{
    let l = s_add(s_add(f, g, p), h, p);
    let r = s_add(f, s_add(g, h, p), p);
    assert forall|i: int| 0 <= i < l.len() implies l[i] == r[i] by {
        lemma_add_mod_assoc(f[i], g[i], h[i], p);
    }
    assert(l =~= r);
}

/// The Cauchy product of two sequences does not depend on their order.
pub proof fn lemma_conv_commutative(f: Seq<int>, g: Seq<int>, k: int)
    ensures
        conv(f, g, k) == conv(g, f, k),
{
    let a = |i: int| f[i] * g[k - i];
    let b = |i: int| g[i] * f[k - i];
    assert forall|i: int| 0 <= i < k + 1 implies #[trigger] b(i) == a(k + 1 - 1 - i) by {
        lemma_mul_is_commutative(g[i], f[k - i]);
        assert(k - (k - i) == i);
    }
    lemma_sum_reverse(a, b, k + 1);
}

/// Multiplication of series is commutative.
pub proof fn law_series_mul_commutative(f: Seq<int>, g: Seq<int>, p: int)
    ensures
        s_mul(f, g, p) == s_mul(g, f, p),
{
    let l = s_mul(f, g, p);
    let r = s_mul(g, f, p);
    assert forall|k: int| 0 <= k < l.len() implies l[k] == r[k] by {
        lemma_conv_commutative(f, g, k);
    }
    assert(l =~= r);
}

/// The Cauchy product of three sequences does not depend on the grouping.
pub proof fn lemma_conv_associative(a: Seq<int>, b: Seq<int>, c: Seq<int>, k: int, p: int)
    requires
        p > 0,
        0 <= k,
        k < a.len(),
        k < b.len(),
        k < c.len(),
    ensures
        conv(s_mul(a, b, p), c, k) % p == conv(a, s_mul(b, c, p), k) % p,
{
    let ab = s_mul(a, b, p);
    let bc = s_mul(b, c, p);
    let f = |i: int, j: int| if j <= i { a[j] * b[i - j] * c[k - i] } else { 0int };
    let l1 = |i: int| ab[i] * c[k - i];
    let r1 = |j: int| a[j] * bc[k - j];
    let by_row = |i: int| sum(|j: int| f(i, j), k + 1);
    let by_col = |j: int| sum(|i: int| f(i, j), k + 1);
    assert forall|i: int| 0 <= i < k + 1 implies (#[trigger] l1(i)) % p == by_row(i) % p by {
        let row = |j: int| f(i, j);
        let inner = |j: int| a[j] * b[i - j];
        lemma_sum_tail_zero(row, i + 1, k + 1);
        assert forall|j: int| 0 <= j < i + 1 implies #[trigger] row(j) == c[k - i] * inner(j) by {
            lemma_mul_is_commutative(a[j] * b[i - j], c[k - i]);
        }
        lemma_sum_scale(row, c[k - i], inner, i + 1);
        assert(ab[i] == conv(a, b, i) % p);
        lemma_mul_mod_noop_left(conv(a, b, i), c[k - i], p);
        lemma_mul_is_commutative(conv(a, b, i), c[k - i]);
    }
    lemma_sum_cong(l1, by_row, k + 1, p);
    assert forall|j: int| 0 <= j < k + 1 implies (#[trigger] r1(j)) % p == by_col(j) % p by {
        let col = |i: int| f(i, j);
        let shifted = |l: int| col(j + l);
        let inner = |l: int| b[l] * c[k - j - l];
        lemma_sum_split(col, shifted, j, k + 1);
        lemma_sum_zero(col, j);
        assert forall|l: int| 0 <= l < k + 1 - j implies #[trigger] shifted(l) == a[j] * inner(l) by {
            assert(j + l - j == l);
            assert(k - (j + l) == k - j - l);
            lemma_mul_is_associative(a[j], b[l], c[k - j - l]);
        }
        lemma_sum_scale(shifted, a[j], inner, k + 1 - j);
        assert(bc[k - j] == conv(b, c, k - j) % p);
        lemma_mul_mod_noop_right(a[j], conv(b, c, k - j), p);
    }
    lemma_sum_cong(r1, by_col, k + 1, p);
    lemma_sum_exchange(by_row, by_col, f, k + 1, k + 1);
}

/// Multiplication of series is associative.
pub proof fn law_series_mul_associative(f: Seq<int>, g: Seq<int>, h: Seq<int>, p: int)
    requires
        p > 0,
    ensures
        s_mul(s_mul(f, g, p), h, p) == s_mul(f, s_mul(g, h, p), p),
{
    let l = s_mul(s_mul(f, g, p), h, p);
    let r = s_mul(f, s_mul(g, h, p), p);
    assert forall|k: int| 0 <= k < l.len() implies l[k] == r[k] by {
        lemma_conv_associative(f, g, h, k, p);
    }
    assert(l =~= r);
}

/// The power `a^e` as a repeated product: `a^0` is the series one, and
/// `a^e` is `a^(e - 1) * a`.
pub open spec fn s_power(a: Seq<int>, e: nat, p: int) -> Seq<int>
    decreases e,
{
    if e == 0 {
        s_promote(1, a.len())
    } else {
        s_mul(s_power(a, (e - 1) as nat, p), a, p)
    }
}

/// A power has the length of its base, and canonical coefficients.
pub proof fn lemma_power_shape(a: Seq<int>, e: nat, p: int)
    requires
        p > 1,
    ensures
        s_power(a, e, p).len() == a.len(),
        is_reduced(s_power(a, e, p), p),
    decreases e,
{
    if e > 0 {
        lemma_power_shape(a, (e - 1) as nat, p);
        let r = s_power(a, e, p);
        assert forall|i: int| 0 <= i < r.len() implies 0 <= #[trigger] r[i] < p by {
            lemma_mod_bound(conv(s_power(a, (e - 1) as nat, p), a, i), p);
        }
    }
}

/// Multiplying a series by the series one on the right changes nothing.
proof fn lemma_mul_one_right(r: Seq<int>, p: int)
    requires
        p > 1,
        is_reduced(r, p),
    ensures
        s_mul(r, s_promote(1, r.len()), p) == r,
{
    lemma_mul_one_series(r, p);
    law_series_mul_commutative(r, s_promote(1, r.len()), p);
}

/// The power of a square is the power with twice the exponent.
proof fn lemma_power_of_square(a: Seq<int>, h: nat, p: int)
    requires
        p > 1,
    ensures
        s_power(s_mul(a, a, p), h, p) == s_power(a, 2 * h, p),
    decreases h,
{
    let sq = s_mul(a, a, p);
    if h == 0 {
        assert(sq.len() == a.len());
    } else {
        let h1 = (h - 1) as nat;
        lemma_power_of_square(a, h1, p);
        let w = s_power(a, 2 * h1, p);
        law_series_mul_associative(w, a, a, p);
        assert(s_power(a, (2 * h1 + 1) as nat, p) == s_mul(w, a, p));
        assert(s_power(a, 2 * h, p) == s_mul(s_power(a, (2 * h - 1) as nat, p), a, p));
    }
}

/// Squaring and multiplying from `res` gives `res` times the power.
proof fn lemma_pow_loop_power(res: Seq<int>, b: Seq<int>, e: nat, p: int)
    requires
        p > 1,
        res.len() == b.len(),
        is_reduced(res, p),
    ensures
        s_pow_loop(res, b, e, p) == s_mul(res, s_power(b, e, p), p),
    decreases e,
{
    if e == 0 {
        lemma_mul_one_right(res, p);
    } else {
        let h = e / 2;
        let sq = s_mul(b, b, p);
        let w = s_power(b, 2 * h, p);
        lemma_power_of_square(b, h, p);
        if e % 2 == 1 {
            let res2 = s_mul(res, b, p);
            assert forall|i: int| 0 <= i < res2.len() implies 0 <= #[trigger] res2[i] < p by {
                lemma_mod_bound(conv(res, b, i), p);
            }
            lemma_pow_loop_power(res2, sq, h, p);
            law_series_mul_associative(res, b, w, p);
            law_series_mul_commutative(b, w, p);
            assert(s_power(b, e, p) == s_mul(s_power(b, (e - 1) as nat, p), b, p));
            assert((e - 1) as nat == 2 * h);
        } else {
            lemma_pow_loop_power(res, sq, h, p);
            assert(e == 2 * h);
        }
    }
}

/// The power of a series by squaring and multiplying is the repeated
/// product: `a^0` is one and `a^e` is `a^(e - 1) * a`.
pub proof fn law_pow_is_repeated_product(a: Seq<int>, e: nat, p: int)
    requires
        p > 1,
    ensures
        s_pow(a, e, p) == s_power(a, e, p),
{
    let one = s_promote(1, a.len());
    lemma_pow_loop_power(one, a, e, p);
    lemma_power_shape(a, e, p);
    lemma_mul_one_series(s_power(a, e, p), p);
}

/// Multiplication of series distributes over addition.
pub proof fn law_series_mul_distributive(f: Seq<int>, g: Seq<int>, h: Seq<int>, p: int)
    requires
        p > 0,
    ensures
        s_mul(f, s_add(g, h, p), p) == s_add(s_mul(f, g, p), s_mul(f, h, p), p),
{
    let gh = s_add(g, h, p);
    let l = s_mul(f, gh, p);
    let r = s_add(s_mul(f, g, p), s_mul(f, h, p), p);
    assert forall|k: int| 0 <= k < l.len() implies l[k] == r[k] by {
        let a = |i: int| f[i] * gh[k - i];
        let b = |i: int| f[i] * g[k - i];
        let c = |i: int| f[i] * h[k - i];
        let bc = |i: int| 1 * b(i) + 1 * c(i);
        assert forall|i: int| 0 <= i < k + 1 implies (#[trigger] a(i)) % p == bc(i) % p by {
            lemma_mul_mod_noop_right(f[i], g[k - i] + h[k - i], p);
            lemma_mul_is_distributive_add(f[i], g[k - i], h[k - i]);
        }
        lemma_sum_cong(a, bc, k + 1, p);
        lemma_sum_linear(bc, 1, b, 1, c, k + 1);
        lemma_add_mod_noop(conv(f, g, k), conv(f, h, k), p);
    }
    assert(l =~= r);
}

/// Dividing by a series with an invertible constant term and multiplying by
/// it again gives the dividend, as far as both are known.
pub proof fn law_series_div_mul(f: Seq<int>, g: Seq<int>, p: int)
    requires
        p > 1,
        is_reduced(f, p),
        g.len() > 0,
        is_unit(g[0], p),
    ensures
        s_mul(s_div(f, g, p), g, p) == f.take(min_len(f.len(), g.len()) as int),
{
    let n = min_len(f.len(), g.len());
    let q = s_div(f, g, p);
    lemma_div_prefix(f, g, n, 0, p);
    let l = s_mul(q, g, p);
    assert forall|k: int| 0 <= k < n implies l[k] == f[k] by {
        let qk = s_div_prefix(f, g, k as nat, p);
        lemma_div_prefix(f, g, n, k as nat, p);
        lemma_div_prefix(f, g, n, (k + 1) as nat, p);
        lemma_div_prefix(f, g, k as nat, 0, p);
        let fb = div_feedback(qk, g, k);
        let a = |j: int| q[j] * g[k - j];
        let b = |j: int| qk[j] * g[k - j];
        assert forall|j: int| 0 <= j < k implies #[trigger] a(j) == b(j) by {
            assert(q[j] == qk[j]);
        }
        lemma_sum_ext(a, b, k);
        assert(sum(a, k + 1) == sum(a, k) + a(k));
        assert(conv(q, g, k) == fb + q[k] * g[0]);
        // q[k] * g[0] == f[k] - fb, modulo p
        let ig = inv_mod(g[0], p);
        lemma_inv_mod(g[0], p);
        let d = sub_mod(f[k], fb, p);
        assert(q[k] == mul_mod(d, ig, p));
        lemma_mul_mod_noop_left(d * ig, g[0], p);
        lemma_mul_is_associative(d, ig, g[0]);
        lemma_mul_mod_noop_right(d, ig * g[0], p);
        lemma_mul_is_commutative(ig, g[0]);
        assert(d * 1 == d);
        lemma_mod_twice(f[k] - fb, p);
        assert((q[k] * g[0]) % p == (f[k] - fb) % p);
        lemma_add_mod_noop_right(fb, q[k] * g[0], p);
        lemma_add_mod_noop_right(fb, f[k] - fb, p);
        lemma_small_mod(f[k] as nat, p as nat);
    }
    assert(l =~= f.take(n as int));
}

/// Over a field, dividing by a series with a nonzero constant term is
/// possible, and multiplying by it again gives the dividend, as far as both
/// are known.
pub proof fn law_series_div_mul_field(f: Seq<int>, g: Seq<int>, p: int)
    requires
        p > 1,
        all_units(p),
        is_reduced(f, p),
        is_reduced(g, p),
        g.len() > 0,
        g[0] != 0,
    ensures
        is_divisor(g, p),
        s_mul(s_div(f, g, p), g, p) == f.take(min_len(f.len(), g.len()) as int),
{
    assert(is_unit(g[0], p));
    law_series_div_mul(f, g, p);
}

/// Division undoes multiplication: for series `f` and `g` over a field, of
/// which `g` has a nonzero constant term, `f / g` exists and `(f / g) * g`
/// is `f`, as far as both are known.
pub proof fn law_division_undoes_multiplication<T: Field, const N: usize>(f: FixedSeq<T, N>, g: FixedSeq<T, N>)
    requires
        g@.len() > 0,
        g@[0] != 0,
    ensures
        is_divisor(g@, T::modulus()),
        s_mul(s_div(f@, g@, T::modulus()), g@, T::modulus()) == f@.take(
            min_len(f@.len(), g@.len()) as int,
        ),
{
    T::lemma_modulus();
    T::lemma_field();
    f.lemma_view();
    g.lemma_view();
    law_series_div_mul_field(f@, g@, T::modulus());
}

/// Multiplying by the series `x` shifts the coefficients by one.
pub proof fn lemma_conv_identity(h: Seq<int>, n: nat, k: int)
    requires
        0 <= k < n,
    ensures
        conv(h, s_identity(n), k) == (if k >= 1 { h[k - 1] } else { 0 }),
{
    let x = s_identity(n);
    let a = |i: int| h[i] * x[k - i];
    if k >= 1 {
        assert forall|i: int| 0 <= i < k + 1 && i != k - 1 implies #[trigger] a(i) == 0 by {
            assert(x[k - i] == 0);
            assert(h[i] * 0 == 0);
        }
        lemma_sum_single(a, k + 1, k - 1);
        assert(x[k - (k - 1)] == 1);
        assert(h[k - 1] * 1 == h[k - 1]);
    } else {
        assert forall|i: int| 0 <= i < k + 1 implies #[trigger] a(i) == 0 by {
            assert(x[k - i] == 0);
            assert(h[i] * 0 == 0);
        }
        lemma_sum_zero(a, k + 1);
    }
}

/// Substituting `x` gives, from coefficient `i` on, the coefficients from `i` on.
proof fn lemma_compose_identity_from(f: Seq<int>, i: int, p: int)
    requires
        p > 1,
        is_reduced(f, p),
        0 <= i <= f.len(),
    ensures
        s_compose_from(f, s_identity(f.len()), i, f.len(), p) == Seq::new(
            f.len(),
            |k: int| if i + k < f.len() { f[i + k] } else { 0int },
        ),
    decreases f.len() - i,
{
    let n = f.len();
    let x = s_identity(n);
    let goal = Seq::new(n, |k: int| if i + k < n { f[i + k] } else { 0int });
    let cur = s_compose_from(f, x, i, n, p);
    if i >= n {
        assert(cur =~= goal);
    } else {
        lemma_compose_identity_from(f, i + 1, p);
        let next = s_compose_from(f, x, i + 1, n, p);
        let shifted = s_mul(next, x, p);
        assert forall|k: int| 0 <= k < n implies cur[k] == goal[k] by {
            lemma_conv_identity(next, n, k);
            lemma_small_mod(0, p as nat);
            if k >= 1 {
                if i + k < n {
                    lemma_small_mod(f[i + k] as nat, p as nat);
                }
            } else {
                lemma_small_mod(f[i] as nat, p as nat);
            }
        }
        assert(cur =~= goal);
    }
}

/// Substituting the series `x` into a series changes nothing.
pub proof fn law_compose_identity_right(f: Seq<int>, p: int)
    requires
        p > 1,
        is_reduced(f, p),
    ensures
        s_compose(f, s_identity(f.len()), p) == f,
{
    lemma_compose_identity_from(f, 0, p);
    assert(s_compose(f, s_identity(f.len()), p) =~= f);
}

/// The product of the constant series `c` and `g` is `c` times `g`.
pub proof fn lemma_conv_constant(c: int, n: nat, g: Seq<int>, k: int)
    requires
        0 <= k < n,
    ensures
        conv(s_promote(c, n), g, k) == c * g[k],
{
    let one = s_promote(c, n);
    let a = |i: int| one[i] * g[k - i];
    assert forall|i: int| 0 <= i < k + 1 && i != 0 implies #[trigger] a(i) == 0 by {
        assert(one[i] == 0);
        assert(0 * g[k - i] == 0);
    }
    lemma_sum_single(a, k + 1, 0);
}

/// Substituting into the series `x` gives the series substituted.
pub proof fn law_compose_identity_left(g: Seq<int>, p: int)
    requires
        p > 1,
        is_reduced(g, p),
        g.len() > 0,
        g[0] == 0,
    ensures
        s_compose(s_identity(g.len()), g, p) == g,
{
    let n = g.len();
    let x = s_identity(n);
    lemma_small_mod(0, p as nat);
    lemma_small_mod(1, p as nat);
    // from coefficient 2 on, nothing
    assert forall|i: int| 2 <= i <= n implies #[trigger] s_compose_from(x, g, i, n, p) == s_zero(n) by {
        lemma_compose_left_zero(g, i, p);
    }
    if n == 1 {
        let h1 = s_compose_from(x, g, 1, n, p);
        assert(h1 == s_zero(n));
        let h0 = s_compose_from(x, g, 0, n, p);
        assert forall|k: int| 0 <= k < n implies h0[k] == g[k] by {
            lemma_conv_constant(0, n, g, k);
            assert(s_promote(0, n) =~= s_zero(n));
            assert(0 * g[k] == 0);
        }
        assert(h0 =~= g);
    } else {
        let h2 = s_compose_from(x, g, 2, n, p);
        assert(h2 == s_zero(n));
        let h1 = s_compose_from(x, g, 1, n, p);
        assert forall|k: int| 0 <= k < n implies h1[k] == s_promote(1, n)[k] by {
            lemma_conv_constant(0, n, g, k);
            assert(s_promote(0, n) =~= s_zero(n));
            assert(0 * g[k] == 0);
        }
        assert(h1 =~= s_promote(1, n));
        let h0 = s_compose_from(x, g, 0, n, p);
        assert forall|k: int| 0 <= k < n implies h0[k] == g[k] by {
            lemma_conv_constant(1, n, g, k);
            assert(1 * g[k] == g[k]);
            lemma_small_mod(g[k] as nat, p as nat);
        }
        assert(h0 =~= g);
    }
}

proof fn lemma_compose_left_zero(g: Seq<int>, i: int, p: int)
    requires
        p > 1,
        2 <= i <= g.len(),
    ensures
        s_compose_from(s_identity(g.len()), g, i, g.len(), p) == s_zero(g.len()),
    decreases g.len() - i,
{
    let n = g.len();
    let x = s_identity(n);
    if i < n {
        lemma_compose_left_zero(g, i + 1, p);
        let cur = s_compose_from(x, g, i, n, p);
        lemma_small_mod(0, p as nat);
        assert forall|k: int| 0 <= k < n implies cur[k] == 0 by {
            lemma_conv_constant(0, n, g, k);
            assert(s_promote(0, n) =~= s_zero(n));
            assert(0 * g[k] == 0);
        }
        assert(cur =~= s_zero(n));
    }
}

/// Multiplying by the series one changes no series.
pub proof fn lemma_mul_one_series(r: Seq<int>, p: int)
    requires
        p > 1,
        is_reduced(r, p),
    ensures
        s_mul(s_promote(1, r.len()), r, p) == r,
{
    let l = s_mul(s_promote(1, r.len()), r, p);
    assert forall|k: int| 0 <= k < r.len() implies l[k] == r[k] by {
        lemma_conv_constant(1, r.len(), r, k);
        assert(1 * r[k] == r[k]);
        lemma_small_mod(r[k] as nat, p as nat);
    }
    assert(l =~= r);
}

/// The first nonzero coefficient before `n` is nonzero, and none before it is.
pub proof fn lemma_first_nonzero(a: Seq<int>, n: int)
    requires
        0 <= n,
    ensures
        0 <= first_nonzero(a, n) <= n,
        first_nonzero(a, n) < n ==> a[first_nonzero(a, n)] != 0,
        forall|j: int| 0 <= j < first_nonzero(a, n) ==> #[trigger] a[j] == 0,
    decreases n,
{
    if n > 0 {
        lemma_first_nonzero(a, n - 1);
    }
}

/// Dividing by a constant series divides every coefficient by the constant.
pub proof fn lemma_div_by_constant(t: Seq<int>, u: int, n: nat, m: nat, p: int)
    requires
        p > 1,
        t.len() == n,
        m <= n,
    ensures
        s_div_prefix(t, s_promote(u, n), m, p).len() == m,
        forall|i: int|
            0 <= i < m ==> #[trigger] s_div_prefix(t, s_promote(u, n), m, p)[i] == mul_mod(
                t[i] % p,
                inv_mod(u, p),
                p,
            ),
    decreases m,
{
    if m > 0 {
        let g = s_promote(u, n);
        lemma_div_by_constant(t, u, n, (m - 1) as nat, p);
        let q = s_div_prefix(t, g, (m - 1) as nat, p);
        let a = |j: int| q[j] * g[m - 1 - j];
        assert forall|j: int| 0 <= j < m - 1 implies #[trigger] a(j) == 0 by {
            assert(g[m - 1 - j] == 0);
            assert(q[j] * 0 == 0);
        }
        lemma_sum_zero(a, m - 1);
        assert(div_feedback(q, g, m - 1) == 0);
        assert(g[0] == u);
    }
}

/// The Cauchy square at `m` is twice the product of the ends plus the terms between.
proof fn lemma_conv_square_ends(r: Seq<int>, m: int)
    requires
        m >= 1,
    ensures
        conv(r, r, m) == 2 * (r[0] * r[m]) + sum(
            |i: int| if 0 < i < m { r[i] * r[m - i] } else { 0int },
            m + 1,
        ),
{
    let a = |i: int| r[i] * r[m - i];
    let b = |i: int| if 0 < i < m { r[i] * r[m - i] } else { 0int };
    let c = |i: int| if i < m { a(i) } else { 0int };
    // b and c differ at 0, c and a differ at m
    lemma_sum_update(b, c, m + 1, 0);
    lemma_sum_update(c, a, m + 1, m);
    lemma_mul_is_commutative(r[0], r[m]);
}

/// Where `r` squares to `f` in its first `m` coefficients, the root
/// iteration from `r` can be carried out and ends with a series that squares to `f`.
proof fn lemma_sqrt_iteration(f: Seq<int>, r: Seq<int>, k: nat, m: int, p: int)
    requires
        p > 1,
        is_unit(2, p),
        is_reduced(f, p),
        is_reduced(r, p),
        f.len() > 0,
        r.len() == f.len(),
        r[0] == 1,
        1 <= m,
        m + k > f.len(),
        forall|j: int| 0 <= j < m && j < f.len() ==> #[trigger] conv(r, r, j) % p == f[j],
    ensures
        s_root_ok(f, r, 2, k, p),
        s_root_iter(f, r, 2, k, p).len() == f.len(),
        is_reduced(s_root_iter(f, r, 2, k, p), p),
        s_root_iter(f, r, 2, k, p)[0] == 1,
        s_mul(s_root_iter(f, r, 2, k, p), s_root_iter(f, r, 2, k, p), p) == f,
    decreases k,
{
    let n = f.len();
    if k == 0 {
        assert(s_mul(r, r, p) =~= f);
    } else {
        // the operands of the step
        let one = s_promote(1, n);
        assert(s_pow(r, 1, p) == s_mul(one, r, p)) by {
            reveal_with_fuel(s_pow_loop, 2);
        }
        lemma_mul_one_series(r, p);
        let sq = s_mul(r, r, p);
        let e = s_sub(f, sq, p);
        let te = s_tail_term(e);
        let two = s_promote(2int % p, n);
        let twice = s_mul(two, r, p);
        let slope = s_tail_term(twice);
        lemma_unit_mod(2, p);
        lemma_unit_nonzero(2, p);
        lemma_mod_bound(2, p);
        // the slope is the constant two
        assert(twice[0] == 2int % p) by {
            lemma_conv_constant(2int % p, n, r, 0);
            assert((2int % p) * 1 == 2int % p);
            lemma_small_mod((2int % p) as nat, p as nat);
        }
        assert(first_nonzero(twice, n as int) == 0) by {
            lemma_first_nonzero(twice, n as int);
            if first_nonzero(twice, n as int) > 0 {
                assert(twice[0] == 0);
            }
        }
        assert(slope =~= two);
        assert(s_root_slope(r, 2, p) == slope);
        assert(s_root_error(f, r, 2, p) == te);
        let c = s_div(te, two, p);
        lemma_div_by_constant(te, 2int % p, n, n, p);
        let h = inv_mod(2int % p, p);
        lemma_inv_mod(2int % p, p);
        let mp = first_nonzero(e, n as int);
        lemma_first_nonzero(e, n as int);
        assert(s_root_correction(f, r, 2, p) == c);
        lemma_small_mod(0, p as nat);
        assert forall|j: int| 0 <= j < n && j != mp implies #[trigger] c[j] == 0 by {
            assert(te[j] == 0);
            assert(0 * h == 0);
        }
        assert forall|j: int| 0 <= j < mp implies #[trigger] conv(r, r, j) % p == f[j] by {
            assert(e[j] == 0);
            lemma_mod_equivalence(f[j], conv(r, r, j) % p, p);
            lemma_mod_twice(conv(r, r, j), p);
            lemma_small_mod(f[j] as nat, p as nat);
        }
        if mp == n {
            assert(c =~= s_zero(c.len()));
            assert(s_mul(r, r, p) =~= f);
        } else {
            // the error at mp is not zero, and it is not among the first m
            assert(e[mp] != 0);
            if mp < m {
                assert(conv(r, r, mp) % p == f[mp]);
                lemma_mod_twice(conv(r, r, mp), p);
                lemma_sub_mod_noop_right(f[mp], conv(r, r, mp), p);
                assert(false);
            }
            lemma_mod_bound(f[mp] - sq[mp], p);
            lemma_small_mod(e[mp] as nat, p as nat);
            let cm = c[mp];
            assert(cm == mul_mod(e[mp], h, p));
            // twice the correction is the error
            lemma_mul_mod_noop_right(2, e[mp] * h, p);
            assert(2 * (e[mp] * h) == e[mp] * (h * 2)) by (nonlinear_arith);
            lemma_mul_mod_noop_right(e[mp], h * 2, p);
            lemma_mul_mod_noop_right(h, 2, p);
            lemma_mul_is_commutative(h, 2int % p);
            assert(e[mp] * 1 == e[mp]);
            assert((2 * cm) % p == e[mp]);
            if cm == 0 {
                assert(2 * cm == 0);
                assert(false);
            }
            assert(c[mp] != s_zero(c.len())[mp]);
            let r2 = s_add(r, c, p);
            assert forall|j: int| 0 <= j < n && j != mp implies #[trigger] r2[j] == r[j] by {
                lemma_small_mod(r[j] as nat, p as nat);
            }
            assert(is_reduced(r2, p)) by {
                assert forall|j: int| 0 <= j < r2.len() implies 0 <= #[trigger] r2[j] < p by {
                    lemma_mod_bound(r[j] + c[j], p);
                }
            }
            assert forall|j: int| 0 <= j < mp + 1 && j < n implies #[trigger] conv(r2, r2, j) % p
                == f[j] by {
                if j < mp {
                    let a = |i: int| r2[i] * r2[j - i];
                    let b = |i: int| r[i] * r[j - i];
                    assert forall|i: int| 0 <= i < j + 1 implies #[trigger] a(i) == b(i) by {
                        assert(r2[i] == r[i]);
                        assert(r2[j - i] == r[j - i]);
                    }
                    lemma_sum_ext(a, b, j + 1);
                    assert(conv(r2, r2, j) == conv(r, r, j));
                    assert(conv(r, r, j) % p == f[j]);
                } else {
                    assert(j == mp);
                    lemma_conv_square_ends(r, mp);
                    lemma_conv_square_ends(r2, mp);
                    let a = |i: int| if 0 < i < mp { r2[i] * r2[mp - i] } else { 0int };
                    let b = |i: int| if 0 < i < mp { r[i] * r[mp - i] } else { 0int };
                    assert forall|i: int| 0 <= i < mp + 1 implies #[trigger] a(i) == b(i) by {
                        if 0 < i < mp {
                            assert(r2[i] == r[i]);
                            assert(r2[mp - i] == r[mp - i]);
                        }
                    }
                    lemma_sum_ext(a, b, mp + 1);
                    let mid = sum(b, mp + 1);
                    assert(1 * r2[mp] == r2[mp]);
                    assert(1 * r[mp] == r[mp]);
                    assert(conv(r2, r2, mp) == 2 * r2[mp] + mid);
                    assert(conv(r, r, mp) == 2 * r[mp] + mid);
                    // r2[mp] == r[mp] + cm, modulo p
                    assert(r2[mp] == (r[mp] + cm) % p);
                    lemma_mul_mod_noop_right(2, r[mp] + cm, p);
                    assert((2 * r2[mp]) % p == (2 * (r[mp] + cm)) % p);
                    lemma_add_mod_noop_left(2 * r2[mp], mid, p);
                    lemma_add_mod_noop_left(2 * (r[mp] + cm), mid, p);
                    assert(conv(r2, r2, mp) % p == (2 * (r[mp] + cm) + mid) % p);
                    assert(2 * (r[mp] + cm) + mid == conv(r, r, mp) + 2 * cm) by (nonlinear_arith)
                        requires
                            conv(r, r, mp) == 2 * r[mp] + mid,
                    ;
                    lemma_add_mod_noop_right(conv(r, r, mp), 2 * cm, p);
                    assert(conv(r2, r2, mp) % p == (conv(r, r, mp) + e[mp]) % p);
                    // conv + (f - conv % p) % p == f
                    assert(e[mp] == (f[mp] - conv(r, r, mp) % p) % p);
                    lemma_sub_mod_noop_right(f[mp], conv(r, r, mp), p);
                    assert(e[mp] == (f[mp] - conv(r, r, mp)) % p);
                    lemma_add_mod_noop_right(conv(r, r, mp), f[mp] - conv(r, r, mp), p);
                    lemma_small_mod(f[mp] as nat, p as nat);
                }
            }
            lemma_sqrt_iteration(f, r2, (k - 1) as nat, mp + 1, p);
        }
    }
}

/// The square root squares to the series it was taken of: for every series
/// `f` with constant term one over a ring in which two has an inverse, the
/// root exists and `sqrt(f) * sqrt(f) == f`.
pub proof fn law_sqrt_square(f: Seq<int>, p: int)
    requires
        p > 1,
        is_unit(2, p),
        is_reduced(f, p),
        f.len() > 0,
        f[0] == 1,
    ensures
        s_ratpow_ok(f, 1, 2, p),
        s_mul(s_sqrt(f, p), s_sqrt(f, p), p) == f,
        s_sqrt(f, p)[0] == 1,
{
    let n = f.len();
    let one = s_promote(1, n);
    lemma_small_mod(1, p as nat);
    assert(conv(one, one, 0) % p == f[0]) by {
        lemma_conv_constant(1, n, one, 0);
        assert(1 * 1 == 1);
    }
    lemma_sqrt_iteration(f, one, n, 1, p);
    let root = s_root(f, 2, p);
    assert(s_pow(root, 1, p) == s_mul(s_promote(1, root.len()), root, p)) by {
        reveal_with_fuel(s_pow_loop, 2);
    }
    lemma_mul_one_series(root, p);
    assert(s_sqrt(f, p) == root);
}

/// The rows of the iterated sums and differences of a reduced series are reduced.
proof fn lemma_rows_reduced(a: Seq<int>, t: nat, p: int)
    requires
        p > 0,
        is_reduced(a, p),
    ensures
        is_reduced(s_sum_rows(a, t, p), p),
        is_reduced(s_diff_rows(a, t, p), p),
    decreases t,
{
    if t > 0 {
        let r = s_sum_rows(a, (t - 1) as nat, p);
        let d = s_diff_rows(a, (t - 1) as nat, p);
        assert forall|j: int| 0 <= j < s_sum_rows(a, t, p).len() implies 0 <= #[trigger] s_sum_rows(
            a,
            t,
            p,
        )[j] < p by {
            lemma_mod_bound(r[j] + r[j + 1], p);
        }
        assert forall|j: int| 0 <= j < s_diff_rows(a, t, p).len() implies 0 <= #[trigger] s_diff_rows(
            a,
            t,
            p,
        )[j] < p by {
            lemma_mod_bound(d[j + 1] - d[j], p);
        }
    }
}

/// The `t`-th differences of the binomial transform of `a` are the entries
/// `t` of the rows of iterated sums of `a`.
proof fn lemma_diff_of_binomial(a: Seq<int>, t: nat, m: int, p: int)
    requires
        p > 0,
        is_reduced(a, p),
        0 <= m,
        t + m < a.len(),
    ensures
        s_diff_rows(s_binomial(a, p), t, p)[m] == s_sum_rows(a, m as nat, p)[t as int],
    decreases t,
{
    let b = s_binomial(a, p);
    lemma_rows_len(a, m as nat, p);
    if t > 0 {
        let t1 = (t - 1) as nat;
        lemma_diff_of_binomial(a, t1, m + 1, p);
        lemma_diff_of_binomial(a, t1, m, p);
        lemma_rows_len(b, t1, p);
        lemma_rows_len(a, (m + 1) as nat, p);
        let row = s_sum_rows(a, m as nat, p);
        lemma_rows_reduced(a, m as nat, p);
        let x = row[t1 as int];
        let y = row[t as int];
        // ((x + y) % p - x) % p == y
        assert(s_sum_rows(a, (m + 1) as nat, p)[t1 as int] == add_mod(x, y, p));
        lemma_sub_mod_noop(x + y, x, p);
        lemma_mod_twice(x + y, p);
        lemma_small_mod(x as nat, p as nat);
        lemma_small_mod(y as nat, p as nat);
    }
}

/// The iterated sums of the inverse binomial transform of `a` are the
/// entries of the rows of iterated differences of `a`.
proof fn lemma_sum_of_binomial_inv(a: Seq<int>, t: nat, m: int, p: int)
    requires
        p > 0,
        is_reduced(a, p),
        0 <= m,
        t + m < a.len(),
    ensures
        s_sum_rows(s_binomial_inv(a, p), t, p)[m] == s_diff_rows(a, m as nat, p)[t as int],
    decreases t,
{
    let c = s_binomial_inv(a, p);
    lemma_rows_len(a, m as nat, p);
    if t > 0 {
        let t1 = (t - 1) as nat;
        lemma_sum_of_binomial_inv(a, t1, m + 1, p);
        lemma_sum_of_binomial_inv(a, t1, m, p);
        lemma_rows_len(c, t1, p);
        lemma_rows_len(a, (m + 1) as nat, p);
        let row = s_diff_rows(a, m as nat, p);
        lemma_rows_reduced(a, m as nat, p);
        let x = row[t1 as int];
        let y = row[t as int];
        // (x + (y - x) % p) % p == y
        assert(s_diff_rows(a, (m + 1) as nat, p)[t1 as int] == sub_mod(y, x, p));
        lemma_add_mod_noop_right(x, y - x, p);
        lemma_small_mod(y as nat, p as nat);
    }
}

/// The binomial transform and the inverse binomial transform undo each other.
pub proof fn law_binomial_inverse(a: Seq<int>, p: int)
    requires
        p > 0,
        is_reduced(a, p),
    ensures
        s_binomial_inv(s_binomial(a, p), p) == a,
        s_binomial(s_binomial_inv(a, p), p) == a,
{
    let b = s_binomial(a, p);
    let c = s_binomial_inv(a, p);
    assert forall|t: int| 0 <= t < a.len() implies s_binomial_inv(b, p)[t] == a[t] by {
        lemma_diff_of_binomial(a, t as nat, 0, p);
    }
    assert(s_binomial_inv(b, p) =~= a);
    assert forall|t: int| 0 <= t < a.len() implies s_binomial(c, p)[t] == a[t] by {
        lemma_sum_of_binomial_inv(a, t as nat, 0, p);
    }
    assert(s_binomial(c, p) =~= a);
}

/// One if the arguments are equal, zero otherwise.
pub open spec fn kronecker(i: int, k: int) -> int {
    if i == k {
        1
    } else {
        0
    }
}

/// Entry `(i, k)` of the product of the tables of the Stirling numbers of
/// the first and of the second kind.
pub open spec fn stirling_product_12(i: int, k: int) -> int {
    sum(|j: int| stirling1(i as nat, j as nat) * stirling2(j as nat, k as nat), i + 1)
}

/// Entry `(i, k)` of the product of the tables of the Stirling numbers of
/// the second and of the first kind.
pub open spec fn stirling_product_21(i: int, k: int) -> int {
    sum(|j: int| stirling2(i as nat, j as nat) * stirling1(j as nat, k as nat), i + 1)
}

/// The tables of the Stirling numbers of the second and of the first kind
/// are inverse to each other.
pub proof fn lemma_stirling_product_21(i: int, k: int)
    requires
        0 <= i,
        0 <= k,
    ensures
        stirling_product_21(i, k) == kronecker(i, k),
    decreases i,
{
    let f = |j: int| stirling2(i as nat, j as nat) * stirling1(j as nat, k as nat);
    if i == 0 {
        assert(sum(f, 1) == f(0)) by {
            reveal_with_fuel(sum, 2);
        }
        assert(1 * stirling1(0, k as nat) == stirling1(0, k as nat));
    } else {
        let i1 = i - 1;
        // the terms of the products over the row before
        let a = |j: int| j * (stirling2(i1 as nat, j as nat) * stirling1(j as nat, k as nat));
        let g = |j: int| f(1 + j);
        lemma_sum_split(f, g, 1, i + 1);
        assert(sum(f, 1) == f(0)) by {
            reveal_with_fuel(sum, 2);
        }
        assert(f(0) == 0) by {
            assert(0 * stirling1(0, k as nat) == 0);
        }
        if k == 0 {
            assert forall|j: int| 0 <= j < i implies #[trigger] g(j) == 0 by {
                assert(stirling1((1 + j) as nat, 0) == 0);
                assert(stirling2(i as nat, (1 + j) as nat) * 0 == 0);
            }
            lemma_sum_zero(g, i);
        } else {
            lemma_stirling_product_21(i1, k - 1);
            let prev = |j: int| stirling2(i1 as nat, j as nat) * stirling1(j as nat, (k - 1) as nat);
            // g(j) == a(j + 1) + prev(j) - a(j)
            let up = |j: int| a(1 + j);
            let h = |j: int| 1 * up(j) + 1 * (1 * prev(j) + (-1) * a(j));
            let inner = |j: int| 1 * prev(j) + (-1) * a(j);
            assert forall|j: int| 0 <= j < i implies #[trigger] g(j) == 1 * up(j) + 1 * inner(j) by {
                let x = stirling2(i1 as nat, (1 + j) as nat);
                let y = stirling2(i1 as nat, j as nat);
                let u = stirling1((1 + j) as nat, k as nat);
                let v = stirling1(j as nat, k as nat);
                let w = stirling1(j as nat, (k - 1) as nat);
                assert(stirling2(i as nat, (1 + j) as nat) == (1 + j) * x + y);
                assert(u == -j * v + w);
                assert(((1 + j) * x + y) * u == (1 + j) * (x * u) + y * u) by (nonlinear_arith);
                assert(y * u == y * w - j * (y * v)) by (nonlinear_arith)
                    requires
                        u == -j * v + w,
                ;
            }
            lemma_sum_linear(g, 1, up, 1, inner, i);
            lemma_sum_linear(inner, 1, prev, -1, a, i);
            lemma_sum_split(a, up, 1, i + 1);
            assert(sum(a, 1) == a(0)) by {
                reveal_with_fuel(sum, 2);
            }
            assert(a(0) == 0) by {
                assert(0 * (stirling2(i1 as nat, 0) * stirling1(0, k as nat)) == 0);
            }
            assert(a(i) == 0) by {
                lemma_stirling_zero(i1 as nat, i as nat);
                assert(0 * stirling1(i as nat, k as nat) == 0);
                assert(i * 0 == 0);
            }
            assert(sum(a, i + 1) == sum(a, i) + a(i));
            assert(sum(prev, i) == stirling_product_21(i1, k - 1));
        }
    }
}

/// The tables of the Stirling numbers of the first and of the second kind
/// are inverse to each other.
pub proof fn lemma_stirling_product_12(i: int, k: int)
    requires
        0 <= i,
        0 <= k,
    ensures
        stirling_product_12(i, k) == kronecker(i, k),
    decreases i,
{
    let f = |j: int| stirling1(i as nat, j as nat) * stirling2(j as nat, k as nat);
    if i == 0 {
        assert(sum(f, 1) == f(0)) by {
            reveal_with_fuel(sum, 2);
        }
        assert(1 * stirling2(0, k as nat) == stirling2(0, k as nat));
    } else {
        let i1 = i - 1;
        lemma_stirling_product_12(i1, k);
        let u = |j: int| stirling1(i1 as nat, j as nat) * stirling2(j as nat, k as nat);
        let u1 = |j: int| u(1 + j);
        let v = |j: int| stirling1(i1 as nat, j as nat) * stirling2((1 + j) as nat, k as nat);
        let g = |j: int| f(1 + j);
        lemma_sum_split(f, g, 1, i + 1);
        assert(sum(f, 1) == f(0)) by {
            reveal_with_fuel(sum, 2);
        }
        assert(f(0) == 0) by {
            assert(0 * stirling2(0, k as nat) == 0);
        }
        assert forall|j: int| 0 <= j < i implies #[trigger] g(j) == (-i1) * u1(j) + 1 * v(j) by {
            let x = stirling1(i1 as nat, (1 + j) as nat);
            let y = stirling1(i1 as nat, j as nat);
            let t = stirling2((1 + j) as nat, k as nat);
            assert(stirling1(i as nat, (1 + j) as nat) == -(i - 1) * x + y);
            assert((-(i - 1) * x + y) * t == (-i1) * (x * t) + 1 * (y * t)) by (nonlinear_arith)
                requires
                    i1 == i - 1,
            ;
        }
        lemma_sum_linear(g, -i1, u1, 1, v, i);
        // the shifted sum of u
        lemma_sum_split(u, u1, 1, i + 1);
        assert(sum(u, 1) == u(0)) by {
            reveal_with_fuel(sum, 2);
        }
        assert(u(i) == 0) by {
            lemma_stirling_zero(i1 as nat, i as nat);
            assert(0 * stirling2(i as nat, k as nat) == 0);
        }
        assert(sum(u, i + 1) == sum(u, i) + u(i));
        assert(sum(u, i) == stirling_product_12(i1, k));
        assert(sum(u1, i) == kronecker(i1, k) - u(0));
        if k == 0 {
            assert forall|j: int| 0 <= j < i implies #[trigger] v(j) == 0 by {
                assert(stirling2((1 + j) as nat, 0) == 0);
                assert(stirling1(i1 as nat, j as nat) * 0 == 0);
            }
            lemma_sum_zero(v, i);
            assert(u(0) == stirling1(i1 as nat, 0)) by {
                assert(stirling1(i1 as nat, 0) * 1 == stirling1(i1 as nat, 0));
            }
            assert(stirling1(i1 as nat, 0) == kronecker(i1, 0));
            assert((-i1) * 0 == 0);
        } else {
            lemma_stirling_product_12(i1, k - 1);
            let w = |j: int| stirling1(i1 as nat, j as nat) * stirling2(j as nat, (k - 1) as nat);
            assert forall|j: int| 0 <= j < i implies #[trigger] v(j) == k * u(j) + 1 * w(j) by {
                let y = stirling1(i1 as nat, j as nat);
                let a = stirling2(j as nat, k as nat);
                let b = stirling2(j as nat, (k - 1) as nat);
                assert(stirling2((1 + j) as nat, k as nat) == k * a + b);
                assert(y * (k * a + b) == k * (y * a) + 1 * (y * b)) by (nonlinear_arith);
            }
            lemma_sum_linear(v, k, u, 1, w, i);
            assert(sum(w, i) == stirling_product_12(i1, k - 1));
            assert(u(0) == 0) by {
                assert(stirling1(i1 as nat, 0) * 0 == 0);
            }
            let d = kronecker(i1, k);
            assert((-i1) * d + (k * d + 1 * kronecker(i1, k - 1)) == kronecker(i, k)) by {
                if i1 == k {
                    assert((-i1) * 1 + (k * 1 + 1 * 0) == 0) by (nonlinear_arith)
                        requires
                            i1 == k,
                    ;
                } else {
                    assert((-i1) * 0 == 0);
                    assert(k * 0 == 0);
                }
            }
        }
    }
}

/// Applying one table of Stirling numbers after the other gives `a` back,
/// where the product of the tables is the identity.
proof fn lemma_table_round_trip(
    first: spec_fn(int, int) -> int,
    second: spec_fn(int, int) -> int,
    a: Seq<int>,
    b: Seq<int>,
    i: int,
    p: int,
)
    requires
        p > 0,
        0 <= i < a.len(),
        b.len() == a.len(),
        is_reduced(a, p),
        forall|j: int, k: int| 0 <= j < k ==> #[trigger] first(j, k) == 0,
        forall|j: int|
            0 <= j < a.len() ==> #[trigger] b[j] == sum(|k: int| first(j, k) * a[k], j + 1) % p,
        forall|k: int|
            0 <= k <= i ==> sum(|j: int| second(i, j) * first(j, k), i + 1) % p == kronecker(i, k) % p,
    ensures
        sum(|j: int| second(i, j) * b[j], i + 1) % p == a[i],
{
    let outer = |j: int| second(i, j) * b[j];
    let term = |j: int, k: int| second(i, j) * (first(j, k) * a[k]);
    let by_row = |j: int| sum(|k: int| term(j, k), i + 1);
    let by_col = |k: int| sum(|j: int| term(j, k), i + 1);
    lemma_sum_exchange(by_row, by_col, term, i + 1, i + 1);
    assert forall|j: int| 0 <= j < i + 1 implies (#[trigger] outer(j)) % p == by_row(j) % p by {
        let inner = |k: int| first(j, k) * a[k];
        assert forall|k: int| j + 1 <= k < i + 1 implies #[trigger] inner(k) == 0 by {
            assert(first(j, k) == 0);
            assert(0 * a[k] == 0);
        }
        lemma_sum_tail_zero(inner, j + 1, i + 1);
        let row = |k: int| term(j, k);
        lemma_sum_scale(row, second(i, j), inner, i + 1);
        lemma_mul_mod_noop_right(second(i, j), sum(inner, j + 1), p);
    }
    lemma_sum_cong(outer, by_row, i + 1, p);
    let picked = |k: int| kronecker(i, k) * a[k];
    assert forall|k: int| 0 <= k < i + 1 implies (#[trigger] by_col(k)) % p == picked(k) % p by {
        let col = |j: int| term(j, k);
        let prod = |j: int| second(i, j) * first(j, k);
        let scaled = |j: int| a[k] * prod(j);
        assert forall|j: int| 0 <= j < i + 1 implies #[trigger] col(j) == scaled(j) by {
            assert(second(i, j) * (first(j, k) * a[k]) == a[k] * (second(i, j) * first(j, k)))
                by (nonlinear_arith);
        }
        lemma_sum_ext(col, scaled, i + 1);
        lemma_sum_scale(scaled, a[k], prod, i + 1);
        lemma_mul_mod_noop_right(a[k], sum(prod, i + 1), p);
        lemma_mul_mod_noop_right(a[k], kronecker(i, k), p);
        lemma_mul_is_commutative(a[k], kronecker(i, k));
    }
    lemma_sum_cong(by_col, picked, i + 1, p);
    assert forall|k: int| 0 <= k < i + 1 && k != i implies #[trigger] picked(k) == 0 by {
        assert(0 * a[k] == 0);
    }
    lemma_sum_single(picked, i + 1, i);
    assert(1 * a[i] == a[i]);
    lemma_small_mod(a[i] as nat, p as nat);
}

/// The Stirling transform and the inverse Stirling transform undo each other.
pub proof fn law_stirling_inverse(a: Seq<int>, p: int)
    requires
        p > 0,
        is_reduced(a, p),
    ensures
        s_stirling_inv(s_stirling(a, p), p) == a,
        s_stirling(s_stirling_inv(a, p), p) == a,
{
    let second = |i: int, j: int| stirling2(i as nat, j as nat);
    let first = |i: int, j: int| stirling1(i as nat, j as nat);
    assert forall|j: int, k: int| 0 <= j < k implies #[trigger] second(j, k) == 0 by {
        lemma_stirling_zero(j as nat, k as nat);
    }
    assert forall|j: int, k: int| 0 <= j < k implies #[trigger] first(j, k) == 0 by {
        lemma_stirling_zero(j as nat, k as nat);
    }
    let b = s_stirling(a, p);
    let c = s_stirling_inv(a, p);
    assert forall|i: int| 0 <= i < a.len() implies s_stirling_inv(b, p)[i] == a[i] by {
        assert forall|k: int| 0 <= k <= i implies sum(|j: int| first(i, j) * second(j, k), i + 1)
            % p == kronecker(i, k) % p by {
            lemma_stirling_product_12(i, k);
            let here = |j: int| first(i, j) * second(j, k);
            let there = |j: int| stirling1(i as nat, j as nat) * stirling2(j as nat, k as nat);
            lemma_sum_ext(here, there, i + 1);
        }
        assert forall|j: int| 0 <= j < a.len() implies #[trigger] b[j] == sum(
            |k: int| second(j, k) * a[k],
            j + 1,
        ) % p by {
            let here = |k: int| second(j, k) * a[k];
            let there = |k: int| stirling2(j as nat, k as nat) * a[k];
            lemma_sum_ext(here, there, j + 1);
        }
        lemma_table_round_trip(second, first, a, b, i, p);
        let here = |j: int| first(i, j) * b[j];
        let there = |j: int| stirling1(i as nat, j as nat) * b[j];
        lemma_sum_ext(here, there, i + 1);
    }
    assert(s_stirling_inv(b, p) =~= a);
    assert forall|i: int| 0 <= i < a.len() implies s_stirling(c, p)[i] == a[i] by {
        assert forall|k: int| 0 <= k <= i implies sum(|j: int| second(i, j) * first(j, k), i + 1)
            % p == kronecker(i, k) % p by {
            lemma_stirling_product_21(i, k);
            let here = |j: int| second(i, j) * first(j, k);
            let there = |j: int| stirling2(i as nat, j as nat) * stirling1(j as nat, k as nat);
            lemma_sum_ext(here, there, i + 1);
        }
        assert forall|j: int| 0 <= j < a.len() implies #[trigger] c[j] == sum(
            |k: int| first(j, k) * a[k],
            j + 1,
        ) % p by {
            let here = |k: int| first(j, k) * a[k];
            let there = |k: int| stirling1(j as nat, k as nat) * a[k];
            lemma_sum_ext(here, there, j + 1);
        }
        lemma_table_round_trip(first, second, a, c, i, p);
        let here = |j: int| second(i, j) * c[j];
        let there = |j: int| stirling2(i as nat, j as nat) * c[j];
        lemma_sum_ext(here, there, i + 1);
    }
    assert(s_stirling(c, p) =~= a);
}

/// The two series agree in their first `m` coefficients.
pub open spec fn agree(a: Seq<int>, b: Seq<int>, m: int) -> bool {
    m <= a.len() && m <= b.len() && forall|j: int| 0 <= j < m ==> #[trigger] a[j] == b[j]
}

/// Horner's rule gives a reduced series of the length asked for.
proof fn lemma_compose_from_shape(f: Seq<int>, g: Seq<int>, i: int, n: nat, p: int)
    requires
        p > 0,
        0 <= i <= n,
        n <= g.len(),
    ensures
        s_compose_from(f, g, i, n, p).len() == n,
        is_reduced(s_compose_from(f, g, i, n, p), p),
    decreases n - i,
{
    if i < n {
        lemma_compose_from_shape(f, g, i + 1, n, p);
        let prev = s_compose_from(f, g, i + 1, n, p);
        let cur = s_compose_from(f, g, i, n, p);
        assert forall|k: int| 0 <= k < cur.len() implies 0 <= #[trigger] cur[k] < p by {
            lemma_mod_bound(conv(prev, g, k), p);
            lemma_mod_bound(s_mul(prev, g, p)[0] + f[i], p);
        }
    }
}

/// Series that agree in their first `m` coefficients have products that do.
proof fn lemma_conv_agree(a: Seq<int>, b: Seq<int>, a2: Seq<int>, b2: Seq<int>, k: int, m: int)
    requires
        0 <= k < m,
        agree(a, a2, m),
        agree(b, b2, m),
    ensures
        conv(a, b, k) == conv(a2, b2, k),
{
    let x = |i: int| a[i] * b[k - i];
    let y = |i: int| a2[i] * b2[k - i];
    assert forall|i: int| 0 <= i < k + 1 implies #[trigger] x(i) == y(i) by {
        assert(a[i] == a2[i]);
        assert(b[k - i] == b2[k - i]);
    }
    lemma_sum_ext(x, y, k + 1);
}

/// Substituting series that agree in their first `m` coefficients gives
/// series that agree in their first `m` coefficients.
proof fn lemma_compose_from_agree(
    f: Seq<int>,
    f2: Seq<int>,
    shift: int,
    g: Seq<int>,
    g2: Seq<int>,
    i: int,
    n: nat,
    n2: nat,
    m: int,
    p: int,
)
    requires
        p > 0,
        0 <= i <= n,
        n - i == n2 - (i - shift),
        0 <= i - shift,
        n <= g.len(),
        n2 <= g2.len(),
        0 <= m <= n,
        m <= n2,
        agree(g, g2, m),
        forall|j: int| i <= j < n ==> #[trigger] f[j] == f2[j - shift],
    ensures
        agree(s_compose_from(f, g, i, n, p), s_compose_from(f2, g2, i - shift, n2, p), m),
    decreases n - i,
{
    lemma_compose_from_shape(f, g, i, n, p);
    lemma_compose_from_shape(f2, g2, i - shift, n2, p);
    if i < n {
        lemma_compose_from_agree(f, f2, shift, g, g2, i + 1, n, n2, m, p);
        lemma_compose_from_shape(f, g, i + 1, n, p);
        lemma_compose_from_shape(f2, g2, i + 1 - shift, n2, p);
        let h = s_compose_from(f, g, i + 1, n, p);
        let h2 = s_compose_from(f2, g2, i + 1 - shift, n2, p);
        let cur = s_compose_from(f, g, i, n, p);
        let cur2 = s_compose_from(f2, g2, i - shift, n2, p);
        assert forall|k: int| 0 <= k < m implies #[trigger] cur[k] == cur2[k] by {
            lemma_conv_agree(h, g, h2, g2, k, m);
            assert(f[i] == f2[i - shift]);
        }
    }
}

/// The constant term of `f(g)` is the constant term of `f`, where that of `g` is zero.
proof fn lemma_compose_constant(f: Seq<int>, g: Seq<int>, n: nat, p: int)
    requires
        p > 1,
        0 < n <= g.len(),
        is_reduced(f, p),
        n <= f.len(),
        g[0] == 0,
    ensures
        s_compose_from(f, g, 0, n, p)[0] == f[0],
{
    lemma_compose_from_shape(f, g, 1, n, p);
    let h = s_compose_from(f, g, 1, n, p);
    let a = |i: int| h[i] * g[0 - i];
    assert(sum(a, 1) == a(0)) by {
        reveal_with_fuel(sum, 2);
    }
    assert(h[0] * 0 == 0);
    lemma_small_mod(0, p as nat);
    lemma_small_mod(f[0] as nat, p as nat);
}

/// Long division depends on the divisor only as far as the quotient goes.
proof fn lemma_div_prefix_agree(f: Seq<int>, g: Seq<int>, g2: Seq<int>, t: nat, p: int)
    requires
        agree(g, g2, t as int),
    ensures
        s_div_prefix(f, g, t, p) == s_div_prefix(f, g2, t, p),
    decreases t,
{
    if t > 0 {
        lemma_div_prefix_agree(f, g, g2, (t - 1) as nat, p);
        let q = s_div_prefix(f, g, (t - 1) as nat, p);
        let x = |j: int| q[j] * g[t - 1 - j];
        let y = |j: int| q[j] * g2[t - 1 - j];
        assert forall|j: int| 0 <= j < t - 1 implies #[trigger] x(j) == y(j) by {
            assert(g[t - 1 - j] == g2[t - 1 - j]);
        }
        lemma_sum_ext(x, y, t - 1);
        assert(g[0] == g2[0]);
    }
}

/// The quotients of long division are reduced.
proof fn lemma_div_reduced(f: Seq<int>, g: Seq<int>, t: nat, p: int)
    requires
        p > 0,
    ensures
        is_reduced(s_div_prefix(f, g, t, p), p),
    decreases t,
{
    if t > 0 {
        lemma_div_reduced(f, g, (t - 1) as nat, p);
        lemma_div_prefix(f, g, (t - 1) as nat, 0, p);
        let q = s_div_prefix(f, g, (t - 1) as nat, p);
        let cur = s_div_prefix(f, g, t, p);
        assert forall|i: int| 0 <= i < cur.len() implies 0 <= #[trigger] cur[i] < p by {
            if i == t - 1 {
                lemma_mod_bound(
                    sub_mod(f[t - 1], div_feedback(q, g, t - 1), p) * inv_mod(g[0], p),
                    p,
                );
            } else {
                assert(cur[i] == q[i]);
            }
        }
    }
}

/// What a step of the iteration for the compositional inverse gives.
proof fn lemma_revert_step(h: Seq<int>, r: Seq<int>, n: nat, cap: nat, p: int)
    requires
        p > 1,
        1 <= n <= cap,
        h.len() == n - 1,
        r.len() == n,
        is_reduced(h, p),
        r[0] == 0,
        n >= 2 ==> is_unit(h[0], p),
    ensures
        is_substitutable(r),
        is_divisor(s_compose(h, r, p), p),
        s_compose(h, r, p).len() == n - 1,
        s_revert_step(h, r, cap, p).len() == n,
        s_revert_step(h, r, cap, p)[0] == 0,
        is_reduced(s_revert_step(h, r, cap, p), p),
        forall|j: int|
            1 <= j < n ==> #[trigger] s_revert_step(h, r, cap, p)[j] == s_div(
                s_promote(1, cap),
                s_compose(h, r, p),
                p,
            )[j - 1],
{
    let c = s_compose(h, r, p);
    lemma_compose_from_shape(h, r, 0, (n - 1) as nat, p);
    if n >= 2 {
        lemma_compose_constant(h, r, (n - 1) as nat, p);
    }
    let one = s_promote(1, cap);
    lemma_div_prefix(one, c, (n - 1) as nat, 0, p);
    lemma_div_reduced(one, c, (n - 1) as nat, p);
    let q = s_div(one, c, p);
    let st = s_revert_step(h, r, cap, p);
    assert forall|j: int| 0 <= j < st.len() implies 0 <= #[trigger] st[j] < p by {
        if j > 0 {
            assert(st[j] == q[j - 1]);
        }
    }
}

/// Steps from series that agree in their first `m` coefficients agree in
/// their first `m + 1`.
proof fn lemma_revert_step_agree(
    h: Seq<int>,
    r: Seq<int>,
    r2: Seq<int>,
    n: nat,
    cap: nat,
    m: int,
    p: int,
)
    requires
        p > 1,
        1 <= n <= cap,
        h.len() == n - 1,
        r.len() == n,
        r2.len() == n,
        is_reduced(h, p),
        r[0] == 0,
        r2[0] == 0,
        n >= 2 ==> is_unit(h[0], p),
        1 <= m <= n,
        agree(r, r2, m),
    ensures
        agree(
            s_revert_step(h, r, cap, p),
            s_revert_step(h, r2, cap, p),
            if m + 1 <= n {
                m + 1
            } else {
                n as int
            },
        ),
{
    lemma_revert_step(h, r, n, cap, p);
    lemma_revert_step(h, r2, n, cap, p);
    let c = s_compose(h, r, p);
    let c2 = s_compose(h, r2, p);
    let mm = if m <= n - 1 { m } else { n - 1 };
    lemma_compose_from_agree(h, h, 0, r, r2, 0, (n - 1) as nat, (n - 1) as nat, mm, p);
    let one = s_promote(1, cap);
    let q = s_div(one, c, p);
    let q2 = s_div(one, c2, p);
    let st = s_revert_step(h, r, cap, p);
    let st2 = s_revert_step(h, r2, cap, p);
    let goal = if m + 1 <= n { m + 1 } else { n as int };
    assert forall|j: int| 0 <= j < goal implies #[trigger] st[j] == st2[j] by {
        if j >= 1 {
            // coefficient j - 1 of the quotients, which depends on the first j of the divisors
            lemma_div_prefix(one, c, (n - 1) as nat, j as nat, p);
            lemma_div_prefix(one, c2, (n - 1) as nat, j as nat, p);
            assert(agree(c, c2, j)) by {
                assert forall|t: int| 0 <= t < j implies #[trigger] c[t] == c2[t] by {}
            }
            lemma_div_prefix_agree(one, c, c2, j as nat, p);
            assert(st[j] == q[j - 1]);
            assert(st2[j] == q2[j - 1]);
        }
    }
}

/// The iteration for the compositional inverse can be carried out, and
/// iterations from series that agree in their first `m` coefficients agree
/// in their first `m + k` after `k` steps.
proof fn lemma_revert_iter(
    h: Seq<int>,
    r: Seq<int>,
    r2: Seq<int>,
    k: nat,
    n: nat,
    cap: nat,
    m: int,
    p: int,
)
    requires
        p > 1,
        1 <= n <= cap,
        h.len() == n - 1,
        r.len() == n,
        r2.len() == n,
        is_reduced(h, p),
        r[0] == 0,
        r2[0] == 0,
        n >= 2 ==> is_unit(h[0], p),
        1 <= m <= n,
        agree(r, r2, m),
    ensures
        s_revert_ok(h, r, k, cap, p),
        s_revert_iter(h, r, k, cap, p).len() == n,
        s_revert_iter(h, r, k, cap, p)[0] == 0,
        agree(
            s_revert_iter(h, r, k, cap, p),
            s_revert_iter(h, r2, k, cap, p),
            if m + k <= n {
                m + k
            } else {
                n as int
            },
        ),
    decreases k,
{
    if k > 0 {
        lemma_revert_step(h, r, n, cap, p);
        lemma_revert_step(h, r2, n, cap, p);
        lemma_revert_step_agree(h, r, r2, n, cap, m, p);
        let m1 = if m + 1 <= n { m + 1 } else { n as int };
        lemma_revert_iter(
            h,
            s_revert_step(h, r, cap, p),
            s_revert_step(h, r2, cap, p),
            (k - 1) as nat,
            n,
            cap,
            m1,
            p,
        );
    }
}

/// A further step of the iteration is a step from its result.
proof fn lemma_revert_iter_end(h: Seq<int>, r: Seq<int>, k: nat, cap: nat, p: int)
    ensures
        s_revert_iter(h, r, k + 1, cap, p) == s_revert_step(h, s_revert_iter(h, r, k, cap, p), cap, p),
    decreases k,
{
    if k > 0 {
        lemma_revert_iter_end(h, s_revert_step(h, r, cap, p), (k - 1) as nat, cap, p);
    } else {
        assert(s_revert_iter(h, r, 1, cap, p) == s_revert_iter(
            h,
            s_revert_step(h, r, cap, p),
            0,
            cap,
            p,
        ));
    }
}

/// The compositional inverse undoes the series it was taken of: for every
/// series `f` with constant term zero whose coefficient of `x` has an
/// inverse, the compositional inverse exists and `f(inverse(f)) == x`. Its
/// constant term is zero, and its coefficient of `x` is the inverse of that
/// of `f`.
pub proof fn law_inverse_round_trip(f: Seq<int>, cap: nat, p: int)
    requires
        p > 1,
        is_reduced(f, p),
        0 < f.len() <= cap,
        f[0] == 0,
        f.len() > 1 ==> is_unit(f[1], p),
    ensures
        s_inverse_ok(f, cap, p),
        s_compose(f, s_inverse(f, cap, p), p) == s_identity(f.len()),
        s_inverse(f, cap, p).len() == f.len(),
        s_inverse(f, cap, p)[0] == 0,
        f.len() > 1 ==> mul_mod(s_inverse(f, cap, p)[1], f[1], p) == 1,
{
    let n = f.len();
    let h = s_lshift(f);
    let zero = s_zero(n);
    let res = s_inverse(f, cap, p);
    lemma_revert_iter(h, zero, zero, n, n, cap, 1, p);
    // the last step changes nothing
    let before = s_revert_iter(h, zero, (n - 1) as nat, cap, p);
    lemma_revert_iter(h, zero, zero, (n - 1) as nat, n, cap, 1, p);
    lemma_revert_step(h, zero, n, cap, p);
    lemma_revert_iter(h, zero, s_revert_step(h, zero, cap, p), (n - 1) as nat, n, cap, 1, p);
    lemma_revert_iter_end(h, zero, (n - 1) as nat, cap, p);
    assert(s_revert_iter(h, zero, n, cap, p) == s_revert_iter(
        h,
        s_revert_step(h, zero, cap, p),
        (n - 1) as nat,
        cap,
        p,
    ));
    assert(before =~= res);
    assert(res == s_revert_step(h, res, cap, p));
    lemma_revert_step(h, res, n, cap, p);
    // Horner's rule for f(res): zero plus res times what remains
    lemma_compose_from_shape(f, res, 1, n, p);
    lemma_compose_from_shape(f, res, 0, n, p);
    let rest = s_compose_from(f, res, 1, n, p);
    let c = s_compose(h, res, p);
    let total = s_compose(f, res, p);
    lemma_small_mod(0, p as nat);
    lemma_small_mod(1, p as nat);
    if n == 1 {
        assert forall|k: int| 0 <= k < n implies total[k] == s_identity(n)[k] by {
            let a = |i: int| rest[i] * res[0 - i];
            assert(sum(a, 1) == a(0)) by {
                reveal_with_fuel(sum, 2);
            }
            assert(rest[0] * 0 == 0);
        }
        assert(total =~= s_identity(n));
    } else {
        lemma_compose_from_agree(f, h, 1, res, res, 1, n, (n - 1) as nat, n - 1, p);
        let one = s_promote(1, cap);
        let q = s_div(one, c, p);
        lemma_div_prefix(one, c, (n - 1) as nat, 0, p);
        law_series_div_mul(one, c, p);
        let back = s_mul(q, c, p);
        assert(back == one.take((n - 1) as int));
        assert(mul_mod(res[1], f[1], p) == 1) by {
            lemma_compose_constant(h, res, (n - 1) as nat, p);
            assert(c[0] == h[0]);
            assert(h[0] == f[1]);
            assert(res[1] == q[0]);
            assert(back[0] == conv(q, c, 0) % p);
            assert(conv(q, c, 0) == q[0] * c[0]) by {
                reveal_with_fuel(sum, 2);
            }
            assert(one.take((n - 1) as int)[0] == one[0]);
        }
        assert forall|k: int| 0 <= k < n implies total[k] == s_identity(n)[k] by {
            let a = |i: int| rest[i] * res[k - i];
            if k == 0 {
                assert(sum(a, 1) == a(0)) by {
                    reveal_with_fuel(sum, 2);
                }
                assert(rest[0] * 0 == 0);
            } else {
                // the last term vanishes, the others are those of the product of c and q
                let b = |i: int| c[i] * q[k - 1 - i];
                assert(sum(a, k + 1) == sum(a, k) + a(k));
                assert(a(k) == 0) by {
                    assert(rest[k] * 0 == 0);
                }
                assert forall|i: int| 0 <= i < k implies #[trigger] a(i) == b(i) by {
                    assert(rest[i] == c[i]);
                    assert(res[k - i] == q[k - i - 1]);
                }
                lemma_sum_ext(a, b, k);
                assert(conv(c, q, k - 1) == sum(b, k));
                lemma_conv_commutative(c, q, k - 1);
                assert(back[k - 1] == conv(q, c, k - 1) % p);
                assert(one.take((n - 1) as int)[k - 1] == one[k - 1]);
            }
        }
        assert(total =~= s_identity(n));
    }
}

/// Row `i` of a product of tables, applied to a vector: `(a * b) * t` and
/// `a * (b * t)` agree modulo `p`.
proof fn lemma_mat_vec_associative(a: Seq<Seq<int>>, b: Seq<Seq<int>>, t: Seq<int>, n: nat, i: int, p: int)
    requires
        p > 1,
        is_table(a, n, n),
        is_table(b, n, n),
        0 <= i < n,
    ensures
        dot(a[i], mat_vec(b, t, p)) % p == dot(mat_mul(a, b, n, p)[i], t) % p,
{
    let m = n as int;
    let bt = mat_vec(b, t, p);
    let ab = mat_mul(a, b, n, p);
    let f = |j: int, l: int| a[i][j] * (b[j][l] * t[l]);
    let l1 = |j: int| a[i][j] * bt[j];
    let by_row = |j: int| sum(|l: int| f(j, l), m);
    let by_col = |l: int| sum(|j: int| f(j, l), m);
    let r1 = |l: int| ab[i][l] * t[l];
    assert forall|j: int| 0 <= j < m implies (#[trigger] l1(j)) % p == by_row(j) % p by {
        let inner = |l: int| b[j][l] * t[l];
        let scaled = |l: int| f(j, l);
        lemma_sum_scale(scaled, a[i][j], inner, m);
        assert(dot(b[j], t) == sum(inner, m));
        assert(bt[j] == sum(inner, m) % p);
        lemma_mul_mod_noop_right(a[i][j], sum(inner, m), p);
    }
    lemma_sum_cong(l1, by_row, m, p);
    lemma_sum_exchange(by_row, by_col, f, m, m);
    assert forall|l: int| 0 <= l < m implies (#[trigger] by_col(l)) % p == r1(l) % p by {
        let inner = |j: int| a[i][j] * b[j][l];
        let scaled = |j: int| f(j, l);
        let scaled2 = |j: int| t[l] * inner(j);
        assert forall|j: int| 0 <= j < m implies #[trigger] scaled(j) == scaled2(j) by {
            lemma_mul_is_associative(a[i][j], b[j][l], t[l]);
            lemma_mul_is_commutative(a[i][j] * b[j][l], t[l]);
        }
        lemma_sum_ext(scaled, scaled2, m);
        lemma_sum_scale(scaled2, t[l], inner, m);
        assert(ab[i][l] == sum(inner, m) % p);
        lemma_mul_mod_noop_right(t[l], sum(inner, m), p);
        lemma_mul_is_commutative(t[l], ab[i][l]);
    }
    lemma_sum_cong(by_col, r1, m, p);
    assert(dot(a[i], bt) == sum(l1, m));
    assert(dot(ab[i], t) == sum(r1, m));
}

/// Row `i` of the identity, applied to a vector, gives its entry `i`.
proof fn lemma_identity_row(t: Seq<int>, n: nat, i: int)
    requires
        0 <= i < n,
    ensures
        dot(identity(n)[i], t) == t[i],
{
    let f = |j: int| identity(n)[i][j] * t[j];
    assert forall|j: int| 0 <= j < n && j != i implies #[trigger] f(j) == 0 by {
        assert(0 * t[j] == 0);
    }
    lemma_sum_single(f, n as int, i);
    assert(1 * t[i] == t[i]);
}

/// A system with an invertible matrix has exactly one solution for every
/// right side: the inverse applied to the right side. The basic solution,
/// which `Matrix::solve` returns, is therefore this one, and substituted back
/// it gives the right side.
pub proof fn law_solve_invertible(a: Seq<Seq<int>>, inv: Seq<Seq<int>>, t: Seq<int>, n: nat, p: int)
    requires
        p > 1,
        is_table(a, n, n),
        is_table(inv, n, n),
        mat_mul(a, inv, n, p) == identity(n),
        mat_mul(inv, a, n, p) == identity(n),
        t.len() == n,
    ensures
        solves(a, mat_vec(inv, t, p), t, p),
        exists|x: Seq<int>| x.len() == n && #[trigger] solves(a, x, t, p),
        forall|x: Seq<int>|
            x.len() == n && is_reduced(x, p) && #[trigger] solves(a, x, t, p) ==> x == mat_vec(inv, t, p),
        forall|x: Seq<int>| #[trigger] is_basic_solution(a, t, x, n, p) ==> x == mat_vec(inv, t, p),
{
    let x0 = mat_vec(inv, t, p);
    assert forall|i: int| 0 <= i < a.len() implies dot(#[trigger] a[i], x0) % p == t[i] % p by {
        lemma_mat_vec_associative(a, inv, t, n, i, p);
        lemma_identity_row(t, n, i);
    }
    assert(solves(a, x0, t, p));
    assert forall|x: Seq<int>| x.len() == n && is_reduced(x, p) && #[trigger] solves(a, x, t, p) implies x
        == x0 by {
        let ax = mat_vec(a, x, p);
        assert forall|i: int| 0 <= i < n implies x[i] == x0[i] by {
            lemma_mat_vec_associative(inv, a, x, n, i, p);
            lemma_identity_row(x, n, i);
            let f = |j: int| inv[i][j] * ax[j];
            let g = |j: int| inv[i][j] * t[j];
            assert forall|j: int| 0 <= j < n implies (#[trigger] f(j)) % p == g(j) % p by {
                assert(ax[j] == dot(a[j], x) % p);
                assert(dot(a[j], x) % p == t[j] % p);
                lemma_mod_twice(dot(a[j], x), p);
                lemma_mul_mod_noop_right(inv[i][j], ax[j], p);
                lemma_mul_mod_noop_right(inv[i][j], t[j], p);
            }
            lemma_sum_cong(f, g, n as int, p);
            assert(dot(inv[i], ax) == sum(f, n as int));
            assert(dot(inv[i], t) == sum(g, n as int));
            lemma_small_mod(x[i] as nat, p as nat);
        }
        assert(x =~= x0);
    }
}

/// The reduced row echelon form of a table is unique: what `Matrix::rref`
/// returns as the reduced matrix and as the rank are the only ones that its
/// contract admits.
pub proof fn law_rref_determined(
    a: Seq<Seq<int>>,
    red1: Seq<Seq<int>>,
    pc1: Seq<int>,
    red2: Seq<Seq<int>>,
    pc2: Seq<int>,
    cols: nat,
    p: int,
)
    requires
        p > 1,
        is_table(red1, a.len(), cols),
        is_table(red2, a.len(), cols),
        is_canonical(red1, p),
        is_canonical(red2, p),
        is_rref(red1, cols as int, pc1),
        is_rref(red2, cols as int, pc2),
        same_kernel(a, red1, cols, p),
        same_kernel(a, red2, cols, p),
    ensures
        red1 == red2,
        pc1 == pc2,
        pc1.len() == pc2.len(),
{
    lemma_rref_unique(a, red1, pc1, red2, pc2, a.len(), cols as int, p);
}

/// A system has at most one solution in canonical residues in which every
/// free unknown is zero: what `Matrix::solve` returns is the only vector
/// that its contract admits.
pub proof fn law_solve_determined(m: Seq<Seq<int>>, b: Seq<int>, x1: Seq<int>, x2: Seq<int>, cols: nat, p: int)
    requires
        p > 1,
        is_table(m, m.len(), cols),
        b.len() == m.len(),
        is_basic_solution(m, b, x1, cols, p),
        is_basic_solution(m, b, x2, cols, p),
    ensures
        x1 == x2,
{
    lemma_basic_solution_unique(m, b, x1, x2, cols, p);
}

/// The system for a recurrence with polynomial coefficients has at most one
/// basic solution: the recurrence that `find_p_recursive` returns is the
/// only one that its contract admits, and it returns none only where the
/// one candidate fails or there is none.
pub proof fn law_p_recursive_determined(
    s: Seq<int>,
    max_deg: nat,
    max_num: nat,
    x1: Seq<int>,
    x2: Seq<int>,
    p: int,
)
    requires
        p > 1,
        is_basic_solution(
            p_rec_system(s, max_deg, max_num, p),
            unit_target(p_rec_size(max_deg, max_num)),
            x1,
            p_rec_size(max_deg, max_num),
            p,
        ),
        is_basic_solution(
            p_rec_system(s, max_deg, max_num, p),
            unit_target(p_rec_size(max_deg, max_num)),
            x2,
            p_rec_size(max_deg, max_num),
            p,
        ),
    ensures
        x1 == x2,
        p_rec_candidate(x1, max_deg, max_num) == p_rec_candidate(x2, max_deg, max_num),
{
    let size = p_rec_size(max_deg, max_num);
    lemma_basic_solution_unique(p_rec_system(s, max_deg, max_num, p), unit_target(size), x1, x2, size, p);
}

/// The system for a hypergeometric relation has at most one basic
/// solution: the polynomials that `find_hypergeometric` returns are the
/// only ones that its contract admits.
pub proof fn law_hypergeometric_determined(s: Seq<int>, max_deg: nat, x1: Seq<int>, x2: Seq<int>, p: int)
    requires
        p > 1,
        is_basic_solution(
            hyper_system(s, max_deg, p),
            unit_target((2 * (max_deg + 1)) as nat),
            x1,
            (2 * (max_deg + 1)) as nat,
            p,
        ),
        is_basic_solution(
            hyper_system(s, max_deg, p),
            unit_target((2 * (max_deg + 1)) as nat),
            x2,
            (2 * (max_deg + 1)) as nat,
            p,
        ),
    ensures
        x1 == x2,
{
    let size = (2 * (max_deg + 1)) as nat;
    lemma_basic_solution_unique(hyper_system(s, max_deg, p), unit_target(size), x1, x2, size, p);
}

/// `d` divides `n` and `c` divides the quotient exactly where `d * c` divides `n`.
pub proof fn lemma_divides_chain(n: int, d: int, c: int)
    requires
        n >= 0,
        d >= 1,
        c >= 1,
    ensures
        d * c >= 1,
        (n % d == 0 && (n / d) % c == 0) <==> n % (d * c) == 0,
{
    assert(d * c >= 1) by (nonlinear_arith)
        requires
            d >= 1,
            c >= 1,
    ;
    if n % d == 0 && (n / d) % c == 0 {
        let q = n / d;
        let r = q / c;
        lemma_fundamental_div_mod(n, d);
        lemma_fundamental_div_mod(q, c);
        assert(n == r * (d * c)) by (nonlinear_arith)
            requires
                n == d * q,
                q == c * r,
        ;
        lemma_mod_multiples_basic(r, d * c);
    }
    if n % (d * c) == 0 {
        let k = n / (d * c);
        lemma_fundamental_div_mod(n, d * c);
        assert(n == (c * k) * d && n == d * (c * k)) by (nonlinear_arith)
            requires
                n == (d * c) * k,
        ;
        lemma_mod_multiples_basic(c * k, d);
        lemma_div_multiples_vanish(c * k, d);
        lemma_mul_is_commutative(c, k);
        lemma_mod_multiples_basic(k, c);
    }
}

/// The term of `d` in the sum of the Möbius function over the divisors of `m`.
pub open spec fn mobius_term(m: int, d: int) -> int {
    if d >= 1 && m % d == 0 {
        mobius(d as nat)
    } else {
        0
    }
}

proof fn lemma_mobius_partial_sum(m: nat, k: nat)
    requires
        1 <= k <= m,
    ensures
        sum(|d: int| mobius_term(m as int, d), k as int) == mobius_partial(m, k),
    decreases k,
{
    let g = |d: int| mobius_term(m as int, d);
    if k == 1 {
        assert(sum(g, 1) == g(0)) by {
            reveal_with_fuel(sum, 2);
        }
    } else {
        lemma_mobius_partial_sum(m, (k - 1) as nat);
        assert(sum(g, k as int) == sum(g, k - 1) + g(k - 1));
    }
}

/// The Möbius function adds up to zero over the divisors of every integer
/// greater than one, and to one over those of one.
pub proof fn lemma_mobius_sum(m: nat)
    requires
        m >= 1,
    ensures
        sum(|d: int| mobius_term(m as int, d), m as int + 1) == kronecker(m as int, 1),
{
    let g = |d: int| mobius_term(m as int, d);
    lemma_mobius_partial_sum(m, m);
    assert(sum(g, m as int + 1) == sum(g, m as int) + g(m as int));
    lemma_mod_self_0(m as int);
    if m == 1 {
        assert(mobius_partial(1, 1) == 0);
    }
}

/// The Möbius transform undoes the inverse Möbius transform, for series with
/// constant term zero.
pub proof fn law_mobius_of_inverse(a: Seq<int>, p: int)
    requires
        p > 1,
        is_reduced(a, p),
        a.len() == 0 || a[0] == 0,
    ensures
        s_mobius(s_mobius_inv(a, p), p) == a,
{
    let len = a.len();
    let ones = s_ones(len);
    let b = s_mobius_inv(a, p);
    let mu = s_mu(len, p);
    let res = s_mobius(b, p);
    assert forall|n: int| 0 <= n < len implies res[n] == a[n] by {
        if n >= 1 {
            let outer = |d: int| divisor_term(b, mu, n, d);
            let term = |d: int, c: int|
                if d >= 1 && n % d == 0 && c >= 1 && (n / d) % c == 0 {
                    mobius(d as nat) * a[c]
                } else {
                    0int
                };
            let by_row = |d: int| sum(|c: int| term(d, c), n + 1);
            let by_col = |c: int| sum(|d: int| term(d, c), n + 1);
            lemma_sum_exchange(by_row, by_col, term, n + 1, n + 1);
            assert forall|d: int| 0 <= d < n + 1 implies (#[trigger] outer(d)) % p == by_row(d) % p by {
                let row = |c: int| term(d, c);
                if d >= 1 && n % d == 0 {
                    let m = n / d;
                    lemma_fundamental_div_mod(n, d);
                    assert(1 <= m <= n) by (nonlinear_arith)
                        requires
                            n == d * m,
                            n >= 1,
                            d >= 1,
                    ;
                    let dt = |c: int| divisor_term(ones, a, m, c);
                    assert forall|c: int| 0 <= c < n + 1 implies #[trigger] row(c) == mobius(d as nat)
                        * dt(c) by {
                        if c >= 1 && m % c == 0 {
                            lemma_fundamental_div_mod(m, c);
                            assert(0 <= m / c <= m) by (nonlinear_arith)
                                requires
                                    m == c * (m / c),
                                    m >= 1,
                                    c >= 1,
                            ;
                            assert(ones[m / c] == 1);
                            assert(1 * a[c] == a[c]);
                        } else {
                            assert(mobius(d as nat) * 0 == 0);
                        }
                    }
                    lemma_sum_scale(row, mobius(d as nat), dt, n + 1);
                    assert forall|c: int| m + 1 <= c < n + 1 implies #[trigger] dt(c) == 0 by {
                        lemma_small_mod(m as nat, c as nat);
                    }
                    lemma_sum_tail_zero(dt, m + 1, n + 1);
                    assert(b[m] == sum(dt, m + 1) % p);
                    assert(mu[d] == mobius(d as nat) % p);
                    lemma_mul_mod_noop(sum(dt, m + 1), mobius(d as nat), p);
                    lemma_mul_is_commutative(sum(dt, m + 1), mobius(d as nat));
                } else {
                    lemma_sum_zero(row, n + 1);
                }
            }
            lemma_sum_cong(outer, by_row, n + 1, p);
            let picked = |c: int| kronecker(c, n) * a[c];
            assert forall|c: int| 0 <= c < n + 1 implies #[trigger] by_col(c) == picked(c) by {
                let col = |d: int| term(d, c);
                if c >= 1 && n % c == 0 {
                    let mc = n / c;
                    lemma_fundamental_div_mod(n, c);
                    assert(1 <= mc <= n) by (nonlinear_arith)
                        requires
                            n == c * mc,
                            n >= 1,
                            c >= 1,
                    ;
                    let g = |d: int| mobius_term(mc, d);
                    assert forall|d: int| 0 <= d < n + 1 implies #[trigger] col(d) == a[c] * g(d) by {
                        if d >= 1 {
                            lemma_divides_chain(n, d, c);
                            lemma_divides_chain(n, c, d);
                            lemma_mul_is_commutative(d, c);
                        }
                        if d >= 1 && mc % d == 0 {
                            lemma_mul_is_commutative(mobius(d as nat), a[c]);
                        } else {
                            assert(a[c] * 0 == 0);
                        }
                    }
                    lemma_sum_scale(col, a[c], g, n + 1);
                    assert forall|d: int| mc + 1 <= d < n + 1 implies #[trigger] g(d) == 0 by {
                        lemma_small_mod(mc as nat, d as nat);
                    }
                    lemma_sum_tail_zero(g, mc + 1, n + 1);
                    lemma_mobius_sum(mc as nat);
                    if mc == 1 {
                        assert(c * 1 == c);
                        assert(c == n);
                        assert(a[c] * 1 == a[c]);
                        assert(1 * a[c] == a[c]);
                    } else {
                        if c == n {
                            lemma_div_by_self(n);
                        }
                        assert(a[c] * 0 == 0);
                        assert(0 * a[c] == 0);
                    }
                } else {
                    assert forall|d: int| 0 <= d < n + 1 implies #[trigger] col(d) == 0 by {
                        if d >= 1 && c >= 1 {
                            lemma_divides_chain(n, d, c);
                            lemma_divides_chain(n, c, d);
                            lemma_mul_is_commutative(d, c);
                        }
                    }
                    lemma_sum_zero(col, n + 1);
                    if c == n {
                        lemma_mod_self_0(n);
                    }
                    assert(0 * a[c] == 0);
                }
            }
            lemma_sum_ext(by_col, picked, n + 1);
            assert forall|c: int| 0 <= c < n + 1 && c != n implies #[trigger] picked(c) == 0 by {
                assert(0 * a[c] == 0);
            }
            lemma_sum_single(picked, n + 1, n);
            assert(1 * a[n] == a[n]);
            lemma_small_mod(a[n] as nat, p as nat);
        }
    }
    assert(res =~= a);
}

/// A sum over the multiples of `e` is the sum over their quotients by `e`.
pub proof fn lemma_sum_multiples(f: spec_fn(int) -> int, g: spec_fn(int) -> int, e: int, m: int)
    requires
        e >= 1,
        m >= 0,
        forall|d: int|
            0 <= d <= e * m ==> #[trigger] f(d) == (if d % e == 0 {
                g(d / e)
            } else {
                0int
            }),
    ensures
        e * m >= 0,
        sum(f, e * m + 1) == sum(g, m + 1),
    decreases m,
{
    assert(e * m >= 0) by (nonlinear_arith)
        requires
            e >= 1,
            m >= 0,
    ;
    if m == 0 {
        assert(e * 0 == 0);
        assert(sum(f, 1) == f(0)) by {
            reveal_with_fuel(sum, 2);
        }
        assert(sum(g, 1) == g(0)) by {
            reveal_with_fuel(sum, 2);
        }
        lemma_small_mod(0, e as nat);
        assert(0int / e == 0) by {
            lemma_div_basics_1(e);
        }
    } else {
        assert(e * (m - 1) + e == e * m) by (nonlinear_arith);
        assert(e * (m - 1) >= 0) by (nonlinear_arith)
            requires
                e >= 1,
                m >= 1,
        ;
        lemma_sum_multiples(f, g, e, m - 1);
        let top = e * m;
        assert forall|d: int| e * (m - 1) + 1 <= d < top implies #[trigger] f(d) == 0 by {
            let r = d - e * (m - 1);
            lemma_mul_is_commutative(e, m - 1);
            lemma_fundamental_div_mod_converse(d, e, m - 1, r);
        }
        lemma_sum_tail_zero(f, e * (m - 1) + 1, top);
        assert(sum(f, top + 1) == sum(f, top) + f(top));
        lemma_mul_is_commutative(e, m);
        lemma_mod_multiples_basic(m, e);
        lemma_div_multiples_vanish(m, e);
        assert(f(top) == g(m));
        assert(sum(g, m + 1) == sum(g, m) + g(m));
    }
}

/// The inverse Möbius transform undoes the Möbius transform, for series with
/// constant term zero.
pub proof fn law_inverse_of_mobius(a: Seq<int>, p: int)
    requires
        p > 1,
        is_reduced(a, p),
        a.len() == 0 || a[0] == 0,
    ensures
        s_mobius_inv(s_mobius(a, p), p) == a,
{
    let len = a.len();
    let ones = s_ones(len);
    let mu = s_mu(len, p);
    let c = s_mobius(a, p);
    let res = s_mobius_inv(c, p);
    assert forall|n: int| 0 <= n < len implies res[n] == a[n] by {
        if n >= 1 {
            let outer = |d: int| divisor_term(ones, c, n, d);
            let term1 = |d: int, e: int|
                if d >= 1 && n % d == 0 && e >= 1 && d % e == 0 {
                    a[d / e] * mobius(e as nat)
                } else {
                    0int
                };
            let term2 = |e: int, k: int|
                if e >= 1 && k >= 1 && n % (e * k) == 0 {
                    a[k] * mobius(e as nat)
                } else {
                    0int
                };
            let by_row1 = |d: int| sum(|e: int| term1(d, e), n + 1);
            let by_col1 = |e: int| sum(|d: int| term1(d, e), n + 1);
            let by_row2 = |e: int| sum(|k: int| term2(e, k), n + 1);
            let by_col2 = |k: int| sum(|e: int| term2(e, k), n + 1);
            lemma_sum_exchange(by_row1, by_col1, term1, n + 1, n + 1);
            lemma_sum_exchange(by_row2, by_col2, term2, n + 1, n + 1);
            // the terms of the outer sum are the rows of the first table
            assert forall|d: int| 0 <= d < n + 1 implies (#[trigger] outer(d)) % p == by_row1(d) % p by {
                let row = |e: int| term1(d, e);
                if d >= 1 && n % d == 0 {
                    lemma_fundamental_div_mod(n, d);
                    assert(0 <= n / d <= n) by (nonlinear_arith)
                        requires
                            n == d * (n / d),
                            n >= 1,
                            d >= 1,
                    ;
                    assert(ones[n / d] == 1);
                    assert(1 * c[d] == c[d]);
                    let dt = |e: int| divisor_term(a, mu, d, e);
                    assert forall|e: int| 0 <= e < d + 1 implies (#[trigger] dt(e)) % p == row(e) % p by {
                        if e >= 1 && d % e == 0 {
                            lemma_mul_mod_noop_right(a[d / e], mobius(e as nat), p);
                        }
                    }
                    lemma_sum_cong(dt, row, d + 1, p);
                    assert forall|e: int| d + 1 <= e < n + 1 implies #[trigger] row(e) == 0 by {
                        lemma_small_mod(d as nat, e as nat);
                    }
                    lemma_sum_tail_zero(row, d + 1, n + 1);
                    assert(c[d] == sum(dt, d + 1) % p);
                    lemma_mod_twice(sum(dt, d + 1), p);
                } else {
                    lemma_sum_zero(row, n + 1);
                }
            }
            lemma_sum_cong(outer, by_row1, n + 1, p);
            // the columns of the first table are the rows of the second
            assert forall|e: int| 0 <= e < n + 1 implies #[trigger] by_col1(e) == by_row2(e) by {
                let col = |d: int| term1(d, e);
                let row = |k: int| term2(e, k);
                if e >= 1 {
                    let m0 = n / e;
                    lemma_fundamental_div_mod(n, e);
                    lemma_mod_bound(n, e);
                    lemma_div_pos_is_pos(n, e);
                    assert(e * m0 <= n);
                    assert forall|d: int| 0 <= d <= e * m0 implies #[trigger] col(d) == (if d % e == 0 {
                        row(d / e)
                    } else {
                        0int
                    }) by {
                        if d % e == 0 {
                            let k = d / e;
                            lemma_fundamental_div_mod(d, e);
                            lemma_div_pos_is_pos(d, e);
                            assert(d == e * k);
                            if k == 0 {
                                assert(e * 0 == 0);
                            } else {
                                assert(d >= 1) by (nonlinear_arith)
                                    requires
                                        d == e * k,
                                        e >= 1,
                                        k >= 1,
                                ;
                            }
                        }
                    }
                    lemma_sum_multiples(col, row, e, m0);
                    assert forall|d: int| e * m0 + 1 <= d < n + 1 implies #[trigger] col(d) == 0 by {
                        let r = d - e * m0;
                        lemma_mul_is_commutative(e, m0);
                        lemma_fundamental_div_mod_converse(d, e, m0, r);
                    }
                    lemma_sum_tail_zero(col, e * m0 + 1, n + 1);
                    assert(m0 <= n) by (nonlinear_arith)
                        requires
                            e * m0 <= n,
                            e >= 1,
                            m0 >= 0,
                    ;
                    assert forall|k: int| m0 + 1 <= k < n + 1 implies #[trigger] row(k) == 0 by {
                        assert(e * k > n) by (nonlinear_arith)
                            requires
                                n == e * m0 + n % e,
                                n % e < e,
                                k >= m0 + 1,
                                e >= 1,
                        ;
                        lemma_small_mod(n as nat, (e * k) as nat);
                    }
                    lemma_sum_tail_zero(row, m0 + 1, n + 1);
                } else {
                    lemma_sum_zero(col, n + 1);
                    lemma_sum_zero(row, n + 1);
                }
            }
            lemma_sum_ext(by_col1, by_row2, n + 1);
            // the columns of the second table pick the coefficient n
            let picked = |k: int| kronecker(k, n) * a[k];
            assert forall|k: int| 0 <= k < n + 1 implies #[trigger] by_col2(k) == picked(k) by {
                let col = |e: int| term2(e, k);
                if k >= 1 && n % k == 0 {
                    let mk = n / k;
                    lemma_fundamental_div_mod(n, k);
                    assert(1 <= mk <= n) by (nonlinear_arith)
                        requires
                            n == k * mk,
                            n >= 1,
                            k >= 1,
                    ;
                    let g = |e: int| mobius_term(mk, e);
                    assert forall|e: int| 0 <= e < n + 1 implies #[trigger] col(e) == a[k] * g(e) by {
                        if e >= 1 {
                            lemma_divides_chain(n, k, e);
                            lemma_mul_is_commutative(e, k);
                        }
                        if !(e >= 1 && mk % e == 0) {
                            assert(a[k] * 0 == 0);
                        }
                    }
                    lemma_sum_scale(col, a[k], g, n + 1);
                    assert forall|e: int| mk + 1 <= e < n + 1 implies #[trigger] g(e) == 0 by {
                        lemma_small_mod(mk as nat, e as nat);
                    }
                    lemma_sum_tail_zero(g, mk + 1, n + 1);
                    lemma_mobius_sum(mk as nat);
                    if mk == 1 {
                        assert(k * 1 == k);
                        assert(k == n);
                        assert(a[k] * 1 == a[k]);
                        assert(1 * a[k] == a[k]);
                    } else {
                        if k == n {
                            lemma_div_by_self(n);
                        }
                        assert(a[k] * 0 == 0);
                        assert(0 * a[k] == 0);
                    }
                } else {
                    assert forall|e: int| 0 <= e < n + 1 implies #[trigger] col(e) == 0 by {
                        if e >= 1 && k >= 1 {
                            lemma_divides_chain(n, k, e);
                            lemma_mul_is_commutative(e, k);
                        }
                    }
                    lemma_sum_zero(col, n + 1);
                    if k == n {
                        lemma_mod_self_0(n);
                    }
                    assert(0 * a[k] == 0);
                }
            }
            lemma_sum_ext(by_col2, picked, n + 1);
            assert forall|k: int| 0 <= k < n + 1 && k != n implies #[trigger] picked(k) == 0 by {
                assert(0 * a[k] == 0);
            }
            lemma_sum_single(picked, n + 1, n);
            assert(1 * a[n] == a[n]);
            lemma_small_mod(a[n] as nat, p as nat);
        }
    }
    assert(res =~= a);
}

/// Dividing by a unit and multiplying by it again, in either order, changes nothing.
pub proof fn lemma_quot_mul(x: int, u: int, p: int)
    requires
        p > 1,
        is_unit(u, p),
    ensures
        mul_mod(u, quot_mod(x, u, p), p) == x % p,
        quot_mod(mul_mod(x, u, p), u, p) == x % p,
{
    let iu = inv_mod(u, p);
    lemma_inv_mod(u, p);
    // u * ((x * iu) % p) == x * (iu * u) == x
    lemma_mul_mod_noop_right(u, x * iu, p);
    assert(u * (x * iu) == x * (iu * u)) by (nonlinear_arith);
    lemma_mul_mod_noop_right(x, iu * u, p);
    lemma_mul_is_commutative(iu, u);
    assert(x * 1 == x);
    // ((x * u) % p * iu) % p == x * (u * iu) == x
    lemma_mul_mod_noop_left(x * u, iu, p);
    lemma_mul_is_associative(x, u, iu);
    lemma_mul_mod_noop_right(x, u * iu, p);
}

/// Further coefficients of the Euler transform do not change earlier ones.
proof fn lemma_euler_prefix_stable(a0: int, c: Seq<int>, n: nat, m: nat, p: int)
    requires
        m <= n,
    ensures
        s_euler_prefix(a0, c, n, p).len() == n,
        forall|i: int| 0 <= i < m ==> s_euler_prefix(a0, c, n, p)[i] == s_euler_prefix(a0, c, m, p)[i],
    decreases n,
{
    lemma_euler_prefix_len(a0, c, n, p);
    if n > 1 && m < n {
        lemma_euler_prefix_stable(a0, c, (n - 1) as nat, m, p);
    }
}

/// Further divisor sums of the inverse Euler transform do not change earlier ones.
proof fn lemma_euler_inv_pre_stable(a: Seq<int>, n: nat, m: nat, p: int)
    requires
        m <= n,
    ensures
        s_euler_inv_pre(a, n, p).len() == n,
        forall|i: int| 0 <= i < m ==> s_euler_inv_pre(a, n, p)[i] == s_euler_inv_pre(a, m, p)[i],
    decreases n,
{
    lemma_euler_inv_pre_len(a, n, p);
    if n > 1 && m < n {
        lemma_euler_inv_pre_stable(a, (n - 1) as nat, m, p);
    }
}

/// The divisor sums that the inverse Euler transform recovers are reduced.
proof fn lemma_euler_inv_pre_reduced(a: Seq<int>, n: nat, p: int)
    requires
        p > 1,
    ensures
        is_reduced(s_euler_inv_pre(a, n, p), p),
    decreases n,
{
    if n > 1 {
        lemma_euler_inv_pre_reduced(a, (n - 1) as nat, p);
        lemma_euler_inv_pre_len(a, (n - 1) as nat, p);
        let r = s_euler_inv_pre(a, (n - 1) as nat, p);
        let cur = s_euler_inv_pre(a, n, p);
        assert forall|i: int| 0 <= i < cur.len() implies 0 <= #[trigger] cur[i] < p by {
            if i == n - 1 {
                lemma_mod_bound(mul_mod(n - 1, a[n - 1], p) - euler_inv_feedback(r, a, n - 1), p);
            } else {
                assert(cur[i] == r[i]);
            }
        }
    }
}

/// The two recurrences undo each other: where `b` comes from the divisor
/// sums `c` by the recurrence of the Euler transform, the recurrence of the
/// inverse transform recovers `c` from `b`.
proof fn lemma_euler_recovers_sums(a0: int, c: Seq<int>, n: nat, i: int, p: int)
    requires
        p > 1,
        units_upto(n as int, p),
        is_reduced(c, p),
        c.len() == n,
        n > 0,
        c[0] == 0,
        0 <= i < n,
    ensures
        s_euler_inv_pre(s_euler_prefix(a0, c, n, p), n, p)[i] == c[i],
    decreases i,
{
    let b = s_euler_prefix(a0, c, n, p);
    let pre = s_euler_inv_pre(b, n, p);
    lemma_euler_prefix_stable(a0, c, n, (i + 1) as nat, p);
    lemma_euler_prefix_stable(a0, c, n, i as nat, p);
    lemma_euler_inv_pre_stable(b, n, (i + 1) as nat, p);
    lemma_euler_inv_pre_stable(b, n, i as nat, p);
    if i > 0 {
        let bi = s_euler_prefix(a0, c, i as nat, p);
        let prei = s_euler_inv_pre(b, i as nat, p);
        lemma_euler_prefix_len(a0, c, i as nat, p);
        lemma_euler_inv_pre_len(b, i as nat, p);
        let x = |j: int| if j >= 1 { bi[i - j] * c[j] } else { 0int };
        let y = |j: int| if j >= 1 { prei[j] * b[i - j] } else { 0int };
        assert forall|j: int| 0 <= j < i implies #[trigger] x(j) == y(j) by {
            if j >= 1 {
                lemma_euler_recovers_sums(a0, c, n, j, p);
                lemma_euler_inv_pre_stable(b, n, (j + 1) as nat, p);
                assert(prei[j] == pre[j]);
                assert(bi[i - j] == b[i - j]);
                lemma_mul_is_commutative(bi[i - j], c[j]);
            }
        }
        lemma_sum_ext(x, y, i);
        let s = euler_feedback(bi, c, i);
        assert(euler_inv_feedback(prei, b, i) == s);
        assert(b[i] == quot_mod(add_mod(c[i], s, p), i, p));
        assert(pre[i] == sub_mod(mul_mod(i, b[i], p), s, p));
        assert(is_unit(i, p));
        lemma_quot_mul(add_mod(c[i], s, p), i, p);
        lemma_mod_twice(c[i] + s, p);
        assert(mul_mod(i, b[i], p) == (c[i] + s) % p);
        lemma_sub_mod_noop(c[i] + s, s, p);
        lemma_sub_mod_noop_right((c[i] + s) % p, s, p);
        assert(pre[i] == (c[i] + s - s) % p);
        lemma_small_mod(c[i] as nat, p as nat);
    } else {
        assert(s_euler_inv_pre(b, 1, p) =~= seq![0int]);
        assert(pre[0] == s_euler_inv_pre(b, 1, p)[0]);
    }
}

/// And the other way round: where `c` comes from `a` by the recurrence of
/// the inverse transform, the recurrence of the Euler transform recovers `a`.
proof fn lemma_euler_recovers_series(a: Seq<int>, n: nat, i: int, p: int)
    requires
        p > 1,
        units_upto(n as int, p),
        is_reduced(a, p),
        a.len() == n,
        n > 0,
        0 <= i < n,
    ensures
        s_euler_prefix(a[0], s_euler_inv_pre(a, n, p), n, p)[i] == a[i],
    decreases i,
{
    let c = s_euler_inv_pre(a, n, p);
    let b = s_euler_prefix(a[0], c, n, p);
    lemma_euler_prefix_stable(a[0], c, n, (i + 1) as nat, p);
    lemma_euler_prefix_stable(a[0], c, n, i as nat, p);
    lemma_euler_inv_pre_stable(a, n, (i + 1) as nat, p);
    lemma_euler_inv_pre_stable(a, n, i as nat, p);
    if i > 0 {
        let bi = s_euler_prefix(a[0], c, i as nat, p);
        let ci = s_euler_inv_pre(a, i as nat, p);
        lemma_euler_prefix_len(a[0], c, i as nat, p);
        lemma_euler_inv_pre_len(a, i as nat, p);
        let x = |j: int| if j >= 1 { bi[i - j] * c[j] } else { 0int };
        let y = |j: int| if j >= 1 { ci[j] * a[i - j] } else { 0int };
        assert forall|j: int| 0 <= j < i implies #[trigger] x(j) == y(j) by {
            if j >= 1 {
                lemma_euler_recovers_series(a, n, i - j, p);
                lemma_euler_prefix_stable(a[0], c, n, (i - j + 1) as nat, p);
                assert(bi[i - j] == b[i - j]);
                assert(ci[j] == c[j]);
                lemma_mul_is_commutative(a[i - j], c[j]);
            }
        }
        lemma_sum_ext(x, y, i);
        let s = euler_inv_feedback(ci, a, i);
        assert(euler_feedback(bi, c, i) == s);
        assert(c[i] == sub_mod(mul_mod(i, a[i], p), s, p));
        assert(b[i] == quot_mod(add_mod(c[i], s, p), i, p));
        // c[i] + s == i * a[i], modulo p
        lemma_add_mod_noop_left(mul_mod(i, a[i], p) - s, s, p);
        lemma_mod_twice(i * a[i], p);
        assert(add_mod(c[i], s, p) == mul_mod(a[i], i, p)) by {
            lemma_mul_is_commutative(i, a[i]);
        }
        assert(is_unit(i, p));
        lemma_quot_mul(a[i], i, p);
        lemma_small_mod(a[i] as nat, p as nat);
    } else {
        assert(s_euler_prefix(a[0], c, 1, p) =~= seq![a[0]]);
        assert(b[0] == s_euler_prefix(a[0], c, 1, p)[0]);
    }
}

/// The inverse Euler transform undoes the Euler transform, where every index
/// has an inverse.
pub proof fn law_euler_inverse_of_transform(a: Seq<int>, p: int)
    requires
        p > 1,
        is_reduced(a, p),
        units_upto(a.len() as int, p),
    ensures
        s_euler_inv(s_euler(a, p), p) == a,
{
    let n = a.len();
    lemma_small_mod(0, p as nat);
    if n == 0 {
        assert(s_euler(a, p) =~= a);
        assert(s_euler_inv(s_euler(a, p), p) =~= a);
    } else {
        let pt = s_point(a, p);
        let c = s_mobius_inv(pt, p);
        let b = s_euler(a, p);
        lemma_euler_prefix_stable(a[0], c, n, 1, p);
        assert(s_euler_prefix(a[0], c, 1, p) =~= seq![a[0]]);
        assert(b[0] == a[0]);
        assert(is_reduced(pt, p)) by {
            assert forall|i: int| 0 <= i < pt.len() implies 0 <= #[trigger] pt[i] < p by {
                lemma_mod_bound(a[i] * i, p);
            }
        }
        assert(pt[0] == 0) by {
            assert(a[0] * 0 == 0);
        }
        assert(is_reduced(c, p)) by {
            assert forall|i: int| 0 <= i < c.len() implies 0 <= #[trigger] c[i] < p by {
                if i > 0 {
                    lemma_mod_bound(sum(|d: int| divisor_term(s_ones(n), pt, i, d), i + 1), p);
                }
            }
        }
        let pre = s_euler_inv_pre(b, n, p);
        lemma_euler_inv_pre_len(b, n, p);
        assert forall|i: int| 0 <= i < n implies pre[i] == c[i] by {
            lemma_euler_recovers_sums(a[0], c, n, i, p);
        }
        assert(pre =~= c);
        law_mobius_of_inverse(pt, p);
        assert(s_mobius(pre, p) == pt);
        let back = s_euler_inv(b, p);
        assert forall|i: int| 0 <= i < n implies back[i] == a[i] by {
            lemma_small_mod(a[i] as nat, p as nat);
            if i > 0 {
                assert(is_unit(i, p));
                lemma_quot_mul(a[i], i, p);
                assert(back[i] == quot_mod(pt[i], i, p));
            } else {
                assert(back[0] == add_mod(pt[0], b[0], p));
            }
        }
        assert(back =~= a);
    }
}

/// The Euler transform undoes the inverse Euler transform, where every index
/// has an inverse.
pub proof fn law_euler_transform_of_inverse(a: Seq<int>, p: int)
    requires
        p > 1,
        is_reduced(a, p),
        units_upto(a.len() as int, p),
    ensures
        s_euler(s_euler_inv(a, p), p) == a,
{
    let n = a.len();
    lemma_small_mod(0, p as nat);
    if n == 0 {
        assert(s_euler_inv(a, p) =~= a);
        assert(s_euler(s_euler_inv(a, p), p) =~= a);
    } else {
        let pre2 = s_euler_inv_pre(a, n, p);
        lemma_euler_inv_pre_len(a, n, p);
        lemma_euler_inv_pre_stable(a, n, 1, p);
        assert(s_euler_inv_pre(a, 1, p) =~= seq![0int]);
        assert(pre2[0] == 0);
        lemma_euler_inv_pre_reduced(a, n, p);
        let mob = s_mobius(pre2, p);
        let ia = s_euler_inv(a, p);
        assert(mob[0] == 0);
        assert(ia[0] == a[0]) by {
            lemma_small_mod(a[0] as nat, p as nat);
        }
        let pt2 = s_point(ia, p);
        assert forall|i: int| 0 <= i < n implies pt2[i] == mob[i] by {
            if i > 0 {
                assert(is_unit(i, p));
                lemma_quot_mul(mob[i], i, p);
                lemma_mul_is_commutative(i, quot_mod(mob[i], i, p));
                lemma_mod_bound(sum(|d: int| divisor_term(pre2, s_mu(n, p), i, d), i + 1), p);
                lemma_small_mod(mob[i] as nat, p as nat);
                assert(ia[i] == quot_mod(mob[i], i, p));
            } else {
                assert(ia[0] * 0 == 0);
            }
        }
        assert(pt2 =~= mob);
        law_inverse_of_mobius(pre2, p);
        assert(s_mobius_inv(pt2, p) == pre2);
        let fwd = s_euler(ia, p);
        lemma_euler_prefix_len(ia[0], pre2, n, p);
        assert forall|i: int| 0 <= i < n implies fwd[i] == a[i] by {
            lemma_euler_recovers_series(a, n, i, p);
        }
        assert(fwd =~= a);
    }
}

/// The binomial coefficient: the number of subsets of `m` elements of a set of `n`.
pub open spec fn binom(n: nat, m: nat) -> int
    decreases n,
{
    if m == 0 {
        1
    } else if n == 0 {
        0
    } else {
        binom((n - 1) as nat, (m - 1) as nat) + binom((n - 1) as nat, m)
    }
}

/// Entry `k` of row `t` of the iterated sums is the sum of `C(t, j) * a[k + j]`.
proof fn lemma_sum_rows_binomial(a: Seq<int>, t: nat, k: int, p: int)
    requires
        p > 1,
        0 <= k,
        k + t < a.len(),
    ensures
        s_sum_rows(a, t, p)[k] % p == sum(|j: int| binom(t, j as nat) * a[k + j], t as int + 1) % p,
    decreases t,
{
    let f = |j: int| binom(t, j as nat) * a[k + j];
    let n = t as int;
    if t == 0 {
        assert(sum(f, 1) == f(0)) by {
            reveal_with_fuel(sum, 2);
        }
        assert(1 * a[k] == a[k]);
    } else {
        let t1 = (t - 1) as nat;
        let r = s_sum_rows(a, t1, p);
        lemma_rows_len(a, t1, p);
        lemma_sum_rows_binomial(a, t1, k, p);
        lemma_sum_rows_binomial(a, t1, k + 1, p);
        let g1 = |j: int| binom(t1, j as nat) * a[k + j];
        let g2 = |j: int| binom(t1, j as nat) * a[k + 1 + j];
        let fs = |i: int| f(1 + i);
        let g1s = |i: int| g1(1 + i);
        assert forall|i: int| 0 <= i < t implies #[trigger] fs(i) == 1 * g2(i) + 1 * g1s(i) by {
            let x = binom(t1, i as nat);
            let y = binom(t1, (1 + i) as nat);
            assert(binom(t, (1 + i) as nat) == x + y);
            assert((x + y) * a[k + 1 + i] == 1 * (x * a[k + 1 + i]) + 1 * (y * a[k + 1 + i]))
                by (nonlinear_arith);
        }
        lemma_sum_linear(fs, 1, g2, 1, g1s, t as int);
        lemma_sum_split(f, fs, 1, n + 1);
        lemma_sum_split(g1, g1s, 1, n + 1);
        assert(sum(f, 1) == f(0)) by {
            reveal_with_fuel(sum, 2);
        }
        assert(sum(g1, 1) == g1(0)) by {
            reveal_with_fuel(sum, 2);
        }
        assert(f(0) == g1(0)) by {
            assert(binom(t, 0) == 1);
            assert(binom(t1, 0) == 1);
        }
        assert(g1(t as int) == 0) by {
            lemma_binom_zero(t1, t);
            assert(0 * a[k + t] == 0);
        }
        assert(sum(g1, n + 1) == sum(g1, n) + g1(n));
        assert(sum(f, n + 1) == sum(g1, n) + sum(g2, n));
        assert(s_sum_rows(a, t, p)[k] == add_mod(r[k], r[k + 1], p));
        lemma_add_mod_noop(r[k], r[k + 1], p);
        lemma_add_mod_noop(sum(g1, t as int), sum(g2, t as int), p);
        lemma_mod_twice(r[k] + r[k + 1], p);
    }
}

/// Coefficient `t` of the binomial transform of `a` is the sum of
/// `C(t, j) * a[j]` over `j` from `0` to `t`.
pub proof fn law_binomial_coefficients(a: Seq<int>, t: int, p: int)
    requires
        p > 1,
        is_reduced(a, p),
        0 <= t < a.len(),
    ensures
        s_binomial(a, p)[t] == sum(|j: int| binom(t as nat, j as nat) * a[j], t + 1) % p,
{
    lemma_sum_rows_binomial(a, t as nat, 0, p);
    lemma_rows_reduced(a, t as nat, p);
    let f = |j: int| binom(t as nat, j as nat) * a[0 + j];
    let g = |j: int| binom(t as nat, j as nat) * a[j];
    lemma_sum_ext(f, g, t + 1);
    lemma_rows_len(a, t as nat, p);
    lemma_small_mod(s_sum_rows(a, t as nat, p)[0] as nat, p as nat);
}

/// One for an even argument, minus one for an odd one.
pub open spec fn alternating(m: int) -> int {
    if m % 2 == 0 {
        1
    } else {
        -1
    }
}

/// The signs of two numbers multiply to the sign of their difference.
proof fn lemma_alternating_difference(a: int, b: int)
    ensures
        alternating(a) * alternating(b) == alternating(a - b),
{
    lemma_sub_mod_noop(a, b, 2);
    lemma_mod_bound(a, 2);
    lemma_mod_bound(b, 2);
    assert(1 * 1 == 1);
    assert(1 * (-1) == -1);
    assert((-1) * 1 == -1);
    assert((-1) * (-1) == 1);
    lemma_small_mod(0, 2);
    lemma_small_mod(1, 2);
    assert((-1int) % 2 == 1) by {
        lemma_mod_add_multiples_vanish(-1, 2);
    }
}

proof fn lemma_binom_zero(n: nat, m: nat)
    requires
        m > n,
    ensures
        binom(n, m) == 0,
    decreases n,
{
    if n > 0 {
        lemma_binom_zero((n - 1) as nat, (m - 1) as nat);
        lemma_binom_zero((n - 1) as nat, m);
    }
}

proof fn lemma_binom_full(n: nat)
    ensures
        binom(n, n) == 1,
    decreases n,
{
    if n > 0 {
        lemma_binom_full((n - 1) as nat);
        lemma_binom_zero((n - 1) as nat, n);
    }
}

/// A binomial coefficient times the factorials below it is the factorial above it.
pub proof fn lemma_binom_factorials(n: nat, m: nat)
    requires
        m <= n,
    ensures
        binom(n, m) * (factorial(m) * factorial((n - m) as nat)) == factorial(n),
    decreases n,
{
    if m == 0 {
        assert(factorial(0) == 1);
        assert(1 * (1 * factorial(n)) == factorial(n));
    } else if m == n {
        lemma_binom_full(n);
        assert(factorial(0) == 1);
        assert(1 * (factorial(n) * 1) == factorial(n));
    } else {
        let n1 = (n - 1) as nat;
        let m1 = (m - 1) as nat;
        lemma_binom_factorials(n1, m1);
        lemma_binom_factorials(n1, m);
        let b1 = binom(n1, m1);
        let b2 = binom(n1, m);
        let fm1 = factorial(m1);
        let fr = factorial((n - m) as nat);
        let fr1 = factorial((n - m - 1) as nat);
        let fn1 = factorial(n1);
        assert(factorial(m) == m * fm1);
        assert(fr == (n - m) * fr1);
        assert(factorial(n) == n * fn1);
        assert((n1 - m1) as nat == (n - m) as nat);
        assert((n1 - m) as nat == (n - m - 1) as nat);
        assert(b1 * (fm1 * fr) == fn1);
        assert(b2 * (factorial(m) * fr1) == fn1);
        assert(b1 * ((m * fm1) * fr) == m * (b1 * (fm1 * fr))) by (nonlinear_arith);
        assert(b2 * (factorial(m) * ((n - m) * fr1)) == (n - m) * (b2 * (factorial(m) * fr1)))
            by (nonlinear_arith);
        assert((b1 + b2) * (factorial(m) * fr) == b1 * (factorial(m) * fr) + b2 * (factorial(m) * fr))
            by (nonlinear_arith);
        assert(m * fn1 + (n - m) * fn1 == n * fn1) by (nonlinear_arith);
    }
}

/// The binomial coefficients of a row below the first add up to zero with alternating signs.
pub proof fn lemma_alternating_binom_sum(n: nat)
    requires
        n >= 1,
    ensures
        sum(|m: int| alternating(m) * binom(n, m as nat), n as int + 1) == 0,
{
    let n1 = (n - 1) as nat;
    let f = |m: int| alternating(m) * binom(n, m as nat);
    let g = |m: int| alternating(m) * binom(n1, m as nat);
    let h = |m: int| f(1 + m);
    let g1 = |m: int| g(1 + m);
    lemma_sum_split(f, h, 1, n as int + 1);
    assert(sum(f, 1) == f(0)) by {
        reveal_with_fuel(sum, 2);
    }
    assert(f(0) == 1) by {
        assert(1 * 1 == 1);
    }
    assert forall|m: int| 0 <= m < n implies #[trigger] h(m) == (-1) * g(m) + 1 * g1(m) by {
        let x = binom(n1, m as nat);
        let y = binom(n1, (1 + m) as nat);
        assert(binom(n, (1 + m) as nat) == x + y);
        assert(alternating(1 + m) == -alternating(m));
        assert((-alternating(m)) * (x + y) == (-1) * (alternating(m) * x) + 1 * ((-alternating(m))
            * y)) by (nonlinear_arith);
    }
    lemma_sum_linear(h, -1, g, 1, g1, n as int);
    lemma_sum_split(g, g1, 1, n as int + 1);
    assert(sum(g, 1) == g(0)) by {
        reveal_with_fuel(sum, 2);
    }
    assert(g(0) == 1) by {
        assert(1 * 1 == 1);
    }
    assert(sum(g, n as int + 1) == sum(g, n as int) + g(n as int));
    assert(g(n as int) == 0) by {
        lemma_binom_zero(n1, n);
        assert(alternating(n as int) * 0 == 0);
    }
}

/// Multiplying by a number congruent to one does not change the residue.
proof fn lemma_mod_absorb(m: int, w: int, p: int)
    requires
        p > 0,
        w % p == 1,
    ensures
        (m * w) % p == m % p,
{
    lemma_mul_mod_noop_right(m, w, p);
    assert(m * 1 == m);
}

/// The Lah number before its reduction: the product of two factorials and
/// of the inverses of three.
pub open spec fn lah_product(i: int, j: int, p: int) -> int {
    factorial(i as nat) * factorial((i - 1) as nat) * inv_mod(factorial(j as nat), p) * inv_mod(
        factorial((j - 1) as nat),
        p,
    ) * inv_mod(factorial((i - j) as nat), p)
}

proof fn lemma_lah_normal(i: int, j: int, p: int)
    requires
        p > 0,
    ensures
        lah_number(i, j, p) == lah_product(i, j, p) % p,
{
    let a = factorial(i as nat) * factorial((i - 1) as nat);
    let x = inv_mod(factorial(j as nat), p);
    let y = inv_mod(factorial((j - 1) as nat), p);
    let z = inv_mod(factorial((i - j) as nat), p);
    lemma_mul_mod_noop_left(a, x, p);
    lemma_mul_mod_noop_left(a * x, y, p);
    lemma_mul_mod_noop_left(a * x * y, z, p);
}

/// The factorials below `n` are units with their inverses.
proof fn lemma_factorial_inverse(t: int, n: nat, p: int)
    requires
        p > 1,
        units_upto(n as int, p),
        0 <= t < n,
    ensures
        (factorial(t as nat) * inv_mod(factorial(t as nat), p)) % p == 1,
{
    lemma_factorial_unit(t as nat, p);
    assert forall|k: int| 1 <= k < t + 1 implies #[trigger] is_unit(k, p) by {}
    lemma_inv_mod(factorial(t as nat), p);
}

/// The product of two Lah numbers in a chain is the Lah number of the ends
/// times a binomial coefficient.
proof fn lemma_lah_chain(i: int, j: int, k: int, n: nat, p: int)
    requires
        p > 1,
        units_upto(n as int, p),
        1 <= k <= j <= i < n,
    ensures
        (lah_number(i, j, p) * lah_number(j, k, p)) % p == (lah_number(i, k, p) * binom(
            (i - k) as nat,
            (j - k) as nat,
        )) % p,
{
    let fi = factorial(i as nat);
    let fi1 = factorial((i - 1) as nat);
    let fj = factorial(j as nat);
    let fj1 = factorial((j - 1) as nat);
    let ij = inv_mod(fj, p);
    let ij1 = inv_mod(fj1, p);
    let ik = inv_mod(factorial(k as nat), p);
    let ik1 = inv_mod(factorial((k - 1) as nat), p);
    let xf = factorial((i - j) as nat);
    let yf = factorial((j - k) as nat);
    let zf = factorial((i - k) as nat);
    let x = inv_mod(xf, p);
    let y = inv_mod(yf, p);
    let z = inv_mod(zf, p);
    let c = binom((i - k) as nat, (j - k) as nat);
    lemma_factorial_inverse(j, n, p);
    lemma_factorial_inverse(j - 1, n, p);
    lemma_factorial_inverse(i - j, n, p);
    lemma_factorial_inverse(j - k, n, p);
    lemma_factorial_inverse(i - k, n, p);
    lemma_binom_factorials((i - k) as nat, (j - k) as nat);
    assert(((i - k) - (j - k)) as nat == (i - j) as nat);
    assert(c * (yf * xf) == zf);
    let a = fi * fi1 * ik * ik1;
    let core = a * x * y;
    // the left side
    let pl = lah_product(i, j, p) * lah_product(j, k, p);
    lemma_lah_normal(i, j, p);
    lemma_lah_normal(j, k, p);
    lemma_lah_normal(i, k, p);
    lemma_mul_mod_noop(lah_product(i, j, p), lah_product(j, k, p), p);
    assert(lah_product(i, j, p) == fi * fi1 * ij * ij1 * x);
    assert(lah_product(j, k, p) == fj * fj1 * ik * ik1 * y);
    let pp = fi * fi1;
    let qq = ik * ik1;
    let u = pp * x;
    let v = ij * ij1;
    let w = qq * y;
    let zz = fj * fj1;
    assert(pp * ij * ij1 * x == u * v) by (nonlinear_arith)
        requires
            u == pp * x,
            v == ij * ij1,
    ;
    assert(fj * fj1 * ik * ik1 * y == w * zz) by (nonlinear_arith)
        requires
            w == (ik * ik1) * y,
            zz == fj * fj1,
    ;
    assert((u * v) * (w * zz) == (u * w) * (v * zz)) by (nonlinear_arith);
    assert(v * zz == (fj * ij) * (fj1 * ij1)) by (nonlinear_arith)
        requires
            v == ij * ij1,
            zz == fj * fj1,
    ;
    assert(u * w == pp * ik * ik1 * x * y) by (nonlinear_arith)
        requires
            u == pp * x,
            w == (ik * ik1) * y,
    ;
    assert(core == u * w);
    let r1 = fj * ij;
    let r2 = fj1 * ij1;
    assert(core * (r1 * r2) == (core * r1) * r2) by (nonlinear_arith);
    assert(pl == (core * (fj * ij)) * (fj1 * ij1));
    lemma_mod_absorb(core * (fj * ij), fj1 * ij1, p);
    lemma_mod_absorb(core, fj * ij, p);
    assert(pl % p == core % p);
    // the right side
    let pr = lah_product(i, k, p) * c;
    lemma_mul_mod_noop_left(lah_product(i, k, p), c, p);
    assert(lah_product(i, k, p) == fi * fi1 * ik * ik1 * z);
    lemma_mod_absorb(pr, yf * y, p);
    lemma_mod_absorb(pr * (yf * y), xf * x, p);
    let u1 = a * y;
    let s1 = c * yf;
    let v1 = s1 * xf;
    assert(v1 == zf) by {
        lemma_mul_is_associative(c, yf, xf);
    }
    assert(pr == (a * z) * c);
    assert(core == (a * x) * y);
    assert(((a * z) * c) * (yf * y) == (u1 * z) * s1) by (nonlinear_arith)
        requires
            u1 == a * y,
            s1 == c * yf,
    ;
    let w1 = u1 * z;
    assert((w1 * s1) * (xf * x) == w1 * (v1 * x)) by (nonlinear_arith)
        requires
            v1 == s1 * xf,
    ;
    assert((u1 * z) * (v1 * x) == (u1 * x) * (v1 * z)) by (nonlinear_arith);
    assert((a * x) * y == u1 * x) by (nonlinear_arith)
        requires
            u1 == a * y,
    ;
    assert((pr * (yf * y)) * (xf * x) == core * (zf * z));
    lemma_mod_absorb(core, zf * z, p);
    assert(pr % p == core % p);
}

/// The Lah number of equal arguments is one.
proof fn lemma_lah_diagonal(i: int, n: nat, p: int)
    requires
        p > 1,
        units_upto(n as int, p),
        1 <= i < n,
    ensures
        lah_number(i, i, p) == 1,
{
    let fi = factorial(i as nat);
    let fi1 = factorial((i - 1) as nat);
    let ii = inv_mod(fi, p);
    let ii1 = inv_mod(fi1, p);
    lemma_lah_normal(i, i, p);
    lemma_factorial_inverse(i, n, p);
    lemma_factorial_inverse(i - 1, n, p);
    lemma_one_is_unit(p);
    assert(factorial(0) == 1);
    assert(lah_product(i, i, p) == fi * fi1 * ii * ii1 * 1);
    assert(fi * fi1 * ii * ii1 * 1 == (1 * (fi * ii)) * (fi1 * ii1)) by (nonlinear_arith);
    lemma_mod_absorb(1 * (fi * ii), fi1 * ii1, p);
    lemma_mod_absorb(1, fi * ii, p);
    lemma_small_mod(1, p as nat);
}

/// The table of the Lah transform: the Lah numbers, and the identity in
/// row and column zero.
pub open spec fn lah_table(i: int, j: int, p: int) -> int {
    if i == 0 || j == 0 {
        kronecker(i, j)
    } else if j > i {
        0
    } else {
        lah_number(i, j, p)
    }
}

/// The table of the inverse Lah transform: the Lah numbers with alternating signs.
pub open spec fn lah_inv_table(i: int, j: int, p: int) -> int {
    if i == 0 || j == 0 {
        kronecker(i, j)
    } else if j > i {
        0
    } else if (i - j) % 2 == 0 {
        lah_number(i, j, p)
    } else {
        -lah_number(i, j, p)
    }
}

/// The sum over `j` of `weight(j) * L(i, j) * L(j, k)` with alternating
/// weights is one where `i == k` and zero otherwise, modulo `p`.
proof fn lemma_lah_product_sum(g: spec_fn(int) -> int, c: int, i: int, k: int, n: nat, p: int)
    requires
        p > 1,
        units_upto(n as int, p),
        1 <= k <= i < n,
        c % p == lah_number(i, k, p) % p || c % p == (-lah_number(i, k, p)) % p,
        i == k ==> c == lah_number(i, k, p),
        forall|j: int| 0 <= j < k ==> #[trigger] g(j) == 0,
        forall|j: int|
            k <= j <= i ==> (#[trigger] g(j)) % p == (c * (alternating(j - k) * binom(
                (i - k) as nat,
                (j - k) as nat,
            ))) % p,
    ensures
        sum(g, i + 1) % p == kronecker(i, k) % p,
{
    let h = |m: int| alternating(m) * binom((i - k) as nat, m as nat);
    let gs = |m: int| g(k + m);
    let ch = |m: int| c * h(m);
    lemma_sum_split(g, gs, k, i + 1);
    lemma_sum_zero(g, k);
    assert forall|m: int| 0 <= m < i + 1 - k implies (#[trigger] gs(m)) % p == ch(m) % p by {
        assert((k + m) - k == m);
        assert(g(k + m) % p == (c * (alternating((k + m) - k) * binom(
            (i - k) as nat,
            ((k + m) - k) as nat,
        ))) % p);
    }
    lemma_sum_cong(gs, ch, i + 1 - k, p);
    lemma_sum_scale(ch, c, h, i + 1 - k);
    if i > k {
        lemma_alternating_binom_sum((i - k) as nat);
        assert(c * 0 == 0);
    } else {
        assert(sum(h, 1) == h(0)) by {
            reveal_with_fuel(sum, 2);
        }
        assert(h(0) == 1) by {
            assert(1 * 1 == 1);
        }
        assert(c * 1 == c);
        lemma_lah_diagonal(i, n, p);
    }
}

/// The tables of the Lah transform and of its inverse are inverse to each
/// other, modulo `p`.
proof fn lemma_lah_tables(i: int, k: int, n: nat, p: int)
    requires
        p > 1,
        units_upto(n as int, p),
        0 <= k <= i < n,
    ensures
        sum(|j: int| lah_inv_table(i, j, p) * lah_table(j, k, p), i + 1) % p == kronecker(i, k) % p,
        sum(|j: int| lah_table(i, j, p) * lah_inv_table(j, k, p), i + 1) % p == kronecker(i, k) % p,
{
    let g1 = |j: int| lah_inv_table(i, j, p) * lah_table(j, k, p);
    let g2 = |j: int| lah_table(i, j, p) * lah_inv_table(j, k, p);
    if k == 0 {
        assert forall|j: int| 0 <= j < i + 1 && j != 0 implies #[trigger] g1(j) == 0 by {
            assert(lah_inv_table(i, j, p) * 0 == 0);
        }
        assert forall|j: int| 0 <= j < i + 1 && j != 0 implies #[trigger] g2(j) == 0 by {
            assert(lah_table(i, j, p) * 0 == 0);
        }
        lemma_sum_single(g1, i + 1, 0);
        lemma_sum_single(g2, i + 1, 0);
        assert(kronecker(i, 0) * 1 == kronecker(i, 0));
    } else {
        let l = lah_number(i, k, p);
        let c1 = alternating(i - k) * l;
        assert(c1 == l || c1 == -l) by {
            assert(1 * l == l);
            assert((-1) * l == -l);
        }
        assert forall|j: int| 0 <= j < k implies #[trigger] g1(j) == 0 by {
            assert(lah_inv_table(i, j, p) * 0 == 0);
        }
        assert forall|j: int| 0 <= j < k implies #[trigger] g2(j) == 0 by {
            assert(lah_table(i, j, p) * 0 == 0);
        }
        assert forall|j: int| k <= j <= i implies (#[trigger] g1(j)) % p == (c1 * (alternating(j - k)
            * binom((i - k) as nat, (j - k) as nat))) % p by {
            lemma_lah_chain(i, j, k, n, p);
            let a = lah_number(i, j, p);
            let b = lah_number(j, k, p);
            let cb = binom((i - k) as nat, (j - k) as nat);
            let s = alternating(i - j);
            lemma_alternating_difference(i - k, j - k);
            assert((i - k) - (j - k) == i - j);
            assert(alternating(i - k) * alternating(j - k) == s);
            assert(lah_inv_table(i, j, p) == s * a) by {
                assert(1 * a == a);
                assert((-1) * a == -a);
            }
            assert((s * a) * b == s * (a * b)) by (nonlinear_arith);
            assert(c1 * (alternating(j - k) * cb) == s * (l * cb)) by (nonlinear_arith)
                requires
                    c1 == alternating(i - k) * l,
                    alternating(i - k) * alternating(j - k) == s,
            ;
            lemma_mul_mod_noop_right(s, a * b, p);
            lemma_mul_mod_noop_right(s, l * cb, p);
        }
        lemma_lah_product_sum(g1, c1, i, k, n, p);
        assert forall|j: int| k <= j <= i implies (#[trigger] g2(j)) % p == (l * (alternating(j - k)
            * binom((i - k) as nat, (j - k) as nat))) % p by {
            lemma_lah_chain(i, j, k, n, p);
            let a = lah_number(i, j, p);
            let b = lah_number(j, k, p);
            let cb = binom((i - k) as nat, (j - k) as nat);
            let s = alternating(j - k);
            assert(lah_inv_table(j, k, p) == s * b) by {
                assert(1 * b == b);
                assert((-1) * b == -b);
            }
            assert(a * (s * b) == s * (a * b)) by (nonlinear_arith);
            assert(l * (s * cb) == s * (l * cb)) by (nonlinear_arith);
            lemma_mul_mod_noop_right(s, a * b, p);
            lemma_mul_mod_noop_right(s, l * cb, p);
        }
        lemma_lah_product_sum(g2, l, i, k, n, p);
    }
}

/// The Lah transform and the inverse Lah transform undo each other, where
/// every index has an inverse.
pub proof fn law_lah_inverse(a: Seq<int>, p: int)
    requires
        p > 1,
        is_reduced(a, p),
        units_upto(a.len() as int, p),
    ensures
        s_lah_inv(s_lah(a, p), p) == a,
        s_lah(s_lah_inv(a, p), p) == a,
{
    let n = a.len();
    let plain = |i: int, j: int| lah_table(i, j, p);
    let signed = |i: int, j: int| lah_inv_table(i, j, p);
    let b = s_lah(a, p);
    let c = s_lah_inv(a, p);
    assert forall|i: int| 0 <= i < n implies s_lah_inv(b, p)[i] == a[i] by {
        lemma_small_mod(a[0] as nat, p as nat);
        assert forall|k: int| 0 <= k <= i implies sum(|j: int| signed(i, j) * plain(j, k), i + 1) % p
            == kronecker(i, k) % p by {
            lemma_lah_tables(i, k, n, p);
            let here = |j: int| signed(i, j) * plain(j, k);
            let there = |j: int| lah_inv_table(i, j, p) * lah_table(j, k, p);
            lemma_sum_ext(here, there, i + 1);
        }
        assert forall|j: int| 0 <= j < n implies #[trigger] b[j] == sum(
            |k: int| plain(j, k) * a[k],
            j + 1,
        ) % p by {
            let here = |k: int| plain(j, k) * a[k];
            let there = |k: int| if k >= 1 { lah_number(j, k, p) * a[k] } else { 0int };
            if j == 0 {
                assert(sum(here, 1) == here(0)) by {
                    reveal_with_fuel(sum, 2);
                }
                assert(1 * a[0] == a[0]);
            } else {
                assert forall|k: int| 0 <= k < j + 1 implies #[trigger] here(k) == there(k) by {
                    if k == 0 {
                        assert(0 * a[0] == 0);
                    }
                }
                lemma_sum_ext(here, there, j + 1);
            }
        }
        lemma_table_round_trip(plain, signed, a, b, i, p);
        if i > 0 {
            let here = |j: int| signed(i, j) * b[j];
            let there = |j: int|
                if j >= 1 {
                    if (i - j) % 2 == 0 {
                        lah_number(i, j, p) * b[j]
                    } else {
                        -(lah_number(i, j, p) * b[j])
                    }
                } else {
                    0int
                };
            assert forall|j: int| 0 <= j < i + 1 implies #[trigger] here(j) == there(j) by {
                if j == 0 {
                    assert(0 * b[0] == 0);
                } else {
                    assert((-lah_number(i, j, p)) * b[j] == -(lah_number(i, j, p) * b[j]))
                        by (nonlinear_arith);
                }
            }
            lemma_sum_ext(here, there, i + 1);
        }
    }
    assert(s_lah_inv(b, p) =~= a);
    assert forall|i: int| 0 <= i < n implies s_lah(c, p)[i] == a[i] by {
        lemma_small_mod(a[0] as nat, p as nat);
        assert forall|k: int| 0 <= k <= i implies sum(|j: int| plain(i, j) * signed(j, k), i + 1) % p
            == kronecker(i, k) % p by {
            lemma_lah_tables(i, k, n, p);
            let here = |j: int| plain(i, j) * signed(j, k);
            let there = |j: int| lah_table(i, j, p) * lah_inv_table(j, k, p);
            lemma_sum_ext(here, there, i + 1);
        }
        assert forall|j: int| 0 <= j < n implies #[trigger] c[j] == sum(
            |k: int| signed(j, k) * a[k],
            j + 1,
        ) % p by {
            let here = |k: int| signed(j, k) * a[k];
            let there = |k: int|
                if k >= 1 {
                    if (j - k) % 2 == 0 {
                        lah_number(j, k, p) * a[k]
                    } else {
                        -(lah_number(j, k, p) * a[k])
                    }
                } else {
                    0int
                };
            if j == 0 {
                assert(sum(here, 1) == here(0)) by {
                    reveal_with_fuel(sum, 2);
                }
                assert(1 * a[0] == a[0]);
            } else {
                assert forall|k: int| 0 <= k < j + 1 implies #[trigger] here(k) == there(k) by {
                    if k == 0 {
                        assert(0 * a[0] == 0);
                    } else {
                        assert((-lah_number(j, k, p)) * a[k] == -(lah_number(j, k, p) * a[k]))
                            by (nonlinear_arith);
                    }
                }
                lemma_sum_ext(here, there, j + 1);
            }
        }
        lemma_table_round_trip(signed, plain, a, c, i, p);
        if i > 0 {
            let here = |j: int| plain(i, j) * c[j];
            let there = |j: int| if j >= 1 { lah_number(i, j, p) * c[j] } else { 0int };
            assert forall|j: int| 0 <= j < i + 1 implies #[trigger] here(j) == there(j) by {
                if j == 0 {
                    assert(0 * c[0] == 0);
                }
            }
            lemma_sum_ext(here, there, i + 1);
        }
    }
    assert(s_lah(c, p) =~= a);
}

} // verus!
