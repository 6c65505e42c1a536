//! The integers modulo 2^61 - 1 form a field.
//!
//! The powers of 37 run through all nonzero residues modulo `p = 2^61 - 1`:
//! `37^(p - 1)` is one, and for no prime `q` that divides `p - 1` is
//! `37^((p - 1) / q)` one, so that no power with a smaller positive exponent
//! is one. The `p - 1` powers are therefore distinct, every nonzero residue
//! is one of them, and its inverse is the complementary power.

use crate::laws::{is_prime, lemma_bezout};
use crate::modarith::{
    all_units, divides, is_inverse, is_unit, lemma_pow_mod_add, lemma_pow_mod_range, mul_mod, pow_mod,
};
use vstd::arithmetic::div_mod::*;
use vstd::arithmetic::mul::*;
use vstd::prelude::*;
use vstd::relations::injective_on;
use vstd::set_lib::{lemma_int_range, lemma_map_size, lemma_subset_equality, set_int_range};

verus! {

/// The Mersenne prime `2^61 - 1`.
pub open spec fn m61() -> int {
    2305843009213693951
}

/// The number of nonzero residues modulo `2^61 - 1`.
pub open spec fn m61_order() -> nat {
    2305843009213693950
}

/// Doubling the exponent squares the power.
proof fn lemma_pow_double(g: int, e: nat, v: int, p: int)
    requires
        p > 0,
        pow_mod(g, e, p) == v,
    ensures
        pow_mod(g, 2 * e, p) == (v * v) % p,
{
    lemma_pow_mod_add(g, e, e, p);
}

/// Raising the exponent by one multiplies the power by the base.
proof fn lemma_pow_next(g: int, e: nat, v: int, p: int)
    requires
        p > 0,
        pow_mod(g, e, p) == v,
    ensures
        pow_mod(g, e + 1, p) == (g * v) % p,
{
}

/// Every power of one is one.
proof fn lemma_pow_of_one(e: nat, p: int)
    requires
        p > 1,
    ensures
        pow_mod(1, e, p) == 1,
    decreases e,
{
    lemma_small_mod(1, p as nat);
    if e > 0 {
        lemma_pow_of_one((e - 1) as nat, p);
        assert(1 * 1 == 1);
    }
}

/// A power of a power is the power with the product of the exponents.
proof fn lemma_pow_of_pow(g: int, a: nat, b: nat, p: int)
    requires
        p > 1,
    ensures
        pow_mod(g, a * b, p) == pow_mod(pow_mod(g, a, p), b, p),
    decreases b,
{
    let x = pow_mod(g, a, p);
    if b == 0 {
        assert(a * 0 == 0);
    } else {
        let b1 = (b - 1) as nat;
        lemma_pow_of_pow(g, a, b1, p);
        assert(a * b == a * b1 + a) by (nonlinear_arith)
            requires
                b1 == b - 1,
        ;
        lemma_pow_mod_add(g, a * b1, a, p);
        lemma_mul_is_commutative(pow_mod(x, b1, p), x);
    }
}

/// A multiple of an exponent that gives one gives one.
proof fn lemma_period_multiple(g: int, e: nat, k: nat, p: int)
    requires
        p > 1,
        pow_mod(g, e, p) == 1,
    ensures
        pow_mod(g, e * k, p) == 1,
{
    lemma_pow_of_pow(g, e, k, p);
    lemma_pow_of_one(k, p);
}

/// Where a sum of exponents and one of its terms give one, the other term does.
proof fn lemma_period_cancel(g: int, a: nat, b: nat, p: int)
    requires
        p > 1,
        pow_mod(g, a + b, p) == 1,
        pow_mod(g, b, p) == 1,
    ensures
        pow_mod(g, a, p) == 1,
{
    lemma_pow_mod_add(g, a, b, p);
    lemma_pow_mod_range(g, a, p);
    assert(pow_mod(g, a, p) * 1 == pow_mod(g, a, p));
    lemma_small_mod(pow_mod(g, a, p) as nat, p as nat);
}

/// A divisor of a positive number is at most that number, and the number
/// is the divisor times the quotient.
proof fn lemma_divisor(d: int, n: int)
    requires
        d > 0,
        n > 0,
        divides(d, n),
    ensures
        d <= n,
        n == d * (n / d),
        n / d >= 1,
{
    lemma_fundamental_div_mod(n, d);
    if d > n {
        lemma_small_mod(n as nat, d as nat);
    }
    assert(n / d >= 1) by (nonlinear_arith)
        requires
            n == d * (n / d),
            n > 0,
            d > 0,
    ;
}

/// Two exponents that give one have a common divisor that gives one.
proof fn lemma_period_gcd(g: int, e: nat, n: nat, p: int) -> (d: nat)
    requires
        p > 1,
        e > 0,
        n > 0,
        pow_mod(g, e, p) == 1,
        pow_mod(g, n, p) == 1,
    ensures
        d > 0,
        divides(d as int, e as int),
        divides(d as int, n as int),
        pow_mod(g, d, p) == 1,
{
    let (c, u, v) = lemma_bezout(e as int, n as int);
    lemma_divisor(c, n as int);
    let t = if u < 0 { -u } else { u };
    let u2 = u + t * n;
    let w = t * e - v;
    assert(u2 >= 0) by (nonlinear_arith)
        requires
            u2 == u + t * n,
            t >= 0,
            t >= -u,
            n >= 1,
    ;
    assert(u2 * e == c + n * w) by (nonlinear_arith)
        requires
            u2 == u + t * n,
            w == t * e - v,
            u * e + v * n == c,
    ;
    if w < 0 {
        assert(u2 * e >= 0) by (nonlinear_arith)
            requires
                u2 >= 0,
                e > 0,
        ;
        assert(c == n) by (nonlinear_arith)
            requires
                u2 * e == c + n * w,
                u2 * e >= 0,
                w < 0,
                0 < c <= n,
        ;
    } else {
        lemma_period_multiple(g, e, u2 as nat, p);
        lemma_period_multiple(g, n, w as nat, p);
        lemma_mul_is_commutative(u2, e as int);
        assert(e * (u2 as nat) == c as nat + n * (w as nat));
        lemma_period_cancel(g, c as nat, n * (w as nat), p);
    }
    c as nat
}

/// Some multiples of `a` and `b` add up to one.
pub open spec fn coprime(a: int, b: int) -> bool {
    exists|u: int, v: int| #[trigger] (u * a) + #[trigger] (v * b) == 1
}

/// A product of numbers without a common divisor with `m` has none with `m`.
proof fn lemma_coprime_product(x: int, y: int, m: int)
    requires
        coprime(x, m),
        coprime(y, m),
    ensures
        coprime(x * y, m),
{
    let (u, v) = choose|u: int, v: int| #[trigger] (u * x) + #[trigger] (v * m) == 1;
    let (s, t) = choose|s: int, t: int| #[trigger] (s * y) + #[trigger] (t * m) == 1;
    let ux = u * x;
    let vm = v * m;
    let sy = s * y;
    let tm = t * m;
    assert((ux + vm) * (sy + tm) == 1) by {
        assert(1int * 1 == 1);
    }
    assert((ux + vm) * (sy + tm) == ux * sy + ux * tm + vm * sy + vm * tm) by (nonlinear_arith);
    assert(ux * sy == (u * s) * (x * y)) by (nonlinear_arith)
        requires
            ux == u * x,
            sy == s * y,
    ;
    assert(ux * tm == (ux * t) * m) by (nonlinear_arith)
        requires
            tm == t * m,
    ;
    assert(vm * sy == (v * sy) * m) by (nonlinear_arith)
        requires
            vm == v * m,
    ;
    assert(vm * tm == (v * tm) * m) by (nonlinear_arith)
        requires
            vm == v * m,
    ;
    let a = u * s;
    let b = ux * t + v * sy + v * tm;
    assert(b * m == (ux * t) * m + (v * sy) * m + (v * tm) * m) by (nonlinear_arith)
        requires
            b == ux * t + v * sy + v * tm,
    ;
    assert(a * (x * y) + b * m == 1);
}

/// A prime that does not divide `m` has no common divisor with `m`.
proof fn lemma_prime_coprime(q: int, m: int)
    requires
        is_prime(q),
        m > 0,
        !divides(q, m),
    ensures
        coprime(q, m),
{
    let (c, u, v) = lemma_bezout(q, m);
    lemma_divisor(c, q);
    if 1 < c < q {
        assert(!divides(c, q));
    }
    assert(u * q + v * m == 1);
}

/// A number with no divisor from two up to a bound whose square exceeds it is prime.
proof fn lemma_prime_by_trial(n: int, r: int)
    requires
        n > 1,
        r >= 2,
        r * r > n,
        forall|k: int| 2 <= k < r ==> !#[trigger] divides(k, n),
    ensures
        is_prime(n),
{
    assert forall|d: int| 1 < d < n implies !#[trigger] divides(d, n) by {
        if divides(d, n) {
            if d >= r {
                lemma_divisor(d, n);
                let e = n / d;
                if e <= 1 {
                    assert(d * e == d) by (nonlinear_arith)
                        requires
                            e == 1,
                    ;
                }
                if e >= r {
                    assert(d * e >= r * r) by (nonlinear_arith)
                        requires
                            d >= r,
                            e >= r,
                            r >= 2,
                    ;
                }
                lemma_mul_is_commutative(d, e);
                lemma_mod_multiples_basic(d, e);
                assert(divides(e, n));
            }
        }
    }
}

/// 2 is prime.
proof fn lemma_2_is_prime()
    ensures
        is_prime(2),
{
    lemma_prime_by_trial(2, 2);
}

/// 3 is prime.
proof fn lemma_3_is_prime()
    ensures
        is_prime(3),
{
    lemma_prime_by_trial(3, 2);
}

/// 5 is prime.
proof fn lemma_5_is_prime()
    ensures
        is_prime(5),
{
    assert forall|k: int| 2 <= k < 3 implies !#[trigger] divides(k, 5) by {
        if k == 2 {
            assert(5int % 2 != 0);
        }
    }
    lemma_prime_by_trial(5, 3);
}

/// 7 is prime.
proof fn lemma_7_is_prime()
    ensures
        is_prime(7),
{
    assert forall|k: int| 2 <= k < 3 implies !#[trigger] divides(k, 7) by {
        if k == 2 {
            assert(7int % 2 != 0);
        }
    }
    lemma_prime_by_trial(7, 3);
}

/// 11 is prime.
proof fn lemma_11_is_prime()
    ensures
        is_prime(11),
{
    assert forall|k: int| 2 <= k < 4 implies !#[trigger] divides(k, 11) by {
        if k == 2 {
            assert(11int % 2 != 0);
        }
        if k == 3 {
            assert(11int % 3 != 0);
        }
    }
    lemma_prime_by_trial(11, 4);
}

/// 13 is prime.
proof fn lemma_13_is_prime()
    ensures
        is_prime(13),
{
    assert forall|k: int| 2 <= k < 4 implies !#[trigger] divides(k, 13) by {
        if k == 2 {
            assert(13int % 2 != 0);
        }
        if k == 3 {
            assert(13int % 3 != 0);
        }
    }
    lemma_prime_by_trial(13, 4);
}

/// 31 is prime.
proof fn lemma_31_is_prime()
    ensures
        is_prime(31),
{
    assert forall|k: int| 2 <= k < 6 implies !#[trigger] divides(k, 31) by {
        if k == 2 {
            assert(31int % 2 != 0);
        }
        if k == 3 {
            assert(31int % 3 != 0);
        }
        if k == 4 {
            assert(31int % 4 != 0);
        }
        if k == 5 {
            assert(31int % 5 != 0);
        }
    }
    lemma_prime_by_trial(31, 6);
}

/// 41 is prime.
proof fn lemma_41_is_prime()
    ensures
        is_prime(41),
{
    assert forall|k: int| 2 <= k < 7 implies !#[trigger] divides(k, 41) by {
        if k == 2 {
            assert(41int % 2 != 0);
        }
        if k == 3 {
            assert(41int % 3 != 0);
        }
        if k == 4 {
            assert(41int % 4 != 0);
        }
        if k == 5 {
            assert(41int % 5 != 0);
        }
        if k == 6 {
            assert(41int % 6 != 0);
        }
    }
    lemma_prime_by_trial(41, 7);
}

/// 61 is prime.
proof fn lemma_61_is_prime()
    ensures
        is_prime(61),
{
    assert forall|k: int| 2 <= k < 8 implies !#[trigger] divides(k, 61) by {
        if k == 2 {
            assert(61int % 2 != 0);
        }
        if k == 3 {
            assert(61int % 3 != 0);
        }
        if k == 4 {
            assert(61int % 4 != 0);
        }
        if k == 5 {
            assert(61int % 5 != 0);
        }
        if k == 6 {
            assert(61int % 6 != 0);
        }
        if k == 7 {
            assert(61int % 7 != 0);
        }
    }
    lemma_prime_by_trial(61, 8);
}

/// 151 is prime.
proof fn lemma_151_is_prime()
    ensures
        is_prime(151),
{
    assert forall|k: int| 2 <= k < 13 implies !#[trigger] divides(k, 151) by {
        if k == 2 {
            assert(151int % 2 != 0);
        }
        if k == 3 {
            assert(151int % 3 != 0);
        }
        if k == 4 {
            assert(151int % 4 != 0);
        }
        if k == 5 {
            assert(151int % 5 != 0);
        }
        if k == 6 {
            assert(151int % 6 != 0);
        }
        if k == 7 {
            assert(151int % 7 != 0);
        }
        if k == 8 {
            assert(151int % 8 != 0);
        }
        if k == 9 {
            assert(151int % 9 != 0);
        }
        if k == 10 {
            assert(151int % 10 != 0);
        }
        if k == 11 {
            assert(151int % 11 != 0);
        }
        if k == 12 {
            assert(151int % 12 != 0);
        }
    }
    lemma_prime_by_trial(151, 13);
}

/// 331 is prime.
proof fn lemma_331_is_prime()
    ensures
        is_prime(331),
{
    assert forall|k: int| 2 <= k < 19 implies !#[trigger] divides(k, 331) by {
        if k == 2 {
            assert(331int % 2 != 0);
        }
        if k == 3 {
            assert(331int % 3 != 0);
        }
        if k == 4 {
            assert(331int % 4 != 0);
        }
        if k == 5 {
            assert(331int % 5 != 0);
        }
        if k == 6 {
            assert(331int % 6 != 0);
        }
        if k == 7 {
            assert(331int % 7 != 0);
        }
        if k == 8 {
            assert(331int % 8 != 0);
        }
        if k == 9 {
            assert(331int % 9 != 0);
        }
        if k == 10 {
            assert(331int % 10 != 0);
        }
        if k == 11 {
            assert(331int % 11 != 0);
        }
        if k == 12 {
            assert(331int % 12 != 0);
        }
        if k == 13 {
            assert(331int % 13 != 0);
        }
        if k == 14 {
            assert(331int % 14 != 0);
        }
        if k == 15 {
            assert(331int % 15 != 0);
        }
        if k == 16 {
            assert(331int % 16 != 0);
        }
        if k == 17 {
            assert(331int % 17 != 0);
        }
        if k == 18 {
            assert(331int % 18 != 0);
        }
    }
    lemma_prime_by_trial(331, 19);
}

/// 1321 is prime.
proof fn lemma_1321_is_prime()
    ensures
        is_prime(1321),
{
    assert forall|k: int| 2 <= k < 37 implies !#[trigger] divides(k, 1321) by {
        if k == 2 {
            assert(1321int % 2 != 0);
        }
        if k == 3 {
            assert(1321int % 3 != 0);
        }
        if k == 4 {
            assert(1321int % 4 != 0);
        }
        if k == 5 {
            assert(1321int % 5 != 0);
        }
        if k == 6 {
            assert(1321int % 6 != 0);
        }
        if k == 7 {
            assert(1321int % 7 != 0);
        }
        if k == 8 {
            assert(1321int % 8 != 0);
        }
        if k == 9 {
            assert(1321int % 9 != 0);
        }
        if k == 10 {
            assert(1321int % 10 != 0);
        }
        if k == 11 {
            assert(1321int % 11 != 0);
        }
        if k == 12 {
            assert(1321int % 12 != 0);
        }
        if k == 13 {
            assert(1321int % 13 != 0);
        }
        if k == 14 {
            assert(1321int % 14 != 0);
        }
        if k == 15 {
            assert(1321int % 15 != 0);
        }
        if k == 16 {
            assert(1321int % 16 != 0);
        }
        if k == 17 {
            assert(1321int % 17 != 0);
        }
        if k == 18 {
            assert(1321int % 18 != 0);
        }
        if k == 19 {
            assert(1321int % 19 != 0);
        }
        if k == 20 {
            assert(1321int % 20 != 0);
        }
        if k == 21 {
            assert(1321int % 21 != 0);
        }
        if k == 22 {
            assert(1321int % 22 != 0);
        }
        if k == 23 {
            assert(1321int % 23 != 0);
        }
        if k == 24 {
            assert(1321int % 24 != 0);
        }
        if k == 25 {
            assert(1321int % 25 != 0);
        }
        if k == 26 {
            assert(1321int % 26 != 0);
        }
        if k == 27 {
            assert(1321int % 27 != 0);
        }
        if k == 28 {
            assert(1321int % 28 != 0);
        }
        if k == 29 {
            assert(1321int % 29 != 0);
        }
        if k == 30 {
            assert(1321int % 30 != 0);
        }
        if k == 31 {
            assert(1321int % 31 != 0);
        }
        if k == 32 {
            assert(1321int % 32 != 0);
        }
        if k == 33 {
            assert(1321int % 33 != 0);
        }
        if k == 34 {
            assert(1321int % 34 != 0);
        }
        if k == 35 {
            assert(1321int % 35 != 0);
        }
        if k == 36 {
            assert(1321int % 36 != 0);
        }
    }
    lemma_prime_by_trial(1321, 37);
}

/// `q` is one of the primes that divide `2^61 - 2`.
pub open spec fn is_listed(q: int) -> bool {
    q == 2 || q == 3 || q == 5 || q == 7 || q == 11 || q == 13 || q == 31 || q == 41 || q == 61 || q == 151
        || q == 331 || q == 1321
}

/// Every divisor of `2^61 - 2` but one is divided by one of the listed primes.
proof fn lemma_listed_prime_divides(m: int)
    requires
        m >= 2,
        divides(m, m61_order() as int),
    ensures
        exists|q: int| is_listed(q) && #[trigger] divides(q, m),
{
    if !(exists|q: int| is_listed(q) && #[trigger] divides(q, m)) {
        lemma_2_is_prime();
        assert(is_listed(2));
        assert(!divides(2, m));
        lemma_prime_coprime(2, m);
        lemma_3_is_prime();
        assert(is_listed(3));
        assert(!divides(3, m));
        lemma_prime_coprime(3, m);
        lemma_5_is_prime();
        assert(is_listed(5));
        assert(!divides(5, m));
        lemma_prime_coprime(5, m);
        lemma_7_is_prime();
        assert(is_listed(7));
        assert(!divides(7, m));
        lemma_prime_coprime(7, m);
        lemma_11_is_prime();
        assert(is_listed(11));
        assert(!divides(11, m));
        lemma_prime_coprime(11, m);
        lemma_13_is_prime();
        assert(is_listed(13));
        assert(!divides(13, m));
        lemma_prime_coprime(13, m);
        lemma_31_is_prime();
        assert(is_listed(31));
        assert(!divides(31, m));
        lemma_prime_coprime(31, m);
        lemma_41_is_prime();
        assert(is_listed(41));
        assert(!divides(41, m));
        lemma_prime_coprime(41, m);
        lemma_61_is_prime();
        assert(is_listed(61));
        assert(!divides(61, m));
        lemma_prime_coprime(61, m);
        lemma_151_is_prime();
        assert(is_listed(151));
        assert(!divides(151, m));
        lemma_prime_coprime(151, m);
        lemma_331_is_prime();
        assert(is_listed(331));
        assert(!divides(331, m));
        lemma_prime_coprime(331, m);
        lemma_1321_is_prime();
        assert(is_listed(1321));
        assert(!divides(1321, m));
        lemma_prime_coprime(1321, m);
        lemma_coprime_product(2, 3, m);
        assert(2int * 3 == 6);
        lemma_coprime_product(6, 3, m);
        assert(6int * 3 == 18);
        lemma_coprime_product(18, 5, m);
        assert(18int * 5 == 90);
        lemma_coprime_product(90, 5, m);
        assert(90int * 5 == 450);
        lemma_coprime_product(450, 7, m);
        assert(450int * 7 == 3150);
        lemma_coprime_product(3150, 11, m);
        assert(3150int * 11 == 34650);
        lemma_coprime_product(34650, 13, m);
        assert(34650int * 13 == 450450);
        lemma_coprime_product(450450, 31, m);
        assert(450450int * 31 == 13963950);
        lemma_coprime_product(13963950, 41, m);
        assert(13963950int * 41 == 572521950);
        lemma_coprime_product(572521950, 61, m);
        assert(572521950int * 61 == 34923838950);
        lemma_coprime_product(34923838950, 151, m);
        assert(34923838950int * 151 == 5273499681450);
        lemma_coprime_product(5273499681450, 331, m);
        assert(5273499681450int * 331 == 1745528394559950);
        lemma_coprime_product(1745528394559950, 1321, m);
        assert(1745528394559950int * 1321 == 2305843009213693950);
        let n = m61_order() as int;
        let (u, v) = choose|u: int, v: int| #[trigger] (u * n) + #[trigger] (v * m) == 1;
        lemma_divisor(m, n);
        let c = n / m;
        assert(m * (u * c + v) == 1) by (nonlinear_arith)
            requires
                u * n + v * m == 1,
                n == m * c,
        ;
        assert(false) by (nonlinear_arith)
            requires
                m * (u * c + v) == 1,
                m >= 2,
        ;
    }
}

/// From the power of 37 with the exponent 1 to that with the exponent 15.
proof fn lemma_power_full_0()
    requires
        pow_mod(37, 1, m61()) == 37,
    ensures
        pow_mod(37, 15, m61()) == 616232432238528334,
{
    let p = m61();
    lemma_pow_double(37, 1, 37, p);
    assert((37int * 37) % 2305843009213693951 == 1369);
    lemma_pow_next(37, 2, 1369, p);
    assert((37int * 1369) % 2305843009213693951 == 50653);
    lemma_pow_double(37, 3, 50653, p);
    assert((50653int * 50653) % 2305843009213693951 == 2565726409);
    lemma_pow_next(37, 6, 2565726409, p);
    assert((37int * 2565726409) % 2305843009213693951 == 94931877133);
    lemma_pow_double(37, 7, 94931877133, p);
    assert((94931877133int * 94931877133) % 2305843009213693951 == 826815987892339181);
    lemma_pow_next(37, 14, 826815987892339181, p);
    assert((37int * 826815987892339181) % 2305843009213693951 == 616232432238528334);
}

/// From the power of 37 with the exponent 15 to that with the exponent 127.
proof fn lemma_power_full_1()
    requires
        pow_mod(37, 15, m61()) == 616232432238528334,
    ensures
        pow_mod(37, 127, m61()) == 855349401310129110,
{
    let p = m61();
    lemma_pow_double(37, 15, 616232432238528334, p);
    assert((616232432238528334int * 616232432238528334) % 2305843009213693951 == 402778895455182525);
    lemma_pow_next(37, 30, 402778895455182525, p);
    assert((37int * 402778895455182525) % 2305843009213693951 == 1067761076559589719);
    lemma_pow_double(37, 31, 1067761076559589719, p);
    assert((1067761076559589719int * 1067761076559589719) % 2305843009213693951 == 494625628984157828);
    lemma_pow_next(37, 62, 494625628984157828, p);
    assert((37int * 494625628984157828) % 2305843009213693951 == 2160247207917981979);
    lemma_pow_double(37, 63, 2160247207917981979, p);
    assert((2160247207917981979int * 2160247207917981979) % 2305843009213693951 == 1331839259318856813);
    lemma_pow_next(37, 126, 1331839259318856813, p);
    assert((37int * 1331839259318856813) % 2305843009213693951 == 855349401310129110);
}

/// From the power of 37 with the exponent 127 to that with the exponent 1023.
proof fn lemma_power_full_2()
    requires
        pow_mod(37, 127, m61()) == 855349401310129110,
    ensures
        pow_mod(37, 1023, m61()) == 1620483921678490712,
{
    let p = m61();
    lemma_pow_double(37, 127, 855349401310129110, p);
    assert((855349401310129110int * 855349401310129110) % 2305843009213693951 == 1558476626656031890);
    lemma_pow_next(37, 254, 1558476626656031890, p);
    assert((37int * 1558476626656031890) % 2305843009213693951 == 17559955930831155);
    lemma_pow_double(37, 255, 17559955930831155, p);
    assert((17559955930831155int * 17559955930831155) % 2305843009213693951 == 1549265469538204418);
    lemma_pow_next(37, 510, 1549265469538204418, p);
    assert((37int * 1549265469538204418) % 2305843009213693951 == 1982590151784908642);
    lemma_pow_double(37, 511, 1982590151784908642, p);
    assert((1982590151784908642int * 1982590151784908642) % 2305843009213693951 == 2162679627971461758);
    lemma_pow_next(37, 1022, 2162679627971461758, p);
    assert((37int * 2162679627971461758) % 2305843009213693951 == 1620483921678490712);
}

/// From the power of 37 with the exponent 1023 to that with the exponent 8191.
proof fn lemma_power_full_3()
    requires
        pow_mod(37, 1023, m61()) == 1620483921678490712,
    ensures
        pow_mod(37, 8191, m61()) == 1326275558510608058,
{
    let p = m61();
    lemma_pow_double(37, 1023, 1620483921678490712, p);
    assert((1620483921678490712int * 1620483921678490712) % 2305843009213693951 == 146181933895270542);
    lemma_pow_next(37, 2046, 146181933895270542, p);
    assert((37int * 146181933895270542) % 2305843009213693951 == 797045535697622152);
    lemma_pow_double(37, 2047, 797045535697622152, p);
    assert((797045535697622152int * 797045535697622152) % 2305843009213693951 == 1280383653602432052);
    lemma_pow_next(37, 4094, 1280383653602432052, p);
    assert((37int * 1280383653602432052) % 2305843009213693951 == 1257334999016106904);
    lemma_pow_double(37, 4095, 1257334999016106904, p);
    assert((1257334999016106904int * 1257334999016106904) % 2305843009213693951 == 1718487481277847155);
    lemma_pow_next(37, 8190, 1718487481277847155, p);
    assert((37int * 1718487481277847155) % 2305843009213693951 == 1326275558510608058);
}

/// From the power of 37 with the exponent 8191 to that with the exponent 65535.
proof fn lemma_power_full_4()
    requires
        pow_mod(37, 8191, m61()) == 1326275558510608058,
    ensures
        pow_mod(37, 65535, m61()) == 1031382600202606767,
{
    let p = m61();
    lemma_pow_double(37, 8191, 1326275558510608058, p);
    assert((1326275558510608058int * 1326275558510608058) % 2305843009213693951 == 588638499900072055);
    lemma_pow_next(37, 16382, 588638499900072055, p);
    assert((37int * 588638499900072055) % 2305843009213693951 == 1027037413379420476);
    lemma_pow_double(37, 16383, 1027037413379420476, p);
    assert((1027037413379420476int * 1027037413379420476) % 2305843009213693951 == 208391841392942170);
    lemma_pow_next(37, 32766, 208391841392942170, p);
    assert((37int * 208391841392942170) % 2305843009213693951 == 792969103897778437);
    lemma_pow_double(37, 32767, 792969103897778437, p);
    assert((792969103897778437int * 792969103897778437) % 2305843009213693951 == 152515368071080937);
    lemma_pow_next(37, 65534, 152515368071080937, p);
    assert((37int * 152515368071080937) % 2305843009213693951 == 1031382600202606767);
}

/// From the power of 37 with the exponent 65535 to that with the exponent 524287.
proof fn lemma_power_full_5()
    requires
        pow_mod(37, 65535, m61()) == 1031382600202606767,
    ensures
        pow_mod(37, 524287, m61()) == 1453233501296778526,
{
    let p = m61();
    lemma_pow_double(37, 65535, 1031382600202606767, p);
    assert((1031382600202606767int * 1031382600202606767) % 2305843009213693951 == 2155288217072033190);
    lemma_pow_next(37, 131070, 2155288217072033190, p);
    assert((37int * 2155288217072033190) % 2305843009213693951 == 1347001718399633696);
    lemma_pow_double(37, 131071, 1347001718399633696, p);
    assert((1347001718399633696int * 1347001718399633696) % 2305843009213693951 == 794460576466359998);
    lemma_pow_next(37, 262142, 794460576466359998, p);
    assert((37int * 794460576466359998) % 2305843009213693951 == 1724925218690992514);
    lemma_pow_double(37, 262143, 1724925218690992514, p);
    assert((1724925218690992514int * 1724925218690992514) % 2305843009213693951 == 724797475747227351);
    lemma_pow_next(37, 524286, 724797475747227351, p);
    assert((37int * 724797475747227351) % 2305843009213693951 == 1453233501296778526);
}

/// From the power of 37 with the exponent 524287 to that with the exponent 4194303.
proof fn lemma_power_full_6()
    requires
        pow_mod(37, 524287, m61()) == 1453233501296778526,
    ensures
        pow_mod(37, 4194303, m61()) == 1605244839025374608,
{
    let p = m61();
    lemma_pow_double(37, 524287, 1453233501296778526, p);
    assert((1453233501296778526int * 1453233501296778526) % 2305843009213693951 == 652921838251185575);
    lemma_pow_next(37, 1048574, 652921838251185575, p);
    assert((37int * 652921838251185575) % 2305843009213693951 == 1099677923156926765);
    lemma_pow_double(37, 1048575, 1099677923156926765, p);
    assert((1099677923156926765int * 1099677923156926765) % 2305843009213693951 == 742068081681864210);
    lemma_pow_next(37, 2097150, 742068081681864210, p);
    assert((37int * 742068081681864210) % 2305843009213693951 == 2092245920878342309);
    lemma_pow_double(37, 2097151, 2092245920878342309, p);
    assert((2092245920878342309int * 2092245920878342309) % 2305843009213693951 == 666585808950332814);
    lemma_pow_next(37, 4194302, 666585808950332814, p);
    assert((37int * 666585808950332814) % 2305843009213693951 == 1605244839025374608);
}

/// From the power of 37 with the exponent 4194303 to that with the exponent 33554431.
proof fn lemma_power_full_7()
    requires
        pow_mod(37, 4194303, m61()) == 1605244839025374608,
    ensures
        pow_mod(37, 33554431, m61()) == 1418177623632872530,
{
    let p = m61();
    lemma_pow_double(37, 4194303, 1605244839025374608, p);
    assert((1605244839025374608int * 1605244839025374608) % 2305843009213693951 == 1180762468442821560);
    lemma_pow_next(37, 8388606, 1180762468442821560, p);
    assert((37int * 1180762468442821560) % 2305843009213693951 == 2183037166537906602);
    lemma_pow_double(37, 8388607, 2183037166537906602, p);
    assert((2183037166537906602int * 2183037166537906602) % 2305843009213693951 == 565830704986682533);
    lemma_pow_next(37, 16777214, 565830704986682533, p);
    assert((37int * 565830704986682533) % 2305843009213693951 == 183149001584008162);
    lemma_pow_double(37, 16777215, 183149001584008162, p);
    assert((183149001584008162int * 183149001584008162) % 2305843009213693951 == 412249612943649628);
    lemma_pow_next(37, 33554430, 412249612943649628, p);
    assert((37int * 412249612943649628) % 2305843009213693951 == 1418177623632872530);
}

/// From the power of 37 with the exponent 33554431 to that with the exponent 268435455.
proof fn lemma_power_full_8()
    requires
        pow_mod(37, 33554431, m61()) == 1418177623632872530,
    ensures
        pow_mod(37, 268435455, m61()) == 376432223738409504,
{
    let p = m61();
    lemma_pow_double(37, 33554431, 1418177623632872530, p);
    assert((1418177623632872530int * 1418177623632872530) % 2305843009213693951 == 2166097415507956791);
    lemma_pow_next(37, 67108862, 2166097415507956791, p);
    assert((37int * 2166097415507956791) % 2305843009213693951 == 1746942060528806933);
    lemma_pow_double(37, 67108863, 1746942060528806933, p);
    assert((1746942060528806933int * 1746942060528806933) % 2305843009213693951 == 390966364361498179);
    lemma_pow_next(37, 134217726, 390966364361498179, p);
    assert((37int * 390966364361498179) % 2305843009213693951 == 630697426093268917);
    lemma_pow_double(37, 134217727, 630697426093268917, p);
    assert((630697426093268917int * 630697426093268917) % 2305843009213693951 == 72493925214921715);
    lemma_pow_next(37, 268435454, 72493925214921715, p);
    assert((37int * 72493925214921715) % 2305843009213693951 == 376432223738409504);
}

/// From the power of 37 with the exponent 268435455 to that with the exponent 2147483647.
proof fn lemma_power_full_9()
    requires
        pow_mod(37, 268435455, m61()) == 376432223738409504,
    ensures
        pow_mod(37, 2147483647, m61()) == 983725788124143492,
{
    let p = m61();
    lemma_pow_double(37, 268435455, 376432223738409504, p);
    assert((376432223738409504int * 376432223738409504) % 2305843009213693951 == 571440403349648785);
    lemma_pow_next(37, 536870910, 571440403349648785, p);
    assert((37int * 571440403349648785) % 2305843009213693951 == 390707841013759486);
    lemma_pow_double(37, 536870911, 390707841013759486, p);
    assert((390707841013759486int * 390707841013759486) % 2305843009213693951 == 1846425465361805404);
    lemma_pow_next(37, 1073741822, 1846425465361805404, p);
    assert((37int * 1846425465361805404) % 2305843009213693951 == 1448294951189675369);
    lemma_pow_double(37, 1073741823, 1448294951189675369, p);
    assert((1448294951189675369int * 1448294951189675369) % 2305843009213693951 == 151227346123014362);
    lemma_pow_next(37, 2147483646, 151227346123014362, p);
    assert((37int * 151227346123014362) % 2305843009213693951 == 983725788124143492);
}

/// From the power of 37 with the exponent 2147483647 to that with the exponent 17179869183.
proof fn lemma_power_full_10()
    requires
        pow_mod(37, 2147483647, m61()) == 983725788124143492,
    ensures
        pow_mod(37, 17179869183, m61()) == 480090538363525378,
{
    let p = m61();
    lemma_pow_double(37, 2147483647, 983725788124143492, p);
    assert((983725788124143492int * 983725788124143492) % 2305843009213693951 == 281690927124487729);
    lemma_pow_next(37, 4294967294, 281690927124487729, p);
    assert((37int * 281690927124487729) % 2305843009213693951 == 1199192266751270169);
    lemma_pow_double(37, 4294967295, 1199192266751270169, p);
    assert((1199192266751270169int * 1199192266751270169) % 2305843009213693951 == 1341243337946430419);
    lemma_pow_next(37, 8589934590, 1341243337946430419, p);
    assert((37int * 1341243337946430419) % 2305843009213693951 == 1203300310530352532);
    lemma_pow_double(37, 8589934591, 1203300310530352532, p);
    assert((1203300310530352532int * 1203300310530352532) % 2305843009213693951 == 1570977453208266869);
    lemma_pow_next(37, 17179869182, 1570977453208266869, p);
    assert((37int * 1570977453208266869) % 2305843009213693951 == 480090538363525378);
}

/// From the power of 37 with the exponent 17179869183 to that with the exponent 137438953471.
proof fn lemma_power_full_11()
    requires
        pow_mod(37, 17179869183, m61()) == 480090538363525378,
    ensures
        pow_mod(37, 137438953471, m61()) == 1544565166928568020,
{
    let p = m61();
    lemma_pow_double(37, 17179869183, 480090538363525378, p);
    assert((480090538363525378int * 480090538363525378) % 2305843009213693951 == 1255437616595228619);
    lemma_pow_next(37, 34359738366, 1255437616595228619, p);
    assert((37int * 1255437616595228619) % 2305843009213693951 == 334331629749579883);
    lemma_pow_double(37, 34359738367, 334331629749579883, p);
    assert((334331629749579883int * 334331629749579883) % 2305843009213693951 == 1071741499967791974);
    lemma_pow_next(37, 68719476734, 1071741499967791974, p);
    assert((37int * 1071741499967791974) % 2305843009213693951 == 455104342175505871);
    lemma_pow_double(37, 68719476735, 455104342175505871, p);
    assert((455104342175505871int * 455104342175505871) % 2305843009213693951 == 228705248501882429);
    lemma_pow_next(37, 137438953470, 228705248501882429, p);
    assert((37int * 228705248501882429) % 2305843009213693951 == 1544565166928568020);
}

/// From the power of 37 with the exponent 137438953471 to that with the exponent 1099511627775.
proof fn lemma_power_full_12()
    requires
        pow_mod(37, 137438953471, m61()) == 1544565166928568020,
    ensures
        pow_mod(37, 1099511627775, m61()) == 1568695384996601055,
{
    let p = m61();
    lemma_pow_double(37, 137438953471, 1544565166928568020, p);
    assert((1544565166928568020int * 1544565166928568020) % 2305843009213693951 == 2049532545779054094);
    lemma_pow_next(37, 274877906942, 2049532545779054094, p);
    assert((37int * 2049532545779054094) % 2305843009213693951 == 2045727898986795046);
    lemma_pow_double(37, 274877906943, 2045727898986795046, p);
    assert((2045727898986795046int * 2045727898986795046) % 2305843009213693951 == 260720661589347564);
    lemma_pow_next(37, 549755813886, 260720661589347564, p);
    assert((37int * 260720661589347564) % 2305843009213693951 == 423292441951084064);
    lemma_pow_double(37, 549755813887, 423292441951084064, p);
    assert((423292441951084064int * 423292441951084064) % 2305843009213693951 == 1475759043159771944);
    lemma_pow_next(37, 1099511627774, 1475759043159771944, p);
    assert((37int * 1475759043159771944) % 2305843009213693951 == 1568695384996601055);
}

/// From the power of 37 with the exponent 1099511627775 to that with the exponent 8796093022207.
proof fn lemma_power_full_13()
    requires
        pow_mod(37, 1099511627775, m61()) == 1568695384996601055,
    ensures
        pow_mod(37, 8796093022207, m61()) == 569054343849813891,
{
    let p = m61();
    lemma_pow_double(37, 1099511627775, 1568695384996601055, p);
    assert((1568695384996601055int * 1568695384996601055) % 2305843009213693951 == 1245585892804418001);
    lemma_pow_next(37, 2199023255550, 1245585892804418001, p);
    assert((37int * 1245585892804418001) % 2305843009213693951 == 2275660858703280968);
    lemma_pow_double(37, 2199023255551, 2275660858703280968, p);
    assert((2275660858703280968int * 2275660858703280968) % 2305843009213693951 == 112549680581412311);
    lemma_pow_next(37, 4398046511102, 112549680581412311, p);
    assert((37int * 112549680581412311) % 2305843009213693951 == 1858495172298561556);
    lemma_pow_double(37, 4398046511103, 1858495172298561556, p);
    assert((1858495172298561556int * 1858495172298561556) % 2305843009213693951 == 1822662205703971310);
    lemma_pow_next(37, 8796093022206, 1822662205703971310, p);
    assert((37int * 1822662205703971310) % 2305843009213693951 == 569054343849813891);
}

/// From the power of 37 with the exponent 8796093022207 to that with the exponent 70368744177663.
proof fn lemma_power_full_14()
    requires
        pow_mod(37, 8796093022207, m61()) == 569054343849813891,
    ensures
        pow_mod(37, 70368744177663, m61()) == 1470276502997402596,
{
    let p = m61();
    lemma_pow_double(37, 8796093022207, 569054343849813891, p);
    assert((569054343849813891int * 569054343849813891) % 2305843009213693951 == 273235290159633500);
    lemma_pow_next(37, 17592186044414, 273235290159633500, p);
    assert((37int * 273235290159633500) % 2305843009213693951 == 886333699051663696);
    lemma_pow_double(37, 17592186044415, 886333699051663696, p);
    assert((886333699051663696int * 886333699051663696) % 2305843009213693951 == 2131399742756913710);
    lemma_pow_next(37, 35184372088830, 2131399742756913710, p);
    assert((37int * 2131399742756913710) % 2305843009213693951 == 463128168740212936);
    lemma_pow_double(37, 35184372088831, 463128168740212936, p);
    assert((463128168740212936int * 463128168740212936) % 2305843009213693951 == 1535419154706109660);
    lemma_pow_next(37, 70368744177662, 1535419154706109660, p);
    assert((37int * 1535419154706109660) % 2305843009213693951 == 1470276502997402596);
}

/// From the power of 37 with the exponent 70368744177663 to that with the exponent 562949953421311.
proof fn lemma_power_full_15()
    requires
        pow_mod(37, 70368744177663, m61()) == 1470276502997402596,
    ensures
        pow_mod(37, 562949953421311, m61()) == 1404452490455214912,
{
    let p = m61();
    lemma_pow_double(37, 70368744177663, 1470276502997402596, p);
    assert((1470276502997402596int * 1470276502997402596) % 2305843009213693951 == 1309736547623153985);
    lemma_pow_next(37, 140737488355326, 1309736547623153985, p);
    assert((37int * 1309736547623153985) % 2305843009213693951 == 37549068569124474);
    lemma_pow_double(37, 140737488355327, 37549068569124474, p);
    assert((37549068569124474int * 37549068569124474) % 2305843009213693951 == 1284640436418541372);
    lemma_pow_next(37, 281474976710654, 1284640436418541372, p);
    assert((37int * 1284640436418541372) % 2305843009213693951 == 1414835963212151744);
    lemma_pow_double(37, 281474976710655, 1414835963212151744, p);
    assert((1414835963212151744int * 1414835963212151744) % 2305843009213693951 == 1720600371330404097);
    lemma_pow_next(37, 562949953421310, 1720600371330404097, p);
    assert((37int * 1720600371330404097) % 2305843009213693951 == 1404452490455214912);
}

/// From the power of 37 with the exponent 562949953421311 to that with the exponent 4503599627370495.
proof fn lemma_power_full_16()
    requires
        pow_mod(37, 562949953421311, m61()) == 1404452490455214912,
    ensures
        pow_mod(37, 4503599627370495, m61()) == 2232011143292030077,
{
    let p = m61();
    lemma_pow_double(37, 562949953421311, 1404452490455214912, p);
    assert((1404452490455214912int * 1404452490455214912) % 2305843009213693951 == 151313146109982526);
    lemma_pow_next(37, 1125899906842622, 151313146109982526, p);
    assert((37int * 151313146109982526) % 2305843009213693951 == 986900387641965560);
    lemma_pow_double(37, 1125899906842623, 986900387641965560, p);
    assert((986900387641965560int * 986900387641965560) % 2305843009213693951 == 1884075919588208633);
    lemma_pow_next(37, 2251799813685246, 1884075919588208633, p);
    assert((37int * 1884075919588208633) % 2305843009213693951 == 535518748352900891);
    lemma_pow_double(37, 2251799813685247, 535518748352900891, p);
    assert((535518748352900891int * 535518748352900891) % 2305843009213693951 == 1119766008106076412);
    lemma_pow_next(37, 4503599627370494, 1119766008106076412, p);
    assert((37int * 1119766008106076412) % 2305843009213693951 == 2232011143292030077);
}

/// From the power of 37 with the exponent 4503599627370495 to that with the exponent 36028797018963967.
proof fn lemma_power_full_17()
    requires
        pow_mod(37, 4503599627370495, m61()) == 2232011143292030077,
    ensures
        pow_mod(37, 36028797018963967, m61()) == 501083222385903000,
{
    let p = m61();
    lemma_pow_double(37, 4503599627370495, 2232011143292030077, p);
    assert((2232011143292030077int * 2232011143292030077) % 2305843009213693951 == 397979660456682274);
    lemma_pow_next(37, 9007199254740990, 397979660456682274, p);
    assert((37int * 397979660456682274) % 2305843009213693951 == 890189381615080432);
    lemma_pow_double(37, 9007199254740991, 890189381615080432, p);
    assert((890189381615080432int * 890189381615080432) % 2305843009213693951 == 1107053542953062238);
    lemma_pow_next(37, 18014398509481982, 1107053542953062238, p);
    assert((37int * 1107053542953062238) % 2305843009213693951 == 1761649932630505639);
    lemma_pow_double(37, 18014398509481983, 1761649932630505639, p);
    assert((1761649932630505639int * 1761649932630505639) % 2305843009213693951 == 1883145229697208690);
    lemma_pow_next(37, 36028797018963966, 1883145229697208690, p);
    assert((37int * 1883145229697208690) % 2305843009213693951 == 501083222385903000);
}

/// From the power of 37 with the exponent 36028797018963967 to that with the exponent 288230376151711743.
proof fn lemma_power_full_18()
    requires
        pow_mod(37, 36028797018963967, m61()) == 501083222385903000,
    ensures
        pow_mod(37, 288230376151711743, m61()) == 445201096132025520,
{
    let p = m61();
    lemma_pow_double(37, 36028797018963967, 501083222385903000, p);
    assert((501083222385903000int * 501083222385903000) % 2305843009213693951 == 2250021936305220258);
    lemma_pow_next(37, 72057594037927934, 2250021936305220258, p);
    assert((37int * 2250021936305220258) % 2305843009213693951 == 240463311600167310);
    lemma_pow_double(37, 72057594037927935, 240463311600167310, p);
    assert((240463311600167310int * 240463311600167310) % 2305843009213693951 == 513456471930930812);
    lemma_pow_next(37, 144115188075855870, 513456471930930812, p);
    assert((37int * 513456471930930812) % 2305843009213693951 == 551145387734888436);
    lemma_pow_double(37, 144115188075855871, 551145387734888436, p);
    assert((551145387734888436int * 551145387734888436) % 2305843009213693951 == 697553356688720513);
    lemma_pow_next(37, 288230376151711742, 697553356688720513, p);
    assert((37int * 697553356688720513) % 2305843009213693951 == 445201096132025520);
}

/// From the power of 37 with the exponent 288230376151711743 to that with the exponent 2305843009213693950.
proof fn lemma_power_full_19()
    requires
        pow_mod(37, 288230376151711743, m61()) == 445201096132025520,
    ensures
        pow_mod(37, 2305843009213693950, m61()) == 1,
{
    let p = m61();
    lemma_pow_double(37, 288230376151711743, 445201096132025520, p);
    assert((445201096132025520int * 445201096132025520) % 2305843009213693951 == 2067650758863943121);
    lemma_pow_next(37, 576460752303423486, 2067650758863943121, p);
    assert((37int * 2067650758863943121) % 2305843009213693951 == 410258773913995094);
    lemma_pow_double(37, 576460752303423487, 410258773913995094, p);
    assert((410258773913995094int * 410258773913995094) % 2305843009213693951 == 124640162660199673);
    lemma_pow_next(37, 1152921504606846974, 124640162660199673, p);
    assert((37int * 124640162660199673) % 2305843009213693951 == 2305843009213693950);
    lemma_pow_double(37, 1152921504606846975, 2305843009213693950, p);
    assert((2305843009213693950int * 2305843009213693950) % 2305843009213693951 == 1);
}

/// The power of 37 with the exponent 2305843009213693950, by squaring and multiplying
/// along the binary digits of the exponent.
proof fn lemma_power_full()
    ensures
        pow_mod(37, 2305843009213693950, m61()) == 1,
{
    assert(pow_mod(37, 1, m61()) == 37) by {
        reveal_with_fuel(pow_mod, 3);
    }
    lemma_power_full_0();
    lemma_power_full_1();
    lemma_power_full_2();
    lemma_power_full_3();
    lemma_power_full_4();
    lemma_power_full_5();
    lemma_power_full_6();
    lemma_power_full_7();
    lemma_power_full_8();
    lemma_power_full_9();
    lemma_power_full_10();
    lemma_power_full_11();
    lemma_power_full_12();
    lemma_power_full_13();
    lemma_power_full_14();
    lemma_power_full_15();
    lemma_power_full_16();
    lemma_power_full_17();
    lemma_power_full_18();
    lemma_power_full_19();
}

/// From the power of 37 with the exponent 1 to that with the exponent 15.
proof fn lemma_power_less_2_0()
    requires
        pow_mod(37, 1, m61()) == 37,
    ensures
        pow_mod(37, 15, m61()) == 616232432238528334,
{
    let p = m61();
    lemma_pow_double(37, 1, 37, p);
    assert((37int * 37) % 2305843009213693951 == 1369);
    lemma_pow_next(37, 2, 1369, p);
    assert((37int * 1369) % 2305843009213693951 == 50653);
    lemma_pow_double(37, 3, 50653, p);
    assert((50653int * 50653) % 2305843009213693951 == 2565726409);
    lemma_pow_next(37, 6, 2565726409, p);
    assert((37int * 2565726409) % 2305843009213693951 == 94931877133);
    lemma_pow_double(37, 7, 94931877133, p);
    assert((94931877133int * 94931877133) % 2305843009213693951 == 826815987892339181);
    lemma_pow_next(37, 14, 826815987892339181, p);
    assert((37int * 826815987892339181) % 2305843009213693951 == 616232432238528334);
}

/// From the power of 37 with the exponent 15 to that with the exponent 127.
proof fn lemma_power_less_2_1()
    requires
        pow_mod(37, 15, m61()) == 616232432238528334,
    ensures
        pow_mod(37, 127, m61()) == 855349401310129110,
{
    let p = m61();
    lemma_pow_double(37, 15, 616232432238528334, p);
    assert((616232432238528334int * 616232432238528334) % 2305843009213693951 == 402778895455182525);
    lemma_pow_next(37, 30, 402778895455182525, p);
    assert((37int * 402778895455182525) % 2305843009213693951 == 1067761076559589719);
    lemma_pow_double(37, 31, 1067761076559589719, p);
    assert((1067761076559589719int * 1067761076559589719) % 2305843009213693951 == 494625628984157828);
    lemma_pow_next(37, 62, 494625628984157828, p);
    assert((37int * 494625628984157828) % 2305843009213693951 == 2160247207917981979);
    lemma_pow_double(37, 63, 2160247207917981979, p);
    assert((2160247207917981979int * 2160247207917981979) % 2305843009213693951 == 1331839259318856813);
    lemma_pow_next(37, 126, 1331839259318856813, p);
    assert((37int * 1331839259318856813) % 2305843009213693951 == 855349401310129110);
}

/// From the power of 37 with the exponent 127 to that with the exponent 1023.
proof fn lemma_power_less_2_2()
    requires
        pow_mod(37, 127, m61()) == 855349401310129110,
    ensures
        pow_mod(37, 1023, m61()) == 1620483921678490712,
{
    let p = m61();
    lemma_pow_double(37, 127, 855349401310129110, p);
    assert((855349401310129110int * 855349401310129110) % 2305843009213693951 == 1558476626656031890);
    lemma_pow_next(37, 254, 1558476626656031890, p);
    assert((37int * 1558476626656031890) % 2305843009213693951 == 17559955930831155);
    lemma_pow_double(37, 255, 17559955930831155, p);
    assert((17559955930831155int * 17559955930831155) % 2305843009213693951 == 1549265469538204418);
    lemma_pow_next(37, 510, 1549265469538204418, p);
    assert((37int * 1549265469538204418) % 2305843009213693951 == 1982590151784908642);
    lemma_pow_double(37, 511, 1982590151784908642, p);
    assert((1982590151784908642int * 1982590151784908642) % 2305843009213693951 == 2162679627971461758);
    lemma_pow_next(37, 1022, 2162679627971461758, p);
    assert((37int * 2162679627971461758) % 2305843009213693951 == 1620483921678490712);
}

/// From the power of 37 with the exponent 1023 to that with the exponent 8191.
proof fn lemma_power_less_2_3()
    requires
        pow_mod(37, 1023, m61()) == 1620483921678490712,
    ensures
        pow_mod(37, 8191, m61()) == 1326275558510608058,
{
    let p = m61();
    lemma_pow_double(37, 1023, 1620483921678490712, p);
    assert((1620483921678490712int * 1620483921678490712) % 2305843009213693951 == 146181933895270542);
    lemma_pow_next(37, 2046, 146181933895270542, p);
    assert((37int * 146181933895270542) % 2305843009213693951 == 797045535697622152);
    lemma_pow_double(37, 2047, 797045535697622152, p);
    assert((797045535697622152int * 797045535697622152) % 2305843009213693951 == 1280383653602432052);
    lemma_pow_next(37, 4094, 1280383653602432052, p);
    assert((37int * 1280383653602432052) % 2305843009213693951 == 1257334999016106904);
    lemma_pow_double(37, 4095, 1257334999016106904, p);
    assert((1257334999016106904int * 1257334999016106904) % 2305843009213693951 == 1718487481277847155);
    lemma_pow_next(37, 8190, 1718487481277847155, p);
    assert((37int * 1718487481277847155) % 2305843009213693951 == 1326275558510608058);
}

/// From the power of 37 with the exponent 8191 to that with the exponent 65535.
proof fn lemma_power_less_2_4()
    requires
        pow_mod(37, 8191, m61()) == 1326275558510608058,
    ensures
        pow_mod(37, 65535, m61()) == 1031382600202606767,
{
    let p = m61();
    lemma_pow_double(37, 8191, 1326275558510608058, p);
    assert((1326275558510608058int * 1326275558510608058) % 2305843009213693951 == 588638499900072055);
    lemma_pow_next(37, 16382, 588638499900072055, p);
    assert((37int * 588638499900072055) % 2305843009213693951 == 1027037413379420476);
    lemma_pow_double(37, 16383, 1027037413379420476, p);
    assert((1027037413379420476int * 1027037413379420476) % 2305843009213693951 == 208391841392942170);
    lemma_pow_next(37, 32766, 208391841392942170, p);
    assert((37int * 208391841392942170) % 2305843009213693951 == 792969103897778437);
    lemma_pow_double(37, 32767, 792969103897778437, p);
    assert((792969103897778437int * 792969103897778437) % 2305843009213693951 == 152515368071080937);
    lemma_pow_next(37, 65534, 152515368071080937, p);
    assert((37int * 152515368071080937) % 2305843009213693951 == 1031382600202606767);
}

/// From the power of 37 with the exponent 65535 to that with the exponent 524287.
proof fn lemma_power_less_2_5()
    requires
        pow_mod(37, 65535, m61()) == 1031382600202606767,
    ensures
        pow_mod(37, 524287, m61()) == 1453233501296778526,
{
    let p = m61();
    lemma_pow_double(37, 65535, 1031382600202606767, p);
    assert((1031382600202606767int * 1031382600202606767) % 2305843009213693951 == 2155288217072033190);
    lemma_pow_next(37, 131070, 2155288217072033190, p);
    assert((37int * 2155288217072033190) % 2305843009213693951 == 1347001718399633696);
    lemma_pow_double(37, 131071, 1347001718399633696, p);
    assert((1347001718399633696int * 1347001718399633696) % 2305843009213693951 == 794460576466359998);
    lemma_pow_next(37, 262142, 794460576466359998, p);
    assert((37int * 794460576466359998) % 2305843009213693951 == 1724925218690992514);
    lemma_pow_double(37, 262143, 1724925218690992514, p);
    assert((1724925218690992514int * 1724925218690992514) % 2305843009213693951 == 724797475747227351);
    lemma_pow_next(37, 524286, 724797475747227351, p);
    assert((37int * 724797475747227351) % 2305843009213693951 == 1453233501296778526);
}

/// From the power of 37 with the exponent 524287 to that with the exponent 4194303.
proof fn lemma_power_less_2_6()
    requires
        pow_mod(37, 524287, m61()) == 1453233501296778526,
    ensures
        pow_mod(37, 4194303, m61()) == 1605244839025374608,
{
    let p = m61();
    lemma_pow_double(37, 524287, 1453233501296778526, p);
    assert((1453233501296778526int * 1453233501296778526) % 2305843009213693951 == 652921838251185575);
    lemma_pow_next(37, 1048574, 652921838251185575, p);
    assert((37int * 652921838251185575) % 2305843009213693951 == 1099677923156926765);
    lemma_pow_double(37, 1048575, 1099677923156926765, p);
    assert((1099677923156926765int * 1099677923156926765) % 2305843009213693951 == 742068081681864210);
    lemma_pow_next(37, 2097150, 742068081681864210, p);
    assert((37int * 742068081681864210) % 2305843009213693951 == 2092245920878342309);
    lemma_pow_double(37, 2097151, 2092245920878342309, p);
    assert((2092245920878342309int * 2092245920878342309) % 2305843009213693951 == 666585808950332814);
    lemma_pow_next(37, 4194302, 666585808950332814, p);
    assert((37int * 666585808950332814) % 2305843009213693951 == 1605244839025374608);
}

/// From the power of 37 with the exponent 4194303 to that with the exponent 33554431.
proof fn lemma_power_less_2_7()
    requires
        pow_mod(37, 4194303, m61()) == 1605244839025374608,
    ensures
        pow_mod(37, 33554431, m61()) == 1418177623632872530,
{
    let p = m61();
    lemma_pow_double(37, 4194303, 1605244839025374608, p);
    assert((1605244839025374608int * 1605244839025374608) % 2305843009213693951 == 1180762468442821560);
    lemma_pow_next(37, 8388606, 1180762468442821560, p);
    assert((37int * 1180762468442821560) % 2305843009213693951 == 2183037166537906602);
    lemma_pow_double(37, 8388607, 2183037166537906602, p);
    assert((2183037166537906602int * 2183037166537906602) % 2305843009213693951 == 565830704986682533);
    lemma_pow_next(37, 16777214, 565830704986682533, p);
    assert((37int * 565830704986682533) % 2305843009213693951 == 183149001584008162);
    lemma_pow_double(37, 16777215, 183149001584008162, p);
    assert((183149001584008162int * 183149001584008162) % 2305843009213693951 == 412249612943649628);
    lemma_pow_next(37, 33554430, 412249612943649628, p);
    assert((37int * 412249612943649628) % 2305843009213693951 == 1418177623632872530);
}

/// From the power of 37 with the exponent 33554431 to that with the exponent 268435455.
proof fn lemma_power_less_2_8()
    requires
        pow_mod(37, 33554431, m61()) == 1418177623632872530,
    ensures
        pow_mod(37, 268435455, m61()) == 376432223738409504,
{
    let p = m61();
    lemma_pow_double(37, 33554431, 1418177623632872530, p);
    assert((1418177623632872530int * 1418177623632872530) % 2305843009213693951 == 2166097415507956791);
    lemma_pow_next(37, 67108862, 2166097415507956791, p);
    assert((37int * 2166097415507956791) % 2305843009213693951 == 1746942060528806933);
    lemma_pow_double(37, 67108863, 1746942060528806933, p);
    assert((1746942060528806933int * 1746942060528806933) % 2305843009213693951 == 390966364361498179);
    lemma_pow_next(37, 134217726, 390966364361498179, p);
    assert((37int * 390966364361498179) % 2305843009213693951 == 630697426093268917);
    lemma_pow_double(37, 134217727, 630697426093268917, p);
    assert((630697426093268917int * 630697426093268917) % 2305843009213693951 == 72493925214921715);
    lemma_pow_next(37, 268435454, 72493925214921715, p);
    assert((37int * 72493925214921715) % 2305843009213693951 == 376432223738409504);
}

/// From the power of 37 with the exponent 268435455 to that with the exponent 2147483647.
proof fn lemma_power_less_2_9()
    requires
        pow_mod(37, 268435455, m61()) == 376432223738409504,
    ensures
        pow_mod(37, 2147483647, m61()) == 983725788124143492,
{
    let p = m61();
    lemma_pow_double(37, 268435455, 376432223738409504, p);
    assert((376432223738409504int * 376432223738409504) % 2305843009213693951 == 571440403349648785);
    lemma_pow_next(37, 536870910, 571440403349648785, p);
    assert((37int * 571440403349648785) % 2305843009213693951 == 390707841013759486);
    lemma_pow_double(37, 536870911, 390707841013759486, p);
    assert((390707841013759486int * 390707841013759486) % 2305843009213693951 == 1846425465361805404);
    lemma_pow_next(37, 1073741822, 1846425465361805404, p);
    assert((37int * 1846425465361805404) % 2305843009213693951 == 1448294951189675369);
    lemma_pow_double(37, 1073741823, 1448294951189675369, p);
    assert((1448294951189675369int * 1448294951189675369) % 2305843009213693951 == 151227346123014362);
    lemma_pow_next(37, 2147483646, 151227346123014362, p);
    assert((37int * 151227346123014362) % 2305843009213693951 == 983725788124143492);
}

/// From the power of 37 with the exponent 2147483647 to that with the exponent 17179869183.
proof fn lemma_power_less_2_10()
    requires
        pow_mod(37, 2147483647, m61()) == 983725788124143492,
    ensures
        pow_mod(37, 17179869183, m61()) == 480090538363525378,
{
    let p = m61();
    lemma_pow_double(37, 2147483647, 983725788124143492, p);
    assert((983725788124143492int * 983725788124143492) % 2305843009213693951 == 281690927124487729);
    lemma_pow_next(37, 4294967294, 281690927124487729, p);
    assert((37int * 281690927124487729) % 2305843009213693951 == 1199192266751270169);
    lemma_pow_double(37, 4294967295, 1199192266751270169, p);
    assert((1199192266751270169int * 1199192266751270169) % 2305843009213693951 == 1341243337946430419);
    lemma_pow_next(37, 8589934590, 1341243337946430419, p);
    assert((37int * 1341243337946430419) % 2305843009213693951 == 1203300310530352532);
    lemma_pow_double(37, 8589934591, 1203300310530352532, p);
    assert((1203300310530352532int * 1203300310530352532) % 2305843009213693951 == 1570977453208266869);
    lemma_pow_next(37, 17179869182, 1570977453208266869, p);
    assert((37int * 1570977453208266869) % 2305843009213693951 == 480090538363525378);
}

/// From the power of 37 with the exponent 17179869183 to that with the exponent 137438953471.
proof fn lemma_power_less_2_11()
    requires
        pow_mod(37, 17179869183, m61()) == 480090538363525378,
    ensures
        pow_mod(37, 137438953471, m61()) == 1544565166928568020,
{
    let p = m61();
    lemma_pow_double(37, 17179869183, 480090538363525378, p);
    assert((480090538363525378int * 480090538363525378) % 2305843009213693951 == 1255437616595228619);
    lemma_pow_next(37, 34359738366, 1255437616595228619, p);
    assert((37int * 1255437616595228619) % 2305843009213693951 == 334331629749579883);
    lemma_pow_double(37, 34359738367, 334331629749579883, p);
    assert((334331629749579883int * 334331629749579883) % 2305843009213693951 == 1071741499967791974);
    lemma_pow_next(37, 68719476734, 1071741499967791974, p);
    assert((37int * 1071741499967791974) % 2305843009213693951 == 455104342175505871);
    lemma_pow_double(37, 68719476735, 455104342175505871, p);
    assert((455104342175505871int * 455104342175505871) % 2305843009213693951 == 228705248501882429);
    lemma_pow_next(37, 137438953470, 228705248501882429, p);
    assert((37int * 228705248501882429) % 2305843009213693951 == 1544565166928568020);
}

/// From the power of 37 with the exponent 137438953471 to that with the exponent 1099511627775.
proof fn lemma_power_less_2_12()
    requires
        pow_mod(37, 137438953471, m61()) == 1544565166928568020,
    ensures
        pow_mod(37, 1099511627775, m61()) == 1568695384996601055,
{
    let p = m61();
    lemma_pow_double(37, 137438953471, 1544565166928568020, p);
    assert((1544565166928568020int * 1544565166928568020) % 2305843009213693951 == 2049532545779054094);
    lemma_pow_next(37, 274877906942, 2049532545779054094, p);
    assert((37int * 2049532545779054094) % 2305843009213693951 == 2045727898986795046);
    lemma_pow_double(37, 274877906943, 2045727898986795046, p);
    assert((2045727898986795046int * 2045727898986795046) % 2305843009213693951 == 260720661589347564);
    lemma_pow_next(37, 549755813886, 260720661589347564, p);
    assert((37int * 260720661589347564) % 2305843009213693951 == 423292441951084064);
    lemma_pow_double(37, 549755813887, 423292441951084064, p);
    assert((423292441951084064int * 423292441951084064) % 2305843009213693951 == 1475759043159771944);
    lemma_pow_next(37, 1099511627774, 1475759043159771944, p);
    assert((37int * 1475759043159771944) % 2305843009213693951 == 1568695384996601055);
}

/// From the power of 37 with the exponent 1099511627775 to that with the exponent 8796093022207.
proof fn lemma_power_less_2_13()
    requires
        pow_mod(37, 1099511627775, m61()) == 1568695384996601055,
    ensures
        pow_mod(37, 8796093022207, m61()) == 569054343849813891,
{
    let p = m61();
    lemma_pow_double(37, 1099511627775, 1568695384996601055, p);
    assert((1568695384996601055int * 1568695384996601055) % 2305843009213693951 == 1245585892804418001);
    lemma_pow_next(37, 2199023255550, 1245585892804418001, p);
    assert((37int * 1245585892804418001) % 2305843009213693951 == 2275660858703280968);
    lemma_pow_double(37, 2199023255551, 2275660858703280968, p);
    assert((2275660858703280968int * 2275660858703280968) % 2305843009213693951 == 112549680581412311);
    lemma_pow_next(37, 4398046511102, 112549680581412311, p);
    assert((37int * 112549680581412311) % 2305843009213693951 == 1858495172298561556);
    lemma_pow_double(37, 4398046511103, 1858495172298561556, p);
    assert((1858495172298561556int * 1858495172298561556) % 2305843009213693951 == 1822662205703971310);
    lemma_pow_next(37, 8796093022206, 1822662205703971310, p);
    assert((37int * 1822662205703971310) % 2305843009213693951 == 569054343849813891);
}

/// From the power of 37 with the exponent 8796093022207 to that with the exponent 70368744177663.
proof fn lemma_power_less_2_14()
    requires
        pow_mod(37, 8796093022207, m61()) == 569054343849813891,
    ensures
        pow_mod(37, 70368744177663, m61()) == 1470276502997402596,
{
    let p = m61();
    lemma_pow_double(37, 8796093022207, 569054343849813891, p);
    assert((569054343849813891int * 569054343849813891) % 2305843009213693951 == 273235290159633500);
    lemma_pow_next(37, 17592186044414, 273235290159633500, p);
    assert((37int * 273235290159633500) % 2305843009213693951 == 886333699051663696);
    lemma_pow_double(37, 17592186044415, 886333699051663696, p);
    assert((886333699051663696int * 886333699051663696) % 2305843009213693951 == 2131399742756913710);
    lemma_pow_next(37, 35184372088830, 2131399742756913710, p);
    assert((37int * 2131399742756913710) % 2305843009213693951 == 463128168740212936);
    lemma_pow_double(37, 35184372088831, 463128168740212936, p);
    assert((463128168740212936int * 463128168740212936) % 2305843009213693951 == 1535419154706109660);
    lemma_pow_next(37, 70368744177662, 1535419154706109660, p);
    assert((37int * 1535419154706109660) % 2305843009213693951 == 1470276502997402596);
}

/// From the power of 37 with the exponent 70368744177663 to that with the exponent 562949953421311.
proof fn lemma_power_less_2_15()
    requires
        pow_mod(37, 70368744177663, m61()) == 1470276502997402596,
    ensures
        pow_mod(37, 562949953421311, m61()) == 1404452490455214912,
{
    let p = m61();
    lemma_pow_double(37, 70368744177663, 1470276502997402596, p);
    assert((1470276502997402596int * 1470276502997402596) % 2305843009213693951 == 1309736547623153985);
    lemma_pow_next(37, 140737488355326, 1309736547623153985, p);
    assert((37int * 1309736547623153985) % 2305843009213693951 == 37549068569124474);
    lemma_pow_double(37, 140737488355327, 37549068569124474, p);
    assert((37549068569124474int * 37549068569124474) % 2305843009213693951 == 1284640436418541372);
    lemma_pow_next(37, 281474976710654, 1284640436418541372, p);
    assert((37int * 1284640436418541372) % 2305843009213693951 == 1414835963212151744);
    lemma_pow_double(37, 281474976710655, 1414835963212151744, p);
    assert((1414835963212151744int * 1414835963212151744) % 2305843009213693951 == 1720600371330404097);
    lemma_pow_next(37, 562949953421310, 1720600371330404097, p);
    assert((37int * 1720600371330404097) % 2305843009213693951 == 1404452490455214912);
}

/// From the power of 37 with the exponent 562949953421311 to that with the exponent 4503599627370495.
proof fn lemma_power_less_2_16()
    requires
        pow_mod(37, 562949953421311, m61()) == 1404452490455214912,
    ensures
        pow_mod(37, 4503599627370495, m61()) == 2232011143292030077,
{
    let p = m61();
    lemma_pow_double(37, 562949953421311, 1404452490455214912, p);
    assert((1404452490455214912int * 1404452490455214912) % 2305843009213693951 == 151313146109982526);
    lemma_pow_next(37, 1125899906842622, 151313146109982526, p);
    assert((37int * 151313146109982526) % 2305843009213693951 == 986900387641965560);
    lemma_pow_double(37, 1125899906842623, 986900387641965560, p);
    assert((986900387641965560int * 986900387641965560) % 2305843009213693951 == 1884075919588208633);
    lemma_pow_next(37, 2251799813685246, 1884075919588208633, p);
    assert((37int * 1884075919588208633) % 2305843009213693951 == 535518748352900891);
    lemma_pow_double(37, 2251799813685247, 535518748352900891, p);
    assert((535518748352900891int * 535518748352900891) % 2305843009213693951 == 1119766008106076412);
    lemma_pow_next(37, 4503599627370494, 1119766008106076412, p);
    assert((37int * 1119766008106076412) % 2305843009213693951 == 2232011143292030077);
}

/// From the power of 37 with the exponent 4503599627370495 to that with the exponent 36028797018963967.
proof fn lemma_power_less_2_17()
    requires
        pow_mod(37, 4503599627370495, m61()) == 2232011143292030077,
    ensures
        pow_mod(37, 36028797018963967, m61()) == 501083222385903000,
{
    let p = m61();
    lemma_pow_double(37, 4503599627370495, 2232011143292030077, p);
    assert((2232011143292030077int * 2232011143292030077) % 2305843009213693951 == 397979660456682274);
    lemma_pow_next(37, 9007199254740990, 397979660456682274, p);
    assert((37int * 397979660456682274) % 2305843009213693951 == 890189381615080432);
    lemma_pow_double(37, 9007199254740991, 890189381615080432, p);
    assert((890189381615080432int * 890189381615080432) % 2305843009213693951 == 1107053542953062238);
    lemma_pow_next(37, 18014398509481982, 1107053542953062238, p);
    assert((37int * 1107053542953062238) % 2305843009213693951 == 1761649932630505639);
    lemma_pow_double(37, 18014398509481983, 1761649932630505639, p);
    assert((1761649932630505639int * 1761649932630505639) % 2305843009213693951 == 1883145229697208690);
    lemma_pow_next(37, 36028797018963966, 1883145229697208690, p);
    assert((37int * 1883145229697208690) % 2305843009213693951 == 501083222385903000);
}

/// From the power of 37 with the exponent 36028797018963967 to that with the exponent 288230376151711743.
proof fn lemma_power_less_2_18()
    requires
        pow_mod(37, 36028797018963967, m61()) == 501083222385903000,
    ensures
        pow_mod(37, 288230376151711743, m61()) == 445201096132025520,
{
    let p = m61();
    lemma_pow_double(37, 36028797018963967, 501083222385903000, p);
    assert((501083222385903000int * 501083222385903000) % 2305843009213693951 == 2250021936305220258);
    lemma_pow_next(37, 72057594037927934, 2250021936305220258, p);
    assert((37int * 2250021936305220258) % 2305843009213693951 == 240463311600167310);
    lemma_pow_double(37, 72057594037927935, 240463311600167310, p);
    assert((240463311600167310int * 240463311600167310) % 2305843009213693951 == 513456471930930812);
    lemma_pow_next(37, 144115188075855870, 513456471930930812, p);
    assert((37int * 513456471930930812) % 2305843009213693951 == 551145387734888436);
    lemma_pow_double(37, 144115188075855871, 551145387734888436, p);
    assert((551145387734888436int * 551145387734888436) % 2305843009213693951 == 697553356688720513);
    lemma_pow_next(37, 288230376151711742, 697553356688720513, p);
    assert((37int * 697553356688720513) % 2305843009213693951 == 445201096132025520);
}

/// From the power of 37 with the exponent 288230376151711743 to that with the exponent 1152921504606846975.
proof fn lemma_power_less_2_19()
    requires
        pow_mod(37, 288230376151711743, m61()) == 445201096132025520,
    ensures
        pow_mod(37, 1152921504606846975, m61()) == 2305843009213693950,
{
    let p = m61();
    lemma_pow_double(37, 288230376151711743, 445201096132025520, p);
    assert((445201096132025520int * 445201096132025520) % 2305843009213693951 == 2067650758863943121);
    lemma_pow_next(37, 576460752303423486, 2067650758863943121, p);
    assert((37int * 2067650758863943121) % 2305843009213693951 == 410258773913995094);
    lemma_pow_double(37, 576460752303423487, 410258773913995094, p);
    assert((410258773913995094int * 410258773913995094) % 2305843009213693951 == 124640162660199673);
    lemma_pow_next(37, 1152921504606846974, 124640162660199673, p);
    assert((37int * 124640162660199673) % 2305843009213693951 == 2305843009213693950);
}

/// The power of 37 with the exponent 1152921504606846975, by squaring and multiplying
/// along the binary digits of the exponent.
proof fn lemma_power_less_2()
    ensures
        pow_mod(37, 1152921504606846975, m61()) == 2305843009213693950,
{
    assert(pow_mod(37, 1, m61()) == 37) by {
        reveal_with_fuel(pow_mod, 3);
    }
    lemma_power_less_2_0();
    lemma_power_less_2_1();
    lemma_power_less_2_2();
    lemma_power_less_2_3();
    lemma_power_less_2_4();
    lemma_power_less_2_5();
    lemma_power_less_2_6();
    lemma_power_less_2_7();
    lemma_power_less_2_8();
    lemma_power_less_2_9();
    lemma_power_less_2_10();
    lemma_power_less_2_11();
    lemma_power_less_2_12();
    lemma_power_less_2_13();
    lemma_power_less_2_14();
    lemma_power_less_2_15();
    lemma_power_less_2_16();
    lemma_power_less_2_17();
    lemma_power_less_2_18();
    lemma_power_less_2_19();
}

/// From the power of 37 with the exponent 1 to that with the exponent 21.
proof fn lemma_power_less_3_0()
    requires
        pow_mod(37, 1, m61()) == 37,
    ensures
        pow_mod(37, 21, m61()) == 888694961596119149,
{
    let p = m61();
    lemma_pow_double(37, 1, 37, p);
    assert((37int * 37) % 2305843009213693951 == 1369);
    lemma_pow_double(37, 2, 1369, p);
    assert((1369int * 1369) % 2305843009213693951 == 1874161);
    lemma_pow_next(37, 4, 1874161, p);
    assert((37int * 1874161) % 2305843009213693951 == 69343957);
    lemma_pow_double(37, 5, 69343957, p);
    assert((69343957int * 69343957) % 2305843009213693951 == 4808584372417849);
    lemma_pow_double(37, 10, 4808584372417849, p);
    assert((4808584372417849int * 4808584372417849) % 2305843009213693951 == 1955941303978935990);
    lemma_pow_next(37, 20, 1955941303978935990, p);
    assert((37int * 1955941303978935990) % 2305843009213693951 == 888694961596119149);
}

/// From the power of 37 with the exponent 21 to that with the exponent 341.
proof fn lemma_power_less_3_1()
    requires
        pow_mod(37, 21, m61()) == 888694961596119149,
    ensures
        pow_mod(37, 341, m61()) == 1062632865798030855,
{
    let p = m61();
    lemma_pow_double(37, 21, 888694961596119149, p);
    assert((888694961596119149int * 888694961596119149) % 2305843009213693951 == 894912350165519413);
    lemma_pow_double(37, 42, 894912350165519413, p);
    assert((894912350165519413int * 894912350165519413) % 2305843009213693951 == 1320999413172432476);
    lemma_pow_next(37, 84, 1320999413172432476, p);
    assert((37int * 1320999413172432476) % 2305843009213693951 == 454275093892428641);
    lemma_pow_double(37, 85, 454275093892428641, p);
    assert((454275093892428641int * 454275093892428641) % 2305843009213693951 == 701131434997227562);
    lemma_pow_double(37, 170, 701131434997227562, p);
    assert((701131434997227562int * 701131434997227562) % 2305843009213693951 == 1649041921766326313);
    lemma_pow_next(37, 340, 1649041921766326313, p);
    assert((37int * 1649041921766326313) % 2305843009213693951 == 1062632865798030855);
}

/// From the power of 37 with the exponent 341 to that with the exponent 5461.
proof fn lemma_power_less_3_2()
    requires
        pow_mod(37, 341, m61()) == 1062632865798030855,
    ensures
        pow_mod(37, 5461, m61()) == 1415589617482217355,
{
    let p = m61();
    lemma_pow_double(37, 341, 1062632865798030855, p);
    assert((1062632865798030855int * 1062632865798030855) % 2305843009213693951 == 2036605303778127185);
    lemma_pow_double(37, 682, 2036605303778127185, p);
    assert((2036605303778127185int * 2036605303778127185) % 2305843009213693951 == 454461861192246854);
    lemma_pow_next(37, 1364, 454461861192246854, p);
    assert((37int * 454461861192246854) % 2305843009213693951 == 674187799617275941);
    lemma_pow_double(37, 1365, 674187799617275941, p);
    assert((674187799617275941int * 674187799617275941) % 2305843009213693951 == 321343956040114611);
    lemma_pow_double(37, 2730, 321343956040114611, p);
    assert((321343956040114611int * 321343956040114611) % 2305843009213693951 == 848420236142168614);
    lemma_pow_next(37, 5460, 848420236142168614, p);
    assert((37int * 848420236142168614) % 2305843009213693951 == 1415589617482217355);
}

/// From the power of 37 with the exponent 5461 to that with the exponent 87381.
proof fn lemma_power_less_3_3()
    requires
        pow_mod(37, 5461, m61()) == 1415589617482217355,
    ensures
        pow_mod(37, 87381, m61()) == 91942713044571089,
{
    let p = m61();
    lemma_pow_double(37, 5461, 1415589617482217355, p);
    assert((1415589617482217355int * 1415589617482217355) % 2305843009213693951 == 812136621146772022);
    lemma_pow_double(37, 10922, 812136621146772022, p);
    assert((812136621146772022int * 812136621146772022) % 2305843009213693951 == 935269675163533225);
    lemma_pow_next(37, 21844, 935269675163533225, p);
    assert((37int * 935269675163533225) % 2305843009213693951 == 17332842845320060);
    lemma_pow_double(37, 21845, 17332842845320060, p);
    assert((17332842845320060int * 17332842845320060) % 2305843009213693951 == 1020017986162963204);
    lemma_pow_double(37, 43690, 1020017986162963204, p);
    assert((1020017986162963204int * 1020017986162963204) % 2305843009213693951 == 1311206646122490380);
    lemma_pow_next(37, 87380, 1311206646122490380, p);
    assert((37int * 1311206646122490380) % 2305843009213693951 == 91942713044571089);
}

/// From the power of 37 with the exponent 87381 to that with the exponent 1398101.
proof fn lemma_power_less_3_4()
    requires
        pow_mod(37, 87381, m61()) == 91942713044571089,
    ensures
        pow_mod(37, 1398101, m61()) == 1772513034245002355,
{
    let p = m61();
    lemma_pow_double(37, 87381, 91942713044571089, p);
    assert((91942713044571089int * 91942713044571089) % 2305843009213693951 == 1533194195838376616);
    lemma_pow_double(37, 174762, 1533194195838376616, p);
    assert((1533194195838376616int * 1533194195838376616) % 2305843009213693951 == 1227895781374760197);
    lemma_pow_next(37, 349524, 1227895781374760197, p);
    assert((37int * 1227895781374760197) % 2305843009213693951 == 1621126735805942220);
    lemma_pow_double(37, 349525, 1621126735805942220, p);
    assert((1621126735805942220int * 1621126735805942220) % 2305843009213693951 == 155718072700530028);
    lemma_pow_double(37, 699050, 155718072700530028, p);
    assert((155718072700530028int * 155718072700530028) % 2305843009213693951 == 297186083002696707);
    lemma_pow_next(37, 1398100, 297186083002696707, p);
    assert((37int * 297186083002696707) % 2305843009213693951 == 1772513034245002355);
}

/// From the power of 37 with the exponent 1398101 to that with the exponent 22369621.
proof fn lemma_power_less_3_5()
    requires
        pow_mod(37, 1398101, m61()) == 1772513034245002355,
    ensures
        pow_mod(37, 22369621, m61()) == 2171198263364885299,
{
    let p = m61();
    lemma_pow_double(37, 1398101, 1772513034245002355, p);
    assert((1772513034245002355int * 1772513034245002355) % 2305843009213693951 == 1047606006045650792);
    lemma_pow_double(37, 2796202, 1047606006045650792, p);
    assert((1047606006045650792int * 1047606006045650792) % 2305843009213693951 == 487702915670720591);
    lemma_pow_next(37, 5592404, 487702915670720591, p);
    assert((37int * 487702915670720591) % 2305843009213693951 == 1904106815320804210);
    lemma_pow_double(37, 5592405, 1904106815320804210, p);
    assert((1904106815320804210int * 1904106815320804210) % 2305843009213693951 == 1571764092410258675);
    lemma_pow_double(37, 11184810, 1571764092410258675, p);
    assert((1571764092410258675int * 1571764092410258675) % 2305843009213693951 == 183321196805196573);
    lemma_pow_next(37, 22369620, 183321196805196573, p);
    assert((37int * 183321196805196573) % 2305843009213693951 == 2171198263364885299);
}

/// From the power of 37 with the exponent 22369621 to that with the exponent 357913941.
proof fn lemma_power_less_3_6()
    requires
        pow_mod(37, 22369621, m61()) == 2171198263364885299,
    ensures
        pow_mod(37, 357913941, m61()) == 377513485871917463,
{
    let p = m61();
    lemma_pow_double(37, 22369621, 2171198263364885299, p);
    assert((2171198263364885299int * 2171198263364885299) % 2305843009213693951 == 442915905711901952);
    lemma_pow_double(37, 44739242, 442915905711901952, p);
    assert((442915905711901952int * 442915905711901952) % 2305843009213693951 == 1954471480783682977);
    lemma_pow_next(37, 89478484, 1954471480783682977, p);
    assert((37int * 1954471480783682977) % 2305843009213693951 == 834311503371757668);
    lemma_pow_double(37, 89478485, 834311503371757668, p);
    assert((834311503371757668int * 834311503371757668) % 2305843009213693951 == 1870461278028150258);
    lemma_pow_double(37, 178956970, 1870461278028150258, p);
    assert((1870461278028150258int * 1870461278028150258) % 2305843009213693951 == 10203067185727499);
    lemma_pow_next(37, 357913940, 10203067185727499, p);
    assert((37int * 10203067185727499) % 2305843009213693951 == 377513485871917463);
}

/// From the power of 37 with the exponent 357913941 to that with the exponent 5726623061.
proof fn lemma_power_less_3_7()
    requires
        pow_mod(37, 357913941, m61()) == 377513485871917463,
    ensures
        pow_mod(37, 5726623061, m61()) == 1393018963882669144,
{
    let p = m61();
    lemma_pow_double(37, 357913941, 377513485871917463, p);
    assert((377513485871917463int * 377513485871917463) % 2305843009213693951 == 621721964039512615);
    lemma_pow_double(37, 715827882, 621721964039512615, p);
    assert((621721964039512615int * 621721964039512615) % 2305843009213693951 == 1027649771662858821);
    lemma_pow_next(37, 1431655764, 1027649771662858821, p);
    assert((37int * 1027649771662858821) % 2305843009213693951 == 1129553404106673161);
    lemma_pow_double(37, 1431655765, 1129553404106673161, p);
    assert((1129553404106673161int * 1129553404106673161) % 2305843009213693951 == 1489167355912447362);
    lemma_pow_double(37, 2863311530, 1489167355912447362, p);
    assert((1489167355912447362int * 1489167355912447362) % 2305843009213693951 == 162289323846217758);
    lemma_pow_next(37, 5726623060, 162289323846217758, p);
    assert((37int * 162289323846217758) % 2305843009213693951 == 1393018963882669144);
}

/// From the power of 37 with the exponent 5726623061 to that with the exponent 91625968981.
proof fn lemma_power_less_3_8()
    requires
        pow_mod(37, 5726623061, m61()) == 1393018963882669144,
    ensures
        pow_mod(37, 91625968981, m61()) == 2099300904468288813,
{
    let p = m61();
    lemma_pow_double(37, 5726623061, 1393018963882669144, p);
    assert((1393018963882669144int * 1393018963882669144) % 2305843009213693951 == 923195156908011831);
    lemma_pow_double(37, 11453246122, 923195156908011831, p);
    assert((923195156908011831int * 923195156908011831) % 2305843009213693951 == 1323280977405789708);
    lemma_pow_next(37, 22906492244, 1323280977405789708, p);
    assert((37int * 1323280977405789708) % 2305843009213693951 == 538692970526646225);
    lemma_pow_double(37, 22906492245, 538692970526646225, p);
    assert((538692970526646225int * 538692970526646225) % 2305843009213693951 == 144926145359869064);
    lemma_pow_double(37, 45812984490, 144926145359869064, p);
    assert((144926145359869064int * 144926145359869064) % 2305843009213693951 == 1552419814205322801);
    lemma_pow_next(37, 91625968980, 1552419814205322801, p);
    assert((37int * 1552419814205322801) % 2305843009213693951 == 2099300904468288813);
}

/// From the power of 37 with the exponent 91625968981 to that with the exponent 1466015503701.
proof fn lemma_power_less_3_9()
    requires
        pow_mod(37, 91625968981, m61()) == 2099300904468288813,
    ensures
        pow_mod(37, 1466015503701, m61()) == 785370285145310356,
{
    let p = m61();
    lemma_pow_double(37, 91625968981, 2099300904468288813, p);
    assert((2099300904468288813int * 2099300904468288813) % 2305843009213693951 == 538461566152087671);
    lemma_pow_double(37, 183251937962, 538461566152087671, p);
    assert((538461566152087671int * 538461566152087671) % 2305843009213693951 == 2132758762996018142);
    lemma_pow_next(37, 366503875924, 2132758762996018142, p);
    assert((37int * 2132758762996018142) % 2305843009213693951 == 513411917587076920);
    lemma_pow_double(37, 366503875925, 513411917587076920, p);
    assert((513411917587076920int * 513411917587076920) % 2305843009213693951 == 443787270311340831);
    lemma_pow_double(37, 733007751850, 443787270311340831, p);
    assert((443787270311340831int * 443787270311340831) % 2305843009213693951 == 769067199884044264);
    lemma_pow_next(37, 1466015503700, 769067199884044264, p);
    assert((37int * 769067199884044264) % 2305843009213693951 == 785370285145310356);
}

/// From the power of 37 with the exponent 1466015503701 to that with the exponent 23456248059221.
proof fn lemma_power_less_3_10()
    requires
        pow_mod(37, 1466015503701, m61()) == 785370285145310356,
    ensures
        pow_mod(37, 23456248059221, m61()) == 805073876738504324,
{
    let p = m61();
    lemma_pow_double(37, 1466015503701, 785370285145310356, p);
    assert((785370285145310356int * 785370285145310356) % 2305843009213693951 == 1872168366718845815);
    lemma_pow_double(37, 2932031007402, 1872168366718845815, p);
    assert((1872168366718845815int * 1872168366718845815) % 2305843009213693951 == 2162796093521213681);
    lemma_pow_next(37, 5864062014804, 2162796093521213681, p);
    assert((37int * 2162796093521213681) % 2305843009213693951 == 1624793147019311863);
    lemma_pow_double(37, 5864062014805, 1624793147019311863, p);
    assert((1624793147019311863int * 1624793147019311863) % 2305843009213693951 == 856854973097751333);
    lemma_pow_double(37, 11728124029610, 856854973097751333, p);
    assert((856854973097751333int * 856854973097751333) % 2305843009213693951 == 1268160380027361712);
    lemma_pow_next(37, 23456248059220, 1268160380027361712, p);
    assert((37int * 1268160380027361712) % 2305843009213693951 == 805073876738504324);
}

/// From the power of 37 with the exponent 23456248059221 to that with the exponent 375299968947541.
proof fn lemma_power_less_3_11()
    requires
        pow_mod(37, 23456248059221, m61()) == 805073876738504324,
    ensures
        pow_mod(37, 375299968947541, m61()) == 1226239134593059157,
{
    let p = m61();
    lemma_pow_double(37, 23456248059221, 805073876738504324, p);
    assert((805073876738504324int * 805073876738504324) % 2305843009213693951 == 2139670068156871055);
    lemma_pow_double(37, 46912496118442, 2139670068156871055, p);
    assert((2139670068156871055int * 2139670068156871055) % 2305843009213693951 == 564531115431738326);
    lemma_pow_next(37, 93824992236884, 564531115431738326, p);
    assert((37int * 564531115431738326) % 2305843009213693951 == 135064188051072503);
    lemma_pow_double(37, 93824992236885, 135064188051072503, p);
    assert((135064188051072503int * 135064188051072503) % 2305843009213693951 == 1777883566789543120);
    lemma_pow_double(37, 187649984473770, 1777883566789543120, p);
    assert((1777883566789543120int * 1777883566789543120) % 2305843009213693951 == 1965064119465339774);
    lemma_pow_next(37, 375299968947540, 1965064119465339774, p);
    assert((37int * 1965064119465339774) % 2305843009213693951 == 1226239134593059157);
}

/// From the power of 37 with the exponent 375299968947541 to that with the exponent 6004799503160661.
proof fn lemma_power_less_3_12()
    requires
        pow_mod(37, 375299968947541, m61()) == 1226239134593059157,
    ensures
        pow_mod(37, 6004799503160661, m61()) == 1066696058055988684,
{
    let p = m61();
    lemma_pow_double(37, 375299968947541, 1226239134593059157, p);
    assert((1226239134593059157int * 1226239134593059157) % 2305843009213693951 == 1764762195221922132);
    lemma_pow_double(37, 750599937895082, 1764762195221922132, p);
    assert((1764762195221922132int * 1764762195221922132) % 2305843009213693951 == 2054020871993638427);
    lemma_pow_next(37, 1501199875790164, 2054020871993638427, p);
    assert((37int * 2054020871993638427) % 2305843009213693951 == 2211795968926415367);
    lemma_pow_double(37, 1501199875790165, 2211795968926415367, p);
    assert((2211795968926415367int * 2211795968926415367) % 2305843009213693951 == 1666146269762060579);
    lemma_pow_double(37, 3002399751580330, 1666146269762060579, p);
    assert((1666146269762060579int * 1666146269762060579) % 2305843009213693951 == 652030436491700762);
    lemma_pow_next(37, 6004799503160660, 652030436491700762, p);
    assert((37int * 652030436491700762) % 2305843009213693951 == 1066696058055988684);
}

/// From the power of 37 with the exponent 6004799503160661 to that with the exponent 96076792050570581.
proof fn lemma_power_less_3_13()
    requires
        pow_mod(37, 6004799503160661, m61()) == 1066696058055988684,
    ensures
        pow_mod(37, 96076792050570581, m61()) == 2035658690790472915,
{
    let p = m61();
    lemma_pow_double(37, 6004799503160661, 1066696058055988684, p);
    assert((1066696058055988684int * 1066696058055988684) % 2305843009213693951 == 796481924047603137);
    lemma_pow_double(37, 12009599006321322, 796481924047603137, p);
    assert((796481924047603137int * 796481924047603137) % 2305843009213693951 == 2003426852922416612);
    lemma_pow_next(37, 24019198012642644, 2003426852922416612, p);
    assert((37int * 2003426852922416612) % 2305843009213693951 == 339817263291208212);
    lemma_pow_double(37, 24019198012642645, 339817263291208212, p);
    assert((339817263291208212int * 339817263291208212) % 2305843009213693951 == 2159224437699580815);
    lemma_pow_double(37, 48038396025285290, 2159224437699580815, p);
    assert((2159224437699580815int * 2159224437699580815) % 2305843009213693951 == 1114459185065493786);
    lemma_pow_next(37, 96076792050570580, 1114459185065493786, p);
    assert((37int * 1114459185065493786) % 2305843009213693951 == 2035658690790472915);
}

/// From the power of 37 with the exponent 96076792050570581 to that with the exponent 768614336404564650.
proof fn lemma_power_less_3_14()
    requires
        pow_mod(37, 96076792050570581, m61()) == 2035658690790472915,
    ensures
        pow_mod(37, 768614336404564650, m61()) == 1669582390241348315,
{
    let p = m61();
    lemma_pow_double(37, 96076792050570581, 2035658690790472915, p);
    assert((2035658690790472915int * 2035658690790472915) % 2305843009213693951 == 1600724798789556215);
    lemma_pow_double(37, 192153584101141162, 1600724798789556215, p);
    assert((1600724798789556215int * 1600724798789556215) % 2305843009213693951 == 792964824346099344);
    lemma_pow_next(37, 384307168202282324, 792964824346099344, p);
    assert((37int * 792964824346099344) % 2305843009213693951 == 1669582390241348316);
    lemma_pow_double(37, 384307168202282325, 1669582390241348316, p);
    assert((1669582390241348316int * 1669582390241348316) % 2305843009213693951 == 1669582390241348315);
}

/// The power of 37 with the exponent 768614336404564650, by squaring and multiplying
/// along the binary digits of the exponent.
proof fn lemma_power_less_3()
    ensures
        pow_mod(37, 768614336404564650, m61()) == 1669582390241348315,
{
    assert(pow_mod(37, 1, m61()) == 37) by {
        reveal_with_fuel(pow_mod, 3);
    }
    lemma_power_less_3_0();
    lemma_power_less_3_1();
    lemma_power_less_3_2();
    lemma_power_less_3_3();
    lemma_power_less_3_4();
    lemma_power_less_3_5();
    lemma_power_less_3_6();
    lemma_power_less_3_7();
    lemma_power_less_3_8();
    lemma_power_less_3_9();
    lemma_power_less_3_10();
    lemma_power_less_3_11();
    lemma_power_less_3_12();
    lemma_power_less_3_13();
    lemma_power_less_3_14();
}

/// From the power of 37 with the exponent 1 to that with the exponent 25.
proof fn lemma_power_less_5_0()
    requires
        pow_mod(37, 1, m61()) == 37,
    ensures
        pow_mod(37, 25, m61()) == 915504708845722669,
{
    let p = m61();
    lemma_pow_double(37, 1, 37, p);
    assert((37int * 37) % 2305843009213693951 == 1369);
    lemma_pow_next(37, 2, 1369, p);
    assert((37int * 1369) % 2305843009213693951 == 50653);
    lemma_pow_double(37, 3, 50653, p);
    assert((50653int * 50653) % 2305843009213693951 == 2565726409);
    lemma_pow_double(37, 6, 2565726409, p);
    assert((2565726409int * 2565726409) % 2305843009213693951 == 1971265987412647379);
    lemma_pow_double(37, 12, 1971265987412647379, p);
    assert((1971265987412647379int * 1971265987412647379) % 2305843009213693951 == 398663858489942875);
    lemma_pow_next(37, 24, 398663858489942875, p);
    assert((37int * 398663858489942875) % 2305843009213693951 == 915504708845722669);
}

/// From the power of 37 with the exponent 25 to that with the exponent 409.
proof fn lemma_power_less_5_1()
    requires
        pow_mod(37, 25, m61()) == 915504708845722669,
    ensures
        pow_mod(37, 409, m61()) == 1876819355796539757,
{
    let p = m61();
    lemma_pow_double(37, 25, 915504708845722669, p);
    assert((915504708845722669int * 915504708845722669) % 2305843009213693951 == 249845630697408639);
    lemma_pow_next(37, 50, 249845630697408639, p);
    assert((37int * 249845630697408639) % 2305843009213693951 == 20916298949343839);
    lemma_pow_double(37, 51, 20916298949343839, p);
    assert((20916298949343839int * 20916298949343839) % 2305843009213693951 == 92200521201836915);
    lemma_pow_double(37, 102, 92200521201836915, p);
    assert((92200521201836915int * 92200521201836915) % 2305843009213693951 == 1115430579838476177);
    lemma_pow_double(37, 204, 1115430579838476177, p);
    assert((1115430579838476177int * 1115430579838476177) % 2305843009213693951 == 175365010114160207);
    lemma_pow_next(37, 408, 175365010114160207, p);
    assert((37int * 175365010114160207) % 2305843009213693951 == 1876819355796539757);
}

/// From the power of 37 with the exponent 409 to that with the exponent 6553.
proof fn lemma_power_less_5_2()
    requires
        pow_mod(37, 409, m61()) == 1876819355796539757,
    ensures
        pow_mod(37, 6553, m61()) == 849375002608753636,
{
    let p = m61();
    lemma_pow_double(37, 409, 1876819355796539757, p);
    assert((1876819355796539757int * 1876819355796539757) % 2305843009213693951 == 328100220568387083);
    lemma_pow_next(37, 818, 328100220568387083, p);
    assert((37int * 328100220568387083) % 2305843009213693951 == 610493114961852316);
    lemma_pow_double(37, 819, 610493114961852316, p);
    assert((610493114961852316int * 610493114961852316) % 2305843009213693951 == 985893244345592266);
    lemma_pow_double(37, 1638, 985893244345592266, p);
    assert((985893244345592266int * 985893244345592266) % 2305843009213693951 == 1678053670663582382);
    lemma_pow_double(37, 3276, 1678053670663582382, p);
    assert((1678053670663582382int * 1678053670663582382) % 2305843009213693951 == 1830238439724483195);
    lemma_pow_next(37, 6552, 1830238439724483195, p);
    assert((37int * 1830238439724483195) % 2305843009213693951 == 849375002608753636);
}

/// From the power of 37 with the exponent 6553 to that with the exponent 104857.
proof fn lemma_power_less_5_3()
    requires
        pow_mod(37, 6553, m61()) == 849375002608753636,
    ensures
        pow_mod(37, 104857, m61()) == 757857164750225696,
{
    let p = m61();
    lemma_pow_double(37, 6553, 849375002608753636, p);
    assert((849375002608753636int * 849375002608753636) % 2305843009213693951 == 829977044857330284);
    lemma_pow_next(37, 13106, 829977044857330284, p);
    assert((37int * 829977044857330284) % 2305843009213693951 == 733191539943199145);
    lemma_pow_double(37, 13107, 733191539943199145, p);
    assert((733191539943199145int * 733191539943199145) % 2305843009213693951 == 2153848202027799961);
    lemma_pow_double(37, 26214, 2153848202027799961, p);
    assert((2153848202027799961int * 2153848202027799961) % 2305843009213693951 == 1067777443961730362);
    lemma_pow_double(37, 52428, 1067777443961730362, p);
    assert((1067777443961730362int * 1067777443961730362) % 2305843009213693951 == 1329204334006426991);
    lemma_pow_next(37, 104856, 1329204334006426991, p);
    assert((37int * 1329204334006426991) % 2305843009213693951 == 757857164750225696);
}

/// From the power of 37 with the exponent 104857 to that with the exponent 1677721.
proof fn lemma_power_less_5_4()
    requires
        pow_mod(37, 104857, m61()) == 757857164750225696,
    ensures
        pow_mod(37, 1677721, m61()) == 2218240285619047117,
{
    let p = m61();
    lemma_pow_double(37, 104857, 757857164750225696, p);
    assert((757857164750225696int * 757857164750225696) % 2305843009213693951 == 519441727951599085);
    lemma_pow_next(37, 209714, 519441727951599085, p);
    assert((37int * 519441727951599085) % 2305843009213693951 == 772599860499614537);
    lemma_pow_double(37, 209715, 772599860499614537, p);
    assert((772599860499614537int * 772599860499614537) % 2305843009213693951 == 1603459955069609960);
    lemma_pow_double(37, 419430, 1603459955069609960, p);
    assert((1603459955069609960int * 1603459955069609960) % 2305843009213693951 == 1253325606998238409);
    lemma_pow_double(37, 838860, 1253325606998238409, p);
    assert((1253325606998238409int * 1253325606998238409) % 2305843009213693951 == 994753660103363686);
    lemma_pow_next(37, 1677720, 994753660103363686, p);
    assert((37int * 994753660103363686) % 2305843009213693951 == 2218240285619047117);
}

/// From the power of 37 with the exponent 1677721 to that with the exponent 26843545.
proof fn lemma_power_less_5_5()
    requires
        pow_mod(37, 1677721, m61()) == 2218240285619047117,
    ensures
        pow_mod(37, 26843545, m61()) == 1348074076142896630,
{
    let p = m61();
    lemma_pow_double(37, 1677721, 2218240285619047117, p);
    assert((2218240285619047117int * 2218240285619047117) % 2305843009213693951 == 2035439263254650537);
    lemma_pow_next(37, 3355442, 2035439263254650537, p);
    assert((37int * 2035439263254650537) % 2305843009213693951 == 1524276445583863437);
    lemma_pow_double(37, 3355443, 1524276445583863437, p);
    assert((1524276445583863437int * 1524276445583863437) % 2305843009213693951 == 426225928886305857);
    lemma_pow_double(37, 6710886, 426225928886305857, p);
    assert((426225928886305857int * 426225928886305857) % 2305843009213693951 == 1633159463509091852);
    lemma_pow_double(37, 13421772, 1633159463509091852, p);
    assert((1633159463509091852int * 1633159463509091852) % 2305843009213693951 == 2030677037053543326);
    lemma_pow_next(37, 26843544, 2030677037053543326, p);
    assert((37int * 2030677037053543326) % 2305843009213693951 == 1348074076142896630);
}

/// From the power of 37 with the exponent 26843545 to that with the exponent 429496729.
proof fn lemma_power_less_5_6()
    requires
        pow_mod(37, 26843545, m61()) == 1348074076142896630,
    ensures
        pow_mod(37, 429496729, m61()) == 1330812745571184744,
{
    let p = m61();
    lemma_pow_double(37, 26843545, 1348074076142896630, p);
    assert((1348074076142896630int * 1348074076142896630) % 2305843009213693951 == 681695552827064153);
    lemma_pow_next(37, 53687090, 681695552827064153, p);
    assert((37int * 681695552827064153) % 2305843009213693951 == 2164305362464434151);
    lemma_pow_double(37, 53687091, 2164305362464434151, p);
    assert((2164305362464434151int * 2164305362464434151) % 2305843009213693951 == 1067724814112099242);
    lemma_pow_double(37, 107374182, 1067724814112099242, p);
    assert((1067724814112099242int * 1067724814112099242) % 2305843009213693951 == 966220849494503741);
    lemma_pow_double(37, 214748364, 966220849494503741, p);
    assert((966220849494503741int * 966220849494503741) % 2305843009213693951 == 2154850677265858894);
    lemma_pow_next(37, 429496728, 2154850677265858894, p);
    assert((37int * 2154850677265858894) % 2305843009213693951 == 1330812745571184744);
}

/// From the power of 37 with the exponent 429496729 to that with the exponent 6871947673.
proof fn lemma_power_less_5_7()
    requires
        pow_mod(37, 429496729, m61()) == 1330812745571184744,
    ensures
        pow_mod(37, 6871947673, m61()) == 95894439443205505,
{
    let p = m61();
    lemma_pow_double(37, 429496729, 1330812745571184744, p);
    assert((1330812745571184744int * 1330812745571184744) % 2305843009213693951 == 1033659089019627080);
    lemma_pow_next(37, 858993458, 1033659089019627080, p);
    assert((37int * 1033659089019627080) % 2305843009213693951 == 1351898146307098744);
    lemma_pow_double(37, 858993459, 1351898146307098744, p);
    assert((1351898146307098744int * 1351898146307098744) % 2305843009213693951 == 354488523461011054);
    lemma_pow_double(37, 1717986918, 354488523461011054, p);
    assert((354488523461011054int * 354488523461011054) % 2305843009213693951 == 416018925334076019);
    lemma_pow_double(37, 3435973836, 416018925334076019, p);
    assert((416018925334076019int * 416018925334076019) % 2305843009213693951 == 1124353205548370179);
    lemma_pow_next(37, 6871947672, 1124353205548370179, p);
    assert((37int * 1124353205548370179) % 2305843009213693951 == 95894439443205505);
}

/// From the power of 37 with the exponent 6871947673 to that with the exponent 109951162777.
proof fn lemma_power_less_5_8()
    requires
        pow_mod(37, 6871947673, m61()) == 95894439443205505,
    ensures
        pow_mod(37, 109951162777, m61()) == 2202822284596980473,
{
    let p = m61();
    lemma_pow_double(37, 6871947673, 95894439443205505, p);
    assert((95894439443205505int * 95894439443205505) % 2305843009213693951 == 1730802099021660592);
    lemma_pow_next(37, 13743895346, 1730802099021660592, p);
    assert((37int * 1730802099021660592) % 2305843009213693951 == 1781916415031705227);
    lemma_pow_double(37, 13743895347, 1781916415031705227, p);
    assert((1781916415031705227int * 1781916415031705227) % 2305843009213693951 == 1592424462823494453);
    lemma_pow_double(37, 27487790694, 1592424462823494453, p);
    assert((1592424462823494453int * 1592424462823494453) % 2305843009213693951 == 485881619451419997);
    lemma_pow_double(37, 54975581388, 485881619451419997, p);
    assert((485881619451419997int * 485881619451419997) % 2305843009213693951 == 1056657038703137397);
    lemma_pow_next(37, 109951162776, 1056657038703137397, p);
    assert((37int * 1056657038703137397) % 2305843009213693951 == 2202822284596980473);
}

/// From the power of 37 with the exponent 109951162777 to that with the exponent 1759218604441.
proof fn lemma_power_less_5_9()
    requires
        pow_mod(37, 109951162777, m61()) == 2202822284596980473,
    ensures
        pow_mod(37, 1759218604441, m61()) == 1233538856747676243,
{
    let p = m61();
    lemma_pow_double(37, 109951162777, 2202822284596980473, p);
    assert((2202822284596980473int * 2202822284596980473) % 2305843009213693951 == 1885728256695319552);
    lemma_pow_next(37, 219902325554, 1885728256695319552, p);
    assert((37int * 1885728256695319552) % 2305843009213693951 == 596655221316004894);
    lemma_pow_double(37, 219902325555, 596655221316004894, p);
    assert((596655221316004894int * 596655221316004894) % 2305843009213693951 == 740722046356123805);
    lemma_pow_double(37, 439804651110, 740722046356123805, p);
    assert((740722046356123805int * 740722046356123805) % 2305843009213693951 == 2099460386211327809);
    lemma_pow_double(37, 879609302220, 2099460386211327809, p);
    assert((2099460386211327809int * 2099460386211327809) % 2305843009213693951 == 2214541734573701744);
    lemma_pow_next(37, 1759218604440, 2214541734573701744, p);
    assert((37int * 2214541734573701744) % 2305843009213693951 == 1233538856747676243);
}

/// From the power of 37 with the exponent 1759218604441 to that with the exponent 28147497671065.
proof fn lemma_power_less_5_10()
    requires
        pow_mod(37, 1759218604441, m61()) == 1233538856747676243,
    ensures
        pow_mod(37, 28147497671065, m61()) == 23494523124286629,
{
    let p = m61();
    lemma_pow_double(37, 1759218604441, 1233538856747676243, p);
    assert((1233538856747676243int * 1233538856747676243) % 2305843009213693951 == 2187201684188330238);
    lemma_pow_next(37, 3518437208882, 2187201684188330238, p);
    assert((37int * 2187201684188330238) % 2305843009213693951 == 221956992488930521);
    lemma_pow_double(37, 3518437208883, 221956992488930521, p);
    assert((221956992488930521int * 221956992488930521) % 2305843009213693951 == 1324937114391066770);
    lemma_pow_double(37, 7036874417766, 1324937114391066770, p);
    assert((1324937114391066770int * 1324937114391066770) % 2305843009213693951 == 2096178105833530020);
    lemma_pow_double(37, 14073748835532, 2096178105833530020, p);
    assert((2096178105833530020int * 2096178105833530020) % 2305843009213693951 == 1433996857703763446);
    lemma_pow_next(37, 28147497671064, 1433996857703763446, p);
    assert((37int * 1433996857703763446) % 2305843009213693951 == 23494523124286629);
}

/// From the power of 37 with the exponent 28147497671065 to that with the exponent 450359962737049.
proof fn lemma_power_less_5_11()
    requires
        pow_mod(37, 28147497671065, m61()) == 23494523124286629,
    ensures
        pow_mod(37, 450359962737049, m61()) == 1768951835778280956,
{
    let p = m61();
    lemma_pow_double(37, 28147497671065, 23494523124286629, p);
    assert((23494523124286629int * 23494523124286629) % 2305843009213693951 == 1838361339028041611);
    lemma_pow_next(37, 56294995342130, 1838361339028041611, p);
    assert((37int * 1838361339028041611) % 2305843009213693951 == 1149922276840415028);
    lemma_pow_double(37, 56294995342131, 1149922276840415028, p);
    assert((1149922276840415028int * 1149922276840415028) % 2305843009213693951 == 437123442137237322);
    lemma_pow_double(37, 112589990684262, 437123442137237322, p);
    assert((437123442137237322int * 437123442137237322) % 2305843009213693951 == 236534828961754953);
    lemma_pow_double(37, 225179981368524, 236534828961754953, p);
    assert((236534828961754953int * 236534828961754953) % 2305843009213693951 == 110129590405188511);
    lemma_pow_next(37, 450359962737048, 110129590405188511, p);
    assert((37int * 110129590405188511) % 2305843009213693951 == 1768951835778280956);
}

/// From the power of 37 with the exponent 450359962737049 to that with the exponent 7205759403792793.
proof fn lemma_power_less_5_12()
    requires
        pow_mod(37, 450359962737049, m61()) == 1768951835778280956,
    ensures
        pow_mod(37, 7205759403792793, m61()) == 1918469001560784304,
{
    let p = m61();
    lemma_pow_double(37, 450359962737049, 1768951835778280956, p);
    assert((1768951835778280956int * 1768951835778280956) % 2305843009213693951 == 989349843737578137);
    lemma_pow_next(37, 900719925474098, 989349843737578137, p);
    assert((37int * 989349843737578137) % 2305843009213693951 == 2018299080084981804);
    lemma_pow_double(37, 900719925474099, 2018299080084981804, p);
    assert((2018299080084981804int * 2018299080084981804) % 2305843009213693951 == 629618497200666380);
    lemma_pow_double(37, 1801439850948198, 629618497200666380, p);
    assert((629618497200666380int * 629618497200666380) % 2305843009213693951 == 1646573114568114956);
    lemma_pow_double(37, 3602879701896396, 1646573114568114956, p);
    assert((1646573114568114956int * 1646573114568114956) % 2305843009213693951 == 1983773034788791805);
    lemma_pow_next(37, 7205759403792792, 1983773034788791805, p);
    assert((37int * 1983773034788791805) % 2305843009213693951 == 1918469001560784304);
}

/// From the power of 37 with the exponent 7205759403792793 to that with the exponent 115292150460684697.
proof fn lemma_power_less_5_13()
    requires
        pow_mod(37, 7205759403792793, m61()) == 1918469001560784304,
    ensures
        pow_mod(37, 115292150460684697, m61()) == 205404870913749255,
{
    let p = m61();
    lemma_pow_double(37, 7205759403792793, 1918469001560784304, p);
    assert((1918469001560784304int * 1918469001560784304) % 2305843009213693951 == 141475354880771357);
    lemma_pow_next(37, 14411518807585586, 141475354880771357, p);
    assert((37int * 141475354880771357) % 2305843009213693951 == 622902112161152307);
    lemma_pow_double(37, 14411518807585587, 622902112161152307, p);
    assert((622902112161152307int * 622902112161152307) % 2305843009213693951 == 223547569593002926);
    lemma_pow_double(37, 28823037615171174, 223547569593002926, p);
    assert((223547569593002926int * 223547569593002926) % 2305843009213693951 == 2010604699696780140);
    lemma_pow_double(37, 57646075230342348, 2010604699696780140, p);
    assert((2010604699696780140int * 2010604699696780140) % 2305843009213693951 == 1002672784279266283);
    lemma_pow_next(37, 115292150460684696, 1002672784279266283, p);
    assert((37int * 1002672784279266283) % 2305843009213693951 == 205404870913749255);
}

/// From the power of 37 with the exponent 115292150460684697 to that with the exponent 461168601842738790.
proof fn lemma_power_less_5_14()
    requires
        pow_mod(37, 115292150460684697, m61()) == 205404870913749255,
    ensures
        pow_mod(37, 461168601842738790, m61()) == 725554454131936870,
{
    let p = m61();
    lemma_pow_double(37, 115292150460684697, 205404870913749255, p);
    assert((205404870913749255int * 205404870913749255) % 2305843009213693951 == 1073618117534164091);
    lemma_pow_next(37, 230584300921369394, 1073618117534164091, p);
    assert((37int * 1073618117534164091) % 2305843009213693951 == 524539192131274200);
    lemma_pow_double(37, 230584300921369395, 524539192131274200, p);
    assert((524539192131274200int * 524539192131274200) % 2305843009213693951 == 725554454131936870);
}

/// The power of 37 with the exponent 461168601842738790, by squaring and multiplying
/// along the binary digits of the exponent.
proof fn lemma_power_less_5()
    ensures
        pow_mod(37, 461168601842738790, m61()) == 725554454131936870,
{
    assert(pow_mod(37, 1, m61()) == 37) by {
        reveal_with_fuel(pow_mod, 3);
    }
    lemma_power_less_5_0();
    lemma_power_less_5_1();
    lemma_power_less_5_2();
    lemma_power_less_5_3();
    lemma_power_less_5_4();
    lemma_power_less_5_5();
    lemma_power_less_5_6();
    lemma_power_less_5_7();
    lemma_power_less_5_8();
    lemma_power_less_5_9();
    lemma_power_less_5_10();
    lemma_power_less_5_11();
    lemma_power_less_5_12();
    lemma_power_less_5_13();
    lemma_power_less_5_14();
}

/// From the power of 37 with the exponent 1 to that with the exponent 36.
proof fn lemma_power_less_7_0()
    requires
        pow_mod(37, 1, m61()) == 37,
    ensures
        pow_mod(37, 36, m61()) == 884313560627829947,
{
    let p = m61();
    lemma_pow_double(37, 1, 37, p);
    assert((37int * 37) % 2305843009213693951 == 1369);
    lemma_pow_double(37, 2, 1369, p);
    assert((1369int * 1369) % 2305843009213693951 == 1874161);
    lemma_pow_double(37, 4, 1874161, p);
    assert((1874161int * 1874161) % 2305843009213693951 == 3512479453921);
    lemma_pow_next(37, 8, 3512479453921, p);
    assert((37int * 3512479453921) % 2305843009213693951 == 129961739795077);
    lemma_pow_double(37, 9, 129961739795077, p);
    assert((129961739795077int * 129961739795077) % 2305843009213693951 == 2130417461614381366);
    lemma_pow_double(37, 18, 2130417461614381366, p);
    assert((2130417461614381366int * 2130417461614381366) % 2305843009213693951 == 884313560627829947);
}

/// From the power of 37 with the exponent 36 to that with the exponent 585.
proof fn lemma_power_less_7_1()
    requires
        pow_mod(37, 36, m61()) == 884313560627829947,
    ensures
        pow_mod(37, 585, m61()) == 419244711847425238,
{
    let p = m61();
    lemma_pow_double(37, 36, 884313560627829947, p);
    assert((884313560627829947int * 884313560627829947) % 2305843009213693951 == 1331915007112236968);
    lemma_pow_next(37, 72, 1331915007112236968, p);
    assert((37int * 1331915007112236968) % 2305843009213693951 == 858152069665194845);
    lemma_pow_double(37, 73, 858152069665194845, p);
    assert((858152069665194845int * 858152069665194845) % 2305843009213693951 == 2152298284617609383);
    lemma_pow_double(37, 146, 2152298284617609383, p);
    assert((2152298284617609383int * 2152298284617609383) % 2305843009213693951 == 1782283889081069979);
    lemma_pow_double(37, 292, 1782283889081069979, p);
    assert((1782283889081069979int * 1782283889081069979) % 2305843009213693951 == 260611263478437866);
    lemma_pow_next(37, 584, 260611263478437866, p);
    assert((37int * 260611263478437866) % 2305843009213693951 == 419244711847425238);
}

/// From the power of 37 with the exponent 585 to that with the exponent 18724.
proof fn lemma_power_less_7_2()
    requires
        pow_mod(37, 585, m61()) == 419244711847425238,
    ensures
        pow_mod(37, 18724, m61()) == 1140820669172755891,
{
    let p = m61();
    lemma_pow_double(37, 585, 419244711847425238, p);
    assert((419244711847425238int * 419244711847425238) % 2305843009213693951 == 1017010712830157597);
    lemma_pow_double(37, 1170, 1017010712830157597, p);
    assert((1017010712830157597int * 1017010712830157597) % 2305843009213693951 == 1646774030140899483);
    lemma_pow_double(37, 2340, 1646774030140899483, p);
    assert((1646774030140899483int * 1646774030140899483) % 2305843009213693951 == 1526100690215596358);
    lemma_pow_next(37, 4680, 1526100690215596358, p);
    assert((37int * 1526100690215596358) % 2305843009213693951 == 1125493316848410422);
    lemma_pow_double(37, 4681, 1125493316848410422, p);
    assert((1125493316848410422int * 1125493316848410422) % 2305843009213693951 == 2043004164827987706);
    lemma_pow_double(37, 9362, 2043004164827987706, p);
    assert((2043004164827987706int * 2043004164827987706) % 2305843009213693951 == 1140820669172755891);
}

/// From the power of 37 with the exponent 18724 to that with the exponent 299593.
proof fn lemma_power_less_7_3()
    requires
        pow_mod(37, 18724, m61()) == 1140820669172755891,
    ensures
        pow_mod(37, 299593, m61()) == 1324169013180806697,
{
    let p = m61();
    lemma_pow_double(37, 18724, 1140820669172755891, p);
    assert((1140820669172755891int * 1140820669172755891) % 2305843009213693951 == 189183073667403760);
    lemma_pow_next(37, 37448, 189183073667403760, p);
    assert((37int * 189183073667403760) % 2305843009213693951 == 82244698052857267);
    lemma_pow_double(37, 37449, 82244698052857267, p);
    assert((82244698052857267int * 82244698052857267) % 2305843009213693951 == 2210526432403221929);
    lemma_pow_double(37, 74898, 2210526432403221929, p);
    assert((2210526432403221929int * 2210526432403221929) % 2305843009213693951 == 997597335538543871);
    lemma_pow_double(37, 149796, 997597335538543871, p);
    assert((997597335538543871int * 997597335538543871) % 2305843009213693951 == 1469150222299885610);
    lemma_pow_next(37, 299592, 1469150222299885610, p);
    assert((37int * 1469150222299885610) % 2305843009213693951 == 1324169013180806697);
}

/// From the power of 37 with the exponent 299593 to that with the exponent 9586980.
proof fn lemma_power_less_7_4()
    requires
        pow_mod(37, 299593, m61()) == 1324169013180806697,
    ensures
        pow_mod(37, 9586980, m61()) == 2107810193979970140,
{
    let p = m61();
    lemma_pow_double(37, 299593, 1324169013180806697, p);
    assert((1324169013180806697int * 1324169013180806697) % 2305843009213693951 == 1409204877215935722);
    lemma_pow_double(37, 599186, 1409204877215935722, p);
    assert((1409204877215935722int * 1409204877215935722) % 2305843009213693951 == 263882281454515095);
    lemma_pow_double(37, 1198372, 263882281454515095, p);
    assert((263882281454515095int * 263882281454515095) % 2305843009213693951 == 1895366313616003751);
    lemma_pow_next(37, 2396744, 1895366313616003751, p);
    assert((37int * 1895366313616003751) % 2305843009213693951 == 953263327381320257);
    lemma_pow_double(37, 2396745, 953263327381320257, p);
    assert((953263327381320257int * 953263327381320257) % 2305843009213693951 == 1813160678559705135);
    lemma_pow_double(37, 4793490, 1813160678559705135, p);
    assert((1813160678559705135int * 1813160678559705135) % 2305843009213693951 == 2107810193979970140);
}

/// From the power of 37 with the exponent 9586980 to that with the exponent 153391689.
proof fn lemma_power_less_7_5()
    requires
        pow_mod(37, 9586980, m61()) == 2107810193979970140,
    ensures
        pow_mod(37, 153391689, m61()) == 1992419508511438631,
{
    let p = m61();
    lemma_pow_double(37, 9586980, 2107810193979970140, p);
    assert((2107810193979970140int * 2107810193979970140) % 2305843009213693951 == 205219532817222091);
    lemma_pow_next(37, 19173960, 205219532817222091, p);
    assert((37int * 205219532817222091) % 2305843009213693951 == 675593686596135514);
    lemma_pow_double(37, 19173961, 675593686596135514, p);
    assert((675593686596135514int * 675593686596135514) % 2305843009213693951 == 1399030843472832829);
    lemma_pow_double(37, 38347922, 1399030843472832829, p);
    assert((1399030843472832829int * 1399030843472832829) % 2305843009213693951 == 1351678081686781950);
    lemma_pow_double(37, 76695844, 1351678081686781950, p);
    assert((1351678081686781950int * 1351678081686781950) % 2305843009213693951 == 1923451615808709653);
    lemma_pow_next(37, 153391688, 1923451615808709653, p);
    assert((37int * 1923451615808709653) % 2305843009213693951 == 1992419508511438631);
}

/// From the power of 37 with the exponent 153391689 to that with the exponent 4908534052.
proof fn lemma_power_less_7_6()
    requires
        pow_mod(37, 153391689, m61()) == 1992419508511438631,
    ensures
        pow_mod(37, 4908534052, m61()) == 1625591862248997925,
{
    let p = m61();
    lemma_pow_double(37, 153391689, 1992419508511438631, p);
    assert((1992419508511438631int * 1992419508511438631) % 2305843009213693951 == 240322821650746190);
    lemma_pow_double(37, 306783378, 240322821650746190, p);
    assert((240322821650746190int * 240322821650746190) % 2305843009213693951 == 951550098337755284);
    lemma_pow_double(37, 613566756, 951550098337755284, p);
    assert((951550098337755284int * 951550098337755284) % 2305843009213693951 == 1486177183206085483);
    lemma_pow_next(37, 1227133512, 1486177183206085483, p);
    assert((37int * 1486177183206085483) % 2305843009213693951 == 1954166566710201998);
    lemma_pow_double(37, 1227133513, 1954166566710201998, p);
    assert((1954166566710201998int * 1954166566710201998) % 2305843009213693951 == 1440434973591732354);
    lemma_pow_double(37, 2454267026, 1440434973591732354, p);
    assert((1440434973591732354int * 1440434973591732354) % 2305843009213693951 == 1625591862248997925);
}

/// From the power of 37 with the exponent 4908534052 to that with the exponent 78536544841.
proof fn lemma_power_less_7_7()
    requires
        pow_mod(37, 4908534052, m61()) == 1625591862248997925,
    ensures
        pow_mod(37, 78536544841, m61()) == 178161760022695398,
{
    let p = m61();
    lemma_pow_double(37, 4908534052, 1625591862248997925, p);
    assert((1625591862248997925int * 1625591862248997925) % 2305843009213693951 == 1615593670819475377);
    lemma_pow_next(37, 9817068104, 1615593670819475377, p);
    assert((37int * 1615593670819475377) % 2305843009213693951 == 2130890589978240174);
    lemma_pow_double(37, 9817068105, 2130890589978240174, p);
    assert((2130890589978240174int * 2130890589978240174) % 2305843009213693951 == 1025243051829880922);
    lemma_pow_double(37, 19634136210, 1025243051829880922, p);
    assert((1025243051829880922int * 1025243051829880922) % 2305843009213693951 == 1632520427078460023);
    lemma_pow_double(37, 39268272420, 1632520427078460023, p);
    assert((1632520427078460023int * 1632520427078460023) % 2305843009213693951 == 752656158664514130);
    lemma_pow_next(37, 78536544840, 752656158664514130, p);
    assert((37int * 752656158664514130) % 2305843009213693951 == 178161760022695398);
}

/// From the power of 37 with the exponent 78536544841 to that with the exponent 2513169434916.
proof fn lemma_power_less_7_8()
    requires
        pow_mod(37, 78536544841, m61()) == 178161760022695398,
    ensures
        pow_mod(37, 2513169434916, m61()) == 1170473802636696988,
{
    let p = m61();
    lemma_pow_double(37, 78536544841, 178161760022695398, p);
    assert((178161760022695398int * 178161760022695398) % 2305843009213693951 == 2003652521244069712);
    lemma_pow_double(37, 157073089682, 2003652521244069712, p);
    assert((2003652521244069712int * 2003652521244069712) % 2305843009213693951 == 783334626309882785);
    lemma_pow_double(37, 314146179364, 783334626309882785, p);
    assert((783334626309882785int * 783334626309882785) % 2305843009213693951 == 1144807842013944850);
    lemma_pow_next(37, 628292358728, 1144807842013944850, p);
    assert((37int * 1144807842013944850) % 2305843009213693951 == 852715988669468332);
    lemma_pow_double(37, 628292358729, 852715988669468332, p);
    assert((852715988669468332int * 852715988669468332) % 2305843009213693951 == 726651492048093752);
    lemma_pow_double(37, 1256584717458, 726651492048093752, p);
    assert((726651492048093752int * 726651492048093752) % 2305843009213693951 == 1170473802636696988);
}

/// From the power of 37 with the exponent 2513169434916 to that with the exponent 40210710958665.
proof fn lemma_power_less_7_9()
    requires
        pow_mod(37, 2513169434916, m61()) == 1170473802636696988,
    ensures
        pow_mod(37, 40210710958665, m61()) == 1876107514737879469,
{
    let p = m61();
    lemma_pow_double(37, 2513169434916, 1170473802636696988, p);
    assert((1170473802636696988int * 1170473802636696988) % 2305843009213693951 == 1754653035374636925);
    lemma_pow_next(37, 5026338869832, 1754653035374636925, p);
    assert((37int * 1754653035374636925) % 2305843009213693951 == 358558050878135597);
    lemma_pow_double(37, 5026338869833, 358558050878135597, p);
    assert((358558050878135597int * 358558050878135597) % 2305843009213693951 == 130218841906050226);
    lemma_pow_double(37, 10052677739666, 130218841906050226, p);
    assert((130218841906050226int * 130218841906050226) % 2305843009213693951 == 1691288877370869632);
    lemma_pow_double(37, 20105355479332, 1691288877370869632, p);
    assert((1691288877370869632int * 1691288877370869632) % 2305843009213693951 == 798546584467627213);
    lemma_pow_next(37, 40210710958664, 798546584467627213, p);
    assert((37int * 798546584467627213) % 2305843009213693951 == 1876107514737879469);
}

/// From the power of 37 with the exponent 40210710958665 to that with the exponent 1286742750677284.
proof fn lemma_power_less_7_10()
    requires
        pow_mod(37, 40210710958665, m61()) == 1876107514737879469,
    ensures
        pow_mod(37, 1286742750677284, m61()) == 2287148315999403586,
{
    let p = m61();
    lemma_pow_double(37, 40210710958665, 1876107514737879469, p);
    assert((1876107514737879469int * 1876107514737879469) % 2305843009213693951 == 2174886491362978632);
    lemma_pow_double(37, 80421421917330, 2174886491362978632, p);
    assert((2174886491362978632int * 2174886491362978632) % 2305843009213693951 == 650573771472069243);
    lemma_pow_double(37, 160842843834660, 650573771472069243, p);
    assert((650573771472069243int * 650573771472069243) % 2305843009213693951 == 856949770593997969);
    lemma_pow_next(37, 321685687669320, 856949770593997969, p);
    assert((37int * 856949770593997969) % 2305843009213693951 == 1731182392199903490);
    lemma_pow_double(37, 321685687669321, 1731182392199903490, p);
    assert((1731182392199903490int * 1731182392199903490) % 2305843009213693951 == 1802518786536779042);
    lemma_pow_double(37, 643371375338642, 1802518786536779042, p);
    assert((1802518786536779042int * 1802518786536779042) % 2305843009213693951 == 2287148315999403586);
}

/// From the power of 37 with the exponent 1286742750677284 to that with the exponent 20587884010836553.
proof fn lemma_power_less_7_11()
    requires
        pow_mod(37, 1286742750677284, m61()) == 2287148315999403586,
    ensures
        pow_mod(37, 20587884010836553, m61()) == 326350606751194651,
{
    let p = m61();
    lemma_pow_double(37, 1286742750677284, 2287148315999403586, p);
    assert((2287148315999403586int * 2287148315999403586) % 2305843009213693951 == 724313492577666419);
    lemma_pow_next(37, 2573485501354568, 724313492577666419, p);
    assert((37int * 724313492577666419) % 2305843009213693951 == 1435326124023024042);
    lemma_pow_double(37, 2573485501354569, 1435326124023024042, p);
    assert((1435326124023024042int * 1435326124023024042) % 2305843009213693951 == 2042291364917644111);
    lemma_pow_double(37, 5146971002709138, 2042291364917644111, p);
    assert((2042291364917644111int * 2042291364917644111) % 2305843009213693951 == 141115568760388380);
    lemma_pow_double(37, 10293942005418276, 141115568760388380, p);
    assert((141115568760388380int * 141115568760388380) % 2305843009213693951 == 1005941587950548591);
    lemma_pow_next(37, 20587884010836552, 1005941587950548591, p);
    assert((37int * 1005941587950548591) % 2305843009213693951 == 326350606751194651);
}

/// From the power of 37 with the exponent 20587884010836553 to that with the exponent 329406144173384850.
proof fn lemma_power_less_7_12()
    requires
        pow_mod(37, 20587884010836553, m61()) == 326350606751194651,
    ensures
        pow_mod(37, 329406144173384850, m61()) == 1165310750493918737,
{
    let p = m61();
    lemma_pow_double(37, 20587884010836553, 326350606751194651, p);
    assert((326350606751194651int * 326350606751194651) % 2305843009213693951 == 1886223071404137603);
    lemma_pow_double(37, 41175768021673106, 1886223071404137603, p);
    assert((1886223071404137603int * 1886223071404137603) % 2305843009213693951 == 733037796054824281);
    lemma_pow_double(37, 82351536043346212, 733037796054824281, p);
    assert((733037796054824281int * 733037796054824281) % 2305843009213693951 == 1057571019005927708);
    lemma_pow_next(37, 164703072086692424, 1057571019005927708, p);
    assert((37int * 1057571019005927708) % 2305843009213693951 == 2236639555800221980);
    lemma_pow_double(37, 164703072086692425, 2236639555800221980, p);
    assert((2236639555800221980int * 2236639555800221980) % 2305843009213693951 == 1165310750493918737);
}

/// The power of 37 with the exponent 329406144173384850, by squaring and multiplying
/// along the binary digits of the exponent.
proof fn lemma_power_less_7()
    ensures
        pow_mod(37, 329406144173384850, m61()) == 1165310750493918737,
{
    assert(pow_mod(37, 1, m61()) == 37) by {
        reveal_with_fuel(pow_mod, 3);
    }
    lemma_power_less_7_0();
    lemma_power_less_7_1();
    lemma_power_less_7_2();
    lemma_power_less_7_3();
    lemma_power_less_7_4();
    lemma_power_less_7_5();
    lemma_power_less_7_6();
    lemma_power_less_7_7();
    lemma_power_less_7_8();
    lemma_power_less_7_9();
    lemma_power_less_7_10();
    lemma_power_less_7_11();
    lemma_power_less_7_12();
}

/// From the power of 37 with the exponent 1 to that with the exponent 22.
proof fn lemma_power_less_11_0()
    requires
        pow_mod(37, 1, m61()) == 37,
    ensures
        pow_mod(37, 22, m61()) == 599911450064693199,
{
    let p = m61();
    lemma_pow_double(37, 1, 37, p);
    assert((37int * 37) % 2305843009213693951 == 1369);
    lemma_pow_double(37, 2, 1369, p);
    assert((1369int * 1369) % 2305843009213693951 == 1874161);
    lemma_pow_next(37, 4, 1874161, p);
    assert((37int * 1874161) % 2305843009213693951 == 69343957);
    lemma_pow_double(37, 5, 69343957, p);
    assert((69343957int * 69343957) % 2305843009213693951 == 4808584372417849);
    lemma_pow_next(37, 10, 4808584372417849, p);
    assert((37int * 4808584372417849) % 2305843009213693951 == 177917621779460413);
    lemma_pow_double(37, 11, 177917621779460413, p);
    assert((177917621779460413int * 177917621779460413) % 2305843009213693951 == 599911450064693199);
}

/// From the power of 37 with the exponent 22 to that with the exponent 372.
proof fn lemma_power_less_11_1()
    requires
        pow_mod(37, 22, m61()) == 599911450064693199,
    ensures
        pow_mod(37, 372, m61()) == 1220503693094626475,
{
    let p = m61();
    lemma_pow_next(37, 22, 599911450064693199, p);
    assert((37int * 599911450064693199) % 2305843009213693951 == 1444136569470402804);
    lemma_pow_double(37, 23, 1444136569470402804, p);
    assert((1444136569470402804int * 1444136569470402804) % 2305843009213693951 == 1877957767818366770);
    lemma_pow_double(37, 46, 1877957767818366770, p);
    assert((1877957767818366770int * 1877957767818366770) % 2305843009213693951 == 675451943200310807);
    lemma_pow_next(37, 92, 675451943200310807, p);
    assert((37int * 675451943200310807) % 2305843009213693951 == 1933291806274560349);
    lemma_pow_double(37, 93, 1933291806274560349, p);
    assert((1933291806274560349int * 1933291806274560349) % 2305843009213693951 == 697523968445991094);
    lemma_pow_double(37, 186, 697523968445991094, p);
    assert((697523968445991094int * 697523968445991094) % 2305843009213693951 == 1220503693094626475);
}

/// From the power of 37 with the exponent 372 to that with the exponent 5957.
proof fn lemma_power_less_11_2()
    requires
        pow_mod(37, 372, m61()) == 1220503693094626475,
    ensures
        pow_mod(37, 5957, m61()) == 587381514953596588,
{
    let p = m61();
    lemma_pow_double(37, 372, 1220503693094626475, p);
    assert((1220503693094626475int * 1220503693094626475) % 2305843009213693951 == 2274838273068976938);
    lemma_pow_double(37, 744, 2274838273068976938, p);
    assert((2274838273068976938int * 2274838273068976938) % 2305843009213693951 == 2170203345591659611);
    lemma_pow_next(37, 1488, 2170203345591659611, p);
    assert((37int * 2170203345591659611) % 2305843009213693951 == 1898861473625811273);
    lemma_pow_double(37, 1489, 1898861473625811273, p);
    assert((1898861473625811273int * 1898861473625811273) % 2305843009213693951 == 855035248970970729);
    lemma_pow_double(37, 2978, 855035248970970729, p);
    assert((855035248970970729int * 855035248970970729) % 2305843009213693951 == 888356314701224646);
    lemma_pow_next(37, 5956, 888356314701224646, p);
    assert((37int * 888356314701224646) % 2305843009213693951 == 587381514953596588);
}

/// From the power of 37 with the exponent 5957 to that with the exponent 95324.
proof fn lemma_power_less_11_3()
    requires
        pow_mod(37, 5957, m61()) == 587381514953596588,
    ensures
        pow_mod(37, 95324, m61()) == 1217588748657111296,
{
    let p = m61();
    lemma_pow_double(37, 5957, 587381514953596588, p);
    assert((587381514953596588int * 587381514953596588) % 2305843009213693951 == 1760034171483620009);
    lemma_pow_next(37, 11914, 1760034171483620009, p);
    assert((37int * 1760034171483620009) % 2305843009213693951 == 557660086910509705);
    lemma_pow_double(37, 11915, 557660086910509705, p);
    assert((557660086910509705int * 557660086910509705) % 2305843009213693951 == 831364083746243265);
    lemma_pow_next(37, 23830, 831364083746243265, p);
    assert((37int * 831364083746243265) % 2305843009213693951 == 784511978832979442);
    lemma_pow_double(37, 23831, 784511978832979442, p);
    assert((784511978832979442int * 784511978832979442) % 2305843009213693951 == 1154579138022930181);
    lemma_pow_double(37, 47662, 1154579138022930181, p);
    assert((1154579138022930181int * 1154579138022930181) % 2305843009213693951 == 1217588748657111296);
}

/// From the power of 37 with the exponent 95324 to that with the exponent 1525201.
proof fn lemma_power_less_11_4()
    requires
        pow_mod(37, 95324, m61()) == 1217588748657111296,
    ensures
        pow_mod(37, 1525201, m61()) == 749805376422132014,
{
    let p = m61();
    lemma_pow_next(37, 95324, 1217588748657111296, p);
    assert((37int * 1217588748657111296) % 2305843009213693951 == 1239766525252932883);
    lemma_pow_double(37, 95325, 1239766525252932883, p);
    assert((1239766525252932883int * 1239766525252932883) % 2305843009213693951 == 1271571176372171503);
    lemma_pow_double(37, 190650, 1271571176372171503, p);
    assert((1271571176372171503int * 1271571176372171503) % 2305843009213693951 == 104934416332077556);
    lemma_pow_double(37, 381300, 104934416332077556, p);
    assert((104934416332077556int * 104934416332077556) % 2305843009213693951 == 71806490447180870);
    lemma_pow_double(37, 762600, 71806490447180870, p);
    assert((71806490447180870int * 71806490447180870) % 2305843009213693951 == 2263787938057165250);
    lemma_pow_next(37, 1525200, 2263787938057165250, p);
    assert((37int * 2263787938057165250) % 2305843009213693951 == 749805376422132014);
}

/// From the power of 37 with the exponent 1525201 to that with the exponent 24403222.
proof fn lemma_power_less_11_5()
    requires
        pow_mod(37, 1525201, m61()) == 749805376422132014,
    ensures
        pow_mod(37, 24403222, m61()) == 1050029099593843325,
{
    let p = m61();
    lemma_pow_double(37, 1525201, 749805376422132014, p);
    assert((749805376422132014int * 749805376422132014) % 2305843009213693951 == 1437811543577044739);
    lemma_pow_double(37, 3050402, 1437811543577044739, p);
    assert((1437811543577044739int * 1437811543577044739) % 2305843009213693951 == 1237517539310961571);
    lemma_pow_next(37, 6100804, 1237517539310961571, p);
    assert((37int * 1237517539310961571) % 2305843009213693951 == 1977131779445393058);
    lemma_pow_double(37, 6100805, 1977131779445393058, p);
    assert((1977131779445393058int * 1977131779445393058) % 2305843009213693951 == 1340932031167402241);
    lemma_pow_next(37, 12201610, 1340932031167402241, p);
    assert((37int * 1340932031167402241) % 2305843009213693951 == 1191781959706309946);
    lemma_pow_double(37, 12201611, 1191781959706309946, p);
    assert((1191781959706309946int * 1191781959706309946) % 2305843009213693951 == 1050029099593843325);
}

/// From the power of 37 with the exponent 24403222 to that with the exponent 390451572.
proof fn lemma_power_less_11_6()
    requires
        pow_mod(37, 24403222, m61()) == 1050029099593843325,
    ensures
        pow_mod(37, 390451572, m61()) == 869446166338448330,
{
    let p = m61();
    lemma_pow_next(37, 24403222, 1050029099593843325, p);
    assert((37int * 1050029099593843325) % 2305843009213693951 == 1957588537553099809);
    lemma_pow_double(37, 24403223, 1957588537553099809, p);
    assert((1957588537553099809int * 1957588537553099809) % 2305843009213693951 == 1319786045772048689);
    lemma_pow_double(37, 48806446, 1319786045772048689, p);
    assert((1319786045772048689int * 1319786045772048689) % 2305843009213693951 == 1569523432868349241);
    lemma_pow_next(37, 97612892, 1569523432868349241, p);
    assert((37int * 1569523432868349241) % 2305843009213693951 == 426291785786573142);
    lemma_pow_double(37, 97612893, 426291785786573142, p);
    assert((426291785786573142int * 426291785786573142) % 2305843009213693951 == 1045216788358217664);
    lemma_pow_double(37, 195225786, 1045216788358217664, p);
    assert((1045216788358217664int * 1045216788358217664) % 2305843009213693951 == 869446166338448330);
}

/// From the power of 37 with the exponent 390451572 to that with the exponent 6247225157.
proof fn lemma_power_less_11_7()
    requires
        pow_mod(37, 390451572, m61()) == 869446166338448330,
    ensures
        pow_mod(37, 6247225157, m61()) == 1852862121327742297,
{
    let p = m61();
    lemma_pow_double(37, 390451572, 869446166338448330, p);
    assert((869446166338448330int * 869446166338448330) % 2305843009213693951 == 1661426788452037322);
    lemma_pow_double(37, 780903144, 1661426788452037322, p);
    assert((1661426788452037322int * 1661426788452037322) % 2305843009213693951 == 634207868116289531);
    lemma_pow_next(37, 1561806288, 634207868116289531, p);
    assert((37int * 634207868116289531) % 2305843009213693951 == 407261028165773137);
    lemma_pow_double(37, 1561806289, 407261028165773137, p);
    assert((407261028165773137int * 407261028165773137) % 2305843009213693951 == 1484581175454174194);
    lemma_pow_double(37, 3123612578, 1484581175454174194, p);
    assert((1484581175454174194int * 1484581175454174194) % 2305843009213693951 == 2168960119853873963);
    lemma_pow_next(37, 6247225156, 2168960119853873963, p);
    assert((37int * 2168960119853873963) % 2305843009213693951 == 1852862121327742297);
}

/// From the power of 37 with the exponent 6247225157 to that with the exponent 99955602524.
proof fn lemma_power_less_11_8()
    requires
        pow_mod(37, 6247225157, m61()) == 1852862121327742297,
    ensures
        pow_mod(37, 99955602524, m61()) == 164740845573129398,
{
    let p = m61();
    lemma_pow_double(37, 6247225157, 1852862121327742297, p);
    assert((1852862121327742297int * 1852862121327742297) % 2305843009213693951 == 1057875969039790290);
    lemma_pow_next(37, 12494450314, 1057875969039790290, p);
    assert((37int * 1057875969039790290) % 2305843009213693951 == 2247922707053137514);
    lemma_pow_double(37, 12494450315, 2247922707053137514, p);
    assert((2247922707053137514int * 2247922707053137514) % 2305843009213693951 == 930546363793973722);
    lemma_pow_next(37, 24988900630, 930546363793973722, p);
    assert((37int * 930546363793973722) % 2305843009213693951 == 2148413331385312400);
    lemma_pow_double(37, 24988900631, 2148413331385312400, p);
    assert((2148413331385312400int * 2148413331385312400) % 2305843009213693951 == 1719898029715368329);
    lemma_pow_double(37, 49977801262, 1719898029715368329, p);
    assert((1719898029715368329int * 1719898029715368329) % 2305843009213693951 == 164740845573129398);
}

/// From the power of 37 with the exponent 99955602524 to that with the exponent 1599289640401.
proof fn lemma_power_less_11_9()
    requires
        pow_mod(37, 99955602524, m61()) == 164740845573129398,
    ensures
        pow_mod(37, 1599289640401, m61()) == 2048052882046363506,
{
    let p = m61();
    lemma_pow_next(37, 99955602524, 164740845573129398, p);
    assert((37int * 164740845573129398) % 2305843009213693951 == 1483725267778399824);
    lemma_pow_double(37, 99955602525, 1483725267778399824, p);
    assert((1483725267778399824int * 1483725267778399824) % 2305843009213693951 == 681425966999145222);
    lemma_pow_double(37, 199911205050, 681425966999145222, p);
    assert((681425966999145222int * 681425966999145222) % 2305843009213693951 == 2229618720952923778);
    lemma_pow_double(37, 399822410100, 2229618720952923778, p);
    assert((2229618720952923778int * 2229618720952923778) % 2305843009213693951 == 1722704865526871423);
    lemma_pow_double(37, 799644820200, 1722704865526871423, p);
    assert((1722704865526871423int * 1722704865526871423) % 2305843009213693951 == 865513837887145537);
    lemma_pow_next(37, 1599289640400, 865513837887145537, p);
    assert((37int * 865513837887145537) % 2305843009213693951 == 2048052882046363506);
}

/// From the power of 37 with the exponent 1599289640401 to that with the exponent 25588634246422.
proof fn lemma_power_less_11_10()
    requires
        pow_mod(37, 1599289640401, m61()) == 2048052882046363506,
    ensures
        pow_mod(37, 25588634246422, m61()) == 1839630343493860081,
{
    let p = m61();
    lemma_pow_double(37, 1599289640401, 2048052882046363506, p);
    assert((2048052882046363506int * 2048052882046363506) % 2305843009213693951 == 1170260398115875869);
    lemma_pow_double(37, 3198579280802, 1170260398115875869, p);
    assert((1170260398115875869int * 1170260398115875869) % 2305843009213693951 == 1299507583536200899);
    lemma_pow_next(37, 6397158561604, 1299507583536200899, p);
    assert((37int * 1299507583536200899) % 2305843009213693951 == 1964920406565554243);
    lemma_pow_double(37, 6397158561605, 1964920406565554243, p);
    assert((1964920406565554243int * 1964920406565554243) % 2305843009213693951 == 1705609303857968170);
    lemma_pow_next(37, 12794317123210, 1705609303857968170, p);
    assert((37int * 1705609303857968170) % 2305843009213693951 == 849782993975085613);
    lemma_pow_double(37, 12794317123211, 849782993975085613, p);
    assert((849782993975085613int * 849782993975085613) % 2305843009213693951 == 1839630343493860081);
}

/// From the power of 37 with the exponent 25588634246422 to that with the exponent 409418147942772.
proof fn lemma_power_less_11_11()
    requires
        pow_mod(37, 25588634246422, m61()) == 1839630343493860081,
    ensures
        pow_mod(37, 409418147942772, m61()) == 106194394668126838,
{
    let p = m61();
    lemma_pow_next(37, 25588634246422, 1839630343493860081, p);
    assert((37int * 1839630343493860081) % 2305843009213693951 == 1196875442075698418);
    lemma_pow_double(37, 25588634246423, 1196875442075698418, p);
    assert((1196875442075698418int * 1196875442075698418) % 2305843009213693951 == 620138466931819316);
    lemma_pow_double(37, 51177268492846, 620138466931819316, p);
    assert((620138466931819316int * 620138466931819316) % 2305843009213693951 == 1602747699045734370);
    lemma_pow_next(37, 102354536985692, 1602747699045734370, p);
    assert((37int * 1602747699045734370) % 2305843009213693951 == 1655589634349822915);
    lemma_pow_double(37, 102354536985693, 1655589634349822915, p);
    assert((1655589634349822915int * 1655589634349822915) % 2305843009213693951 == 925417023639135397);
    lemma_pow_double(37, 204709073971386, 925417023639135397, p);
    assert((925417023639135397int * 925417023639135397) % 2305843009213693951 == 106194394668126838);
}

/// From the power of 37 with the exponent 409418147942772 to that with the exponent 6550690367084357.
proof fn lemma_power_less_11_12()
    requires
        pow_mod(37, 409418147942772, m61()) == 106194394668126838,
    ensures
        pow_mod(37, 6550690367084357, m61()) == 498901381931523146,
{
    let p = m61();
    lemma_pow_double(37, 409418147942772, 106194394668126838, p);
    assert((106194394668126838int * 106194394668126838) % 2305843009213693951 == 1476233550525144340);
    lemma_pow_double(37, 818836295885544, 1476233550525144340, p);
    assert((1476233550525144340int * 1476233550525144340) % 2305843009213693951 == 1926849683788790792);
    lemma_pow_next(37, 1637672591771088, 1926849683788790792, p);
    assert((37int * 1926849683788790792) % 2305843009213693951 == 2118148023774440774);
    lemma_pow_double(37, 1637672591771089, 2118148023774440774, p);
    assert((2118148023774440774int * 2118148023774440774) % 2305843009213693951 == 67019338146649427);
    lemma_pow_double(37, 3275345183542178, 67019338146649427, p);
    assert((67019338146649427int * 67019338146649427) % 2305843009213693951 == 699004715764382611);
    lemma_pow_next(37, 6550690367084356, 699004715764382611, p);
    assert((37int * 699004715764382611) % 2305843009213693951 == 498901381931523146);
}

/// From the power of 37 with the exponent 6550690367084357 to that with the exponent 104811045873349724.
proof fn lemma_power_less_11_13()
    requires
        pow_mod(37, 6550690367084357, m61()) == 498901381931523146,
    ensures
        pow_mod(37, 104811045873349724, m61()) == 449965209532203638,
{
    let p = m61();
    lemma_pow_double(37, 6550690367084357, 498901381931523146, p);
    assert((498901381931523146int * 498901381931523146) % 2305843009213693951 == 2009766598305176279);
    lemma_pow_next(37, 13101380734168714, 2009766598305176279, p);
    assert((37int * 2009766598305176279) % 2305843009213693951 == 574387842453315891);
    lemma_pow_double(37, 13101380734168715, 574387842453315891, p);
    assert((574387842453315891int * 574387842453315891) % 2305843009213693951 == 2183201320541984352);
    lemma_pow_next(37, 26202761468337430, 2183201320541984352, p);
    assert((37int * 2183201320541984352) % 2305843009213693951 == 73943537574132739);
    lemma_pow_double(37, 26202761468337431, 73943537574132739, p);
    assert((73943537574132739int * 73943537574132739) % 2305843009213693951 == 1642673409062649626);
    lemma_pow_double(37, 52405522936674862, 1642673409062649626, p);
    assert((1642673409062649626int * 1642673409062649626) % 2305843009213693951 == 449965209532203638);
}

/// From the power of 37 with the exponent 104811045873349724 to that with the exponent 209622091746699450.
proof fn lemma_power_less_11_14()
    requires
        pow_mod(37, 104811045873349724, m61()) == 449965209532203638,
    ensures
        pow_mod(37, 209622091746699450, m61()) == 2266698407988980144,
{
    let p = m61();
    lemma_pow_next(37, 104811045873349724, 449965209532203638, p);
    assert((37int * 449965209532203638) % 2305843009213693951 == 507811688195676949);
    lemma_pow_double(37, 104811045873349725, 507811688195676949, p);
    assert((507811688195676949int * 507811688195676949) % 2305843009213693951 == 2266698407988980144);
}

/// The power of 37 with the exponent 209622091746699450, by squaring and multiplying
/// along the binary digits of the exponent.
proof fn lemma_power_less_11()
    ensures
        pow_mod(37, 209622091746699450, m61()) == 2266698407988980144,
{
    assert(pow_mod(37, 1, m61()) == 37) by {
        reveal_with_fuel(pow_mod, 3);
    }
    lemma_power_less_11_0();
    lemma_power_less_11_1();
    lemma_power_less_11_2();
    lemma_power_less_11_3();
    lemma_power_less_11_4();
    lemma_power_less_11_5();
    lemma_power_less_11_6();
    lemma_power_less_11_7();
    lemma_power_less_11_8();
    lemma_power_less_11_9();
    lemma_power_less_11_10();
    lemma_power_less_11_11();
    lemma_power_less_11_12();
    lemma_power_less_11_13();
    lemma_power_less_11_14();
}

/// From the power of 37 with the exponent 1 to that with the exponent 19.
proof fn lemma_power_less_13_0()
    requires
        pow_mod(37, 1, m61()) == 37,
    ensures
        pow_mod(37, 19, m61()) == 426783766466516208,
{
    let p = m61();
    lemma_pow_double(37, 1, 37, p);
    assert((37int * 37) % 2305843009213693951 == 1369);
    lemma_pow_double(37, 2, 1369, p);
    assert((1369int * 1369) % 2305843009213693951 == 1874161);
    lemma_pow_double(37, 4, 1874161, p);
    assert((1874161int * 1874161) % 2305843009213693951 == 3512479453921);
    lemma_pow_next(37, 8, 3512479453921, p);
    assert((37int * 3512479453921) % 2305843009213693951 == 129961739795077);
    lemma_pow_double(37, 9, 129961739795077, p);
    assert((129961739795077int * 129961739795077) % 2305843009213693951 == 2130417461614381366);
    lemma_pow_next(37, 18, 2130417461614381366, p);
    assert((37int * 2130417461614381366) % 2305843009213693951 == 426783766466516208);
}

/// From the power of 37 with the exponent 19 to that with the exponent 314.
proof fn lemma_power_less_13_1()
    requires
        pow_mod(37, 19, m61()) == 426783766466516208,
    ensures
        pow_mod(37, 314, m61()) == 224577215945232048,
{
    let p = m61();
    lemma_pow_double(37, 19, 426783766466516208, p);
    assert((426783766466516208int * 426783766466516208) % 2305843009213693951 == 57684662309873168);
    lemma_pow_next(37, 38, 57684662309873168, p);
    assert((37int * 57684662309873168) % 2305843009213693951 == 2134332505465307216);
    lemma_pow_double(37, 39, 2134332505465307216, p);
    assert((2134332505465307216int * 2134332505465307216) % 2305843009213693951 == 1833824407774758982);
    lemma_pow_double(37, 78, 1833824407774758982, p);
    assert((1833824407774758982int * 1833824407774758982) % 2305843009213693951 == 739871488683129309);
    lemma_pow_next(37, 156, 739871488683129309, p);
    assert((37int * 739871488683129309) % 2305843009213693951 == 2010971979925150972);
    lemma_pow_double(37, 157, 2010971979925150972, p);
    assert((2010971979925150972int * 2010971979925150972) % 2305843009213693951 == 224577215945232048);
}

/// From the power of 37 with the exponent 314 to that with the exponent 5041.
proof fn lemma_power_less_13_2()
    requires
        pow_mod(37, 314, m61()) == 224577215945232048,
    ensures
        pow_mod(37, 5041, m61()) == 1749199387056043345,
{
    let p = m61();
    lemma_pow_next(37, 314, 224577215945232048, p);
    assert((37int * 224577215945232048) % 2305843009213693951 == 1391827962332503923);
    lemma_pow_double(37, 315, 1391827962332503923, p);
    assert((1391827962332503923int * 1391827962332503923) % 2305843009213693951 == 2129910550479417964);
    lemma_pow_double(37, 630, 2129910550479417964, p);
    assert((2129910550479417964int * 2129910550479417964) % 2305843009213693951 == 517453763117721126);
    lemma_pow_double(37, 1260, 517453763117721126, p);
    assert((517453763117721126int * 517453763117721126) % 2305843009213693951 == 2092542480037908298);
    lemma_pow_double(37, 2520, 2092542480037908298, p);
    assert((2092542480037908298int * 2092542480037908298) % 2305843009213693951 == 1854558017682518052);
    lemma_pow_next(37, 5040, 1854558017682518052, p);
    assert((37int * 1854558017682518052) % 2305843009213693951 == 1749199387056043345);
}

/// From the power of 37 with the exponent 5041 to that with the exponent 80659.
proof fn lemma_power_less_13_3()
    requires
        pow_mod(37, 5041, m61()) == 1749199387056043345,
    ensures
        pow_mod(37, 80659, m61()) == 1883370340267853730,
{
    let p = m61();
    lemma_pow_double(37, 5041, 1749199387056043345, p);
    assert((1749199387056043345int * 1749199387056043345) % 2305843009213693951 == 2116837273049637694);
    lemma_pow_double(37, 10082, 2116837273049637694, p);
    assert((2116837273049637694int * 2116837273049637694) % 2305843009213693951 == 1831752314570369949);
    lemma_pow_double(37, 20164, 1831752314570369949, p);
    assert((1831752314570369949int * 1831752314570369949) % 2305843009213693951 == 8709458998079521);
    lemma_pow_next(37, 40328, 8709458998079521, p);
    assert((37int * 8709458998079521) % 2305843009213693951 == 322249982928942277);
    lemma_pow_double(37, 40329, 322249982928942277, p);
    assert((322249982928942277int * 322249982928942277) % 2305843009213693951 == 1982824422321415303);
    lemma_pow_next(37, 80658, 1982824422321415303, p);
    assert((37int * 1982824422321415303) % 2305843009213693951 == 1883370340267853730);
}

/// From the power of 37 with the exponent 80659 to that with the exponent 1290554.
proof fn lemma_power_less_13_4()
    requires
        pow_mod(37, 80659, m61()) == 1883370340267853730,
    ensures
        pow_mod(37, 1290554, m61()) == 1466209464674682318,
{
    let p = m61();
    lemma_pow_double(37, 80659, 1883370340267853730, p);
    assert((1883370340267853730int * 1883370340267853730) % 2305843009213693951 == 882144136749076364);
    lemma_pow_next(37, 161318, 882144136749076364, p);
    assert((37int * 882144136749076364) % 2305843009213693951 == 357530930724110154);
    lemma_pow_double(37, 161319, 357530930724110154, p);
    assert((357530930724110154int * 357530930724110154) % 2305843009213693951 == 1453471050645342166);
    lemma_pow_double(37, 322638, 1453471050645342166, p);
    assert((1453471050645342166int * 1453471050645342166) % 2305843009213693951 == 750660733472150637);
    lemma_pow_next(37, 645276, 750660733472150637, p);
    assert((37int * 750660733472150637) % 2305843009213693951 == 104331027905246157);
    lemma_pow_double(37, 645277, 104331027905246157, p);
    assert((104331027905246157int * 104331027905246157) % 2305843009213693951 == 1466209464674682318);
}

/// From the power of 37 with the exponent 1290554 to that with the exponent 20648881.
proof fn lemma_power_less_13_5()
    requires
        pow_mod(37, 1290554, m61()) == 1466209464674682318,
    ensures
        pow_mod(37, 20648881, m61()) == 320479039138613190,
{
    let p = m61();
    lemma_pow_next(37, 1290554, 1466209464674682318, p);
    assert((37int * 1466209464674682318) % 2305843009213693951 == 1215360981048284893);
    lemma_pow_double(37, 1290555, 1215360981048284893, p);
    assert((1215360981048284893int * 1215360981048284893) % 2305843009213693951 == 1854278429927242186);
    lemma_pow_double(37, 2581110, 1854278429927242186, p);
    assert((1854278429927242186int * 1854278429927242186) % 2305843009213693951 == 1814386234248685992);
    lemma_pow_double(37, 5162220, 1814386234248685992, p);
    assert((1814386234248685992int * 1814386234248685992) % 2305843009213693951 == 52216996662813566);
    lemma_pow_double(37, 10324440, 52216996662813566, p);
    assert((52216996662813566int * 52216996662813566) % 2305843009213693951 == 1940584116885489883);
    lemma_pow_next(37, 20648880, 1940584116885489883, p);
    assert((37int * 1940584116885489883) % 2305843009213693951 == 320479039138613190);
}

/// From the power of 37 with the exponent 20648881 to that with the exponent 330382099.
proof fn lemma_power_less_13_6()
    requires
        pow_mod(37, 20648881, m61()) == 320479039138613190,
    ensures
        pow_mod(37, 330382099, m61()) == 2301557782064692903,
{
    let p = m61();
    lemma_pow_double(37, 20648881, 320479039138613190, p);
    assert((320479039138613190int * 320479039138613190) % 2305843009213693951 == 2186252600791618047);
    lemma_pow_double(37, 41297762, 2186252600791618047, p);
    assert((2186252600791618047int * 2186252600791618047) % 2305843009213693951 == 2140039573973225700);
    lemma_pow_double(37, 82595524, 2140039573973225700, p);
    assert((2140039573973225700int * 2140039573973225700) % 2305843009213693951 == 1454328279063811117);
    lemma_pow_next(37, 165191048, 1454328279063811117, p);
    assert((37int * 1454328279063811117) % 2305843009213693951 == 775757113446050456);
    lemma_pow_double(37, 165191049, 775757113446050456, p);
    assert((775757113446050456int * 775757113446050456) % 2305843009213693951 == 1370925972312223402);
    lemma_pow_next(37, 330382098, 1370925972312223402, p);
    assert((37int * 1370925972312223402) % 2305843009213693951 == 2301557782064692903);
}

/// From the power of 37 with the exponent 330382099 to that with the exponent 5286113594.
proof fn lemma_power_less_13_7()
    requires
        pow_mod(37, 330382099, m61()) == 2301557782064692903,
    ensures
        pow_mod(37, 5286113594, m61()) == 1102274232081769540,
{
    let p = m61();
    lemma_pow_double(37, 330382099, 2301557782064692903, p);
    assert((2301557782064692903int * 2301557782064692903) % 2305843009213693951 == 669367856311753120);
    lemma_pow_next(37, 660764198, 669367856311753120, p);
    assert((37int * 669367856311753120) % 2305843009213693951 == 1708180591397925930);
    lemma_pow_double(37, 660764199, 1708180591397925930, p);
    assert((1708180591397925930int * 1708180591397925930) % 2305843009213693951 == 1474136660016468244);
    lemma_pow_double(37, 1321528398, 1474136660016468244, p);
    assert((1474136660016468244int * 1474136660016468244) % 2305843009213693951 == 115172854741951600);
    lemma_pow_next(37, 2643056796, 115172854741951600, p);
    assert((37int * 115172854741951600) % 2305843009213693951 == 1955552616238515249);
    lemma_pow_double(37, 2643056797, 1955552616238515249, p);
    assert((1955552616238515249int * 1955552616238515249) % 2305843009213693951 == 1102274232081769540);
}

/// From the power of 37 with the exponent 5286113594 to that with the exponent 84577817521.
proof fn lemma_power_less_13_8()
    requires
        pow_mod(37, 5286113594, m61()) == 1102274232081769540,
    ensures
        pow_mod(37, 84577817521, m61()) == 1811060585523275782,
{
    let p = m61();
    lemma_pow_next(37, 5286113594, 1102274232081769540, p);
    assert((37int * 1102274232081769540) % 2305843009213693951 == 1584815430392675813);
    lemma_pow_double(37, 5286113595, 1584815430392675813, p);
    assert((1584815430392675813int * 1584815430392675813) % 2305843009213693951 == 1313607248510892221);
    lemma_pow_double(37, 10572227190, 1313607248510892221, p);
    assert((1313607248510892221int * 1313607248510892221) % 2305843009213693951 == 1821121345429207896);
    lemma_pow_double(37, 21144454380, 1821121345429207896, p);
    assert((1821121345429207896int * 1821121345429207896) % 2305843009213693951 == 2006575309144750265);
    lemma_pow_double(37, 42288908760, 2006575309144750265, p);
    assert((2006575309144750265int * 2006575309144750265) % 2305843009213693951 == 1980870104625615899);
    lemma_pow_next(37, 84577817520, 1980870104625615899, p);
    assert((37int * 1980870104625615899) % 2305843009213693951 == 1811060585523275782);
}

/// From the power of 37 with the exponent 84577817521 to that with the exponent 1353245080339.
proof fn lemma_power_less_13_9()
    requires
        pow_mod(37, 84577817521, m61()) == 1811060585523275782,
    ensures
        pow_mod(37, 1353245080339, m61()) == 1996187280930264497,
{
    let p = m61();
    lemma_pow_double(37, 84577817521, 1811060585523275782, p);
    assert((1811060585523275782int * 1811060585523275782) % 2305843009213693951 == 1008254015338213925);
    lemma_pow_double(37, 169155635042, 1008254015338213925, p);
    assert((1008254015338213925int * 1008254015338213925) % 2305843009213693951 == 2072409115555876515);
    lemma_pow_double(37, 338311270084, 2072409115555876515, p);
    assert((2072409115555876515int * 2072409115555876515) % 2305843009213693951 == 1295139406403608005);
    lemma_pow_next(37, 676622540168, 1295139406403608005, p);
    assert((37int * 1295139406403608005) % 2305843009213693951 == 1803297852659617165);
    lemma_pow_double(37, 676622540169, 1803297852659617165, p);
    assert((1803297852659617165int * 1803297852659617165) % 2305843009213693951 == 1113392390204407072);
    lemma_pow_next(37, 1353245080338, 1113392390204407072, p);
    assert((37int * 1113392390204407072) % 2305843009213693951 == 1996187280930264497);
}

/// From the power of 37 with the exponent 1353245080339 to that with the exponent 21651921285434.
proof fn lemma_power_less_13_10()
    requires
        pow_mod(37, 1353245080339, m61()) == 1996187280930264497,
    ensures
        pow_mod(37, 21651921285434, m61()) == 1781108653403011241,
{
    let p = m61();
    lemma_pow_double(37, 1353245080339, 1996187280930264497, p);
    assert((1996187280930264497int * 1996187280930264497) % 2305843009213693951 == 420286145524830221);
    lemma_pow_next(37, 2706490160678, 420286145524830221, p);
    assert((37int * 420286145524830221) % 2305843009213693951 == 1715529329136554471);
    lemma_pow_double(37, 2706490160679, 1715529329136554471, p);
    assert((1715529329136554471int * 1715529329136554471) % 2305843009213693951 == 251557387226495043);
    lemma_pow_double(37, 5412980321358, 251557387226495043, p);
    assert((251557387226495043int * 251557387226495043) % 2305843009213693951 == 440852618562733113);
    lemma_pow_next(37, 10825960642716, 440852618562733113, p);
    assert((37int * 440852618562733113) % 2305843009213693951 == 170645822325267524);
    lemma_pow_double(37, 10825960642717, 170645822325267524, p);
    assert((170645822325267524int * 170645822325267524) % 2305843009213693951 == 1781108653403011241);
}

/// From the power of 37 with the exponent 21651921285434 to that with the exponent 346430740566961.
proof fn lemma_power_less_13_11()
    requires
        pow_mod(37, 21651921285434, m61()) == 1781108653403011241,
    ensures
        pow_mod(37, 346430740566961, m61()) == 190478289898679032,
{
    let p = m61();
    lemma_pow_next(37, 21651921285434, 1781108653403011241, p);
    assert((37int * 1781108653403011241) % 2305843009213693951 == 1337415917927985289);
    lemma_pow_double(37, 21651921285435, 1337415917927985289, p);
    assert((1337415917927985289int * 1337415917927985289) % 2305843009213693951 == 1563811603622147650);
    lemma_pow_double(37, 43303842570870, 1563811603622147650, p);
    assert((1563811603622147650int * 1563811603622147650) % 2305843009213693951 == 281412780432912770);
    lemma_pow_double(37, 86607685141740, 281412780432912770, p);
    assert((281412780432912770int * 281412780432912770) % 2305843009213693951 == 185707662480029622);
    lemma_pow_double(37, 173215370283480, 185707662480029622, p);
    assert((185707662480029622int * 185707662480029622) % 2305843009213693951 == 690668956520251689);
    lemma_pow_next(37, 346430740566960, 690668956520251689, p);
    assert((37int * 690668956520251689) % 2305843009213693951 == 190478289898679032);
}

/// From the power of 37 with the exponent 346430740566961 to that with the exponent 5542891849071379.
proof fn lemma_power_less_13_12()
    requires
        pow_mod(37, 346430740566961, m61()) == 190478289898679032,
    ensures
        pow_mod(37, 5542891849071379, m61()) == 1629220422872309223,
{
    let p = m61();
    lemma_pow_double(37, 346430740566961, 190478289898679032, p);
    assert((190478289898679032int * 190478289898679032) % 2305843009213693951 == 97310095717551342);
    lemma_pow_double(37, 692861481133922, 97310095717551342, p);
    assert((97310095717551342int * 97310095717551342) % 2305843009213693951 == 240770727365476191);
    lemma_pow_double(37, 1385722962267844, 240770727365476191, p);
    assert((240770727365476191int * 240770727365476191) % 2305843009213693951 == 526643925770997255);
    lemma_pow_next(37, 2771445924535688, 526643925770997255, p);
    assert((37int * 526643925770997255) % 2305843009213693951 == 1039081179817346827);
    lemma_pow_double(37, 2771445924535689, 1039081179817346827, p);
    assert((1039081179817346827int * 1039081179817346827) % 2305843009213693951 == 854194041693252178);
    lemma_pow_next(37, 5542891849071378, 854194041693252178, p);
    assert((37int * 854194041693252178) % 2305843009213693951 == 1629220422872309223);
}

/// From the power of 37 with the exponent 5542891849071379 to that with the exponent 88686269585142074.
proof fn lemma_power_less_13_13()
    requires
        pow_mod(37, 5542891849071379, m61()) == 1629220422872309223,
    ensures
        pow_mod(37, 88686269585142074, m61()) == 163708909703664719,
{
    let p = m61();
    lemma_pow_double(37, 5542891849071379, 1629220422872309223, p);
    assert((1629220422872309223int * 1629220422872309223) % 2305843009213693951 == 382107829943811237);
    lemma_pow_next(37, 11085783698142758, 382107829943811237, p);
    assert((37int * 382107829943811237) % 2305843009213693951 == 302931652638852063);
    lemma_pow_double(37, 11085783698142759, 302931652638852063, p);
    assert((302931652638852063int * 302931652638852063) % 2305843009213693951 == 1609992928602734030);
    lemma_pow_double(37, 22171567396285518, 1609992928602734030, p);
    assert((1609992928602734030int * 1609992928602734030) % 2305843009213693951 == 1528888353854654134);
    lemma_pow_next(37, 44343134792571036, 1528888353854654134, p);
    assert((37int * 1528888353854654134) % 2305843009213693951 == 1228636871493548134);
    lemma_pow_double(37, 44343134792571037, 1228636871493548134, p);
    assert((1228636871493548134int * 1228636871493548134) % 2305843009213693951 == 163708909703664719);
}

/// From the power of 37 with the exponent 88686269585142074 to that with the exponent 177372539170284150.
proof fn lemma_power_less_13_14()
    requires
        pow_mod(37, 88686269585142074, m61()) == 163708909703664719,
    ensures
        pow_mod(37, 177372539170284150, m61()) == 1032504562576723207,
{
    let p = m61();
    lemma_pow_next(37, 88686269585142074, 163708909703664719, p);
    assert((37int * 163708909703664719) % 2305843009213693951 == 1445543640608206701);
    lemma_pow_double(37, 88686269585142075, 1445543640608206701, p);
    assert((1445543640608206701int * 1445543640608206701) % 2305843009213693951 == 1032504562576723207);
}

/// The power of 37 with the exponent 177372539170284150, by squaring and multiplying
/// along the binary digits of the exponent.
proof fn lemma_power_less_13()
    ensures
        pow_mod(37, 177372539170284150, m61()) == 1032504562576723207,
{
    assert(pow_mod(37, 1, m61()) == 37) by {
        reveal_with_fuel(pow_mod, 3);
    }
    lemma_power_less_13_0();
    lemma_power_less_13_1();
    lemma_power_less_13_2();
    lemma_power_less_13_3();
    lemma_power_less_13_4();
    lemma_power_less_13_5();
    lemma_power_less_13_6();
    lemma_power_less_13_7();
    lemma_power_less_13_8();
    lemma_power_less_13_9();
    lemma_power_less_13_10();
    lemma_power_less_13_11();
    lemma_power_less_13_12();
    lemma_power_less_13_13();
    lemma_power_less_13_14();
}

/// From the power of 37 with the exponent 1 to that with the exponent 33.
proof fn lemma_power_less_31_0()
    requires
        pow_mod(37, 1, m61()) == 37,
    ensures
        pow_mod(37, 33, m61()) == 2166288977810054328,
{
    let p = m61();
    lemma_pow_double(37, 1, 37, p);
    assert((37int * 37) % 2305843009213693951 == 1369);
    lemma_pow_double(37, 2, 1369, p);
    assert((1369int * 1369) % 2305843009213693951 == 1874161);
    lemma_pow_double(37, 4, 1874161, p);
    assert((1874161int * 1874161) % 2305843009213693951 == 3512479453921);
    lemma_pow_double(37, 8, 3512479453921, p);
    assert((3512479453921int * 3512479453921) % 2305843009213693951 == 2048012909902302799);
    lemma_pow_double(37, 16, 2048012909902302799, p);
    assert((2048012909902302799int * 2048012909902302799) % 2305843009213693951 == 307828676072022436);
    lemma_pow_next(37, 32, 307828676072022436, p);
    assert((37int * 307828676072022436) % 2305843009213693951 == 2166288977810054328);
}

/// From the power of 37 with the exponent 33 to that with the exponent 1057.
proof fn lemma_power_less_31_1()
    requires
        pow_mod(37, 33, m61()) == 2166288977810054328,
    ensures
        pow_mod(37, 1057, m61()) == 2270998359986834751,
{
    let p = m61();
    lemma_pow_double(37, 33, 2166288977810054328, p);
    assert((2166288977810054328int * 2166288977810054328) % 2305843009213693951 == 1527663442908431533);
    lemma_pow_double(37, 66, 1527663442908431533, p);
    assert((1527663442908431533int * 1527663442908431533) % 2305843009213693951 == 1697957044909405622);
    lemma_pow_double(37, 132, 1697957044909405622, p);
    assert((1697957044909405622int * 1697957044909405622) % 2305843009213693951 == 1770736616454408763);
    lemma_pow_double(37, 264, 1770736616454408763, p);
    assert((1770736616454408763int * 1770736616454408763) % 2305843009213693951 == 1841832041624780029);
    lemma_pow_double(37, 528, 1841832041624780029, p);
    assert((1841832041624780029int * 1841832041624780029) % 2305843009213693951 == 2304901261937292351);
    lemma_pow_next(37, 1056, 2304901261937292351, p);
    assert((37int * 2304901261937292351) % 2305843009213693951 == 2270998359986834751);
}

/// From the power of 37 with the exponent 1057 to that with the exponent 33825.
proof fn lemma_power_less_31_2()
    requires
        pow_mod(37, 1057, m61()) == 2270998359986834751,
    ensures
        pow_mod(37, 33825, m61()) == 167348957700463774,
{
    let p = m61();
    lemma_pow_double(37, 1057, 2270998359986834751, p);
    assert((2270998359986834751int * 2270998359986834751) % 2305843009213693951 == 383777470768767572);
    lemma_pow_double(37, 2114, 383777470768767572, p);
    assert((383777470768767572int * 383777470768767572) % 2305843009213693951 == 1247246905716300463);
    lemma_pow_double(37, 4228, 1247246905716300463, p);
    assert((1247246905716300463int * 1247246905716300463) % 2305843009213693951 == 531184808955283233);
    lemma_pow_double(37, 8456, 531184808955283233, p);
    assert((531184808955283233int * 531184808955283233) % 2305843009213693951 == 1778766330295578444);
    lemma_pow_double(37, 16912, 1778766330295578444, p);
    assert((1778766330295578444int * 1778766330295578444) % 2305843009213693951 == 1687165140715410823);
    lemma_pow_next(37, 33824, 1687165140715410823, p);
    assert((37int * 1687165140715410823) % 2305843009213693951 == 167348957700463774);
}

/// From the power of 37 with the exponent 33825 to that with the exponent 1082401.
proof fn lemma_power_less_31_3()
    requires
        pow_mod(37, 33825, m61()) == 167348957700463774,
    ensures
        pow_mod(37, 1082401, m61()) == 1591872804477563524,
{
    let p = m61();
    lemma_pow_double(37, 33825, 167348957700463774, p);
    assert((167348957700463774int * 167348957700463774) % 2305843009213693951 == 105149161975553391);
    lemma_pow_double(37, 67650, 105149161975553391, p);
    assert((105149161975553391int * 105149161975553391) % 2305843009213693951 == 1320681831012921122);
    lemma_pow_double(37, 135300, 1320681831012921122, p);
    assert((1320681831012921122int * 1320681831012921122) % 2305843009213693951 == 2141973794995425617);
    lemma_pow_double(37, 270600, 2141973794995425617, p);
    assert((2141973794995425617int * 2141973794995425617) % 2305843009213693951 == 1757027148018525181);
    lemma_pow_double(37, 541200, 1757027148018525181, p);
    assert((1757027148018525181int * 1757027148018525181) % 2305843009213693951 == 2037266191873399188);
    lemma_pow_next(37, 1082400, 2037266191873399188, p);
    assert((37int * 2037266191873399188) % 2305843009213693951 == 1591872804477563524);
}

/// From the power of 37 with the exponent 1082401 to that with the exponent 34636833.
proof fn lemma_power_less_31_4()
    requires
        pow_mod(37, 1082401, m61()) == 1591872804477563524,
    ensures
        pow_mod(37, 34636833, m61()) == 925108281314139667,
{
    let p = m61();
    lemma_pow_double(37, 1082401, 1591872804477563524, p);
    assert((1591872804477563524int * 1591872804477563524) % 2305843009213693951 == 207481386931969857);
    lemma_pow_double(37, 2164802, 207481386931969857, p);
    assert((207481386931969857int * 207481386931969857) % 2305843009213693951 == 1293616430510614620);
    lemma_pow_double(37, 4329604, 1293616430510614620, p);
    assert((1293616430510614620int * 1293616430510614620) % 2305843009213693951 == 1381255431965279002);
    lemma_pow_double(37, 8659208, 1381255431965279002, p);
    assert((1381255431965279002int * 1381255431965279002) % 2305843009213693951 == 2060395795810129725);
    lemma_pow_double(37, 17318416, 2060395795810129725, p);
    assert((2060395795810129725int * 2060395795810129725) % 2305843009213693951 == 1022124227803601159);
    lemma_pow_next(37, 34636832, 1022124227803601159, p);
    assert((37int * 1022124227803601159) % 2305843009213693951 == 925108281314139667);
}

/// From the power of 37 with the exponent 34636833 to that with the exponent 1108378657.
proof fn lemma_power_less_31_5()
    requires
        pow_mod(37, 34636833, m61()) == 925108281314139667,
    ensures
        pow_mod(37, 1108378657, m61()) == 798714873386485544,
{
    let p = m61();
    lemma_pow_double(37, 34636833, 925108281314139667, p);
    assert((925108281314139667int * 925108281314139667) % 2305843009213693951 == 772502744357113388);
    lemma_pow_double(37, 69273666, 772502744357113388, p);
    assert((772502744357113388int * 772502744357113388) % 2305843009213693951 == 415852372725457210);
    lemma_pow_double(37, 138547332, 415852372725457210, p);
    assert((415852372725457210int * 415852372725457210) % 2305843009213693951 == 2154426754225061081);
    lemma_pow_double(37, 277094664, 2154426754225061081, p);
    assert((2154426754225061081int * 2154426754225061081) % 2305843009213693951 == 2031729985379159233);
    lemma_pow_double(37, 554189328, 2031729985379159233, p);
    assert((2031729985379159233int * 2031729985379159233) % 2305843009213693951 == 1392628677732101418);
    lemma_pow_next(37, 1108378656, 1392628677732101418, p);
    assert((37int * 1392628677732101418) % 2305843009213693951 == 798714873386485544);
}

/// From the power of 37 with the exponent 1108378657 to that with the exponent 35468117025.
proof fn lemma_power_less_31_6()
    requires
        pow_mod(37, 1108378657, m61()) == 798714873386485544,
    ensures
        pow_mod(37, 35468117025, m61()) == 1270392129180948775,
{
    let p = m61();
    lemma_pow_double(37, 1108378657, 798714873386485544, p);
    assert((798714873386485544int * 798714873386485544) % 2305843009213693951 == 293109258917679546);
    lemma_pow_double(37, 2216757314, 293109258917679546, p);
    assert((293109258917679546int * 293109258917679546) % 2305843009213693951 == 789645259658297330);
    lemma_pow_double(37, 4433514628, 789645259658297330, p);
    assert((789645259658297330int * 789645259658297330) % 2305843009213693951 == 312537264855695216);
    lemma_pow_double(37, 8867029256, 312537264855695216, p);
    assert((312537264855695216int * 312537264855695216) % 2305843009213693951 == 1068040130857115079);
    lemma_pow_double(37, 17734058512, 1068040130857115079, p);
    assert((1068040130857115079int * 1068040130857115079) % 2305843009213693951 == 782175898371493951);
    lemma_pow_next(37, 35468117024, 782175898371493951, p);
    assert((37int * 782175898371493951) % 2305843009213693951 == 1270392129180948775);
}

/// From the power of 37 with the exponent 35468117025 to that with the exponent 1134979744801.
proof fn lemma_power_less_31_7()
    requires
        pow_mod(37, 35468117025, m61()) == 1270392129180948775,
    ensures
        pow_mod(37, 1134979744801, m61()) == 1328749747719066753,
{
    let p = m61();
    lemma_pow_double(37, 35468117025, 1270392129180948775, p);
    assert((1270392129180948775int * 1270392129180948775) % 2305843009213693951 == 1202692236257763325);
    lemma_pow_double(37, 70936234050, 1202692236257763325, p);
    assert((1202692236257763325int * 1202692236257763325) % 2305843009213693951 == 1760919366359934738);
    lemma_pow_double(37, 141872468100, 1760919366359934738, p);
    assert((1760919366359934738int * 1760919366359934738) % 2305843009213693951 == 1451836919962698950);
    lemma_pow_double(37, 283744936200, 1451836919962698950, p);
    assert((1451836919962698950int * 1451836919962698950) % 2305843009213693951 == 768265459749896282);
    lemma_pow_double(37, 567489872400, 768265459749896282, p);
    assert((768265459749896282int * 768265459749896282) % 2305843009213693951 == 534472805984557253);
    lemma_pow_next(37, 1134979744800, 534472805984557253, p);
    assert((37int * 534472805984557253) % 2305843009213693951 == 1328749747719066753);
}

/// From the power of 37 with the exponent 1134979744801 to that with the exponent 36319351833633.
proof fn lemma_power_less_31_8()
    requires
        pow_mod(37, 1134979744801, m61()) == 1328749747719066753,
    ensures
        pow_mod(37, 36319351833633, m61()) == 1045148407334167102,
{
    let p = m61();
    lemma_pow_double(37, 1134979744801, 1328749747719066753, p);
    assert((1328749747719066753int * 1328749747719066753) % 2305843009213693951 == 344447306660207322);
    lemma_pow_double(37, 2269959489602, 344447306660207322, p);
    assert((344447306660207322int * 344447306660207322) % 2305843009213693951 == 1895351187208706988);
    lemma_pow_double(37, 4539918979204, 1895351187208706988, p);
    assert((1895351187208706988int * 1895351187208706988) % 2305843009213693951 == 1564954140566490745);
    lemma_pow_double(37, 9079837958408, 1564954140566490745, p);
    assert((1564954140566490745int * 1564954140566490745) % 2305843009213693951 == 193353082106618050);
    lemma_pow_double(37, 18159675916816, 193353082106618050, p);
    assert((193353082106618050int * 193353082106618050) % 2305843009213693951 == 2147130019475669228);
    lemma_pow_next(37, 36319351833632, 2147130019475669228, p);
    assert((37int * 2147130019475669228) % 2305843009213693951 == 1045148407334167102);
}

/// From the power of 37 with the exponent 36319351833633 to that with the exponent 1162219258676257.
proof fn lemma_power_less_31_9()
    requires
        pow_mod(37, 36319351833633, m61()) == 1045148407334167102,
    ensures
        pow_mod(37, 1162219258676257, m61()) == 1456438557475723704,
{
    let p = m61();
    lemma_pow_double(37, 36319351833633, 1045148407334167102, p);
    assert((1045148407334167102int * 1045148407334167102) % 2305843009213693951 == 789523400171074996);
    lemma_pow_double(37, 72638703667266, 789523400171074996, p);
    assert((789523400171074996int * 789523400171074996) % 2305843009213693951 == 1919384983088160729);
    lemma_pow_double(37, 145277407334532, 1919384983088160729, p);
    assert((1919384983088160729int * 1919384983088160729) % 2305843009213693951 == 1944991342902115162);
    lemma_pow_double(37, 290554814669064, 1944991342902115162, p);
    assert((1944991342902115162int * 1944991342902115162) % 2305843009213693951 == 1296149603466438272);
    lemma_pow_double(37, 581109629338128, 1296149603466438272, p);
    assert((1296149603466438272int * 1296149603466438272) % 2305843009213693951 == 1659685318838696390);
    lemma_pow_next(37, 1162219258676256, 1659685318838696390, p);
    assert((37int * 1659685318838696390) % 2305843009213693951 == 1456438557475723704);
}

/// From the power of 37 with the exponent 1162219258676257 to that with the exponent 37191016277640225.
proof fn lemma_power_less_31_10()
    requires
        pow_mod(37, 1162219258676257, m61()) == 1456438557475723704,
    ensures
        pow_mod(37, 37191016277640225, m61()) == 459707093939892694,
{
    let p = m61();
    lemma_pow_double(37, 1162219258676257, 1456438557475723704, p);
    assert((1456438557475723704int * 1456438557475723704) % 2305843009213693951 == 1874007843370815560);
    lemma_pow_double(37, 2324438517352514, 1874007843370815560, p);
    assert((1874007843370815560int * 1874007843370815560) % 2305843009213693951 == 646757903979545203);
    lemma_pow_double(37, 4648877034705028, 646757903979545203, p);
    assert((646757903979545203int * 646757903979545203) % 2305843009213693951 == 1177197917893952599);
    lemma_pow_double(37, 9297754069410056, 1177197917893952599, p);
    assert((1177197917893952599int * 1177197917893952599) % 2305843009213693951 == 946354789294685549);
    lemma_pow_double(37, 18595508138820112, 946354789294685549, p);
    assert((946354789294685549int * 946354789294685549) % 2305843009213693951 == 1071865898664126753);
    lemma_pow_next(37, 37191016277640224, 1071865898664126753, p);
    assert((37int * 1071865898664126753) % 2305843009213693951 == 459707093939892694);
}

/// From the power of 37 with the exponent 37191016277640225 to that with the exponent 74382032555280450.
proof fn lemma_power_less_31_11()
    requires
        pow_mod(37, 37191016277640225, m61()) == 459707093939892694,
    ensures
        pow_mod(37, 74382032555280450, m61()) == 484083891529811867,
{
    let p = m61();
    lemma_pow_double(37, 37191016277640225, 459707093939892694, p);
    assert((459707093939892694int * 459707093939892694) % 2305843009213693951 == 484083891529811867);
}

/// The power of 37 with the exponent 74382032555280450, by squaring and multiplying
/// along the binary digits of the exponent.
proof fn lemma_power_less_31()
    ensures
        pow_mod(37, 74382032555280450, m61()) == 484083891529811867,
{
    assert(pow_mod(37, 1, m61()) == 37) by {
        reveal_with_fuel(pow_mod, 3);
    }
    lemma_power_less_31_0();
    lemma_power_less_31_1();
    lemma_power_less_31_2();
    lemma_power_less_31_3();
    lemma_power_less_31_4();
    lemma_power_less_31_5();
    lemma_power_less_31_6();
    lemma_power_less_31_7();
    lemma_power_less_31_8();
    lemma_power_less_31_9();
    lemma_power_less_31_10();
    lemma_power_less_31_11();
}

/// From the power of 37 with the exponent 1 to that with the exponent 48.
proof fn lemma_power_less_41_0()
    requires
        pow_mod(37, 1, m61()) == 37,
    ensures
        pow_mod(37, 48, m61()) == 2215071879289046716,
{
    let p = m61();
    lemma_pow_double(37, 1, 37, p);
    assert((37int * 37) % 2305843009213693951 == 1369);
    lemma_pow_next(37, 2, 1369, p);
    assert((37int * 1369) % 2305843009213693951 == 50653);
    lemma_pow_double(37, 3, 50653, p);
    assert((50653int * 50653) % 2305843009213693951 == 2565726409);
    lemma_pow_double(37, 6, 2565726409, p);
    assert((2565726409int * 2565726409) % 2305843009213693951 == 1971265987412647379);
    lemma_pow_double(37, 12, 1971265987412647379, p);
    assert((1971265987412647379int * 1971265987412647379) % 2305843009213693951 == 398663858489942875);
    lemma_pow_double(37, 24, 398663858489942875, p);
    assert((398663858489942875int * 398663858489942875) % 2305843009213693951 == 2215071879289046716);
}

/// From the power of 37 with the exponent 48 to that with the exponent 398.
proof fn lemma_power_less_41_1()
    requires
        pow_mod(37, 48, m61()) == 2215071879289046716,
    ensures
        pow_mod(37, 398, m61()) == 12099819320160791,
{
    let p = m61();
    lemma_pow_next(37, 48, 2215071879289046716, p);
    assert((37int * 2215071879289046716) % 2305843009213693951 == 1253154211215440207);
    lemma_pow_double(37, 49, 1253154211215440207, p);
    assert((1253154211215440207int * 1253154211215440207) % 2305843009213693951 == 1639602719609543274);
    lemma_pow_next(37, 98, 1639602719609543274, p);
    assert((37int * 1639602719609543274) % 2305843009213693951 == 713382385997058412);
    lemma_pow_double(37, 99, 713382385997058412, p);
    assert((713382385997058412int * 713382385997058412) % 2305843009213693951 == 1966532553541382000);
    lemma_pow_next(37, 198, 1966532553541382000, p);
    assert((37int * 1966532553541382000) % 2305843009213693951 == 1280571195406621519);
    lemma_pow_double(37, 199, 1280571195406621519, p);
    assert((1280571195406621519int * 1280571195406621519) % 2305843009213693951 == 12099819320160791);
}

/// From the power of 37 with the exponent 398 to that with the exponent 6392.
proof fn lemma_power_less_41_2()
    requires
        pow_mod(37, 398, m61()) == 12099819320160791,
    ensures
        pow_mod(37, 6392, m61()) == 1291021167463962885,
{
    let p = m61();
    lemma_pow_next(37, 398, 12099819320160791, p);
    assert((37int * 12099819320160791) % 2305843009213693951 == 447693314845949267);
    lemma_pow_double(37, 399, 447693314845949267, p);
    assert((447693314845949267int * 447693314845949267) % 2305843009213693951 == 938324182502471494);
    lemma_pow_next(37, 798, 938324182502471494, p);
    assert((37int * 938324182502471494) % 2305843009213693951 == 130349614386036013);
    lemma_pow_double(37, 799, 130349614386036013, p);
    assert((130349614386036013int * 130349614386036013) % 2305843009213693951 == 1928414337313258967);
    lemma_pow_double(37, 1598, 1928414337313258967, p);
    assert((1928414337313258967int * 1928414337313258967) % 2305843009213693951 == 219284513808312053);
    lemma_pow_double(37, 3196, 219284513808312053, p);
    assert((219284513808312053int * 219284513808312053) % 2305843009213693951 == 1291021167463962885);
}

/// From the power of 37 with the exponent 6392 to that with the exponent 51150.
proof fn lemma_power_less_41_3()
    requires
        pow_mod(37, 6392, m61()) == 1291021167463962885,
    ensures
        pow_mod(37, 51150, m61()) == 1694490217473059922,
{
    let p = m61();
    lemma_pow_next(37, 6392, 1291021167463962885, p);
    assert((37int * 1291021167463962885) % 2305843009213693951 == 1650923011892747725);
    lemma_pow_double(37, 6393, 1650923011892747725, p);
    assert((1650923011892747725int * 1650923011892747725) % 2305843009213693951 == 2107099435159481065);
    lemma_pow_next(37, 12786, 2107099435159481065, p);
    assert((37int * 2107099435159481065) % 2305843009213693951 == 1869859796848899022);
    lemma_pow_double(37, 12787, 1869859796848899022, p);
    assert((1869859796848899022int * 1869859796848899022) % 2305843009213693951 == 918080696831756191);
    lemma_pow_next(37, 25574, 918080696831756191, p);
    assert((37int * 918080696831756191) % 2305843009213693951 == 1687183653783263753);
    lemma_pow_double(37, 25575, 1687183653783263753, p);
    assert((1687183653783263753int * 1687183653783263753) % 2305843009213693951 == 1694490217473059922);
}

/// From the power of 37 with the exponent 51150 to that with the exponent 1636801.
proof fn lemma_power_less_41_4()
    requires
        pow_mod(37, 51150, m61()) == 1694490217473059922,
    ensures
        pow_mod(37, 1636801, m61()) == 46320796107690425,
{
    let p = m61();
    lemma_pow_double(37, 51150, 1694490217473059922, p);
    assert((1694490217473059922int * 1694490217473059922) % 2305843009213693951 == 757528119712041489);
    lemma_pow_double(37, 102300, 757528119712041489, p);
    assert((757528119712041489int * 757528119712041489) % 2305843009213693951 == 1760593197219293682);
    lemma_pow_double(37, 204600, 1760593197219293682, p);
    assert((1760593197219293682int * 1760593197219293682) % 2305843009213693951 == 1892778723120112520);
    lemma_pow_double(37, 409200, 1892778723120112520, p);
    assert((1892778723120112520int * 1892778723120112520) % 2305843009213693951 == 75927683510047834);
    lemma_pow_double(37, 818400, 75927683510047834, p);
    assert((75927683510047834int * 75927683510047834) % 2305843009213693951 == 312852320058815140);
    lemma_pow_next(37, 1636800, 312852320058815140, p);
    assert((37int * 312852320058815140) % 2305843009213693951 == 46320796107690425);
}

/// From the power of 37 with the exponent 1636801 to that with the exponent 52377648.
proof fn lemma_power_less_41_5()
    requires
        pow_mod(37, 1636801, m61()) == 46320796107690425,
    ensures
        pow_mod(37, 52377648, m61()) == 1360721916486634300,
{
    let p = m61();
    lemma_pow_double(37, 1636801, 46320796107690425, p);
    assert((46320796107690425int * 46320796107690425) % 2305843009213693951 == 986799260131016387);
    lemma_pow_next(37, 3273602, 986799260131016387, p);
    assert((37int * 986799260131016387) % 2305843009213693951 == 1923927486642197054);
    lemma_pow_double(37, 3273603, 1923927486642197054, p);
    assert((1923927486642197054int * 1923927486642197054) % 2305843009213693951 == 279978600320785492);
    lemma_pow_double(37, 6547206, 279978600320785492, p);
    assert((279978600320785492int * 279978600320785492) % 2305843009213693951 == 942568288739213058);
    lemma_pow_double(37, 13094412, 942568288739213058, p);
    assert((942568288739213058int * 942568288739213058) % 2305843009213693951 == 1848670390243138195);
    lemma_pow_double(37, 26188824, 1848670390243138195, p);
    assert((1848670390243138195int * 1848670390243138195) % 2305843009213693951 == 1360721916486634300);
}

/// From the power of 37 with the exponent 52377648 to that with the exponent 419021198.
proof fn lemma_power_less_41_6()
    requires
        pow_mod(37, 52377648, m61()) == 1360721916486634300,
    ensures
        pow_mod(37, 419021198, m61()) == 2034654221331429384,
{
    let p = m61();
    lemma_pow_next(37, 52377648, 1360721916486634300, p);
    assert((37int * 1360721916486634300) % 2305843009213693951 == 1924007716517896129);
    lemma_pow_double(37, 52377649, 1924007716517896129, p);
    assert((1924007716517896129int * 1924007716517896129) % 2305843009213693951 == 943743325340732985);
    lemma_pow_next(37, 104755298, 943743325340732985, p);
    assert((37int * 943743325340732985) % 2305843009213693951 == 330857899401711180);
    lemma_pow_double(37, 104755299, 330857899401711180, p);
    assert((330857899401711180int * 330857899401711180) % 2305843009213693951 == 1391078177086166779);
    lemma_pow_next(37, 209510598, 1391078177086166779, p);
    assert((37int * 1391078177086166779) % 2305843009213693951 == 741346349486903901);
    lemma_pow_double(37, 209510599, 741346349486903901, p);
    assert((741346349486903901int * 741346349486903901) % 2305843009213693951 == 2034654221331429384);
}

/// From the power of 37 with the exponent 419021198 to that with the exponent 6704339192.
proof fn lemma_power_less_41_7()
    requires
        pow_mod(37, 419021198, m61()) == 2034654221331429384,
    ensures
        pow_mod(37, 6704339192, m61()) == 301289528087054266,
{
    let p = m61();
    lemma_pow_next(37, 419021198, 2034654221331429384, p);
    assert((37int * 2034654221331429384) % 2305843009213693951 == 1495229894424680776);
    lemma_pow_double(37, 419021199, 1495229894424680776, p);
    assert((1495229894424680776int * 1495229894424680776) % 2305843009213693951 == 199845120428943543);
    lemma_pow_next(37, 838042398, 199845120428943543, p);
    assert((37int * 199845120428943543) % 2305843009213693951 == 476740428229829238);
    lemma_pow_double(37, 838042399, 476740428229829238, p);
    assert((476740428229829238int * 476740428229829238) % 2305843009213693951 == 1868386856157844665);
    lemma_pow_double(37, 1676084798, 1868386856157844665, p);
    assert((1868386856157844665int * 1868386856157844665) % 2305843009213693951 == 676129879129388771);
    lemma_pow_double(37, 3352169596, 676129879129388771, p);
    assert((676129879129388771int * 676129879129388771) % 2305843009213693951 == 301289528087054266);
}

/// From the power of 37 with the exponent 6704339192 to that with the exponent 53634713550.
proof fn lemma_power_less_41_8()
    requires
        pow_mod(37, 6704339192, m61()) == 301289528087054266,
    ensures
        pow_mod(37, 53634713550, m61()) == 408742850539445589,
{
    let p = m61();
    lemma_pow_next(37, 6704339192, 301289528087054266, p);
    assert((37int * 301289528087054266) % 2305843009213693951 == 1924340502366232038);
    lemma_pow_double(37, 6704339193, 1924340502366232038, p);
    assert((1924340502366232038int * 1924340502366232038) % 2305843009213693951 == 82711373951352329);
    lemma_pow_next(37, 13408678386, 82711373951352329, p);
    assert((37int * 82711373951352329) % 2305843009213693951 == 754477826986342222);
    lemma_pow_double(37, 13408678387, 754477826986342222, p);
    assert((754477826986342222int * 754477826986342222) % 2305843009213693951 == 1972318921518235451);
    lemma_pow_next(37, 26817356774, 1972318921518235451, p);
    assert((37int * 1972318921518235451) % 2305843009213693951 == 1494666810550199206);
    lemma_pow_double(37, 26817356775, 1494666810550199206, p);
    assert((1494666810550199206int * 1494666810550199206) % 2305843009213693951 == 408742850539445589);
}

/// From the power of 37 with the exponent 53634713550 to that with the exponent 1716310833601.
proof fn lemma_power_less_41_9()
    requires
        pow_mod(37, 53634713550, m61()) == 408742850539445589,
    ensures
        pow_mod(37, 1716310833601, m61()) == 1292041858439856068,
{
    let p = m61();
    lemma_pow_double(37, 53634713550, 408742850539445589, p);
    assert((408742850539445589int * 408742850539445589) % 2305843009213693951 == 2249397665653771420);
    lemma_pow_double(37, 107269427100, 2249397665653771420, p);
    assert((2249397665653771420int * 2249397665653771420) % 2305843009213693951 == 586375320340701312);
    lemma_pow_double(37, 214538854200, 586375320340701312, p);
    assert((586375320340701312int * 586375320340701312) % 2305843009213693951 == 66689224696771530);
    lemma_pow_double(37, 429077708400, 66689224696771530, p);
    assert((66689224696771530int * 66689224696771530) % 2305843009213693951 == 1975295031131489547);
    lemma_pow_double(37, 858155416800, 1975295031131489547, p);
    assert((1975295031131489547int * 1975295031131489547) % 2305843009213693951 == 2091482734121398823);
    lemma_pow_next(37, 1716310833600, 2091482734121398823, p);
    assert((37int * 2091482734121398823) % 2305843009213693951 == 1292041858439856068);
}

/// From the power of 37 with the exponent 1716310833601 to that with the exponent 54921946675248.
proof fn lemma_power_less_41_10()
    requires
        pow_mod(37, 1716310833601, m61()) == 1292041858439856068,
    ensures
        pow_mod(37, 54921946675248, m61()) == 938738680278863257,
{
    let p = m61();
    lemma_pow_double(37, 1716310833601, 1292041858439856068, p);
    assert((1292041858439856068int * 1292041858439856068) % 2305843009213693951 == 2452888155720862);
    lemma_pow_next(37, 3432621667202, 2452888155720862, p);
    assert((37int * 2452888155720862) % 2305843009213693951 == 90756861761671894);
    lemma_pow_double(37, 3432621667203, 90756861761671894, p);
    assert((90756861761671894int * 90756861761671894) % 2305843009213693951 == 565597554396461301);
    lemma_pow_double(37, 6865243334406, 565597554396461301, p);
    assert((565597554396461301int * 565597554396461301) % 2305843009213693951 == 473806973239797212);
    lemma_pow_double(37, 13730486668812, 473806973239797212, p);
    assert((473806973239797212int * 473806973239797212) % 2305843009213693951 == 1168128104625737366);
    lemma_pow_double(37, 27460973337624, 1168128104625737366, p);
    assert((1168128104625737366int * 1168128104625737366) % 2305843009213693951 == 938738680278863257);
}

/// From the power of 37 with the exponent 54921946675248 to that with the exponent 439375573401998.
proof fn lemma_power_less_41_11()
    requires
        pow_mod(37, 54921946675248, m61()) == 938738680278863257,
    ensures
        pow_mod(37, 439375573401998, m61()) == 2135671873448942888,
{
    let p = m61();
    lemma_pow_next(37, 54921946675248, 938738680278863257, p);
    assert((37int * 938738680278863257) % 2305843009213693951 == 145686032112531244);
    lemma_pow_double(37, 54921946675249, 145686032112531244, p);
    assert((145686032112531244int * 145686032112531244) % 2305843009213693951 == 942238535133714801);
    lemma_pow_next(37, 109843893350498, 942238535133714801, p);
    assert((37int * 942238535133714801) % 2305843009213693951 == 275180661742038372);
    lemma_pow_double(37, 109843893350499, 275180661742038372, p);
    assert((275180661742038372int * 275180661742038372) % 2305843009213693951 == 66165941233478045);
    lemma_pow_next(37, 219687786700998, 66165941233478045, p);
    assert((37int * 66165941233478045) % 2305843009213693951 == 142296816424993714);
    lemma_pow_double(37, 219687786700999, 142296816424993714, p);
    assert((142296816424993714int * 142296816424993714) % 2305843009213693951 == 2135671873448942888);
}

/// From the power of 37 with the exponent 439375573401998 to that with the exponent 7030009174431992.
proof fn lemma_power_less_41_12()
    requires
        pow_mod(37, 439375573401998, m61()) == 2135671873448942888,
    ensures
        pow_mod(37, 7030009174431992, m61()) == 186357683530623173,
{
    let p = m61();
    lemma_pow_next(37, 439375573401998, 2135671873448942888, p);
    assert((37int * 2135671873448942888) % 2305843009213693951 == 621197004345292522);
    lemma_pow_double(37, 439375573401999, 621197004345292522, p);
    assert((621197004345292522int * 621197004345292522) % 2305843009213693951 == 350918326110174962);
    lemma_pow_next(37, 878751146803998, 350918326110174962, p);
    assert((37int * 350918326110174962) % 2305843009213693951 == 1454763020008003839);
    lemma_pow_double(37, 878751146803999, 1454763020008003839, p);
    assert((1454763020008003839int * 1454763020008003839) % 2305843009213693951 == 411279861511608367);
    lemma_pow_double(37, 1757502293607998, 411279861511608367, p);
    assert((411279861511608367int * 411279861511608367) % 2305843009213693951 == 496148108913520374);
    lemma_pow_double(37, 3515004587215996, 496148108913520374, p);
    assert((496148108913520374int * 496148108913520374) % 2305843009213693951 == 186357683530623173);
}

/// From the power of 37 with the exponent 7030009174431992 to that with the exponent 56240073395455950.
proof fn lemma_power_less_41_13()
    requires
        pow_mod(37, 7030009174431992, m61()) == 186357683530623173,
    ensures
        pow_mod(37, 56240073395455950, m61()) == 1562651311446036838,
{
    let p = m61();
    lemma_pow_next(37, 7030009174431992, 186357683530623173, p);
    assert((37int * 186357683530623173) % 2305843009213693951 == 2283548272205669499);
    lemma_pow_double(37, 7030009174431993, 2283548272205669499, p);
    assert((2283548272205669499int * 2283548272205669499) % 2305843009213693951 == 242041421137168897);
    lemma_pow_next(37, 14060018348863986, 242041421137168897, p);
    assert((37int * 242041421137168897) % 2305843009213693951 == 2038003554434167336);
    lemma_pow_double(37, 14060018348863987, 2038003554434167336, p);
    assert((2038003554434167336int * 2038003554434167336) % 2305843009213693951 == 2294843863708109604);
    lemma_pow_next(37, 28120036697727974, 2294843863708109604, p);
    assert((37int * 2294843863708109604) % 2305843009213693951 == 1898874625507073112);
    lemma_pow_double(37, 28120036697727975, 1898874625507073112, p);
    assert((1898874625507073112int * 1898874625507073112) % 2305843009213693951 == 1562651311446036838);
}

/// The power of 37 with the exponent 56240073395455950, by squaring and multiplying
/// along the binary digits of the exponent.
proof fn lemma_power_less_41()
    ensures
        pow_mod(37, 56240073395455950, m61()) == 1562651311446036838,
{
    assert(pow_mod(37, 1, m61()) == 37) by {
        reveal_with_fuel(pow_mod, 3);
    }
    lemma_power_less_41_0();
    lemma_power_less_41_1();
    lemma_power_less_41_2();
    lemma_power_less_41_3();
    lemma_power_less_41_4();
    lemma_power_less_41_5();
    lemma_power_less_41_6();
    lemma_power_less_41_7();
    lemma_power_less_41_8();
    lemma_power_less_41_9();
    lemma_power_less_41_10();
    lemma_power_less_41_11();
    lemma_power_less_41_12();
    lemma_power_less_41_13();
}

/// From the power of 37 with the exponent 1 to that with the exponent 33.
proof fn lemma_power_less_61_0()
    requires
        pow_mod(37, 1, m61()) == 37,
    ensures
        pow_mod(37, 33, m61()) == 2166288977810054328,
{
    let p = m61();
    lemma_pow_double(37, 1, 37, p);
    assert((37int * 37) % 2305843009213693951 == 1369);
    lemma_pow_double(37, 2, 1369, p);
    assert((1369int * 1369) % 2305843009213693951 == 1874161);
    lemma_pow_double(37, 4, 1874161, p);
    assert((1874161int * 1874161) % 2305843009213693951 == 3512479453921);
    lemma_pow_double(37, 8, 3512479453921, p);
    assert((3512479453921int * 3512479453921) % 2305843009213693951 == 2048012909902302799);
    lemma_pow_double(37, 16, 2048012909902302799, p);
    assert((2048012909902302799int * 2048012909902302799) % 2305843009213693951 == 307828676072022436);
    lemma_pow_next(37, 32, 307828676072022436, p);
    assert((37int * 307828676072022436) % 2305843009213693951 == 2166288977810054328);
}

/// From the power of 37 with the exponent 33 to that with the exponent 537.
proof fn lemma_power_less_61_1()
    requires
        pow_mod(37, 33, m61()) == 2166288977810054328,
    ensures
        pow_mod(37, 537, m61()) == 957141291894918330,
{
    let p = m61();
    lemma_pow_double(37, 33, 2166288977810054328, p);
    assert((2166288977810054328int * 2166288977810054328) % 2305843009213693951 == 1527663442908431533);
    lemma_pow_next(37, 66, 1527663442908431533, p);
    assert((37int * 1527663442908431533) % 2305843009213693951 == 1183315166483311897);
    lemma_pow_double(37, 67, 1183315166483311897, p);
    assert((1183315166483311897int * 1183315166483311897) % 2305843009213693951 == 213441193572793910);
    lemma_pow_double(37, 134, 213441193572793910, p);
    assert((213441193572793910int * 213441193572793910) % 2305843009213693951 == 156151158795493260);
    lemma_pow_double(37, 268, 156151158795493260, p);
    assert((156151158795493260int * 156151158795493260) % 2305843009213693951 == 337469090215226705);
    lemma_pow_next(37, 536, 337469090215226705, p);
    assert((37int * 337469090215226705) % 2305843009213693951 == 957141291894918330);
}

/// From the power of 37 with the exponent 537 to that with the exponent 17188.
proof fn lemma_power_less_61_2()
    requires
        pow_mod(37, 537, m61()) == 957141291894918330,
    ensures
        pow_mod(37, 17188, m61()) == 2303545237530223897,
{
    let p = m61();
    lemma_pow_double(37, 537, 957141291894918330, p);
    assert((957141291894918330int * 957141291894918330) % 2305843009213693951 == 1679601158863909361);
    lemma_pow_double(37, 1074, 1679601158863909361, p);
    assert((1679601158863909361int * 1679601158863909361) % 2305843009213693951 == 1754931456696949085);
    lemma_pow_double(37, 2148, 1754931456696949085, p);
    assert((1754931456696949085int * 1754931456696949085) % 2305843009213693951 == 11091614259266113);
    lemma_pow_next(37, 4296, 11091614259266113, p);
    assert((37int * 11091614259266113) % 2305843009213693951 == 410389727592846181);
    lemma_pow_double(37, 4297, 410389727592846181, p);
    assert((410389727592846181int * 410389727592846181) % 2305843009213693951 == 988107137094789728);
    lemma_pow_double(37, 8594, 988107137094789728, p);
    assert((988107137094789728int * 988107137094789728) % 2305843009213693951 == 2303545237530223897);
}

/// From the power of 37 with the exponent 17188 to that with the exponent 137518.
proof fn lemma_power_less_61_3()
    requires
        pow_mod(37, 17188, m61()) == 2303545237530223897,
    ensures
        pow_mod(37, 137518, m61()) == 2110217161857988208,
{
    let p = m61();
    lemma_pow_next(37, 17188, 2303545237530223897, p);
    assert((37int * 2303545237530223897) % 2305843009213693951 == 2220825456925301953);
    lemma_pow_double(37, 17189, 2220825456925301953, p);
    assert((2220825456925301953int * 2220825456925301953) % 2305843009213693951 == 1491830750862738763);
    lemma_pow_next(37, 34378, 1491830750862738763, p);
    assert((37int * 1491830750862738763) % 2305843009213693951 == 2163348570006373358);
    lemma_pow_double(37, 34379, 2163348570006373358, p);
    assert((2163348570006373358int * 2163348570006373358) % 2305843009213693951 == 1509929107023900158);
    lemma_pow_next(37, 68758, 1509929107023900158, p);
    assert((37int * 1509929107023900158) % 2305843009213693951 == 527144738755651022);
    lemma_pow_double(37, 68759, 527144738755651022, p);
    assert((527144738755651022int * 527144738755651022) % 2305843009213693951 == 2110217161857988208);
}

/// From the power of 37 with the exponent 137518 to that with the exponent 4400580.
proof fn lemma_power_less_61_4()
    requires
        pow_mod(37, 137518, m61()) == 2110217161857988208,
    ensures
        pow_mod(37, 4400580, m61()) == 380615165795904940,
{
    let p = m61();
    lemma_pow_double(37, 137518, 2110217161857988208, p);
    assert((2110217161857988208int * 2110217161857988208) % 2305843009213693951 == 1918972764837995116);
    lemma_pow_double(37, 275036, 1918972764837995116, p);
    assert((1918972764837995116int * 1918972764837995116) % 2305843009213693951 == 687323875882474714);
    lemma_pow_double(37, 550072, 687323875882474714, p);
    assert((687323875882474714int * 687323875882474714) % 2305843009213693951 == 1012909518406294996);
    lemma_pow_next(37, 1100144, 1012909518406294996, p);
    assert((37int * 1012909518406294996) % 2305843009213693951 == 584164033613811636);
    lemma_pow_double(37, 1100145, 584164033613811636, p);
    assert((584164033613811636int * 584164033613811636) % 2305843009213693951 == 188538334095871618);
    lemma_pow_double(37, 2200290, 188538334095871618, p);
    assert((188538334095871618int * 188538334095871618) % 2305843009213693951 == 380615165795904940);
}

/// From the power of 37 with the exponent 4400580 to that with the exponent 70409298.
proof fn lemma_power_less_61_5()
    requires
        pow_mod(37, 4400580, m61()) == 380615165795904940,
    ensures
        pow_mod(37, 70409298, m61()) == 1994306856998128172,
{
    let p = m61();
    lemma_pow_next(37, 4400580, 380615165795904940, p);
    assert((37int * 380615165795904940) % 2305843009213693951 == 247703079166319074);
    lemma_pow_double(37, 4400581, 247703079166319074, p);
    assert((247703079166319074int * 247703079166319074) % 2305843009213693951 == 413753822477507423);
    lemma_pow_double(37, 8801162, 413753822477507423, p);
    assert((413753822477507423int * 413753822477507423) % 2305843009213693951 == 1885629141519779004);
    lemma_pow_double(37, 17602324, 1885629141519779004, p);
    assert((1885629141519779004int * 1885629141519779004) % 2305843009213693951 == 838390994411668718);
    lemma_pow_next(37, 35204648, 838390994411668718, p);
    assert((37int * 838390994411668718) % 2305843009213693951 == 1044507673453721203);
    lemma_pow_double(37, 35204649, 1044507673453721203, p);
    assert((1044507673453721203int * 1044507673453721203) % 2305843009213693951 == 1994306856998128172);
}

/// From the power of 37 with the exponent 70409298 to that with the exponent 563274398.
proof fn lemma_power_less_61_6()
    requires
        pow_mod(37, 70409298, m61()) == 1994306856998128172,
    ensures
        pow_mod(37, 563274398, m61()) == 2145786469228203320,
{
    let p = m61();
    lemma_pow_next(37, 70409298, 1994306856998128172, p);
    assert((37int * 1994306856998128172) % 2305843009213693951 == 2377414092535932);
    lemma_pow_double(37, 70409299, 2377414092535932, p);
    assert((2377414092535932int * 2377414092535932) % 2305843009213693951 == 484918656472713273);
    lemma_pow_next(37, 140818598, 484918656472713273, p);
    assert((37int * 484918656472713273) % 2305843009213693951 == 1801089224994533444);
    lemma_pow_double(37, 140818599, 1801089224994533444, p);
    assert((1801089224994533444int * 1801089224994533444) % 2305843009213693951 == 401838896445248013);
    lemma_pow_next(37, 281637198, 401838896445248013, p);
    assert((37int * 401838896445248013) % 2305843009213693951 == 1032981113192012775);
    lemma_pow_double(37, 281637199, 1032981113192012775, p);
    assert((1032981113192012775int * 1032981113192012775) % 2305843009213693951 == 2145786469228203320);
}

/// From the power of 37 with the exponent 563274398 to that with the exponent 4506195195.
proof fn lemma_power_less_61_7()
    requires
        pow_mod(37, 563274398, m61()) == 2145786469228203320,
    ensures
        pow_mod(37, 4506195195, m61()) == 385107666014138564,
{
    let p = m61();
    lemma_pow_next(37, 563274398, 2145786469228203320, p);
    assert((37int * 2145786469228203320) % 2305843009213693951 == 995437048177928506);
    lemma_pow_double(37, 563274399, 995437048177928506, p);
    assert((995437048177928506int * 995437048177928506) % 2305843009213693951 == 729273931602840556);
    lemma_pow_double(37, 1126548798, 729273931602840556, p);
    assert((729273931602840556int * 729273931602840556) % 2305843009213693951 == 1254251367207015998);
    lemma_pow_next(37, 2253097596, 1254251367207015998, p);
    assert((37int * 1254251367207015998) % 2305843009213693951 == 290440402385712906);
    lemma_pow_double(37, 2253097597, 290440402385712906, p);
    assert((290440402385712906int * 290440402385712906) % 2305843009213693951 == 1630730429880275170);
    lemma_pow_next(37, 4506195194, 1630730429880275170, p);
    assert((37int * 1630730429880275170) % 2305843009213693951 == 385107666014138564);
}

/// From the power of 37 with the exponent 4506195195 to that with the exponent 72099123132.
proof fn lemma_power_less_61_8()
    requires
        pow_mod(37, 4506195195, m61()) == 385107666014138564,
    ensures
        pow_mod(37, 72099123132, m61()) == 911184203840234984,
{
    let p = m61();
    lemma_pow_double(37, 4506195195, 385107666014138564, p);
    assert((385107666014138564int * 385107666014138564) % 2305843009213693951 == 508381657672854734);
    lemma_pow_next(37, 9012390390, 508381657672854734, p);
    assert((37int * 508381657672854734) % 2305843009213693951 == 363377260186073550);
    lemma_pow_double(37, 9012390391, 363377260186073550, p);
    assert((363377260186073550int * 363377260186073550) % 2305843009213693951 == 2148690977786222977);
    lemma_pow_next(37, 18024780782, 2148690977786222977, p);
    assert((37int * 2148690977786222977) % 2305843009213693951 == 1102903864824655815);
    lemma_pow_double(37, 18024780783, 1102903864824655815, p);
    assert((1102903864824655815int * 1102903864824655815) % 2305843009213693951 == 1841344606183256171);
    lemma_pow_double(37, 36049561566, 1841344606183256171, p);
    assert((1841344606183256171int * 1841344606183256171) % 2305843009213693951 == 911184203840234984);
}

/// From the power of 37 with the exponent 72099123132 to that with the exponent 1153585970124.
proof fn lemma_power_less_61_9()
    requires
        pow_mod(37, 72099123132, m61()) == 911184203840234984,
    ensures
        pow_mod(37, 1153585970124, m61()) == 1818680666057426881,
{
    let p = m61();
    lemma_pow_double(37, 72099123132, 911184203840234984, p);
    assert((911184203840234984int * 911184203840234984) % 2305843009213693951 == 1816628066692975331);
    lemma_pow_next(37, 144198246264, 1816628066692975331, p);
    assert((37int * 1816628066692975331) % 2305843009213693951 == 345791200442962668);
    lemma_pow_double(37, 144198246265, 345791200442962668, p);
    assert((345791200442962668int * 345791200442962668) % 2305843009213693951 == 472915264694348578);
    lemma_pow_next(37, 288396492530, 472915264694348578, p);
    assert((37int * 472915264694348578) % 2305843009213693951 == 1356963729195039729);
    lemma_pow_double(37, 288396492531, 1356963729195039729, p);
    assert((1356963729195039729int * 1356963729195039729) % 2305843009213693951 == 1609429910656894110);
    lemma_pow_double(37, 576792985062, 1609429910656894110, p);
    assert((1609429910656894110int * 1609429910656894110) % 2305843009213693951 == 1818680666057426881);
}

/// From the power of 37 with the exponent 1153585970124 to that with the exponent 9228687761005.
proof fn lemma_power_less_61_10()
    requires
        pow_mod(37, 1153585970124, m61()) == 1818680666057426881,
    ensures
        pow_mod(37, 9228687761005, m61()) == 2248483136618441896,
{
    let p = m61();
    lemma_pow_next(37, 1153585970124, 1818680666057426881, p);
    assert((37int * 1818680666057426881) % 2305843009213693951 == 421737376927670018);
    lemma_pow_double(37, 1153585970125, 421737376927670018, p);
    assert((421737376927670018int * 421737376927670018) % 2305843009213693951 == 904419833059525676);
    lemma_pow_next(37, 2307171940250, 904419833059525676, p);
    assert((37int * 904419833059525676) % 2305843009213693951 == 1181731694210734698);
    lemma_pow_double(37, 2307171940251, 1181731694210734698, p);
    assert((1181731694210734698int * 1181731694210734698) % 2305843009213693951 == 466962266829811585);
    lemma_pow_double(37, 4614343880502, 466962266829811585, p);
    assert((466962266829811585int * 466962266829811585) % 2305843009213693951 == 870930871794499007);
    lemma_pow_next(37, 9228687761004, 870930871794499007, p);
    assert((37int * 870930871794499007) % 2305843009213693951 == 2248483136618441896);
}

/// From the power of 37 with the exponent 9228687761005 to that with the exponent 295318008352162.
proof fn lemma_power_less_61_11()
    requires
        pow_mod(37, 9228687761005, m61()) == 2248483136618441896,
    ensures
        pow_mod(37, 295318008352162, m61()) == 168394063935577802,
{
    let p = m61();
    lemma_pow_double(37, 9228687761005, 2248483136618441896, p);
    assert((2248483136618441896int * 2248483136618441896) % 2305843009213693951 == 2150962671850484898);
    lemma_pow_double(37, 18457375522010, 2150962671850484898, p);
    assert((2150962671850484898int * 2150962671850484898) % 2305843009213693951 == 812941661938990639);
    lemma_pow_double(37, 36914751044020, 812941661938990639, p);
    assert((812941661938990639int * 812941661938990639) % 2305843009213693951 == 1987069784265602190);
    lemma_pow_double(37, 73829502088040, 1987069784265602190, p);
    assert((1987069784265602190int * 1987069784265602190) % 2305843009213693951 == 273856093066443209);
    lemma_pow_next(37, 147659004176080, 273856093066443209, p);
    assert((37int * 273856093066443209) % 2305843009213693951 == 909303406603622929);
    lemma_pow_double(37, 147659004176081, 909303406603622929, p);
    assert((909303406603622929int * 909303406603622929) % 2305843009213693951 == 168394063935577802);
}

/// From the power of 37 with the exponent 295318008352162 to that with the exponent 2362544066817309.
proof fn lemma_power_less_61_12()
    requires
        pow_mod(37, 295318008352162, m61()) == 168394063935577802,
    ensures
        pow_mod(37, 2362544066817309, m61()) == 405263573606771781,
{
    let p = m61();
    lemma_pow_next(37, 295318008352162, 168394063935577802, p);
    assert((37int * 168394063935577802) % 2305843009213693951 == 1618894347188990772);
    lemma_pow_double(37, 295318008352163, 1618894347188990772, p);
    assert((1618894347188990772int * 1618894347188990772) % 2305843009213693951 == 384756267755744319);
    lemma_pow_next(37, 590636016704326, 384756267755744319, p);
    assert((37int * 384756267755744319) % 2305843009213693951 == 400923851680376097);
    lemma_pow_double(37, 590636016704327, 400923851680376097, p);
    assert((400923851680376097int * 400923851680376097) % 2305843009213693951 == 1296737315491201034);
    lemma_pow_double(37, 1181272033408654, 1296737315491201034, p);
    assert((1296737315491201034int * 1296737315491201034) % 2305843009213693951 == 634153882857938143);
    lemma_pow_next(37, 2362544066817308, 634153882857938143, p);
    assert((37int * 634153882857938143) % 2305843009213693951 == 405263573606771781);
}

/// From the power of 37 with the exponent 2362544066817309 to that with the exponent 37800705069076950.
proof fn lemma_power_less_61_13()
    requires
        pow_mod(37, 2362544066817309, m61()) == 405263573606771781,
    ensures
        pow_mod(37, 37800705069076950, m61()) == 35184372088832,
{
    let p = m61();
    lemma_pow_double(37, 2362544066817309, 405263573606771781, p);
    assert((405263573606771781int * 405263573606771781) % 2305843009213693951 == 2194542735180687571);
    lemma_pow_double(37, 4725088133634618, 2194542735180687571, p);
    assert((2194542735180687571int * 2194542735180687571) % 2305843009213693951 == 273343360504852317);
    lemma_pow_next(37, 9450176267269236, 273343360504852317, p);
    assert((37int * 273343360504852317) % 2305843009213693951 == 890332301824759925);
    lemma_pow_double(37, 9450176267269237, 890332301824759925, p);
    assert((890332301824759925int * 890332301824759925) % 2305843009213693951 == 2243279490065898412);
    lemma_pow_next(37, 18900352534538474, 2243279490065898412, p);
    assert((37int * 2243279490065898412) % 2305843009213693951 == 2296835809958952959);
    lemma_pow_double(37, 18900352534538475, 2296835809958952959, p);
    assert((2296835809958952959int * 2296835809958952959) % 2305843009213693951 == 35184372088832);
}

/// The power of 37 with the exponent 37800705069076950, by squaring and multiplying
/// along the binary digits of the exponent.
proof fn lemma_power_less_61()
    ensures
        pow_mod(37, 37800705069076950, m61()) == 35184372088832,
{
    assert(pow_mod(37, 1, m61()) == 37) by {
        reveal_with_fuel(pow_mod, 3);
    }
    lemma_power_less_61_0();
    lemma_power_less_61_1();
    lemma_power_less_61_2();
    lemma_power_less_61_3();
    lemma_power_less_61_4();
    lemma_power_less_61_5();
    lemma_power_less_61_6();
    lemma_power_less_61_7();
    lemma_power_less_61_8();
    lemma_power_less_61_9();
    lemma_power_less_61_10();
    lemma_power_less_61_11();
    lemma_power_less_61_12();
    lemma_power_less_61_13();
}

/// From the power of 37 with the exponent 1 to that with the exponent 26.
proof fn lemma_power_less_151_0()
    requires
        pow_mod(37, 1, m61()) == 37,
    ensures
        pow_mod(37, 26, m61()) == 1591872098300023439,
{
    let p = m61();
    lemma_pow_double(37, 1, 37, p);
    assert((37int * 37) % 2305843009213693951 == 1369);
    lemma_pow_next(37, 2, 1369, p);
    assert((37int * 1369) % 2305843009213693951 == 50653);
    lemma_pow_double(37, 3, 50653, p);
    assert((50653int * 50653) % 2305843009213693951 == 2565726409);
    lemma_pow_double(37, 6, 2565726409, p);
    assert((2565726409int * 2565726409) % 2305843009213693951 == 1971265987412647379);
    lemma_pow_next(37, 12, 1971265987412647379, p);
    assert((37int * 1971265987412647379) % 2305843009213693951 == 1455708248643440542);
    lemma_pow_double(37, 13, 1455708248643440542, p);
    assert((1455708248643440542int * 1455708248643440542) % 2305843009213693951 == 1591872098300023439);
}

/// From the power of 37 with the exponent 26 to that with the exponent 434.
proof fn lemma_power_less_151_1()
    requires
        pow_mod(37, 26, m61()) == 1591872098300023439,
    ensures
        pow_mod(37, 434, m61()) == 385245501143562693,
{
    let p = m61();
    lemma_pow_next(37, 26, 1591872098300023439, p);
    assert((37int * 1591872098300023439) % 2305843009213693951 == 1253192406758518468);
    lemma_pow_double(37, 27, 1253192406758518468, p);
    assert((1253192406758518468int * 1253192406758518468) % 2305843009213693951 == 1091349452027953358);
    lemma_pow_double(37, 54, 1091349452027953358, p);
    assert((1091349452027953358int * 1091349452027953358) % 2305843009213693951 == 997920042730791870);
    lemma_pow_double(37, 108, 997920042730791870, p);
    assert((997920042730791870int * 997920042730791870) % 2305843009213693951 == 1524813797073000448);
    lemma_pow_next(37, 216, 1524813797073000448, p);
    assert((37int * 1524813797073000448) % 2305843009213693951 == 1077878270572361752);
    lemma_pow_double(37, 217, 1077878270572361752, p);
    assert((1077878270572361752int * 1077878270572361752) % 2305843009213693951 == 385245501143562693);
}

/// From the power of 37 with the exponent 434 to that with the exponent 27776.
proof fn lemma_power_less_151_2()
    requires
        pow_mod(37, 434, m61()) == 385245501143562693,
    ensures
        pow_mod(37, 27776, m61()) == 672305038495397967,
{
    let p = m61();
    lemma_pow_double(37, 434, 385245501143562693, p);
    assert((385245501143562693int * 385245501143562693) % 2305843009213693951 == 376923711229537248);
    lemma_pow_double(37, 868, 376923711229537248, p);
    assert((376923711229537248int * 376923711229537248) % 2305843009213693951 == 335101052591312049);
    lemma_pow_double(37, 1736, 335101052591312049, p);
    assert((335101052591312049int * 335101052591312049) % 2305843009213693951 == 37728920620822630);
    lemma_pow_double(37, 3472, 37728920620822630, p);
    assert((37728920620822630int * 37728920620822630) % 2305843009213693951 == 2228552861915488798);
    lemma_pow_double(37, 6944, 2228552861915488798, p);
    assert((2228552861915488798int * 2228552861915488798) % 2305843009213693951 == 921623718492395228);
    lemma_pow_double(37, 13888, 921623718492395228, p);
    assert((921623718492395228int * 921623718492395228) % 2305843009213693951 == 672305038495397967);
}

/// From the power of 37 with the exponent 27776 to that with the exponent 444428.
proof fn lemma_power_less_151_3()
    requires
        pow_mod(37, 27776, m61()) == 672305038495397967,
    ensures
        pow_mod(37, 444428, m61()) == 1377965448165270081,
{
    let p = m61();
    lemma_pow_double(37, 27776, 672305038495397967, p);
    assert((672305038495397967int * 672305038495397967) % 2305843009213693951 == 661548713037185952);
    lemma_pow_next(37, 55552, 661548713037185952, p);
    assert((37int * 661548713037185952) % 2305843009213693951 == 1418872290238940714);
    lemma_pow_double(37, 55553, 1418872290238940714, p);
    assert((1418872290238940714int * 1418872290238940714) % 2305843009213693951 == 792956055345414585);
    lemma_pow_next(37, 111106, 792956055345414585, p);
    assert((37int * 792956055345414585) % 2305843009213693951 == 1669257937216012233);
    lemma_pow_double(37, 111107, 1669257937216012233, p);
    assert((1669257937216012233int * 1669257937216012233) % 2305843009213693951 == 2074582478826140785);
    lemma_pow_double(37, 222214, 2074582478826140785, p);
    assert((2074582478826140785int * 2074582478826140785) % 2305843009213693951 == 1377965448165270081);
}

/// From the power of 37 with the exponent 444428 to that with the exponent 7110872.
proof fn lemma_power_less_151_4()
    requires
        pow_mod(37, 444428, m61()) == 1377965448165270081,
    ensures
        pow_mod(37, 7110872, m61()) == 1845970149159417866,
{
    let p = m61();
    lemma_pow_next(37, 444428, 1377965448165270081, p);
    assert((37int * 1377965448165270081) % 2305843009213693951 == 256175379413726075);
    lemma_pow_double(37, 444429, 256175379413726075, p);
    assert((256175379413726075int * 256175379413726075) % 2305843009213693951 == 1878093009457295519);
    lemma_pow_next(37, 888858, 1878093009457295519, p);
    assert((37int * 1878093009457295519) % 2305843009213693951 == 314151073509115673);
    lemma_pow_double(37, 888859, 314151073509115673, p);
    assert((314151073509115673int * 314151073509115673) % 2305843009213693951 == 1843270311929566165);
    lemma_pow_double(37, 1777718, 1843270311929566165, p);
    assert((1843270311929566165int * 1843270311929566165) % 2305843009213693951 == 1255962243698527563);
    lemma_pow_double(37, 3555436, 1255962243698527563, p);
    assert((1255962243698527563int * 1255962243698527563) % 2305843009213693951 == 1845970149159417866);
}

/// From the power of 37 with the exponent 7110872 to that with the exponent 227547936.
proof fn lemma_power_less_151_5()
    requires
        pow_mod(37, 7110872, m61()) == 1845970149159417866,
    ensures
        pow_mod(37, 227547936, m61()) == 404490060077652709,
{
    let p = m61();
    lemma_pow_next(37, 7110872, 1845970149159417866, p);
    assert((37int * 1845970149159417866) % 2305843009213693951 == 1431448251701336463);
    lemma_pow_double(37, 7110873, 1431448251701336463, p);
    assert((1431448251701336463int * 1431448251701336463) % 2305843009213693951 == 1720169769625558843);
    lemma_pow_double(37, 14221746, 1720169769625558843, p);
    assert((1720169769625558843int * 1720169769625558843) % 2305843009213693951 == 1967027654544662291);
    lemma_pow_double(37, 28443492, 1967027654544662291, p);
    assert((1967027654544662291int * 1967027654544662291) % 2305843009213693951 == 487123809281246237);
    lemma_pow_double(37, 56886984, 487123809281246237, p);
    assert((487123809281246237int * 487123809281246237) % 2305843009213693951 == 2110190743308402835);
    lemma_pow_double(37, 113773968, 2110190743308402835, p);
    assert((2110190743308402835int * 2110190743308402835) % 2305843009213693951 == 404490060077652709);
}

/// From the power of 37 with the exponent 227547936 to that with the exponent 3640766979.
proof fn lemma_power_less_151_6()
    requires
        pow_mod(37, 227547936, m61()) == 404490060077652709,
    ensures
        pow_mod(37, 3640766979, m61()) == 1631041166378516586,
{
    let p = m61();
    lemma_pow_double(37, 227547936, 404490060077652709, p);
    assert((404490060077652709int * 404490060077652709) % 2305843009213693951 == 438048697937724375);
    lemma_pow_double(37, 455095872, 438048697937724375, p);
    assert((438048697937724375int * 438048697937724375) % 2305843009213693951 == 2252932632060201894);
    lemma_pow_double(37, 910191744, 2252932632060201894, p);
    assert((2252932632060201894int * 2252932632060201894) % 2305843009213693951 == 121388490398939286);
    lemma_pow_next(37, 1820383488, 121388490398939286, p);
    assert((37int * 121388490398939286) % 2305843009213693951 == 2185531135547059631);
    lemma_pow_double(37, 1820383489, 2185531135547059631, p);
    assert((2185531135547059631int * 2185531135547059631) % 2305843009213693951 == 1539764145608301930);
    lemma_pow_next(37, 3640766978, 1539764145608301930, p);
    assert((37int * 1539764145608301930) % 2305843009213693951 == 1631041166378516586);
}

/// From the power of 37 with the exponent 3640766979 to that with the exponent 58252271670.
proof fn lemma_power_less_151_7()
    requires
        pow_mod(37, 3640766979, m61()) == 1631041166378516586,
    ensures
        pow_mod(37, 58252271670, m61()) == 536697731232903470,
{
    let p = m61();
    lemma_pow_double(37, 3640766979, 1631041166378516586, p);
    assert((1631041166378516586int * 1631041166378516586) % 2305843009213693951 == 1013860923015364884);
    lemma_pow_double(37, 7281533958, 1013860923015364884, p);
    assert((1013860923015364884int * 1013860923015364884) % 2305843009213693951 == 992908198188264012);
    lemma_pow_next(37, 14563067916, 992908198188264012, p);
    assert((37int * 992908198188264012) % 2305843009213693951 == 2149958194760359179);
    lemma_pow_double(37, 14563067917, 2149958194760359179, p);
    assert((2149958194760359179int * 2149958194760359179) % 2305843009213693951 == 1632918730181454753);
    lemma_pow_next(37, 29126135834, 1632918730181454753, p);
    assert((37int * 1632918730181454753) % 2305843009213693951 == 466074777157783135);
    lemma_pow_double(37, 29126135835, 466074777157783135, p);
    assert((466074777157783135int * 466074777157783135) % 2305843009213693951 == 536697731232903470);
}

/// From the power of 37 with the exponent 58252271670 to that with the exponent 1864072693448.
proof fn lemma_power_less_151_8()
    requires
        pow_mod(37, 58252271670, m61()) == 536697731232903470,
    ensures
        pow_mod(37, 1864072693448, m61()) == 753745908267135817,
{
    let p = m61();
    lemma_pow_double(37, 58252271670, 536697731232903470, p);
    assert((536697731232903470int * 536697731232903470) % 2305843009213693951 == 1448669616528059213);
    lemma_pow_double(37, 116504543340, 1448669616528059213, p);
    assert((1448669616528059213int * 1448669616528059213) % 2305843009213693951 == 1934499936572201962);
    lemma_pow_next(37, 233009086680, 1934499936572201962, p);
    assert((37int * 1934499936572201962) % 2305843009213693951 == 95364367546960113);
    lemma_pow_double(37, 233009086681, 95364367546960113, p);
    assert((95364367546960113int * 95364367546960113) % 2305843009213693951 == 1105655107239133538);
    lemma_pow_double(37, 466018173362, 1105655107239133538, p);
    assert((1105655107239133538int * 1105655107239133538) % 2305843009213693951 == 953472430199435278);
    lemma_pow_double(37, 932036346724, 953472430199435278, p);
    assert((953472430199435278int * 953472430199435278) % 2305843009213693951 == 753745908267135817);
}

/// From the power of 37 with the exponent 1864072693448 to that with the exponent 59650326190337.
proof fn lemma_power_less_151_9()
    requires
        pow_mod(37, 1864072693448, m61()) == 753745908267135817,
    ensures
        pow_mod(37, 59650326190337, m61()) == 408254041272210791,
{
    let p = m61();
    lemma_pow_double(37, 1864072693448, 753745908267135817, p);
    assert((753745908267135817int * 753745908267135817) % 2305843009213693951 == 86416242946414448);
    lemma_pow_double(37, 3728145386896, 86416242946414448, p);
    assert((86416242946414448int * 86416242946414448) % 2305843009213693951 == 615400116022059587);
    lemma_pow_double(37, 7456290773792, 615400116022059587, p);
    assert((615400116022059587int * 615400116022059587) % 2305843009213693951 == 2112679117412952014);
    lemma_pow_double(37, 14912581547584, 2112679117412952014, p);
    assert((2112679117412952014int * 2112679117412952014) % 2305843009213693951 == 1240380924626345293);
    lemma_pow_double(37, 29825163095168, 1240380924626345293, p);
    assert((1240380924626345293int * 1240380924626345293) % 2305843009213693951 == 447274462318055904);
    lemma_pow_next(37, 59650326190336, 447274462318055904, p);
    assert((37int * 447274462318055904) % 2305843009213693951 == 408254041272210791);
}

/// From the power of 37 with the exponent 59650326190337 to that with the exponent 954405219045402.
proof fn lemma_power_less_151_10()
    requires
        pow_mod(37, 59650326190337, m61()) == 408254041272210791,
    ensures
        pow_mod(37, 954405219045402, m61()) == 2032329206759249881,
{
    let p = m61();
    lemma_pow_double(37, 59650326190337, 408254041272210791, p);
    assert((408254041272210791int * 408254041272210791) % 2305843009213693951 == 1650662953844446270);
    lemma_pow_next(37, 119300652380674, 1650662953844446270, p);
    assert((37int * 1650662953844446270) % 2305843009213693951 == 1122611052688469264);
    lemma_pow_double(37, 119300652380675, 1122611052688469264, p);
    assert((1122611052688469264int * 1122611052688469264) % 2305843009213693951 == 1511142429613439500);
    lemma_pow_double(37, 238601304761350, 1511142429613439500, p);
    assert((1511142429613439500int * 1511142429613439500) % 2305843009213693951 == 993489980366104775);
    lemma_pow_next(37, 477202609522700, 993489980366104775, p);
    assert((37int * 993489980366104775) % 2305843009213693951 == 2171484135340467410);
    lemma_pow_double(37, 477202609522701, 2171484135340467410, p);
    assert((2171484135340467410int * 2171484135340467410) % 2305843009213693951 == 2032329206759249881);
}

/// From the power of 37 with the exponent 954405219045402 to that with the exponent 15270483504726450.
proof fn lemma_power_less_151_11()
    requires
        pow_mod(37, 954405219045402, m61()) == 2032329206759249881,
    ensures
        pow_mod(37, 15270483504726450, m61()) == 1433721343585656393,
{
    let p = m61();
    lemma_pow_next(37, 954405219045402, 2032329206759249881, p);
    assert((37int * 2032329206759249881) % 2305843009213693951 == 1409204355254039165);
    lemma_pow_double(37, 954405219045403, 1409204355254039165, p);
    assert((1409204355254039165int * 1409204355254039165) % 2305843009213693951 == 1627033447147933315);
    lemma_pow_double(37, 1908810438090806, 1627033447147933315, p);
    assert((1627033447147933315int * 1627033447147933315) % 2305843009213693951 == 904830826465624872);
    lemma_pow_double(37, 3817620876181612, 904830826465624872, p);
    assert((904830826465624872int * 904830826465624872) % 2305843009213693951 == 224175538612959044);
    lemma_pow_next(37, 7635241752363224, 224175538612959044, p);
    assert((37int * 224175538612959044) % 2305843009213693951 == 1376965901038402775);
    lemma_pow_double(37, 7635241752363225, 1376965901038402775, p);
    assert((1376965901038402775int * 1376965901038402775) % 2305843009213693951 == 1433721343585656393);
}

/// The power of 37 with the exponent 15270483504726450, by squaring and multiplying
/// along the binary digits of the exponent.
proof fn lemma_power_less_151()
    ensures
        pow_mod(37, 15270483504726450, m61()) == 1433721343585656393,
{
    assert(pow_mod(37, 1, m61()) == 37) by {
        reveal_with_fuel(pow_mod, 3);
    }
    lemma_power_less_151_0();
    lemma_power_less_151_1();
    lemma_power_less_151_2();
    lemma_power_less_151_3();
    lemma_power_less_151_4();
    lemma_power_less_151_5();
    lemma_power_less_151_6();
    lemma_power_less_151_7();
    lemma_power_less_151_8();
    lemma_power_less_151_9();
    lemma_power_less_151_10();
    lemma_power_less_151_11();
}

/// From the power of 37 with the exponent 1 to that with the exponent 48.
proof fn lemma_power_less_331_0()
    requires
        pow_mod(37, 1, m61()) == 37,
    ensures
        pow_mod(37, 48, m61()) == 2215071879289046716,
{
    let p = m61();
    lemma_pow_double(37, 1, 37, p);
    assert((37int * 37) % 2305843009213693951 == 1369);
    lemma_pow_next(37, 2, 1369, p);
    assert((37int * 1369) % 2305843009213693951 == 50653);
    lemma_pow_double(37, 3, 50653, p);
    assert((50653int * 50653) % 2305843009213693951 == 2565726409);
    lemma_pow_double(37, 6, 2565726409, p);
    assert((2565726409int * 2565726409) % 2305843009213693951 == 1971265987412647379);
    lemma_pow_double(37, 12, 1971265987412647379, p);
    assert((1971265987412647379int * 1971265987412647379) % 2305843009213693951 == 398663858489942875);
    lemma_pow_double(37, 24, 398663858489942875, p);
    assert((398663858489942875int * 398663858489942875) % 2305843009213693951 == 2215071879289046716);
}

/// From the power of 37 with the exponent 48 to that with the exponent 395.
proof fn lemma_power_less_331_1()
    requires
        pow_mod(37, 48, m61()) == 2215071879289046716,
    ensures
        pow_mod(37, 395, m61()) == 1581628365781689195,
{
    let p = m61();
    lemma_pow_next(37, 48, 2215071879289046716, p);
    assert((37int * 2215071879289046716) % 2305843009213693951 == 1253154211215440207);
    lemma_pow_double(37, 49, 1253154211215440207, p);
    assert((1253154211215440207int * 1253154211215440207) % 2305843009213693951 == 1639602719609543274);
    lemma_pow_double(37, 98, 1639602719609543274, p);
    assert((1639602719609543274int * 1639602719609543274) % 2305843009213693951 == 137866922059788599);
    lemma_pow_next(37, 196, 137866922059788599, p);
    assert((37int * 137866922059788599) % 2305843009213693951 == 489390097784790261);
    lemma_pow_double(37, 197, 489390097784790261, p);
    assert((489390097784790261int * 489390097784790261) % 2305843009213693951 == 2036989315151889071);
    lemma_pow_next(37, 394, 2036989315151889071, p);
    assert((37int * 2036989315151889071) % 2305843009213693951 == 1581628365781689195);
}

/// From the power of 37 with the exponent 395 to that with the exponent 3167.
proof fn lemma_power_less_331_2()
    requires
        pow_mod(37, 395, m61()) == 1581628365781689195,
    ensures
        pow_mod(37, 3167, m61()) == 1632860793607410850,
{
    let p = m61();
    lemma_pow_double(37, 395, 1581628365781689195, p);
    assert((1581628365781689195int * 1581628365781689195) % 2305843009213693951 == 432525971906723295);
    lemma_pow_next(37, 790, 432525971906723295, p);
    assert((37int * 432525971906723295) % 2305843009213693951 == 2168402905266598209);
    lemma_pow_double(37, 791, 2168402905266598209, p);
    assert((2168402905266598209int * 2168402905266598209) % 2305843009213693951 == 492052673202035038);
    lemma_pow_next(37, 1582, 492052673202035038, p);
    assert((37int * 492052673202035038) % 2305843009213693951 == 2065047843979438749);
    lemma_pow_double(37, 1583, 2065047843979438749, p);
    assert((2065047843979438749int * 2065047843979438749) % 2305843009213693951 == 1228212918072097187);
    lemma_pow_next(37, 3166, 1228212918072097187, p);
    assert((37int * 1228212918072097187) % 2305843009213693951 == 1632860793607410850);
}

/// From the power of 37 with the exponent 3167 to that with the exponent 25343.
proof fn lemma_power_less_331_3()
    requires
        pow_mod(37, 3167, m61()) == 1632860793607410850,
    ensures
        pow_mod(37, 25343, m61()) == 664791449394490029,
{
    let p = m61();
    lemma_pow_double(37, 3167, 1632860793607410850, p);
    assert((1632860793607410850int * 1632860793607410850) % 2305843009213693951 == 835459587746375761);
    lemma_pow_next(37, 6334, 835459587746375761, p);
    assert((37int * 835459587746375761) % 2305843009213693951 == 936045626837881794);
    lemma_pow_double(37, 6335, 936045626837881794, p);
    assert((936045626837881794int * 936045626837881794) % 2305843009213693951 == 1558259013723622184);
    lemma_pow_next(37, 12670, 1558259013723622184, p);
    assert((37int * 1558259013723622184) % 2305843009213693951 == 9508277431672033);
    lemma_pow_double(37, 12671, 9508277431672033, p);
    assert((9508277431672033int * 9508277431672033) % 2305843009213693951 == 1700609532382816938);
    lemma_pow_next(37, 25342, 1700609532382816938, p);
    assert((37int * 1700609532382816938) % 2305843009213693951 == 664791449394490029);
}

/// From the power of 37 with the exponent 25343 to that with the exponent 405491.
proof fn lemma_power_less_331_4()
    requires
        pow_mod(37, 25343, m61()) == 664791449394490029,
    ensures
        pow_mod(37, 405491, m61()) == 1015050315073746930,
{
    let p = m61();
    lemma_pow_double(37, 25343, 664791449394490029, p);
    assert((664791449394490029int * 664791449394490029) % 2305843009213693951 == 487236098161560180);
    lemma_pow_double(37, 50686, 487236098161560180, p);
    assert((487236098161560180int * 487236098161560180) % 2305843009213693951 == 397443731981868493);
    lemma_pow_double(37, 101372, 397443731981868493, p);
    assert((397443731981868493int * 397443731981868493) % 2305843009213693951 == 573824257960312935);
    lemma_pow_next(37, 202744, 573824257960312935, p);
    assert((37int * 573824257960312935) % 2305843009213693951 == 478910461608333036);
    lemma_pow_double(37, 202745, 478910461608333036, p);
    assert((478910461608333036int * 478910461608333036) % 2305843009213693951 == 2021676394862485226);
    lemma_pow_next(37, 405490, 2021676394862485226, p);
    assert((37int * 2021676394862485226) % 2305843009213693951 == 1015050315073746930);
}

/// From the power of 37 with the exponent 405491 to that with the exponent 6487866.
proof fn lemma_power_less_331_5()
    requires
        pow_mod(37, 405491, m61()) == 1015050315073746930,
    ensures
        pow_mod(37, 6487866, m61()) == 887286010314584401,
{
    let p = m61();
    lemma_pow_double(37, 405491, 1015050315073746930, p);
    assert((1015050315073746930int * 1015050315073746930) % 2305843009213693951 == 1938622727352771974);
    lemma_pow_next(37, 810982, 1938622727352771974, p);
    assert((37int * 1938622727352771974) % 2305843009213693951 == 247907626428050557);
    lemma_pow_double(37, 810983, 247907626428050557, p);
    assert((247907626428050557int * 247907626428050557) % 2305843009213693951 == 787350629361550336);
    lemma_pow_double(37, 1621966, 787350629361550336, p);
    assert((787350629361550336int * 787350629361550336) % 2305843009213693951 == 1098064852146858324);
    lemma_pow_next(37, 3243932, 1098064852146858324, p);
    assert((37int * 1098064852146858324) % 2305843009213693951 == 1429068372800960821);
    lemma_pow_double(37, 3243933, 1429068372800960821, p);
    assert((1429068372800960821int * 1429068372800960821) % 2305843009213693951 == 887286010314584401);
}

/// From the power of 37 with the exponent 6487866 to that with the exponent 415223424.
proof fn lemma_power_less_331_6()
    requires
        pow_mod(37, 6487866, m61()) == 887286010314584401,
    ensures
        pow_mod(37, 415223424, m61()) == 1813308835624495303,
{
    let p = m61();
    lemma_pow_double(37, 6487866, 887286010314584401, p);
    assert((887286010314584401int * 887286010314584401) % 2305843009213693951 == 835686323253738562);
    lemma_pow_double(37, 12975732, 835686323253738562, p);
    assert((835686323253738562int * 835686323253738562) % 2305843009213693951 == 1478640314050531428);
    lemma_pow_double(37, 25951464, 1478640314050531428, p);
    assert((1478640314050531428int * 1478640314050531428) % 2305843009213693951 == 1079313284874010789);
    lemma_pow_double(37, 51902928, 1079313284874010789, p);
    assert((1079313284874010789int * 1079313284874010789) % 2305843009213693951 == 1719990106134480839);
    lemma_pow_double(37, 103805856, 1719990106134480839, p);
    assert((1719990106134480839int * 1719990106134480839) % 2305843009213693951 == 496051684216611343);
    lemma_pow_double(37, 207611712, 496051684216611343, p);
    assert((496051684216611343int * 496051684216611343) % 2305843009213693951 == 1813308835624495303);
}

/// From the power of 37 with the exponent 415223424 to that with the exponent 6643574790.
proof fn lemma_power_less_331_7()
    requires
        pow_mod(37, 415223424, m61()) == 1813308835624495303,
    ensures
        pow_mod(37, 6643574790, m61()) == 1226371963323455181,
{
    let p = m61();
    lemma_pow_double(37, 415223424, 1813308835624495303, p);
    assert((1813308835624495303int * 1813308835624495303) % 2305843009213693951 == 1981502825351848235);
    lemma_pow_double(37, 830446848, 1981502825351848235, p);
    assert((1981502825351848235int * 1981502825351848235) % 2305843009213693951 == 1709575434784390868);
    lemma_pow_next(37, 1660893696, 1709575434784390868, p);
    assert((37int * 1709575434784390868) % 2305843009213693951 == 996529838252725439);
    lemma_pow_double(37, 1660893697, 996529838252725439, p);
    assert((996529838252725439int * 996529838252725439) % 2305843009213693951 == 2061460950979186030);
    lemma_pow_next(37, 3321787394, 2061460950979186030, p);
    assert((37int * 2061460950979186030) % 2305843009213693951 == 181235882177982727);
    lemma_pow_double(37, 3321787395, 181235882177982727, p);
    assert((181235882177982727int * 181235882177982727) % 2305843009213693951 == 1226371963323455181);
}

/// From the power of 37 with the exponent 6643574790 to that with the exponent 212594393284.
proof fn lemma_power_less_331_8()
    requires
        pow_mod(37, 6643574790, m61()) == 1226371963323455181,
    ensures
        pow_mod(37, 212594393284, m61()) == 1777631661411056057,
{
    let p = m61();
    lemma_pow_double(37, 6643574790, 1226371963323455181, p);
    assert((1226371963323455181int * 1226371963323455181) % 2305843009213693951 == 409494360453244594);
    lemma_pow_double(37, 13287149580, 409494360453244594, p);
    assert((409494360453244594int * 409494360453244594) % 2305843009213693951 == 1743686887285837804);
    lemma_pow_double(37, 26574299160, 1743686887285837804, p);
    assert((1743686887285837804int * 1743686887285837804) % 2305843009213693951 == 637391249652429027);
    lemma_pow_next(37, 53148598320, 637391249652429027, p);
    assert((37int * 637391249652429027) % 2305843009213693951 == 525046145002934489);
    lemma_pow_double(37, 53148598321, 525046145002934489, p);
    assert((525046145002934489int * 525046145002934489) % 2305843009213693951 == 1651396226218083413);
    lemma_pow_double(37, 106297196642, 1651396226218083413, p);
    assert((1651396226218083413int * 1651396226218083413) % 2305843009213693951 == 1777631661411056057);
}

/// From the power of 37 with the exponent 212594393284 to that with the exponent 1700755146286.
proof fn lemma_power_less_331_9()
    requires
        pow_mod(37, 212594393284, m61()) == 1777631661411056057,
    ensures
        pow_mod(37, 1700755146286, m61()) == 1057525928262300886,
{
    let p = m61();
    lemma_pow_next(37, 212594393284, 1777631661411056057, p);
    assert((37int * 1777631661411056057) % 2305843009213693951 == 1208767214225643481);
    lemma_pow_double(37, 212594393285, 1208767214225643481, p);
    assert((1208767214225643481int * 1208767214225643481) % 2305843009213693951 == 966309870903081651);
    lemma_pow_next(37, 425188786570, 966309870903081651, p);
    assert((37int * 966309870903081651) % 2305843009213693951 == 1165820085208611822);
    lemma_pow_double(37, 425188786571, 1165820085208611822, p);
    assert((1165820085208611822int * 1165820085208611822) % 2305843009213693951 == 1501703478979709582);
    lemma_pow_next(37, 850377573142, 1501703478979709582, p);
    assert((37int * 1501703478979709582) % 2305843009213693951 == 222796501120599710);
    lemma_pow_double(37, 850377573143, 222796501120599710, p);
    assert((222796501120599710int * 222796501120599710) % 2305843009213693951 == 1057525928262300886);
}

/// From the power of 37 with the exponent 1700755146286 to that with the exponent 13606041170302.
proof fn lemma_power_less_331_10()
    requires
        pow_mod(37, 1700755146286, m61()) == 1057525928262300886,
    ensures
        pow_mod(37, 13606041170302, m61()) == 740105086372736400,
{
    let p = m61();
    lemma_pow_next(37, 1700755146286, 1057525928262300886, p);
    assert((37int * 1057525928262300886) % 2305843009213693951 == 2234971198286029566);
    lemma_pow_double(37, 1700755146287, 2234971198286029566, p);
    assert((2234971198286029566int * 2234971198286029566) % 2305843009213693951 == 448670037292649769);
    lemma_pow_next(37, 3401510292574, 448670037292649769, p);
    assert((37int * 448670037292649769) % 2305843009213693951 == 459890315332183796);
    lemma_pow_double(37, 3401510292575, 459890315332183796, p);
    assert((459890315332183796int * 459890315332183796) % 2305843009213693951 == 408465262810217873);
    lemma_pow_next(37, 6803020585150, 408465262810217873, p);
    assert((37int * 408465262810217873) % 2305843009213693951 == 1278156668695897595);
    lemma_pow_double(37, 6803020585151, 1278156668695897595, p);
    assert((1278156668695897595int * 1278156668695897595) % 2305843009213693951 == 740105086372736400);
}

/// From the power of 37 with the exponent 13606041170302 to that with the exponent 217696658724856.
proof fn lemma_power_less_331_11()
    requires
        pow_mod(37, 13606041170302, m61()) == 740105086372736400,
    ensures
        pow_mod(37, 217696658724856, m61()) == 454515724839615829,
{
    let p = m61();
    lemma_pow_next(37, 13606041170302, 740105086372736400, p);
    assert((37int * 740105086372736400) % 2305843009213693951 == 2019615094440613339);
    lemma_pow_double(37, 13606041170303, 2019615094440613339, p);
    assert((2019615094440613339int * 2019615094440613339) % 2305843009213693951 == 195470546606888782);
    lemma_pow_next(37, 27212082340606, 195470546606888782, p);
    assert((37int * 195470546606888782) % 2305843009213693951 == 314881196813803081);
    lemma_pow_double(37, 27212082340607, 314881196813803081, p);
    assert((314881196813803081int * 314881196813803081) % 2305843009213693951 == 854694431541353119);
    lemma_pow_double(37, 54424164681214, 854694431541353119, p);
    assert((854694431541353119int * 854694431541353119) % 2305843009213693951 == 693625213112729168);
    lemma_pow_double(37, 108848329362428, 693625213112729168, p);
    assert((693625213112729168int * 693625213112729168) % 2305843009213693951 == 454515724839615829);
}

/// From the power of 37 with the exponent 217696658724856 to that with the exponent 1741573269798862.
proof fn lemma_power_less_331_12()
    requires
        pow_mod(37, 217696658724856, m61()) == 454515724839615829,
    ensures
        pow_mod(37, 1741573269798862, m61()) == 1073986377252543548,
{
    let p = m61();
    lemma_pow_next(37, 217696658724856, 454515724839615829, p);
    assert((37int * 454515724839615829) % 2305843009213693951 == 676180754569928016);
    lemma_pow_double(37, 217696658724857, 676180754569928016, p);
    assert((676180754569928016int * 676180754569928016) % 2305843009213693951 == 799173804941660862);
    lemma_pow_next(37, 435393317449714, 799173804941660862, p);
    assert((37int * 799173804941660862) % 2305843009213693951 == 1899314672277124482);
    lemma_pow_double(37, 435393317449715, 1899314672277124482, p);
    assert((1899314672277124482int * 1899314672277124482) % 2305843009213693951 == 350701235722089049);
    lemma_pow_next(37, 870786634899430, 350701235722089049, p);
    assert((37int * 350701235722089049) % 2305843009213693951 == 1446730675648825058);
    lemma_pow_double(37, 870786634899431, 1446730675648825058, p);
    assert((1446730675648825058int * 1446730675648825058) % 2305843009213693951 == 1073986377252543548);
}

/// From the power of 37 with the exponent 1741573269798862 to that with the exponent 6966293079195450.
proof fn lemma_power_less_331_13()
    requires
        pow_mod(37, 1741573269798862, m61()) == 1073986377252543548,
    ensures
        pow_mod(37, 6966293079195450, m61()) == 185945230422323302,
{
    let p = m61();
    lemma_pow_double(37, 1741573269798862, 1073986377252543548, p);
    assert((1073986377252543548int * 1073986377252543548) % 2305843009213693951 == 404955538311483045);
    lemma_pow_next(37, 3483146539597724, 404955538311483045, p);
    assert((37int * 404955538311483045) % 2305843009213693951 == 1148296862242708959);
    lemma_pow_double(37, 3483146539597725, 1148296862242708959, p);
    assert((1148296862242708959int * 1148296862242708959) % 2305843009213693951 == 185945230422323302);
}

/// The power of 37 with the exponent 6966293079195450, by squaring and multiplying
/// along the binary digits of the exponent.
proof fn lemma_power_less_331()
    ensures
        pow_mod(37, 6966293079195450, m61()) == 185945230422323302,
{
    assert(pow_mod(37, 1, m61()) == 37) by {
        reveal_with_fuel(pow_mod, 3);
    }
    lemma_power_less_331_0();
    lemma_power_less_331_1();
    lemma_power_less_331_2();
    lemma_power_less_331_3();
    lemma_power_less_331_4();
    lemma_power_less_331_5();
    lemma_power_less_331_6();
    lemma_power_less_331_7();
    lemma_power_less_331_8();
    lemma_power_less_331_9();
    lemma_power_less_331_10();
    lemma_power_less_331_11();
    lemma_power_less_331_12();
    lemma_power_less_331_13();
}

/// From the power of 37 with the exponent 1 to that with the exponent 48.
proof fn lemma_power_less_1321_0()
    requires
        pow_mod(37, 1, m61()) == 37,
    ensures
        pow_mod(37, 48, m61()) == 2215071879289046716,
{
    let p = m61();
    lemma_pow_double(37, 1, 37, p);
    assert((37int * 37) % 2305843009213693951 == 1369);
    lemma_pow_next(37, 2, 1369, p);
    assert((37int * 1369) % 2305843009213693951 == 50653);
    lemma_pow_double(37, 3, 50653, p);
    assert((50653int * 50653) % 2305843009213693951 == 2565726409);
    lemma_pow_double(37, 6, 2565726409, p);
    assert((2565726409int * 2565726409) % 2305843009213693951 == 1971265987412647379);
    lemma_pow_double(37, 12, 1971265987412647379, p);
    assert((1971265987412647379int * 1971265987412647379) % 2305843009213693951 == 398663858489942875);
    lemma_pow_double(37, 24, 398663858489942875, p);
    assert((398663858489942875int * 398663858489942875) % 2305843009213693951 == 2215071879289046716);
}

/// From the power of 37 with the exponent 48 to that with the exponent 792.
proof fn lemma_power_less_1321_1()
    requires
        pow_mod(37, 48, m61()) == 2215071879289046716,
    ensures
        pow_mod(37, 792, m61()) == 1832245181598539399,
{
    let p = m61();
    lemma_pow_next(37, 48, 2215071879289046716, p);
    assert((37int * 2215071879289046716) % 2305843009213693951 == 1253154211215440207);
    lemma_pow_double(37, 49, 1253154211215440207, p);
    assert((1253154211215440207int * 1253154211215440207) % 2305843009213693951 == 1639602719609543274);
    lemma_pow_next(37, 98, 1639602719609543274, p);
    assert((37int * 1639602719609543274) % 2305843009213693951 == 713382385997058412);
    lemma_pow_double(37, 99, 713382385997058412, p);
    assert((713382385997058412int * 713382385997058412) % 2305843009213693951 == 1966532553541382000);
    lemma_pow_double(37, 198, 1966532553541382000, p);
    assert((1966532553541382000int * 1966532553541382000) % 2305843009213693951 == 874174303580151440);
    lemma_pow_double(37, 396, 874174303580151440, p);
    assert((874174303580151440int * 874174303580151440) % 2305843009213693951 == 1832245181598539399);
}

/// From the power of 37 with the exponent 792 to that with the exponent 6350.
proof fn lemma_power_less_1321_2()
    requires
        pow_mod(37, 792, m61()) == 1832245181598539399,
    ensures
        pow_mod(37, 6350, m61()) == 621497757265893580,
{
    let p = m61();
    lemma_pow_next(37, 792, 1832245181598539399, p);
    assert((37int * 1832245181598539399) % 2305843009213693951 == 923624451948833184);
    lemma_pow_double(37, 793, 923624451948833184, p);
    assert((923624451948833184int * 923624451948833184) % 2305843009213693951 == 912014129712253884);
    lemma_pow_next(37, 1586, 912014129712253884, p);
    assert((37int * 912014129712253884) % 2305843009213693951 == 1462720670361678394);
    lemma_pow_double(37, 1587, 1462720670361678394, p);
    assert((1462720670361678394int * 1462720670361678394) % 2305843009213693951 == 2203235068579322809);
    lemma_pow_next(37, 3174, 2203235068579322809, p);
    assert((37int * 2203235068579322809) % 2305843009213693951 == 815192214955655648);
    lemma_pow_double(37, 3175, 815192214955655648, p);
    assert((815192214955655648int * 815192214955655648) % 2305843009213693951 == 621497757265893580);
}

/// From the power of 37 with the exponent 6350 to that with the exponent 101603.
proof fn lemma_power_less_1321_3()
    requires
        pow_mod(37, 6350, m61()) == 621497757265893580,
    ensures
        pow_mod(37, 101603, m61()) == 2288678211812649998,
{
    let p = m61();
    lemma_pow_double(37, 6350, 621497757265893580, p);
    assert((621497757265893580int * 621497757265893580) % 2305843009213693951 == 2198386731040081295);
    lemma_pow_double(37, 12700, 2198386731040081295, p);
    assert((2198386731040081295int * 2198386731040081295) % 2305843009213693951 == 53350045692349326);
    lemma_pow_double(37, 25400, 53350045692349326, p);
    assert((53350045692349326int * 53350045692349326) % 2305843009213693951 == 248191778544624530);
    lemma_pow_next(37, 50800, 248191778544624530, p);
    assert((37int * 248191778544624530) % 2305843009213693951 == 2265566778510025757);
    lemma_pow_double(37, 50801, 2265566778510025757, p);
    assert((2265566778510025757int * 2265566778510025757) % 2305843009213693951 == 872017225178126253);
    lemma_pow_next(37, 101602, 872017225178126253, p);
    assert((37int * 872017225178126253) % 2305843009213693951 == 2288678211812649998);
}

/// From the power of 37 with the exponent 101603 to that with the exponent 3251298.
proof fn lemma_power_less_1321_4()
    requires
        pow_mod(37, 101603, m61()) == 2288678211812649998,
    ensures
        pow_mod(37, 3251298, m61()) == 423106449274076938,
{
    let p = m61();
    lemma_pow_double(37, 101603, 2288678211812649998, p);
    assert((2288678211812649998int * 2288678211812649998) % 2305843009213693951 == 673425718396071659);
    lemma_pow_double(37, 203206, 673425718396071659, p);
    assert((673425718396071659int * 673425718396071659) % 2305843009213693951 == 2292940126354470532);
    lemma_pow_double(37, 406412, 2292940126354470532, p);
    assert((2292940126354470532int * 2292940126354470532) % 2305843009213693951 == 404481710757480823);
    lemma_pow_double(37, 812824, 404481710757480823, p);
    assert((404481710757480823int * 404481710757480823) % 2305843009213693951 == 308885850223052471);
    lemma_pow_next(37, 1625648, 308885850223052471, p);
    assert((37int * 308885850223052471) % 2305843009213693951 == 2205404421398165623);
    lemma_pow_double(37, 1625649, 2205404421398165623, p);
    assert((2205404421398165623int * 2205404421398165623) % 2305843009213693951 == 423106449274076938);
}

/// From the power of 37 with the exponent 3251298 to that with the exponent 26010398.
proof fn lemma_power_less_1321_5()
    requires
        pow_mod(37, 3251298, m61()) == 423106449274076938,
    ensures
        pow_mod(37, 26010398, m61()) == 477502873901018207,
{
    let p = m61();
    lemma_pow_next(37, 3251298, 423106449274076938, p);
    assert((37int * 423106449274076938) % 2305843009213693951 == 1819880567858683000);
    lemma_pow_double(37, 3251299, 1819880567858683000, p);
    assert((1819880567858683000int * 1819880567858683000) % 2305843009213693951 == 1460128991403726442);
    lemma_pow_next(37, 6502598, 1460128991403726442, p);
    assert((37int * 1460128991403726442) % 2305843009213693951 == 990383470022917481);
    lemma_pow_double(37, 6502599, 990383470022917481, p);
    assert((990383470022917481int * 990383470022917481) % 2305843009213693951 == 295513172737795134);
    lemma_pow_next(37, 13005198, 295513172737795134, p);
    assert((37int * 295513172737795134) % 2305843009213693951 == 1710615354443644154);
    lemma_pow_double(37, 13005199, 1710615354443644154, p);
    assert((1710615354443644154int * 1710615354443644154) % 2305843009213693951 == 477502873901018207);
}

/// From the power of 37 with the exponent 26010398 to that with the exponent 208083198.
proof fn lemma_power_less_1321_6()
    requires
        pow_mod(37, 26010398, m61()) == 477502873901018207,
    ensures
        pow_mod(37, 208083198, m61()) == 2103733633296658394,
{
    let p = m61();
    lemma_pow_next(37, 26010398, 477502873901018207, p);
    assert((37int * 477502873901018207) % 2305843009213693951 == 1526705269841816002);
    lemma_pow_double(37, 26010399, 1526705269841816002, p);
    assert((1526705269841816002int * 1526705269841816002) % 2305843009213693951 == 957130343698516968);
    lemma_pow_next(37, 52020798, 957130343698516968, p);
    assert((37int * 957130343698516968) % 2305843009213693951 == 826177578639718551);
    lemma_pow_double(37, 52020799, 826177578639718551, p);
    assert((826177578639718551int * 826177578639718551) % 2305843009213693951 == 2047157228657078927);
    lemma_pow_next(37, 104041598, 2047157228657078927, p);
    assert((37int * 2047157228657078927) % 2305843009213693951 == 1957841165473713867);
    lemma_pow_double(37, 104041599, 1957841165473713867, p);
    assert((1957841165473713867int * 1957841165473713867) % 2305843009213693951 == 2103733633296658394);
}

/// From the power of 37 with the exponent 208083198 to that with the exponent 1664665598.
proof fn lemma_power_less_1321_7()
    requires
        pow_mod(37, 208083198, m61()) == 2103733633296658394,
    ensures
        pow_mod(37, 1664665598, m61()) == 63253708693872176,
{
    let p = m61();
    lemma_pow_next(37, 208083198, 2103733633296658394, p);
    assert((37int * 2103733633296658394) % 2305843009213693951 == 1745325127924460195);
    lemma_pow_double(37, 208083199, 1745325127924460195, p);
    assert((1745325127924460195int * 1745325127924460195) % 2305843009213693951 == 353182214942414347);
    lemma_pow_next(37, 416166398, 353182214942414347, p);
    assert((37int * 353182214942414347) % 2305843009213693951 == 1538526906800861084);
    lemma_pow_double(37, 416166399, 1538526906800861084, p);
    assert((1538526906800861084int * 1538526906800861084) % 2305843009213693951 == 1917198997327974422);
    lemma_pow_next(37, 832332798, 1917198997327974422, p);
    assert((37int * 1917198997327974422) % 2305843009213693951 == 1761072624724235084);
    lemma_pow_double(37, 832332799, 1761072624724235084, p);
    assert((1761072624724235084int * 1761072624724235084) % 2305843009213693951 == 63253708693872176);
}

/// From the power of 37 with the exponent 1664665598 to that with the exponent 26634649574.
proof fn lemma_power_less_1321_8()
    requires
        pow_mod(37, 1664665598, m61()) == 63253708693872176,
    ensures
        pow_mod(37, 26634649574, m61()) == 1397375195472281549,
{
    let p = m61();
    lemma_pow_double(37, 1664665598, 63253708693872176, p);
    assert((63253708693872176int * 63253708693872176) % 2305843009213693951 == 1708521526375058149);
    lemma_pow_double(37, 3329331196, 1708521526375058149, p);
    assert((1708521526375058149int * 1708521526375058149) % 2305843009213693951 == 2018571113548778380);
    lemma_pow_next(37, 6658662392, 2018571113548778380, p);
    assert((37int * 2018571113548778380) % 2305843009213693951 == 900154906466593628);
    lemma_pow_double(37, 6658662393, 900154906466593628, p);
    assert((900154906466593628int * 900154906466593628) % 2305843009213693951 == 1884445169465771695);
    lemma_pow_next(37, 13317324786, 1884445169465771695, p);
    assert((37int * 1884445169465771695) % 2305843009213693951 == 549180993822734185);
    lemma_pow_double(37, 13317324787, 549180993822734185, p);
    assert((549180993822734185int * 549180993822734185) % 2305843009213693951 == 1397375195472281549);
}

/// From the power of 37 with the exponent 26634649574 to that with the exponent 426154393202.
proof fn lemma_power_less_1321_9()
    requires
        pow_mod(37, 26634649574, m61()) == 1397375195472281549,
    ensures
        pow_mod(37, 426154393202, m61()) == 174961008152684800,
{
    let p = m61();
    lemma_pow_next(37, 26634649574, 1397375195472281549, p);
    assert((37int * 1397375195472281549) % 2305843009213693951 == 974336029773150391);
    lemma_pow_double(37, 26634649575, 974336029773150391, p);
    assert((974336029773150391int * 974336029773150391) % 2305843009213693951 == 767531949375742427);
    lemma_pow_double(37, 53269299150, 767531949375742427, p);
    assert((767531949375742427int * 767531949375742427) % 2305843009213693951 == 1028174308127840095);
    lemma_pow_double(37, 106538598300, 1028174308127840095, p);
    assert((1028174308127840095int * 1028174308127840095) % 2305843009213693951 == 905150235048058351);
    lemma_pow_next(37, 213077196600, 905150235048058351, p);
    assert((37int * 905150235048058351) % 2305843009213693951 == 1208756567786443673);
    lemma_pow_double(37, 213077196601, 1208756567786443673, p);
    assert((1208756567786443673int * 1208756567786443673) % 2305843009213693951 == 174961008152684800);
}

/// From the power of 37 with the exponent 426154393202 to that with the exponent 6818470291249.
proof fn lemma_power_less_1321_10()
    requires
        pow_mod(37, 426154393202, m61()) == 174961008152684800,
    ensures
        pow_mod(37, 6818470291249, m61()) == 739753190498860754,
{
    let p = m61();
    lemma_pow_next(37, 426154393202, 174961008152684800, p);
    assert((37int * 174961008152684800) % 2305843009213693951 == 1861871283221949698);
    lemma_pow_double(37, 426154393203, 1861871283221949698, p);
    assert((1861871283221949698int * 1861871283221949698) % 2305843009213693951 == 218890034787544464);
    lemma_pow_double(37, 852308786406, 218890034787544464, p);
    assert((218890034787544464int * 218890034787544464) % 2305843009213693951 == 1780674643128744138);
    lemma_pow_double(37, 1704617572812, 1780674643128744138, p);
    assert((1780674643128744138int * 1780674643128744138) % 2305843009213693951 == 1153594686673240925);
    lemma_pow_double(37, 3409235145624, 1153594686673240925, p);
    assert((1153594686673240925int * 1153594686673240925) % 2305843009213693951 == 2138876094696336624);
    lemma_pow_next(37, 6818470291248, 2138876094696336624, p);
    assert((37int * 2138876094696336624) % 2305843009213693951 == 739753190498860754);
}

/// From the power of 37 with the exponent 6818470291249 to that with the exponent 109095524659996.
proof fn lemma_power_less_1321_11()
    requires
        pow_mod(37, 6818470291249, m61()) == 739753190498860754,
    ensures
        pow_mod(37, 109095524659996, m61()) == 2108306817830658923,
{
    let p = m61();
    lemma_pow_double(37, 6818470291249, 739753190498860754, p);
    assert((739753190498860754int * 739753190498860754) % 2305843009213693951 == 2171438377690093701);
    lemma_pow_next(37, 13636940582498, 2171438377690093701, p);
    assert((37int * 2171438377690093701) % 2305843009213693951 == 1944557661267872603);
    lemma_pow_double(37, 13636940582499, 1944557661267872603, p);
    assert((1944557661267872603int * 1944557661267872603) % 2305843009213693951 == 2233897094935049485);
    lemma_pow_next(37, 27273881164998, 2233897094935049485, p);
    assert((37int * 2233897094935049485) % 2305843009213693951 == 1949687190117542660);
    lemma_pow_double(37, 27273881164999, 1949687190117542660, p);
    assert((1949687190117542660int * 1949687190117542660) % 2305843009213693951 == 206225659005950175);
    lemma_pow_double(37, 54547762329998, 206225659005950175, p);
    assert((206225659005950175int * 206225659005950175) % 2305843009213693951 == 2108306817830658923);
}

/// From the power of 37 with the exponent 109095524659996 to that with the exponent 872764197279975.
proof fn lemma_power_less_1321_12()
    requires
        pow_mod(37, 109095524659996, m61()) == 2108306817830658923,
    ensures
        pow_mod(37, 872764197279975, m61()) == 1523258487111086724,
{
    let p = m61();
    lemma_pow_double(37, 109095524659996, 2108306817830658923, p);
    assert((2108306817830658923int * 2108306817830658923) % 2305843009213693951 == 2055979049512228902);
    lemma_pow_next(37, 218191049319992, 2055979049512228902, p);
    assert((37int * 2055979049512228902) % 2305843009213693951 == 2284248537114262942);
    lemma_pow_double(37, 218191049319993, 2284248537114262942, p);
    assert((2284248537114262942int * 2284248537114262942) % 2305843009213693951 == 408703062019812224);
    lemma_pow_next(37, 436382098639986, 408703062019812224, p);
    assert((37int * 408703062019812224) % 2305843009213693951 == 1286955239450888582);
    lemma_pow_double(37, 436382098639987, 1286955239450888582, p);
    assert((1286955239450888582int * 1286955239450888582) % 2305843009213693951 == 1474531018892595881);
    lemma_pow_next(37, 872764197279974, 1474531018892595881, p);
    assert((37int * 1474531018892595881) % 2305843009213693951 == 1523258487111086724);
}

/// From the power of 37 with the exponent 872764197279975 to that with the exponent 1745528394559950.
proof fn lemma_power_less_1321_13()
    requires
        pow_mod(37, 872764197279975, m61()) == 1523258487111086724,
    ensures
        pow_mod(37, 1745528394559950, m61()) == 30210013857155493,
{
    let p = m61();
    lemma_pow_double(37, 872764197279975, 1523258487111086724, p);
    assert((1523258487111086724int * 1523258487111086724) % 2305843009213693951 == 30210013857155493);
}

/// The power of 37 with the exponent 1745528394559950, by squaring and multiplying
/// along the binary digits of the exponent.
proof fn lemma_power_less_1321()
    ensures
        pow_mod(37, 1745528394559950, m61()) == 30210013857155493,
{
    assert(pow_mod(37, 1, m61()) == 37) by {
        reveal_with_fuel(pow_mod, 3);
    }
    lemma_power_less_1321_0();
    lemma_power_less_1321_1();
    lemma_power_less_1321_2();
    lemma_power_less_1321_3();
    lemma_power_less_1321_4();
    lemma_power_less_1321_5();
    lemma_power_less_1321_6();
    lemma_power_less_1321_7();
    lemma_power_less_1321_8();
    lemma_power_less_1321_9();
    lemma_power_less_1321_10();
    lemma_power_less_1321_11();
    lemma_power_less_1321_12();
    lemma_power_less_1321_13();
}

/// No power of 37 with a positive exponent below `2^61 - 2` is one.
proof fn lemma_no_smaller_period(e: nat)
    requires
        0 < e < m61_order(),
    ensures
        pow_mod(37, e, m61()) != 1,
{
    let p = m61();
    let n = m61_order();
    if pow_mod(37, e, p) == 1 {
        lemma_power_full();
        let d = lemma_period_gcd(37, e, n, p);
        lemma_divisor(d as int, e as int);
        lemma_divisor(d as int, n as int);
        let m = (n as int) / (d as int);
        assert(m >= 2) by (nonlinear_arith)
            requires
                n == d * m,
                d < n,
                m >= 1,
                d > 0,
        ;
        lemma_mul_is_commutative(d as int, m);
        lemma_mod_multiples_basic(d as int, m);
        assert(divides(m, n as int));
        lemma_listed_prime_divides(m);
        let q = choose|q: int| is_listed(q) && #[trigger] divides(q, m);
        lemma_divisor(q, m);
        let t = m / q;
        assert(n == q * (d * t)) by (nonlinear_arith)
            requires
                n == d * m,
                m == q * t,
        ;
        lemma_period_multiple(37, d, t as nat, p);
        if q == 2 {
            lemma_power_less_2();
            assert(d * t == 1152921504606846975) by (nonlinear_arith)
                requires
                    n == q * (d * t),
                    q == 2,
                    n == 2305843009213693950,
            ;
        }
        if q == 3 {
            lemma_power_less_3();
            assert(d * t == 768614336404564650) by (nonlinear_arith)
                requires
                    n == q * (d * t),
                    q == 3,
                    n == 2305843009213693950,
            ;
        }
        if q == 5 {
            lemma_power_less_5();
            assert(d * t == 461168601842738790) by (nonlinear_arith)
                requires
                    n == q * (d * t),
                    q == 5,
                    n == 2305843009213693950,
            ;
        }
        if q == 7 {
            lemma_power_less_7();
            assert(d * t == 329406144173384850) by (nonlinear_arith)
                requires
                    n == q * (d * t),
                    q == 7,
                    n == 2305843009213693950,
            ;
        }
        if q == 11 {
            lemma_power_less_11();
            assert(d * t == 209622091746699450) by (nonlinear_arith)
                requires
                    n == q * (d * t),
                    q == 11,
                    n == 2305843009213693950,
            ;
        }
        if q == 13 {
            lemma_power_less_13();
            assert(d * t == 177372539170284150) by (nonlinear_arith)
                requires
                    n == q * (d * t),
                    q == 13,
                    n == 2305843009213693950,
            ;
        }
        if q == 31 {
            lemma_power_less_31();
            assert(d * t == 74382032555280450) by (nonlinear_arith)
                requires
                    n == q * (d * t),
                    q == 31,
                    n == 2305843009213693950,
            ;
        }
        if q == 41 {
            lemma_power_less_41();
            assert(d * t == 56240073395455950) by (nonlinear_arith)
                requires
                    n == q * (d * t),
                    q == 41,
                    n == 2305843009213693950,
            ;
        }
        if q == 61 {
            lemma_power_less_61();
            assert(d * t == 37800705069076950) by (nonlinear_arith)
                requires
                    n == q * (d * t),
                    q == 61,
                    n == 2305843009213693950,
            ;
        }
        if q == 151 {
            lemma_power_less_151();
            assert(d * t == 15270483504726450) by (nonlinear_arith)
                requires
                    n == q * (d * t),
                    q == 151,
                    n == 2305843009213693950,
            ;
        }
        if q == 331 {
            lemma_power_less_331();
            assert(d * t == 6966293079195450) by (nonlinear_arith)
                requires
                    n == q * (d * t),
                    q == 331,
                    n == 2305843009213693950,
            ;
        }
        if q == 1321 {
            lemma_power_less_1321();
            assert(d * t == 1745528394559950) by (nonlinear_arith)
                requires
                    n == q * (d * t),
                    q == 1321,
                    n == 2305843009213693950,
            ;
        }
    }
}

/// The power of 37 with the exponent `i`.
pub open spec fn power_of_37(i: int) -> int {
    pow_mod(37, i as nat, m61())
}

/// The powers of 37 with exponents below `2^61 - 2` are distinct.
proof fn lemma_powers_distinct(i: int, j: int)
    requires
        0 <= i < j < m61_order(),
    ensures
        power_of_37(i) != power_of_37(j),
{
    let p = m61();
    let n = m61_order();
    if power_of_37(i) == power_of_37(j) {
        let a = (n - i) as nat;
        let k = (j - i) as nat;
        lemma_power_full();
        lemma_pow_mod_add(37, a, i as nat, p);
        lemma_pow_mod_add(37, a, j as nat, p);
        assert(pow_mod(37, a + (j as nat), p) == 1);
        assert(a + (j as nat) == k + n);
        lemma_period_cancel(37, k, n, p);
        lemma_no_smaller_period(k);
    }
}

/// Every power of 37 is a unit, and not zero.
proof fn lemma_power_is_unit(i: int)
    requires
        0 <= i < m61_order(),
    ensures
        0 < power_of_37(i) < m61(),
        is_unit(power_of_37(i), m61()),
{
    let p = m61();
    let n = m61_order();
    let a = (n - i) as nat;
    lemma_power_full();
    lemma_pow_mod_add(37, i as nat, a, p);
    lemma_pow_mod_range(37, i as nat, p);
    lemma_pow_mod_range(37, a, p);
    let x = power_of_37(i);
    let y = pow_mod(37, a, p);
    assert(i as nat + a == n);
    assert((x * y) % p == 1);
    assert(is_inverse(x, y, p));
    if x == 0 {
        assert(0 * y == 0);
        lemma_small_mod(0, p as nat);
    }
}

/// Every nonzero residue modulo `2^61 - 1` has an inverse.
pub proof fn lemma_m61_all_units()
    ensures
        all_units(m61()),
{
    let p = m61();
    let n = m61_order() as int;
    let dom = set_int_range(0, n);
    let all = set_int_range(1, p);
    let f = |i: int| power_of_37(i);
    let img = dom.map(f);
    lemma_int_range(0, n);
    lemma_int_range(1, p);
    assert(injective_on(f, dom)) by {
        assert forall|i: int, j: int| dom.contains(i) && dom.contains(j) && #[trigger] f(i) == #[trigger] f(j) implies i
            == j by {
            if i < j {
                lemma_powers_distinct(i, j);
            }
            if j < i {
                lemma_powers_distinct(j, i);
            }
        }
    }
    assert forall|i: int| dom.contains(i) implies img.contains(#[trigger] f(i)) by {}
    assert forall|b: int| img.contains(b) implies exists|i: int| dom.contains(i) && f(i) == b by {}
    lemma_map_size(dom, img, f);
    assert(img.subset_of(all)) by {
        assert forall|b: int| img.contains(b) implies all.contains(b) by {
            let i = choose|i: int| dom.contains(i) && f(i) == b;
            lemma_power_is_unit(i);
        }
    }
    lemma_subset_equality(img, all);
    assert forall|a: int| 0 < a < p implies #[trigger] is_unit(a, p) by {
        assert(all.contains(a));
        assert(img.contains(a));
        let i = choose|i: int| dom.contains(i) && f(i) == a;
        lemma_power_is_unit(i);
    }
}

} // verus!
