//! Arithmetic of residues modulo `p`, stated over mathematical integers.
//!
//! Every coefficient type of this crate is a ring of residues. Its executable
//! operations are specified by the functions of this module, and the algebraic
//! laws that the rest of the crate relies on are proved here once.

use vstd::arithmetic::div_mod::*;
use vstd::arithmetic::mul::*;
use vstd::prelude::*;

verus! {

/// Sum of two residues.
pub open spec fn add_mod(a: int, b: int, p: int) -> int {
    (a + b) % p
}

/// Difference of two residues.
pub open spec fn sub_mod(a: int, b: int, p: int) -> int {
    (a - b) % p
}

/// Additive inverse of a residue.
pub open spec fn neg_mod(a: int, p: int) -> int {
    (-a) % p
}

/// Product of two residues.
pub open spec fn mul_mod(a: int, b: int, p: int) -> int {
    (a * b) % p
}

/// `b` is the canonical multiplicative inverse of `a` modulo `p`.
pub open spec fn is_inverse(a: int, b: int, p: int) -> bool {
    0 <= b < p && (a * b) % p == 1
}

/// `a` has a multiplicative inverse modulo `p`.
pub open spec fn is_unit(a: int, p: int) -> bool {
    exists|b: int| is_inverse(a, b, p)
}

/// The multiplicative inverse of a unit `a` modulo `p`; by
/// [`lemma_inverse_unique`] there is exactly one.
pub open spec fn inv_mod(a: int, p: int) -> int {
    choose|b: int| is_inverse(a, b, p)
}

/// Quotient `a / b` of residues, for a unit `b`.
pub open spec fn quot_mod(a: int, b: int, p: int) -> int {
    mul_mod(a, inv_mod(b, p), p)
}

/// `d` divides `n`.
pub open spec fn divides(d: int, n: int) -> bool {
    n % d == 0
}

/// `a` raised to the power `e`, modulo `p`.
pub open spec fn pow_mod(a: int, e: nat, p: int) -> int
    decreases e,
{
    if e == 0 {
        1int % p
    } else {
        (a * pow_mod(a, (e - 1) as nat, p)) % p
    }
}

/// Every nonzero residue modulo `p` is a unit, that is, the residues form a field.
pub open spec fn all_units(p: int) -> bool {
    forall|a: int| 0 < a < p ==> #[trigger] is_unit(a, p)
}

/// Two integers that are congruent and both canonical are equal.
pub proof fn lemma_canonical_equal(a: int, b: int, p: int)
    requires
        p > 0,
        0 <= a < p,
        0 <= b < p,
        a % p == b % p,
    ensures
        a == b,
{
    lemma_small_mod(a as nat, p as nat);
    lemma_small_mod(b as nat, p as nat);
}

/// Addition of residues is associative.
pub proof fn lemma_add_mod_assoc(a: int, b: int, c: int, p: int)
    requires
        p > 0,
    ensures
        add_mod(add_mod(a, b, p), c, p) == add_mod(a, add_mod(b, c, p), p),
{
    lemma_add_mod_noop(a + b, c, p);
    lemma_add_mod_noop(a, b + c, p);
    lemma_mod_twice(a + b, p);
    lemma_mod_twice(b + c, p);
    lemma_add_mod_noop((a + b) % p, c, p);
    lemma_add_mod_noop(a, (b + c) % p, p);
}

/// A residue and its negative add up to zero.
pub proof fn lemma_add_neg_mod(a: int, p: int)
    requires
        p > 0,
    ensures
        add_mod(a, neg_mod(a, p), p) == 0,
{
    lemma_add_mod_noop_right(a, -a, p);
    assert(a + (-a) == 0);
    lemma_small_mod(0, p as nat);
}

/// Multiplication of residues does not depend on the order of the factors.
pub proof fn lemma_mul_mod_comm(a: int, b: int, p: int)
    ensures
        mul_mod(a, b, p) == mul_mod(b, a, p),
{
    lemma_mul_is_commutative(a, b);
}

/// Multiplication of residues is associative.
pub proof fn lemma_mul_mod_assoc(a: int, b: int, c: int, p: int)
    requires
        p > 0,
    ensures
        mul_mod(mul_mod(a, b, p), c, p) == mul_mod(a, mul_mod(b, c, p), p),
{
    lemma_mul_mod_noop_left(a * b, c, p);
    lemma_mul_mod_noop_right(a, b * c, p);
    lemma_mul_is_associative(a, b, c);
}

/// Multiplying by one changes no canonical residue.
pub proof fn lemma_mul_mod_one(a: int, p: int)
    requires
        p > 0,
        0 <= a < p,
    ensures
        mul_mod(a, 1, p) == a,
        mul_mod(1, a, p) == a,
{
    lemma_small_mod(a as nat, p as nat);
    assert(a * 1 == a);
    assert(1 * a == a);
}

/// Multiplication of residues distributes over addition.
pub proof fn lemma_mul_mod_distrib(a: int, b: int, c: int, p: int)
    requires
        p > 0,
    ensures
        mul_mod(a, add_mod(b, c, p), p) == add_mod(mul_mod(a, b, p), mul_mod(a, c, p), p),
        mul_mod(add_mod(b, c, p), a, p) == add_mod(mul_mod(b, a, p), mul_mod(c, a, p), p),
{
    lemma_mul_mod_noop_right(a, b + c, p);
    lemma_mul_is_distributive_add(a, b, c);
    lemma_add_mod_noop(a * b, a * c, p);
    lemma_mul_is_commutative(a, (b + c) % p);
    lemma_mul_is_commutative(a, b);
    lemma_mul_is_commutative(a, c);
}

/// Reducing the operands of a sum, difference or product first does not change
/// the residue of the result.
pub proof fn lemma_mod_operands(a: int, b: int, p: int)
    requires
        p > 0,
    ensures
        add_mod(a % p, b % p, p) == add_mod(a, b, p),
        add_mod(a % p, b, p) == add_mod(a, b, p),
        add_mod(a, b % p, p) == add_mod(a, b, p),
        sub_mod(a % p, b % p, p) == sub_mod(a, b, p),
        sub_mod(a % p, b, p) == sub_mod(a, b, p),
        sub_mod(a, b % p, p) == sub_mod(a, b, p),
        mul_mod(a % p, b % p, p) == mul_mod(a, b, p),
        mul_mod(a % p, b, p) == mul_mod(a, b, p),
        mul_mod(a, b % p, p) == mul_mod(a, b, p),
        neg_mod(a % p, p) == neg_mod(a, p),
{
    lemma_add_mod_noop(a, b, p);
    lemma_add_mod_noop_right(a, b, p);
    lemma_add_mod_noop_right(b, a, p);
    lemma_sub_mod_noop(a, b, p);
    lemma_sub_mod_noop_right(a, b, p);
    lemma_sub_mod_noop(a, b % p, p);
    lemma_mod_twice(b, p);
    lemma_mod_twice(a, p);
    lemma_sub_mod_noop(a % p, b, p);
    lemma_mul_mod_noop(a, b, p);
    lemma_mul_mod_noop_left(a, b, p);
    lemma_mul_mod_noop_right(a, b, p);
    lemma_sub_mod_noop_right(0, a, p);
}

/// The canonical inverse of a residue is unique.
pub proof fn lemma_inverse_unique(a: int, b: int, c: int, p: int)
    requires
        p > 1,
        is_inverse(a, b, p),
        is_inverse(a, c, p),
    ensures
        b == c,
{
    // b == b * (a * c) == (b * a) * c == c, all modulo p
    lemma_mul_mod_noop_right(b, a * c, p);
    lemma_mul_mod_noop_left(b * a, c, p);
    lemma_mul_is_associative(b, a, c);
    lemma_mul_is_commutative(a, b);
    assert(b * 1 == b);
    assert(1 * c == c);
    lemma_canonical_equal(b, c, p);
}

/// A unit is inverted by `inv_mod`.
pub proof fn lemma_inv_mod(a: int, p: int)
    requires
        p > 1,
        is_unit(a, p),
    ensures
        is_inverse(a, inv_mod(a, p), p),
        mul_mod(a, inv_mod(a, p), p) == 1,
        mul_mod(inv_mod(a, p), a, p) == 1,
{
    lemma_mul_is_commutative(a, inv_mod(a, p));
}

/// Whoever exhibits an inverse has found `inv_mod`.
pub proof fn lemma_inverse_is_inv_mod(a: int, b: int, p: int)
    requires
        p > 1,
        is_inverse(a, b, p),
    ensures
        is_unit(a, p),
        inv_mod(a, p) == b,
{
    lemma_inverse_unique(a, b, inv_mod(a, p), p);
}

/// Units do not depend on the representative.
pub proof fn lemma_unit_mod(a: int, p: int)
    requires
        p > 1,
    ensures
        is_unit(a % p, p) == is_unit(a, p),
        is_unit(a, p) ==> inv_mod(a % p, p) == inv_mod(a, p),
{
    assert forall|b: int| is_inverse(a % p, b, p) == is_inverse(a, b, p) by {
        lemma_mul_mod_noop_left(a, b, p);
    }
    if is_unit(a, p) {
        let b = inv_mod(a, p);
        assert(is_inverse(a % p, b, p));
        lemma_inverse_is_inv_mod(a % p, b, p);
    }
    if is_unit(a % p, p) {
        let b = inv_mod(a % p, p);
        assert(is_inverse(a, b, p));
    }
}

/// Zero is never a unit.
pub proof fn lemma_zero_not_unit(p: int)
    requires
        p > 1,
    ensures
        !is_unit(0, p),
{
    assert forall|b: int| !is_inverse(0, b, p) by {
        assert(0 * b == 0);
        lemma_small_mod(0, p as nat);
    }
}

/// One is its own inverse.
pub proof fn lemma_one_is_unit(p: int)
    requires
        p > 1,
    ensures
        is_unit(1, p),
        inv_mod(1, p) == 1,
{
    assert(1 * 1 == 1);
    lemma_small_mod(1, p as nat);
    assert(is_inverse(1, 1, p));
    lemma_inverse_is_inv_mod(1, 1, p);
}

/// A residue that shares a divisor greater than one with the modulus is no unit.
pub proof fn lemma_common_divisor_not_unit(a: int, p: int, g: int)
    requires
        p > 1,
        g > 1,
        divides(g, a),
        divides(g, p),
    ensures
        !is_unit(a, p),
{
    assert forall|b: int| !is_inverse(a, b, p) by {
        if is_inverse(a, b, p) {
            let k = (a * b) / p;
            lemma_fundamental_div_mod(a * b, p);
            assert(a * b == p * k + 1);
            lemma_mul_mod_noop_left(a, b, g);
            assert(0 * b == 0);
            lemma_small_mod(0, g as nat);
            assert((a * b) % g == 0);
            lemma_mul_mod_noop_left(p, k, g);
            assert(0 * k == 0);
            assert((p * k) % g == 0);
            lemma_add_mod_noop(p * k, 1, g);
            lemma_small_mod(1, g as nat);
            assert(false);
        }
    }
}

/// Powers are canonical residues.
pub proof fn lemma_pow_mod_range(a: int, e: nat, p: int)
    requires
        p > 0,
    ensures
        0 <= pow_mod(a, e, p) < p,
    decreases e,
{
    if e == 0 {
        lemma_mod_bound(1, p);
    } else {
        lemma_mod_bound(a * pow_mod(a, (e - 1) as nat, p), p);
    }
}

/// The first power is the residue of the base.
pub proof fn lemma_pow_mod_one(a: int, p: int)
    requires
        p > 0,
    ensures
        pow_mod(a, 1, p) == a % p,
{
    reveal_with_fuel(pow_mod, 2);
    lemma_mul_mod_noop_right(a, 1, p);
    assert(a * 1 == a);
}

/// Exponents add when powers are multiplied.
pub proof fn lemma_pow_mod_add(a: int, m: nat, n: nat, p: int)
    requires
        p > 0,
    ensures
        pow_mod(a, m + n, p) == mul_mod(pow_mod(a, m, p), pow_mod(a, n, p), p),
    decreases m,
{
    lemma_pow_mod_range(a, n, p);
    if m == 0 {
        lemma_mul_mod_noop_left(1, pow_mod(a, n, p), p);
        assert(1 * pow_mod(a, n, p) == pow_mod(a, n, p));
        lemma_small_mod(pow_mod(a, n, p) as nat, p as nat);
    } else {
        let m1 = (m - 1) as nat;
        lemma_pow_mod_add(a, m1, n, p);
        assert((m + n - 1) as nat == m1 + n);
        let x = pow_mod(a, m1, p);
        let y = pow_mod(a, n, p);
        // pow(m + n) == (a * ((x * y) % p)) % p == ((a * x) % p * y) % p
        lemma_mul_mod_noop_right(a, x * y, p);
        lemma_mul_is_associative(a, x, y);
        lemma_mul_mod_noop_left(a * x, y, p);
    }
}

/// A unit is not congruent to zero.
pub proof fn lemma_unit_nonzero(a: int, p: int)
    requires
        p > 1,
        is_unit(a, p),
    ensures
        a % p != 0,
{
    lemma_unit_mod(a, p);
    lemma_zero_not_unit(p);
}

/// The inverse of a unit is a unit, with the unit as its inverse.
pub proof fn lemma_inv_is_unit(a: int, p: int)
    requires
        p > 1,
        is_unit(a, p),
    ensures
        is_unit(inv_mod(a, p), p),
        inv_mod(inv_mod(a, p), p) == a % p,
{
    let b = inv_mod(a, p);
    lemma_inv_mod(a, p);
    lemma_mul_mod_noop_right(b, a, p);
    lemma_mod_bound(a, p);
    assert(is_inverse(b, a % p, p));
    lemma_inverse_is_inv_mod(b, a % p, p);
}

/// The product of two units is a unit.
pub proof fn lemma_unit_mul(a: int, b: int, p: int)
    requires
        p > 1,
        is_unit(a, p),
        is_unit(b, p),
    ensures
        is_unit(mul_mod(a, b, p), p),
        is_unit(a * b, p),
{
    let ia = inv_mod(a, p);
    let ib = inv_mod(b, p);
    lemma_inv_mod(a, p);
    lemma_inv_mod(b, p);
    let w = (ia * ib) % p;
    lemma_mod_bound(ia * ib, p);
    lemma_mul_mod_noop_right(a * b, ia * ib, p);
    assert((a * b) * (ia * ib) == (a * ia) * (b * ib)) by (nonlinear_arith);
    lemma_mul_mod_noop(a * ia, b * ib, p);
    assert(1 * 1 == 1);
    lemma_small_mod(1, p as nat);
    assert(is_inverse(a * b, w, p));
    lemma_unit_mod(a * b, p);
}

/// The negative of a unit is a unit.
pub proof fn lemma_unit_neg(a: int, p: int)
    requires
        p > 1,
        is_unit(a, p),
    ensures
        is_unit(neg_mod(a, p), p),
{
    let ia = inv_mod(a, p);
    lemma_inv_mod(a, p);
    let w = (-ia) % p;
    lemma_mod_bound(-ia, p);
    lemma_mul_mod_noop_right(-a, -ia, p);
    assert((-a) * (-ia) == a * ia) by (nonlinear_arith);
    assert(is_inverse(-a, w, p));
    lemma_unit_mod(-a, p);
}

/// Every integer from `1` up to but not including `n` is a unit.
pub open spec fn units_upto(n: int, p: int) -> bool {
    forall|k: int| 1 <= k < n ==> #[trigger] is_unit(k, p)
}

/// The factors of a unit are units.
pub proof fn lemma_unit_factor(a: int, b: int, p: int)
    requires
        p > 1,
        is_unit(a * b, p),
    ensures
        is_unit(a, p),
        is_unit(b, p),
{
    let c = inv_mod(a * b, p);
    lemma_inv_mod(a * b, p);
    // a * (b * c) == 1 and b * (a * c) == 1
    lemma_mod_bound(b * c, p);
    lemma_mod_bound(a * c, p);
    lemma_mul_mod_noop_right(a, b * c, p);
    lemma_mul_is_associative(a, b, c);
    assert(is_inverse(a, (b * c) % p, p));
    lemma_mul_mod_noop_right(b, a * c, p);
    assert(b * (a * c) == (a * b) * c) by (nonlinear_arith);
    assert(is_inverse(b, (a * c) % p, p));
}

/// The inverse of a product is the product of the inverses.
pub proof fn lemma_inv_mul(a: int, b: int, p: int)
    requires
        p > 1,
        is_unit(a, p),
        is_unit(b, p),
    ensures
        is_unit(a * b, p),
        inv_mod(a * b, p) == mul_mod(inv_mod(a, p), inv_mod(b, p), p),
{
    let ia = inv_mod(a, p);
    let ib = inv_mod(b, p);
    lemma_inv_mod(a, p);
    lemma_inv_mod(b, p);
    let w = (ia * ib) % p;
    lemma_mod_bound(ia * ib, p);
    lemma_mul_mod_noop_right(a * b, ia * ib, p);
    assert((a * b) * (ia * ib) == (a * ia) * (b * ib)) by (nonlinear_arith);
    lemma_mul_mod_noop(a * ia, b * ib, p);
    assert(1 * 1 == 1);
    lemma_small_mod(1, p as nat);
    assert(is_inverse(a * b, w, p));
    lemma_inverse_is_inv_mod(a * b, w, p);
}

/// Reducing the first summand first does not change the residue of a sum.
pub proof fn lemma_add_mod_noop_left(x: int, y: int, m: int)
    requires
        m > 0,
    ensures
        ((x % m) + y) % m == (x + y) % m,
{
    lemma_add_mod_noop_right(y, x, m);
}

} // verus!
