//! The coefficient fields: integers modulo a fixed prime.
//!
//! * [`ModIntP32`]: modulo 65521, the largest prime below 2^16;
//! * [`MersP31`]: modulo the Mersenne prime 2^31 - 1;
//! * [`MersP61`]: modulo the Mersenne prime 2^61 - 1.
//!
//! Each type stores the canonical representative of its residue.

use crate::mathtypes::{Field, Group, One, Ring, Zero};
use crate::modarith::{
    divides, is_inverse, is_unit, lemma_common_divisor_not_unit, lemma_inverse_is_inv_mod,
    lemma_pow_mod_add, lemma_pow_mod_one, mul_mod, pow_mod,
};
use vstd::arithmetic::div_mod::*;
use vstd::arithmetic::mul::*;
use vstd::prelude::*;

verus! {

/// The modulus of [`ModIntP32`].
pub const P32_MODULUS: u32 = 65521;

/// The modulus of [`MersP31`], 2^31 - 1.
pub const P31_MODULUS: u32 = 2147483647;

/// The modulus of [`MersP61`], 2^61 - 1.
pub const P61_MODULUS: u64 = 2305843009213693951;

/// One step of the extended Euclidean algorithm keeps the congruence between
/// the cofactor and the remainder.
proof fn lemma_euclid_step(t0: int, t1: int, t2: int, q: int, r0: int, r1: int, x: int, p: int)
    requires
        p > 0,
        (t0 * x) % p == r0 % p,
        (t1 * x) % p == r1 % p,
        t2 % p == (t0 - (q * t1) % p) % p,
    ensures
        (t2 * x) % p == (r0 - q * r1) % p,
{
    lemma_sub_mod_noop_right(t0, q * t1, p);
    assert(t2 % p == (t0 - q * t1) % p);
    lemma_mul_mod_noop_left(t2, x, p);
    lemma_mul_mod_noop_left(t0 - q * t1, x, p);
    assert((t2 * x) % p == ((t0 - q * t1) * x) % p);
    assert((t0 - q * t1) * x == t0 * x - q * (t1 * x)) by (nonlinear_arith);
    lemma_sub_mod_noop(t0 * x, q * (t1 * x), p);
    lemma_mul_mod_noop_right(q, t1 * x, p);
    lemma_mul_mod_noop_right(q, r1, p);
    lemma_sub_mod_noop(r0, q * r1, p);
}

/// A common divisor of a divisor and a remainder divides the dividend.
proof fn lemma_divides_dividend(d: int, q: int, r0: int, r1: int, r2: int)
    requires
        d > 0,
        r0 == q * r1 + r2,
        divides(d, r1),
        divides(d, r2),
    ensures
        divides(d, r0),
{
    lemma_mul_mod_noop_right(q, r1, d);
    assert(q * 0 == 0);
    lemma_small_mod(0, d as nat);
    assert((q * r1) % d == 0);
    lemma_add_mod_noop(q * r1, r2, d);
}

/// The inverse of `x` modulo `p` by the extended Euclidean algorithm, with the
/// cofactor kept reduced; `None` where `x` and `p` have a common divisor.
pub fn mod_inverse(x: u64, p: u64) -> (r: Option<u64>)
    requires
        1 < p,
        x < p,
    ensures
        r is Some <==> is_unit(x as int, p as int),
        r is Some ==> is_inverse(x as int, r->0 as int, p as int),
{
    let mut r0: u64 = p;
    let mut r1: u64 = x;
    let mut t0: u64 = 0;
    let mut t1: u64 = 1;
    proof {
        lemma_mod_self_0(p as int);
        assert(0 * (x as int) == 0);
        assert(1 * (x as int) == x as int);
    }
    while r1 != 0
        invariant
            1 < p,
            x < p,
            r1 < r0 <= p,
            t0 < p,
            t1 < p,
            (t0 as int * x as int) % (p as int) == (r0 as int) % (p as int),
            (t1 as int * x as int) % (p as int) == (r1 as int) % (p as int),
            forall|d: int|
                d > 0 && #[trigger] divides(d, r0 as int) && divides(d, r1 as int) ==> divides(
                    d,
                    p as int,
                ) && divides(d, x as int),
        decreases r1,
    {
        let q: u64 = r0 / r1;
        let r2: u64 = r0 % r1;
        proof {
            assert(q * t1 <= 0xFFFF_FFFF_FFFF_FFFF * 0xFFFF_FFFF_FFFF_FFFF) by (nonlinear_arith)
                requires
                    q <= 0xFFFF_FFFF_FFFF_FFFF,
                    t1 <= 0xFFFF_FFFF_FFFF_FFFF,
            ;
        }
        let qt: u64 = ((q as u128 * t1 as u128) % (p as u128)) as u64;
        let t2: u64 = if t0 >= qt {
            t0 - qt
        } else {
            t0 + (p - qt)
        };
        proof {
            let pi = p as int;
            lemma_fundamental_div_mod(r0 as int, r1 as int);
            assert(r0 as int == (q as int) * (r1 as int) + (r2 as int)) by {
                lemma_mul_is_commutative(q as int, r1 as int);
            }
            assert(qt as int == ((q as int) * (t1 as int)) % pi);
            if t0 >= qt {
                assert(t2 as int == t0 as int - qt as int);
            } else {
                assert(t2 as int == (t0 as int - qt as int) + pi);
                lemma_mod_add_multiples_vanish(t0 as int - qt as int, pi);
            }
            assert((t2 as int) % pi == (t0 as int - qt as int) % pi);
            lemma_euclid_step(
                t0 as int,
                t1 as int,
                t2 as int,
                q as int,
                r0 as int,
                r1 as int,
                x as int,
                pi,
            );
            assert forall|d: int|
                d > 0 && #[trigger] divides(d, r1 as int) && divides(d, r2 as int) implies divides(
                d,
                pi,
            ) && divides(d, x as int) by {
                lemma_divides_dividend(d, q as int, r0 as int, r1 as int, r2 as int);
            }
        }
        r0 = r1;
        r1 = r2;
        t0 = t1;
        t1 = t2;
    }
    proof {
        let g = r0 as int;
        lemma_mod_self_0(g);
        assert(divides(g, r0 as int));
        assert(0int % g == 0);
        assert(divides(g, r1 as int));
        assert(divides(g, p as int) && divides(g, x as int));
        if r0 == 1 {
            lemma_small_mod(1, p as nat);
            lemma_mul_is_commutative(t0 as int, x as int);
            assert(is_inverse(x as int, t0 as int, p as int));
        } else {
            lemma_common_divisor_not_unit(x as int, p as int, g);
        }
    }
    if r0 == 1 {
        Some(t0)
    } else {
        None
    }
}

/// An integer modulo 65521.
#[derive(Debug, Clone, Copy, PartialEq, Eq, PartialOrd, Ord, Default, Hash)]
pub struct ModIntP32 {
    x: u32,
}

impl ModIntP32 {
    #[verifier::type_invariant]
    spec fn canonical(self) -> bool {
        self.x < P32_MODULUS
    }

    /// The canonical representative, from `0` up to but not including the modulus.
    pub fn residue(self) -> (r: u32)
        ensures
            r as int == self.value(),
            r < P32_MODULUS,
    {
        proof { use_type_invariant(&self); }
        self.x
    }

    /// The square of `self`.
    pub fn sq(self) -> (r: Self)
        ensures
            r.value() == mul_mod(self.value(), self.value(), Self::modulus()),
    {
        self.mul(self)
    }

    /// `self` raised to the power `p - 2` by a fixed addition chain.
    ///
    /// For a prime modulus this is the inverse of every nonzero element.
    pub fn pow_p_minus_2(self) -> (r: Self)
        ensures
            r.value() == pow_mod(self.value(), 65519, Self::modulus()),
    {
        let ghost a = self.value();
        let ghost p = Self::modulus();
        proof {
            self.lemma_value_range();
            lemma_pow_mod_one(a, p);
            lemma_small_mod(a as nat, p as nat);
        }
        let x2 = self.sq();
        proof { lemma_pow_mod_add(a, 1, 1, p); }
        let x4 = x2.sq();
        proof { lemma_pow_mod_add(a, 2, 2, p); }
        let x8 = x4.sq();
        proof { lemma_pow_mod_add(a, 4, 4, p); }
        let x9 = self.mul(x8);
        proof { lemma_pow_mod_add(a, 1, 8, p); }
        let x11 = x2.mul(x9);
        proof { lemma_pow_mod_add(a, 2, 9, p); }
        let x22 = x11.sq();
        proof { lemma_pow_mod_add(a, 11, 11, p); }
        let y1 = x9.mul(x22);
        proof { lemma_pow_mod_add(a, 9, 22, p); }
        assert(y1.value() == pow_mod(a, 31, p));
        let y1a = y1.sq();
        proof { lemma_pow_mod_add(a, 31, 31, p); }
        let y1b = y1a.sq();
        proof { lemma_pow_mod_add(a, 62, 62, p); }
        let y1c = y1b.sq();
        proof { lemma_pow_mod_add(a, 124, 124, p); }
        let y1d = y1c.sq();
        proof { lemma_pow_mod_add(a, 248, 248, p); }
        let y1e = y1d.sq();
        proof { lemma_pow_mod_add(a, 496, 496, p); }
        let y2 = y1e.mul(y1);
        proof { lemma_pow_mod_add(a, 992, 31, p); }
        assert(y2.value() == pow_mod(a, 1023, p));
        let y3 = y2.sq().mul(self);
        proof {
            lemma_pow_mod_add(a, 1023, 1023, p);
            lemma_pow_mod_add(a, 2046, 1, p);
        }
        assert(y3.value() == pow_mod(a, 2047, p));
        let y3a = y3.sq();
        proof { lemma_pow_mod_add(a, 2047, 2047, p); }
        let y3b = y3a.sq();
        proof { lemma_pow_mod_add(a, 4094, 4094, p); }
        let y3c = y3b.sq();
        proof { lemma_pow_mod_add(a, 8188, 8188, p); }
        let y3d = y3c.sq();
        proof { lemma_pow_mod_add(a, 16376, 16376, p); }
        let y4 = y3d.sq();
        proof { lemma_pow_mod_add(a, 32752, 32752, p); }
        assert(y4.value() == pow_mod(a, 65504, p));
        let y5 = y4.mul(x11);
        proof { lemma_pow_mod_add(a, 65504, 11, p); }
        let y6 = y5.mul(x4);
        proof { lemma_pow_mod_add(a, 65515, 4, p); }
        y6
    }
}

impl Zero for ModIntP32 {
    closed spec fn value(&self) -> int {
        (self.x % P32_MODULUS) as int
    }

    fn zero() -> (z: Self) {
        ModIntP32 { x: 0 }
    }

    fn is_zero(&self) -> (b: bool) {
        proof { use_type_invariant(self); }
        self.x == 0
    }
}

impl One for ModIntP32 {
    fn one() -> (u: Self) {
        ModIntP32 { x: 1 }
    }

    fn is_one(&self) -> (b: bool) {
        proof { use_type_invariant(self); }
        self.x == 1
    }
}

impl Group for ModIntP32 {
    open spec fn modulus() -> int {
        65521
    }

    proof fn lemma_modulus() {
    }

    proof fn lemma_value_range(&self) {
    }

    fn add(self, rhs: Self) -> (r: Self) {
        proof {
            use_type_invariant(&self);
            use_type_invariant(&rhs);
        }
        let res: u32 = self.x + rhs.x;
        ModIntP32 { x: if res >= P32_MODULUS { res - P32_MODULUS } else { res } }
    }

    fn sub(self, rhs: Self) -> (r: Self) {
        proof {
            use_type_invariant(&self);
            use_type_invariant(&rhs);
        }
        let res: u32 = P32_MODULUS + self.x - rhs.x;
        ModIntP32 { x: if res >= P32_MODULUS { res - P32_MODULUS } else { res } }
    }

    fn neg(self) -> (r: Self) {
        proof { use_type_invariant(&self); }
        ModIntP32 { x: if self.x == 0 { 0 } else { P32_MODULUS - self.x } }
    }

    fn equals(&self, other: &Self) -> (b: bool) {
        proof {
            use_type_invariant(self);
            use_type_invariant(other);
        }
        self.x == other.x
    }
}

impl Ring for ModIntP32 {
    fn mul(self, rhs: Self) -> (r: Self) {
        proof {
            use_type_invariant(&self);
            use_type_invariant(&rhs);
            assert(self.x * rhs.x <= 65520 * 65520) by (nonlinear_arith)
                requires
                    self.x <= 65520,
                    rhs.x <= 65520,
            ;
        }
        ModIntP32 { x: (self.x * rhs.x) % P32_MODULUS }
    }

    fn from_u32(x: u32) -> (r: Self) {
        ModIntP32 { x: if x < P32_MODULUS { x } else { x % P32_MODULUS } }
    }
}

impl Field for ModIntP32 {
    proof fn lemma_field() {
        crate::laws::lemma_65521_is_prime();
        crate::laws::lemma_prime_field(65521);
    }

    /// The candidate `self^(p - 2)` is accepted where it is the inverse;
    /// otherwise Euclid's algorithm decides.
    fn inv(self) -> (r: Option<Self>) {
        proof { use_type_invariant(&self); }
        let cand = self.pow_p_minus_2();
        if self.mul(cand).is_one() {
            proof {
                cand.lemma_value_range();
                lemma_inverse_is_inv_mod(self.value(), cand.value(), Self::modulus());
            }
            Some(cand)
        } else {
            match mod_inverse(self.x as u64, P32_MODULUS as u64) {
                Some(y) => {
                    proof {
                        lemma_inverse_is_inv_mod(self.value(), y as int, Self::modulus());
                    }
                    Some(ModIntP32 { x: y as u32 })
                },
                None => None,
            }
        }
    }

    fn div(self, rhs: Self) -> (r: Option<Self>) {
        match rhs.inv() {
            Some(i) => Some(self.mul(i)),
            None => None,
        }
    }
}

/// An integer modulo the Mersenne prime 2^31 - 1.
#[derive(Debug, Clone, Copy, PartialEq, Eq, PartialOrd, Ord, Default, Hash)]
pub struct MersP31 {
    x: u32,
}

impl MersP31 {
    #[verifier::type_invariant]
    spec fn canonical(self) -> bool {
        self.x < P31_MODULUS
    }

    /// The canonical representative, from `0` up to but not including the modulus.
    pub fn residue(self) -> (r: u32)
        ensures
            r as int == self.value(),
            r < P31_MODULUS,
    {
        proof { use_type_invariant(&self); }
        self.x
    }

    /// Subtracts the modulus once, in place, where `x` has reached it.
    pub fn reduce(x: &mut u32)
        requires
            *old(x) < 2 * P31_MODULUS,
        ensures
            *final(x) < P31_MODULUS,
            *final(x) as int == (*old(x) as int) % (P31_MODULUS as int),
    {
        if *x >= P31_MODULUS {
            *x -= P31_MODULUS;
        }
    }

    /// `x` with the modulus subtracted once where `x` has reached it.
    pub fn reduced(x: u32) -> (r: u32)
        requires
            x < 2 * P31_MODULUS,
        ensures
            r < P31_MODULUS,
            r as int == (x as int) % (P31_MODULUS as int),
    {
        if x >= P31_MODULUS {
            x - P31_MODULUS
        } else {
            x
        }
    }
}

/// Folding at bit 31: since 2^31 is congruent to 1, the two halves add up.
proof fn lemma_fold31(v: int, hi: int, lo: int)
    requires
        v == hi * 0x8000_0000 + lo,
    ensures
        v % 0x7FFF_FFFF == (hi + lo) % 0x7FFF_FFFF,
{
    assert(v == 0x7FFF_FFFF * hi + (hi + lo)) by (nonlinear_arith)
        requires
            v == hi * 0x8000_0000 + lo,
    ;
    lemma_mod_multiples_vanish(hi, hi + lo, 0x7FFF_FFFF);
}

/// Folding at bit 61: since 2^61 is congruent to 1, the two halves add up.
proof fn lemma_fold61(v: int, hi: int, lo: int)
    requires
        v == hi * 0x2000_0000_0000_0000 + lo,
    ensures
        v % 0x1FFF_FFFF_FFFF_FFFF == (hi + lo) % 0x1FFF_FFFF_FFFF_FFFF,
{
    assert(v == 0x1FFF_FFFF_FFFF_FFFF * hi + (hi + lo)) by (nonlinear_arith)
        requires
            v == hi * 0x2000_0000_0000_0000 + lo,
    ;
    lemma_mod_multiples_vanish(hi, hi + lo, 0x1FFF_FFFF_FFFF_FFFF);
}

impl Zero for MersP31 {
    closed spec fn value(&self) -> int {
        (self.x % P31_MODULUS) as int
    }

    fn zero() -> (z: Self) {
        MersP31 { x: 0 }
    }

    fn is_zero(&self) -> (b: bool) {
        proof { use_type_invariant(self); }
        self.x == 0
    }
}

impl One for MersP31 {
    fn one() -> (u: Self) {
        MersP31 { x: 1 }
    }

    fn is_one(&self) -> (b: bool) {
        proof { use_type_invariant(self); }
        self.x == 1
    }
}

impl Group for MersP31 {
    open spec fn modulus() -> int {
        2147483647
    }

    proof fn lemma_modulus() {
    }

    proof fn lemma_value_range(&self) {
    }

    fn add(self, rhs: Self) -> (r: Self) {
        proof {
            use_type_invariant(&self);
            use_type_invariant(&rhs);
        }
        MersP31 { x: Self::reduced(self.x + rhs.x) }
    }

    fn sub(self, rhs: Self) -> (r: Self) {
        proof {
            use_type_invariant(&self);
            use_type_invariant(&rhs);
            lemma_sub_mod_noop_right(self.value(), rhs.value(), Self::modulus());
            lemma_add_mod_noop_right(self.value(), -rhs.value(), Self::modulus());
        }
        self.add(rhs.neg())
    }

    fn neg(self) -> (r: Self) {
        proof { use_type_invariant(&self); }
        MersP31 { x: Self::reduced(P31_MODULUS - self.x) }
    }

    fn equals(&self, other: &Self) -> (b: bool) {
        proof {
            use_type_invariant(self);
            use_type_invariant(other);
        }
        self.x == other.x
    }
}

impl Ring for MersP31 {
    /// The 62-bit product is split at bit 31 and the halves are added.
    fn mul(self, rhs: Self) -> (r: Self) {
        proof {
            use_type_invariant(&self);
            use_type_invariant(&rhs);
            assert(self.x * rhs.x <= 2147483646 * 2147483646) by (nonlinear_arith)
                requires
                    self.x <= 2147483646,
                    rhs.x <= 2147483646,
            ;
        }
        let prod: u64 = (self.x as u64) * (rhs.x as u64);
        let lo: u64 = prod & 0x7FFF_FFFF;
        let hi: u64 = prod >> 31;
        proof {
            assert(prod == (prod >> 31) * 0x8000_0000 + (prod & 0x7FFF_FFFF)) by (bit_vector);
            assert(prod & 0x7FFF_FFFF <= 0x7FFF_FFFF) by (bit_vector);
            assert((prod >> 31) <= 2147483644) by (bit_vector)
                requires
                    prod <= 4611686009837453316,
            ;
            lemma_fold31(prod as int, hi as int, lo as int);
        }
        MersP31 { x: Self::reduced((lo + hi) as u32) }
    }

    fn from_u32(x: u32) -> (r: Self) {
        let lo: u32 = x & 0x7FFF_FFFF;
        let hi: u32 = x >> 31;
        proof {
            assert(x == (x >> 31) * 0x8000_0000 + (x & 0x7FFF_FFFF)) by (bit_vector);
            assert(x & 0x7FFF_FFFF <= 0x7FFF_FFFF) by (bit_vector);
            assert((x >> 31) <= 1) by (bit_vector);
            lemma_fold31(x as int, hi as int, lo as int);
        }
        MersP31 { x: Self::reduced(lo + hi) }
    }
}

impl Field for MersP31 {
    proof fn lemma_field() {
        crate::laws::lemma_m31_is_prime();
        crate::laws::lemma_prime_field(2147483647);
    }

    fn inv(self) -> (r: Option<Self>) {
        proof { use_type_invariant(&self); }
        match mod_inverse(self.x as u64, P31_MODULUS as u64) {
            Some(y) => {
                proof {
                    lemma_inverse_is_inv_mod(self.value(), y as int, Self::modulus());
                }
                Some(MersP31 { x: y as u32 })
            },
            None => None,
        }
    }

    fn div(self, rhs: Self) -> (r: Option<Self>) {
        match rhs.inv() {
            Some(i) => Some(self.mul(i)),
            None => None,
        }
    }
}

/// An integer modulo the Mersenne prime 2^61 - 1.
#[derive(Debug, Clone, Copy, PartialEq, Eq, PartialOrd, Ord, Default, Hash)]
pub struct MersP61 {
    x: u64,
}

impl MersP61 {
    #[verifier::type_invariant]
    spec fn canonical(self) -> bool {
        self.x < P61_MODULUS
    }

    /// The canonical representative, from `0` up to but not including the modulus.
    pub fn residue(self) -> (r: u64)
        ensures
            r as int == self.value(),
            r < P61_MODULUS,
    {
        proof { use_type_invariant(&self); }
        self.x
    }

    /// Subtracts the modulus once, in place, where `x` has reached it.
    pub fn reduce(x: &mut u64)
        requires
            *old(x) < 2 * P61_MODULUS,
        ensures
            *final(x) < P61_MODULUS,
            *final(x) as int == (*old(x) as int) % (P61_MODULUS as int),
    {
        if *x >= P61_MODULUS {
            *x -= P61_MODULUS;
        }
    }

    /// `x` with the modulus subtracted once where `x` has reached it.
    pub fn reduced(x: u64) -> (r: u64)
        requires
            x < 2 * P61_MODULUS,
        ensures
            r < P61_MODULUS,
            r as int == (x as int) % (P61_MODULUS as int),
    {
        if x >= P61_MODULUS {
            x - P61_MODULUS
        } else {
            x
        }
    }

    /// The residue of a 64-bit integer.
    pub fn from_u64(x: u64) -> (r: Self)
        ensures
            r.value() == (x as int) % Self::modulus(),
    {
        let lo: u64 = x & 0x1FFF_FFFF_FFFF_FFFF;
        let hi: u64 = x >> 61;
        proof {
            assert(x == (x >> 61) * 0x2000_0000_0000_0000 + (x & 0x1FFF_FFFF_FFFF_FFFF))
                by (bit_vector);
            assert(x & 0x1FFF_FFFF_FFFF_FFFF <= 0x1FFF_FFFF_FFFF_FFFF) by (bit_vector);
            assert((x >> 61) <= 7) by (bit_vector);
            lemma_fold61(x as int, hi as int, lo as int);
        }
        MersP61 { x: Self::reduced(lo + hi) }
    }
}

impl Zero for MersP61 {
    closed spec fn value(&self) -> int {
        (self.x % P61_MODULUS) as int
    }

    fn zero() -> (z: Self) {
        MersP61 { x: 0 }
    }

    fn is_zero(&self) -> (b: bool) {
        proof { use_type_invariant(self); }
        self.x == 0
    }
}

impl One for MersP61 {
    fn one() -> (u: Self) {
        MersP61 { x: 1 }
    }

    fn is_one(&self) -> (b: bool) {
        proof { use_type_invariant(self); }
        self.x == 1
    }
}

impl Group for MersP61 {
    open spec fn modulus() -> int {
        2305843009213693951
    }

    proof fn lemma_modulus() {
    }

    proof fn lemma_value_range(&self) {
    }

    fn add(self, rhs: Self) -> (r: Self) {
        proof {
            use_type_invariant(&self);
            use_type_invariant(&rhs);
        }
        MersP61 { x: Self::reduced(self.x + rhs.x) }
    }

    fn sub(self, rhs: Self) -> (r: Self) {
        proof {
            use_type_invariant(&self);
            use_type_invariant(&rhs);
            lemma_sub_mod_noop_right(self.value(), rhs.value(), Self::modulus());
            lemma_add_mod_noop_right(self.value(), -rhs.value(), Self::modulus());
        }
        self.add(rhs.neg())
    }

    fn neg(self) -> (r: Self) {
        proof { use_type_invariant(&self); }
        MersP61 { x: Self::reduced(P61_MODULUS - self.x) }
    }

    fn equals(&self, other: &Self) -> (b: bool) {
        proof {
            use_type_invariant(self);
            use_type_invariant(other);
        }
        self.x == other.x
    }
}

impl Ring for MersP61 {
    /// The 122-bit product is split at bit 61 and the halves are added.
    fn mul(self, rhs: Self) -> (r: Self) {
        proof {
            use_type_invariant(&self);
            use_type_invariant(&rhs);
            assert(self.x * rhs.x <= 2305843009213693950 * 2305843009213693950)
                by (nonlinear_arith)
                requires
                    self.x <= 2305843009213693950,
                    rhs.x <= 2305843009213693950,
            ;
        }
        let prod: u128 = (self.x as u128) * (rhs.x as u128);
        let lo: u128 = prod & 0x1FFF_FFFF_FFFF_FFFF;
        let hi: u128 = prod >> 61;
        proof {
            assert(prod == (prod >> 61) * 0x2000_0000_0000_0000 + (prod & 0x1FFF_FFFF_FFFF_FFFF))
                by (bit_vector);
            assert(prod & 0x1FFF_FFFF_FFFF_FFFF <= 0x1FFF_FFFF_FFFF_FFFF) by (bit_vector);
            assert((prod >> 61) <= 2305843009213693948) by (bit_vector)
                requires
                    prod <= 5316911983139663482391856204266602500,
            ;
            lemma_fold61(prod as int, hi as int, lo as int);
        }
        MersP61 { x: Self::reduced((lo + hi) as u64) }
    }

    fn from_u32(x: u32) -> (r: Self) {
        MersP61 { x: x as u64 }
    }
}

impl Field for MersP61 {
    proof fn lemma_field() {
        crate::mersenne::lemma_m61_all_units();
    }

    fn inv(self) -> (r: Option<Self>) {
        proof { use_type_invariant(&self); }
        match mod_inverse(self.x, P61_MODULUS) {
            Some(y) => {
                proof {
                    lemma_inverse_is_inv_mod(self.value(), y as int, Self::modulus());
                }
                Some(MersP61 { x: y })
            },
            None => None,
        }
    }

    fn div(self, rhs: Self) -> (r: Option<Self>) {
        match rhs.inv() {
            Some(i) => Some(self.mul(i)),
            None => None,
        }
    }
}

} // verus!
