//! The algebraic interfaces that coefficient types implement.
//!
//! A coefficient is an element of the ring of residues modulo `modulus()`;
//! `value()` is its canonical representative. All operations are exact.

use crate::modarith::{add_mod, all_units, inv_mod, is_unit, mul_mod, neg_mod, quot_mod, sub_mod};
use vstd::arithmetic::div_mod::*;
use vstd::prelude::*;

verus! {

/// A type with an additive identity.
pub trait Zero: Sized {
    /// The canonical integer that this element stands for.
    spec fn value(&self) -> int;

    fn zero() -> (z: Self)
        ensures
            z.value() == 0,
    ;

    fn is_zero(&self) -> (b: bool)
        ensures
            b <==> self.value() == 0,
    ;
}

/// The values of a sequence of elements.
pub open spec fn values<T: Zero>(s: Seq<T>) -> Seq<int> {
    Seq::new(s.len(), |i: int| s[i].value())
}

/// A type with a multiplicative identity.
pub trait One: Zero {
    fn one() -> (u: Self)
        ensures
            u.value() == 1,
    ;

    fn is_one(&self) -> (b: bool)
        ensures
            b <==> self.value() == 1,
    ;
}

/// The additive group of residues modulo `modulus()`.
pub trait Group: Zero + Copy {
    spec fn modulus() -> int;

    proof fn lemma_modulus()
        ensures
            Self::modulus() > 1,
    ;

    proof fn lemma_value_range(&self)
        ensures
            0 <= self.value() < Self::modulus(),
    ;

    fn add(self, rhs: Self) -> (r: Self)
        ensures
            r.value() == add_mod(self.value(), rhs.value(), Self::modulus()),
    ;

    fn sub(self, rhs: Self) -> (r: Self)
        ensures
            r.value() == sub_mod(self.value(), rhs.value(), Self::modulus()),
    ;

    fn neg(self) -> (r: Self)
        ensures
            r.value() == neg_mod(self.value(), Self::modulus()),
    ;

    fn equals(&self, other: &Self) -> (b: bool)
        ensures
            b <==> self.value() == other.value(),
    ;
}

/// The ring of residues modulo `modulus()`.
pub trait Ring: Group + One {
    fn mul(self, rhs: Self) -> (r: Self)
        ensures
            r.value() == mul_mod(self.value(), rhs.value(), Self::modulus()),
    ;

    fn from_u32(x: u32) -> (r: Self)
        ensures
            r.value() == (x as int) % Self::modulus(),
    ;
}

/// A ring of residues with division by its units.
///
/// Division fails exactly on the divisors that have no inverse. The
/// modulus is prime, so that the only failing divisor is zero.
pub trait Field: Ring {
    /// Every nonzero element has an inverse.
    proof fn lemma_field()
        ensures
            all_units(Self::modulus()),
    ;

    /// The multiplicative inverse, or `None` where there is none.
    fn inv(self) -> (r: Option<Self>)
        ensures
            r is Some <==> is_unit(self.value(), Self::modulus()),
            r is Some ==> r->0.value() == inv_mod(self.value(), Self::modulus()),
    ;

    /// The quotient `self / rhs`, or `None` where `rhs` has no inverse.
    fn div(self, rhs: Self) -> (r: Option<Self>)
        ensures
            r is Some <==> is_unit(rhs.value(), Self::modulus()),
            r is Some ==> r->0.value() == quot_mod(self.value(), rhs.value(), Self::modulus()),
    ;
}

/// The ring element that stands for the index `i`.
pub fn index_element<T: Ring>(i: usize) -> (r: T)
    ensures
        r.value() == (i as int) % T::modulus(),
{
    let w: u64 = i as u64;
    let lo: u32 = (w & 0xFFFF_FFFF) as u32;
    let hi: u32 = (w >> 32) as u32;
    proof {
        T::lemma_modulus();
        assert(w == (w >> 32) * 0x1_0000_0000 + (w & 0xFFFF_FFFF)) by (bit_vector);
        assert(w & 0xFFFF_FFFF <= 0xFFFF_FFFF) by (bit_vector);
        assert((w >> 32) <= 0xFFFF_FFFF) by (bit_vector);
    }
    if hi == 0 {
        T::from_u32(lo)
    } else {
        let base = T::from_u32(65536);
        let two32 = base.mul(base);
        let r = T::from_u32(hi).mul(two32).add(T::from_u32(lo));
        proof {
            let p = T::modulus();
            lemma_mul_mod_noop(65536, 65536, p);
            assert(65536 * 65536 == 0x1_0000_0000int);
            assert(two32.value() == 0x1_0000_0000int % p);
            lemma_mul_mod_noop(hi as int, 0x1_0000_0000, p);
            lemma_mod_twice((hi as int) * 0x1_0000_0000, p);
            lemma_add_mod_noop((hi as int) * 0x1_0000_0000, lo as int, p);
        }
        r
    }
}

} // verus!
