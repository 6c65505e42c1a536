//! Integers modulo a modulus that is a parameter of the type.

use crate::coeff::mod_inverse;
use crate::modarith::{
    add_mod, is_inverse, is_unit, lemma_inverse_is_inv_mod, mul_mod, neg_mod, quot_mod, sub_mod,
};
use vstd::arithmetic::div_mod::*;
use vstd::prelude::*;

verus! {

/// A residue modulo `P`, stored as its canonical representative.
///
/// The modulus is more than one and at most 2^32, so that a product of two
/// representatives fits in 64 bits.
#[derive(Debug, Clone, Copy, PartialEq, Eq)]
pub struct ModInt<const P: u64> {
    val: u64,
}

impl<const P: u64> ModInt<P> {
    #[verifier::type_invariant]
    spec fn wf(self) -> bool {
        1 < P && P <= 0x1_0000_0000 && self.val < P
    }

    /// The moduli that the type is meant for.
    pub open spec fn modulus_fits() -> bool {
        1 < P && P <= 0x1_0000_0000
    }

    /// The canonical representative.
    pub closed spec fn value(self) -> int {
        (self.val % P) as int
    }

    /// The representative lies in `[0, P)`.
    pub proof fn lemma_value_range(self)
        requires
            Self::modulus_fits(),
        ensures
            0 <= self.value() < P,
    {
    }

    /// A stored number below the modulus is its own representative.
    proof fn lemma_stored(v: u64)
        requires
            v < P,
        ensures
            (v % P) as int == v as int,
    {
        lemma_small_mod(v as nat, P as nat);
    }

    /// The residue of `x`.
    pub fn from_u64(x: u64) -> (r: Self)
        requires
            Self::modulus_fits(),
        ensures
            r.value() == (x as int) % (P as int),
    {
        proof {
            lemma_mod_twice(x as int, P as int);
        }
        ModInt { val: x % P }
    }

    /// The representative as a machine integer.
    pub fn residue(self) -> (r: u64)
        ensures
            r as int == self.value(),
    {
        proof {
            use_type_invariant(self);
            Self::lemma_stored(self.val);
        }
        self.val
    }

    /// The residue zero.
    pub fn zero() -> (r: Self)
        requires
            Self::modulus_fits(),
        ensures
            r.value() == 0,
    {
        proof {
            Self::lemma_stored(0);
        }
        ModInt { val: 0 }
    }

    /// The residue one.
    pub fn one() -> (r: Self)
        requires
            Self::modulus_fits(),
        ensures
            r.value() == 1,
    {
        proof {
            Self::lemma_stored(1);
        }
        ModInt { val: 1 }
    }

    /// Whether this is the residue zero.
    pub fn is_zero(self) -> (b: bool)
        ensures
            b <==> self.value() == 0,
    {
        proof {
            use_type_invariant(self);
            Self::lemma_stored(self.val);
        }
        self.val == 0
    }

    /// Whether the two residues are the same.
    pub fn equals(self, other: Self) -> (b: bool)
        ensures
            b <==> self.value() == other.value(),
    {
        proof {
            use_type_invariant(self);
            use_type_invariant(other);
            Self::lemma_stored(self.val);
            Self::lemma_stored(other.val);
        }
        self.val == other.val
    }

    /// The sum.
    pub fn add(self, other: Self) -> (r: Self)
        ensures
            r.value() == add_mod(self.value(), other.value(), P as int),
    {
        proof {
            use_type_invariant(self);
            use_type_invariant(other);
        }
        let res: u64 = self.val + other.val;
        proof {
            Self::lemma_stored(self.val);
            Self::lemma_stored(other.val);
            if res >= P {
                Self::lemma_stored((res - P) as u64);
                lemma_mod_sub_multiples_vanish((res - P) as int, P as int);
                lemma_small_mod((res - P) as nat, P as nat);
                lemma_mod_add_multiples_vanish((res - P) as int, P as int);
            } else {
                Self::lemma_stored(res);
            }
        }
        ModInt { val: if res >= P { res - P } else { res } }
    }

    /// The difference.
    pub fn sub(self, other: Self) -> (r: Self)
        ensures
            r.value() == sub_mod(self.value(), other.value(), P as int),
    {
        proof {
            use_type_invariant(self);
            use_type_invariant(other);
        }
        let res: u64 = P + self.val - other.val;
        proof {
            let d = self.val as int - other.val as int;
            Self::lemma_stored(self.val);
            Self::lemma_stored(other.val);
            if res >= P {
                Self::lemma_stored((res - P) as u64);
                lemma_small_mod((res - P) as nat, P as nat);
            } else {
                Self::lemma_stored(res);
                lemma_mod_add_multiples_vanish(d, P as int);
            }
        }
        ModInt { val: if res >= P { res - P } else { res } }
    }

    /// The negative.
    pub fn neg(self) -> (r: Self)
        ensures
            r.value() == neg_mod(self.value(), P as int),
    {
        proof {
            use_type_invariant(self);
            Self::lemma_stored(self.val);
            if self.val == 0 {
                Self::lemma_stored(0);
            } else {
                Self::lemma_stored((P - self.val) as u64);
                lemma_mod_add_multiples_vanish(-(self.val as int), P as int);
            }
        }
        ModInt { val: if self.val == 0 { 0 } else { P - self.val } }
    }

    /// The product.
    pub fn mul(self, other: Self) -> (r: Self)
        ensures
            r.value() == mul_mod(self.value(), other.value(), P as int),
    {
        proof {
            use_type_invariant(self);
            use_type_invariant(other);
            Self::lemma_stored(self.val);
            Self::lemma_stored(other.val);
            lemma_mod_twice(self.val as int * other.val as int, P as int);
            assert(self.val * other.val <= 0xffff_ffff * 0xffff_ffff) by (nonlinear_arith)
                requires
                    self.val <= 0xffff_ffff,
                    other.val <= 0xffff_ffff,
            ;
        }
        ModInt { val: self.val * other.val % P }
    }

    /// The inverse, or `None` where there is none: over a prime modulus only
    /// zero has none.
    pub fn inv(self) -> (r: Option<Self>)
        ensures
            r is Some <==> is_unit(self.value(), P as int),
            r is Some ==> is_inverse(self.value(), r->0.value(), P as int),
    {
        proof {
            use_type_invariant(self);
            Self::lemma_stored(self.val);
        }
        match mod_inverse(self.val, P) {
            Some(v) => {
                proof {
                    Self::lemma_stored(v);
                }
                Some(ModInt { val: v })
            },
            None => None,
        }
    }

    /// The quotient, or `None` where the divisor has no inverse.
    pub fn div(self, other: Self) -> (r: Option<Self>)
        ensures
            r is Some <==> is_unit(other.value(), P as int),
            r is Some ==> r->0.value() == quot_mod(self.value(), other.value(), P as int),
    {
        proof {
            use_type_invariant(self);
        }
        match other.inv() {
            Some(w) => {
                proof {
                    lemma_inverse_is_inv_mod(other.value(), w.value(), P as int);
                }
                Some(self.mul(w))
            },
            None => None,
        }
    }
}

} // verus!
