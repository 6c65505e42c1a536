//! The vocabulary of operations on truncated power series.
//!
//! [`PowerSeries`] asks of a type of series its coefficients, the ring
//! operations and the shifts, and gives it the transforms: each is a
//! provided method, proved from the contracts of the required ones.

use crate::fixedseq::SeriesError;
use crate::mathtypes::{index_element, values, Field, Group, One, Ring, Zero};
use crate::modarith::{
    add_mod, inv_mod, is_unit, lemma_add_mod_noop_left, lemma_inv_mul, lemma_mod_operands,
    lemma_one_is_unit, lemma_unit_factor, lemma_unit_mod, lemma_unit_mul, mul_mod, neg_mod,
    quot_mod, sub_mod, units_upto,
};
use crate::sums::{factorial, product, sum};
use crate::truncated::{
    is_divisor, is_reduced, is_substitutable, lemma_div_prefix, min_len, s_add, s_add_const,
    s_compose, s_compose_from, s_div, s_div_prefix, s_hadamard, s_lshift, s_mul, s_neg, s_promote,
    s_rshift, s_sub, s_tail_term, s_zero,
};
use vstd::arithmetic::div_mod::*;
use vstd::arithmetic::mul::*;
use vstd::prelude::*;

verus! {

/// A truncated power series: a series of which finitely many coefficients
/// are known. Its view is the sequence of the known coefficients, constant
/// term first, as canonical residues.
pub trait PowerSeries: Sized + Copy + View<V = Seq<int>> {
    /// The field of the coefficients.
    type Coeff: Field;

    /// The greatest number of coefficients that a series can hold.
    spec fn capacity() -> nat;

    /// The number of known coefficients.
    fn accuracy(&self) -> (n: usize)
        ensures
            n == self@.len(),
            n <= Self::capacity(),
    ;

    /// Makes room for `l` coefficients where the storage can grow. The known
    /// coefficients stay; coefficients that become known are zero.
    fn expand_to(&mut self, l: usize)
        ensures
            old(self)@.len() <= final(self)@.len(),
            final(self)@.len() <= old(self)@.len() || final(self)@.len() <= l,
            forall|i: int|
                0 <= i < old(self)@.len() ==> #[trigger] final(self)@[i] == old(self)@[i],
            forall|i: int|
                old(self)@.len() <= i < final(self)@.len() ==> #[trigger] final(self)@[i] == 0,
    ;

    /// Forgets the coefficients from `x^l` on.
    fn limit_accuracy(&mut self, l: usize)
        ensures
            final(self)@ == old(self)@.take(
                min_len(l as nat, old(self)@.len()) as int,
            ),
    ;

    /// The series without its constant term, divided by `x`.
    fn lshift(&self) -> (r: Self)
        ensures
            r@ == s_lshift(self@),
    ;

    /// The series multiplied by `x`.
    fn rshift(&self) -> (r: Self)
        ensures
            r@ == s_rshift(self@, Self::capacity()),
    ;

    /// The greatest number of coefficients that a series can hold.
    fn cap() -> (n: usize)
        ensures
            n == Self::capacity(),
    ;

    /// The known coefficients are canonical residues.
    proof fn lemma_view(&self)
        ensures
            is_reduced(self@, Self::Coeff::modulus()),
    ;

    /// The known coefficient of `x^i`.
    fn coefficient(&self, i: usize) -> (c: Self::Coeff)
        requires
            i < self@.len(),
        ensures
            c.value() == self@[i as int],
    ;

    /// Replaces the known coefficient of `x^i` by `c`.
    fn set_coefficient(&mut self, i: usize, c: Self::Coeff)
        requires
            i < old(self)@.len(),
        ensures
            final(self)@ == old(self)@.update(i as int, c.value()),
    ;

    /// The series zero, known to `acc` terms, or to as many as a series
    /// can hold where `acc` is more.
    fn zeroes(acc: usize) -> (r: Self)
        ensures
            r@ == s_zero(min_len(acc as nat, Self::capacity())),
    ;

    /// The series one, known to as many terms as a series can hold.
    fn one() -> (r: Self)
        ensures
            r@ == s_promote(1, Self::capacity()),
    ;

    /// The constant series of the residue of `x`.
    fn from_u32(x: u32) -> (r: Self)
        ensures
            r@ == s_promote((x as int) % Self::Coeff::modulus(), Self::capacity()),
    ;

    /// The series with the first elements of `items` as its known
    /// coefficients, as many as a series can hold.
    fn from_slice(items: &[Self::Coeff]) -> (r: Self)
        ensures
            r@ == Seq::new(min_len(items@.len(), Self::capacity()), |i: int| items@[i].value()),
    ;

    /// Whether every known coefficient is zero.
    fn is_zero(&self) -> (b: bool)
        ensures
            b <==> self@ == s_zero(self@.len()),
    ;

    /// Whether the series is known to be the constant one.
    fn is_one(&self) -> (b: bool)
        ensures
            b <==> self@.len() > 0 && self@ == s_promote(1, self@.len()),
    ;

    /// Forgets the coefficients from `x^acc` on.
    fn set_accuracy(&mut self, acc: usize)
        ensures
            final(self)@ == old(self)@.take(min_len(acc as nat, old(self)@.len()) as int),
    ;

    /// The sum of two series.
    fn add(&self, other: &Self) -> (r: Self)
        ensures
            r@ == s_add(self@, other@, Self::Coeff::modulus()),
    ;

    /// The difference of two series.
    fn sub(&self, other: &Self) -> (r: Self)
        ensures
            r@ == s_sub(self@, other@, Self::Coeff::modulus()),
    ;

    /// The negative of a series.
    fn neg(&self) -> (r: Self)
        ensures
            r@ == s_neg(self@, Self::Coeff::modulus()),
    ;

    /// The coefficientwise product of two series.
    fn hadamard(&self, other: &Self) -> (r: Self)
        ensures
            r@ == s_hadamard(self@, other@, Self::Coeff::modulus()),
    ;

    /// The product of two series.
    fn mul(&self, other: &Self) -> (r: Self)
        ensures
            r@ == s_mul(self@, other@, Self::Coeff::modulus()),
    ;

    /// The quotient of two series.
    ///
    /// Fails where the constant term of `other` has no inverse.
    fn div(&self, other: &Self) -> (r: Result<Self, SeriesError>)
        ensures
            r is Err <==> !is_divisor(other@, Self::Coeff::modulus()),
            r is Ok ==> r->Ok_0@ == s_div(self@, other@, Self::Coeff::modulus()),
    ;

    /// The series with every coefficient but its first nonzero one replaced by zero.
    fn tail_term(&self) -> (r: Self)
        ensures
            r@ == s_tail_term(self@),
    ;

    /// The derivative.
    fn derive(&self) -> (r: Self)
        ensures
            r@ == s_derive(self@, Self::Coeff::modulus()),
    {
        let ghost p = Self::Coeff::modulus();
        let mut res = self.lshift();
        let n: usize = res.accuracy();
        let mut i: usize = 0;
        proof { Self::Coeff::lemma_modulus(); }
        while i < n
            invariant
                i <= n,
                n <= Self::capacity(),
                res@.len() == n,
                n == s_lshift(self@).len(),
                p == Self::Coeff::modulus(),
                p > 1,
                forall|j: int| 0 <= j < i ==> #[trigger] res@[j] == mul_mod(self@[j + 1], j + 1, p),
                forall|j: int| i <= j < n ==> #[trigger] res@[j] == self@[j + 1],
            decreases n - i,
        {
            let v = res.coefficient(i).mul(index_element::<Self::Coeff>(i + 1));
            proof { lemma_mul_mod_noop_right(self@[i + 1], i + 1, p); }
            res.set_coefficient(i, v);
            i += 1;
        }
        assert(res@ =~= s_derive(self@, p));
        res
    }

    /// Every coefficient multiplied by its index.
    fn point(&self) -> (r: Self)
        ensures
            r@ == s_point(self@, Self::Coeff::modulus()),
    {
        let ghost p = Self::Coeff::modulus();
        let mut res = *self;
        let n: usize = res.accuracy();
        let mut i: usize = 0;
        proof { Self::Coeff::lemma_modulus(); }
        while i < n
            invariant
                i <= n,
                res@.len() == n,
                n == self@.len(),
                p == Self::Coeff::modulus(),
                p > 1,
                forall|j: int| 0 <= j < i ==> #[trigger] res@[j] == mul_mod(self@[j], j, p),
                forall|j: int| i <= j < n ==> #[trigger] res@[j] == self@[j],
            decreases n - i,
        {
            let v = res.coefficient(i).mul(index_element::<Self::Coeff>(i));
            proof { lemma_mul_mod_noop_right(self@[i as int], i as int, p); }
            res.set_coefficient(i, v);
            i += 1;
        }
        assert(res@ =~= s_point(self@, p));
        res
    }

    /// The antiderivative with constant term zero.
    ///
    /// Fails where one of the indices by which it divides has no inverse.
    fn integrate(&self) -> (r: Result<Self, SeriesError>)
        ensures
            r is Err <==> !units_upto(min_len(Self::capacity(), self@.len() + 1) as int, Self::Coeff::modulus()),
            r is Ok ==> r->Ok_0@ == s_integrate(self@, Self::capacity(), Self::Coeff::modulus()),
    {
        let ghost p = Self::Coeff::modulus();
        let mut res = self.rshift();
        let n: usize = res.accuracy();
        let mut i: usize = 1;
        proof { Self::Coeff::lemma_modulus(); }
        while i < n
            invariant
                1 <= i <= n || n == 0,
                res@.len() == n,
                n == min_len(Self::capacity(), self@.len() + 1),
                p == Self::Coeff::modulus(),
                p > 1,
                n > 0 ==> res@[0] == 0,
                units_upto(i as int, p),
                forall|j: int| 1 <= j < i ==> #[trigger] res@[j] == quot_mod(self@[j - 1], j, p),
                forall|j: int| i <= j < n ==> #[trigger] res@[j] == self@[j - 1],
            decreases n - i,
        {
            proof { lemma_unit_mod(i as int, p); }
            match res.coefficient(i).div(index_element::<Self::Coeff>(i)) {
                Some(v) => {
                    res.set_coefficient(i, v);
                },
                None => {
                    assert(!is_unit(i as int, p));
                    return Err(SeriesError::InvalidOperand);
                },
            }
            i += 1;
        }
        assert(res@ =~= s_integrate(self@, Self::capacity(), p));
        Ok(res)
    }

    /// The forward difference.
    fn delta(&self) -> (r: Self)
        ensures
            r@ == s_delta(self@, Self::Coeff::modulus()),
    {
        let ghost p = Self::Coeff::modulus();
        let mut res = self.lshift();
        let n: usize = res.accuracy();
        let mut i: usize = 0;
        while i < n
            invariant
                i <= n,
                res@.len() == n,
                n == s_lshift(self@).len(),
                p == Self::Coeff::modulus(),
                forall|j: int| 0 <= j < i ==> #[trigger] res@[j] == sub_mod(self@[j + 1], self@[j], p),
                forall|j: int| i <= j < n ==> #[trigger] res@[j] == self@[j + 1],
            decreases n - i,
        {
            let v = res.coefficient(i).sub(self.coefficient(i));
            res.set_coefficient(i, v);
            i += 1;
        }
        assert(res@ =~= s_delta(self@, p));
        res
    }

    /// The second difference.
    fn t019(&self) -> (r: Self)
        ensures
            r@ == s_t019(self@, Self::Coeff::modulus()),
    {
        let ghost p = Self::Coeff::modulus();
        let mut res = self.lshift().lshift();
        let n: usize = res.accuracy();
        let mut i: usize = 0;
        proof { Self::Coeff::lemma_modulus(); }
        while i < n
            invariant
                i <= n,
                res@.len() == n,
                n == s_lshift(s_lshift(self@)).len(),
                p == Self::Coeff::modulus(),
                p > 1,
                forall|j: int|
                    0 <= j < i ==> #[trigger] res@[j] == (self@[j + 2] - 2 * self@[j + 1] + self@[j]) % p,
                forall|j: int| i <= j < n ==> #[trigger] res@[j] == self@[j + 2],
            decreases n - i,
        {
            let mid = self.coefficient(i + 1);
            let v = res.coefficient(i).add(self.coefficient(i)).sub(mid).sub(mid);
            proof {
                let a2 = self@[i + 2];
                let a1 = self@[i + 1];
                let a0 = self@[i as int];
                lemma_sub_mod_noop(a2 + a0, a1, p);
                lemma_mod_twice(a2 + a0, p);
                lemma_sub_mod_noop(a2 + a0 - a1, a1, p);
                lemma_mod_twice(a2 + a0 - a1, p);
                self.lemma_view();
                lemma_small_mod(a1 as nat, p as nat);
            }
            res.set_coefficient(i, v);
            i += 1;
        }
        assert(res@ =~= s_t019(self@, p));
        res
    }

    /// The partial sums of the coefficients.
    fn partial_sums(&self) -> (r: Self)
        ensures
            r@ == s_partial_sums(self@, Self::Coeff::modulus()),
    {
        let ghost p = Self::Coeff::modulus();
        let ghost f = |j: int| self@[j];
        let n: usize = self.accuracy();
        let mut res = Self::zeroes(n);
        let mut sm = Self::Coeff::zero();
        let mut i: usize = 0;
        proof {
            Self::Coeff::lemma_modulus();
            lemma_small_mod(0, p as nat);
        }
        while i < n
            invariant
                i <= n,
                res@.len() == n,
                n == self@.len(),
                p == Self::Coeff::modulus(),
                p > 1,
                f == |j: int| self@[j],
                sm.value() == sum(f, i as int) % p,
                forall|j: int| 0 <= j < i ==> #[trigger] res@[j] == sum(f, j + 1) % p,
            decreases n - i,
        {
            let ghost before = sm.value();
            sm = sm.add(self.coefficient(i));
            proof {
                lemma_add_mod_noop_left(sum(f, i as int), f(i as int), p);
            }
            res.set_coefficient(i, sm);
            i += 1;
        }
        assert(res@ =~= s_partial_sums(self@, p));
        res
    }

    /// The partial products of the coefficients.
    fn partial_products(&self) -> (r: Self)
        ensures
            r@ == s_partial_products(self@, Self::Coeff::modulus()),
    {
        let ghost p = Self::Coeff::modulus();
        let ghost f = |j: int| self@[j];
        let n: usize = self.accuracy();
        let mut res = Self::zeroes(n);
        let mut pr = Self::Coeff::one();
        let mut i: usize = 0;
        proof {
            Self::Coeff::lemma_modulus();
            lemma_small_mod(1, p as nat);
        }
        while i < n
            invariant
                i <= n,
                res@.len() == n,
                n == self@.len(),
                p == Self::Coeff::modulus(),
                p > 1,
                f == |j: int| self@[j],
                pr.value() == product(f, i as int) % p,
                forall|j: int| 0 <= j < i ==> #[trigger] res@[j] == product(f, j + 1) % p,
            decreases n - i,
        {
            pr = pr.mul(self.coefficient(i));
            proof {
                lemma_mul_mod_noop_left(product(f, i as int), f(i as int), p);
            }
            res.set_coefficient(i, pr);
            i += 1;
        }
        assert(res@ =~= s_partial_products(self@, p));
        res
    }

    /// From an exponential generating function to the ordinary one.
    fn laplace(&self) -> (r: Self)
        ensures
            r@ == s_laplace(self@, Self::Coeff::modulus()),
    {
        let ghost p = Self::Coeff::modulus();
        let mut res = *self;
        let n: usize = res.accuracy();
        let mut fac = Self::Coeff::one();
        let mut i: usize = 2;
        proof {
            Self::Coeff::lemma_modulus();
            lemma_small_mod(1, p as nat);
            reveal_with_fuel(factorial, 2);
            self.lemma_view();
            assert forall|j: int| 0 <= j < 2 && j < n implies #[trigger] res@[j] == mul_mod(
                self@[j],
                factorial(j as nat),
                p,
            ) by {
                assert(self@[j] * 1 == self@[j]);
                lemma_small_mod(self@[j] as nat, p as nat);
            }
        }
        while i < n
            invariant
                2 <= i,
                i <= n || n < 2,
                res@.len() == n,
                n == self@.len(),
                p == Self::Coeff::modulus(),
                p > 1,
                fac.value() == factorial((i - 1) as nat) % p,
                forall|j: int|
                    0 <= j < i && j < n ==> #[trigger] res@[j] == mul_mod(
                        self@[j],
                        factorial(j as nat),
                        p,
                    ),
                forall|j: int| i <= j < n ==> #[trigger] res@[j] == self@[j],
            decreases n - i,
        {
            fac = fac.mul(index_element::<Self::Coeff>(i));
            proof {
                lemma_mul_mod_noop(factorial((i - 1) as nat), i as int, p);
                lemma_mul_is_commutative(factorial((i - 1) as nat), i as int);
            }
            let v = res.coefficient(i).mul(fac);
            proof { lemma_mul_mod_noop_right(self@[i as int], factorial(i as nat), p); }
            res.set_coefficient(i, v);
            i += 1;
        }
        assert(res@ =~= s_laplace(self@, p));
        res
    }

    /// From an ordinary generating function to the exponential one.
    ///
    /// Fails where one of the factorials by which it divides has no inverse.
    fn laplace_inv(&self) -> (r: Result<Self, SeriesError>)
        ensures
            r is Err <==> !units_upto(self@.len() as int, Self::Coeff::modulus()),
            r is Ok ==> r->Ok_0@ == s_laplace_inv(self@, Self::Coeff::modulus()),
    {
        let ghost p = Self::Coeff::modulus();
        let mut res = *self;
        let n: usize = res.accuracy();
        let mut fac = Self::Coeff::one();
        let mut i: usize = 2;
        proof {
            Self::Coeff::lemma_modulus();
            lemma_small_mod(1, p as nat);
            reveal_with_fuel(factorial, 2);
            self.lemma_view();
            lemma_one_is_unit(p);
            assert forall|j: int| 0 <= j < 2 && j < n implies #[trigger] res@[j] == quot_mod(
                self@[j],
                factorial(j as nat),
                p,
            ) by {
                assert(self@[j] * 1 == self@[j]);
                lemma_small_mod(self@[j] as nat, p as nat);
            }
            assert forall|k: int| 1 <= k < 2 implies #[trigger] is_unit(k, p) by {}
        }
        while i < n
            invariant
                2 <= i,
                i <= n || n < 2,
                res@.len() == n,
                n == self@.len(),
                p == Self::Coeff::modulus(),
                p > 1,
                fac.value() == factorial((i - 1) as nat) % p,
                units_upto(i as int, p),
                forall|j: int|
                    0 <= j < i && j < n ==> #[trigger] res@[j] == quot_mod(
                        self@[j],
                        factorial(j as nat),
                        p,
                    ),
                forall|j: int| i <= j < n ==> #[trigger] res@[j] == self@[j],
            decreases n - i,
        {
            fac = fac.mul(index_element::<Self::Coeff>(i));
            proof {
                lemma_mul_mod_noop(factorial((i - 1) as nat), i as int, p);
                lemma_mul_is_commutative(factorial((i - 1) as nat), i as int);
                lemma_unit_mod(factorial(i as nat), p);
                lemma_factorial_unit(i as nat, p);
            }
            match res.coefficient(i).div(fac) {
                Some(v) => {
                    res.set_coefficient(i, v);
                },
                None => {
                    assert(!units_upto(i + 1, p));
                    return Err(SeriesError::InvalidOperand);
                },
            }
            i += 1;
        }
        proof {
            if n < 2 {
                assert forall|k: int| 1 <= k < n implies #[trigger] is_unit(k, p) by {}
            }
        }
        assert(res@ =~= s_laplace_inv(self@, p));
        Ok(res)
    }

    /// The logarithmic derivative `f' / f`.
    ///
    /// Fails where the constant term has no inverse.
    fn log_derive(&self) -> (r: Result<Self, SeriesError>)
        ensures
            r is Err <==> !is_divisor(self@, Self::Coeff::modulus()),
            r is Ok ==> r->Ok_0@ == s_div(s_derive(self@, Self::Coeff::modulus()), self@, Self::Coeff::modulus()),
    {
        self.derive().div(self)
    }

    /// The product of two exponential generating functions.
    ///
    /// Fails where one of the factorials by which it divides has no inverse.
    fn exp_mul(&self, other: &Self) -> (r: Result<Self, SeriesError>)
        ensures
            r is Err <==> !units_upto(self@.len() as int, Self::Coeff::modulus()) || !units_upto(
                other@.len() as int,
                Self::Coeff::modulus(),
            ),
            r is Ok ==> r->Ok_0@ == s_exp_mul(self@, other@, Self::Coeff::modulus()),
    {
        let lap1 = match self.laplace_inv() {
            Ok(v) => v,
            Err(e) => {
                return Err(e);
            },
        };
        let lap2 = match other.laplace_inv() {
            Ok(v) => v,
            Err(e) => {
                return Err(e);
            },
        };
        Ok(lap1.mul(&lap2).laplace())
    }

    /// The power with the exponent `e`, by squaring and multiplying.
    fn pow_nat(&self, e: u32) -> (r: Self)
        ensures
            r@ == s_pow(self@, e as nat, Self::Coeff::modulus()),
    {
        let ghost p = Self::Coeff::modulus();
        let n: usize = self.accuracy();
        let mut res = Self::one();
        res.set_accuracy(n);
        assert(res@ =~= s_promote(1, self@.len()));
        let mut b = *self;
        let mut k: u32 = e;
        let ghost target = s_pow(self@, e as nat, p);
        while k > 0
            invariant
                p == Self::Coeff::modulus(),
                s_pow_loop(res@, b@, k as nat, p) == target,
            decreases k,
        {
            if k & 1 > 0 {
                assert(k % 2 == 1) by (bit_vector)
                    requires
                        k & 1 > 0,
                ;
                res = res.mul(&b);
            } else {
                assert(k % 2 == 0) by (bit_vector)
                    requires
                        !(k & 1 > 0),
                ;
            }
            b = b.mul(&b);
            k = k / 2;
        }
        res
    }

    /// The power with the exponent `e`; for a negative `e` the power of the
    /// reciprocal with the exponent `-e`.
    ///
    /// Fails where `e` is negative and the constant term has no inverse.
    fn pow(&self, e: i32) -> (r: Result<Self, SeriesError>)
        ensures
            r is Err <==> e < 0 && !is_divisor(self@, Self::Coeff::modulus()),
            r is Ok ==> r->Ok_0@ == s_pow_int(self@, e as int, Self::Coeff::modulus()),
    {
        let ghost p = Self::Coeff::modulus();
        if e < 0 {
            let n: usize = self.accuracy();
            let mut one = Self::one();
            one.set_accuracy(n);
            assert(one@ =~= s_promote(1, self@.len()));
            let b = match one.div(self) {
                Ok(v) => v,
                Err(er) => {
                    return Err(er);
                },
            };
            Ok(b.pow_nat((-(e as i64)) as u32))
        } else {
            Ok(self.pow_nat(e as u32))
        }
    }

    /// The composition `self(other)`, by Horner's rule.
    ///
    /// Fails where the constant term of `other` is not zero.
    fn compose(&self, other: &Self) -> (r: Result<Self, SeriesError>)
        ensures
            r is Err <==> !is_substitutable(other@),
            r is Ok ==> r->Ok_0@ == s_compose(self@, other@, Self::Coeff::modulus()),
    {
        let ghost p = Self::Coeff::modulus();
        let na: usize = self.accuracy();
        let nb: usize = other.accuracy();
        if nb > 0 && !other.coefficient(0).is_zero() {
            return Err(SeriesError::InvalidOperand);
        }
        let sig: usize = if na < nb { na } else { nb };
        let mut res = Self::zeroes(sig);
        let mut i: usize = sig;
        while i > 0
            invariant
                i <= sig,
                sig == min_len(self@.len(), other@.len()),
                sig <= Self::capacity(),
                p == Self::Coeff::modulus(),
                res@.len() == sig,
                res@ == s_compose_from(self@, other@, i as int, sig as nat, p),
            decreases i,
        {
            i -= 1;
            let ghost prev = res@;
            res = res.mul(other);
            assert(res@.len() == sig);
            let c = res.coefficient(0).add(self.coefficient(i));
            res.set_coefficient(0, c);
            assert(res@ =~= s_add_const(s_mul(prev, other@, p), self@[i as int], p));
        }
        Ok(res)
    }

    /// The exponential series, known to `acc` terms, or to `Self::capacity()` where `acc` is more.
    ///
    /// Fails where one of the integers from `1` to the last index has no inverse.
    fn expx(acc: usize) -> (r: Result<Self, SeriesError>)
        ensures
            r is Err <==> !units_upto(min_len(acc as nat, Self::capacity()) as int, Self::Coeff::modulus()),
            r is Ok ==> r->Ok_0@ == s_expx(min_len(acc as nat, Self::capacity()), Self::Coeff::modulus()),
    {
        let n: usize = if acc < Self::cap() { acc } else { Self::cap() };
        match inverse_factorials::<Self::Coeff>(n) {
            Some(table) => {
                let res = Self::from_slice(table.as_slice());
                assert(res@ =~= s_expx(n as nat, Self::Coeff::modulus()));
                Ok(res)
            },
            None => Err(SeriesError::InvalidOperand),
        }
    }

    /// The sine series, known to `acc` terms, or to `Self::capacity()` where `acc` is more.
    ///
    /// Fails where one of the integers from `1` to the last index has no inverse.
    fn sin(acc: usize) -> (r: Result<Self, SeriesError>)
        ensures
            r is Err <==> !units_upto(min_len(acc as nat, Self::capacity()) as int, Self::Coeff::modulus()),
            r is Ok ==> r->Ok_0@ == s_sin(min_len(acc as nat, Self::capacity()), Self::Coeff::modulus()),
    {
        let ghost p = Self::Coeff::modulus();
        let n: usize = if acc < Self::cap() { acc } else { Self::cap() };
        let table = match inverse_factorials::<Self::Coeff>(n) {
            Some(t) => t,
            None => {
                return Err(SeriesError::InvalidOperand);
            },
        };
        let mut res = Self::zeroes(n);
        let mut i: usize = 0;
        while i < n
            invariant
                i <= n,
                n <= Self::capacity(),
                res@.len() == n,
                table@.len() == n,
                p == Self::Coeff::modulus(),
                forall|j: int|
                    0 <= j < n ==> (#[trigger] table@[j]).value() == inv_mod(factorial(j as nat), p),
                forall|j: int| 0 <= j < i ==> #[trigger] res@[j] == s_sin(n as nat, p)[j],
                forall|j: int| i <= j < n ==> #[trigger] res@[j] == 0,
            decreases n - i,
        {
            if i % 2 == 1 {
                let v = if i % 4 == 1 { table[i] } else { table[i].neg() };
                res.set_coefficient(i, v);
            }
            i += 1;
        }
        assert(res@ =~= s_sin(n as nat, p));
        Ok(res)
    }

    /// The cosine series, known to `acc` terms, or to `Self::capacity()` where `acc` is more.
    ///
    /// Fails where one of the integers from `1` to the last index has no inverse.
    fn cos(acc: usize) -> (r: Result<Self, SeriesError>)
        ensures
            r is Err <==> !units_upto(min_len(acc as nat, Self::capacity()) as int, Self::Coeff::modulus()),
            r is Ok ==> r->Ok_0@ == s_cos(min_len(acc as nat, Self::capacity()), Self::Coeff::modulus()),
    {
        let ghost p = Self::Coeff::modulus();
        let n: usize = if acc < Self::cap() { acc } else { Self::cap() };
        let table = match inverse_factorials::<Self::Coeff>(n) {
            Some(t) => t,
            None => {
                return Err(SeriesError::InvalidOperand);
            },
        };
        let mut res = Self::zeroes(n);
        let mut i: usize = 0;
        while i < n
            invariant
                i <= n,
                n <= Self::capacity(),
                res@.len() == n,
                table@.len() == n,
                p == Self::Coeff::modulus(),
                forall|j: int|
                    0 <= j < n ==> (#[trigger] table@[j]).value() == inv_mod(factorial(j as nat), p),
                forall|j: int| 0 <= j < i ==> #[trigger] res@[j] == s_cos(n as nat, p)[j],
                forall|j: int| i <= j < n ==> #[trigger] res@[j] == 0,
            decreases n - i,
        {
            if i % 2 == 0 {
                let v = if i % 4 == 0 { table[i] } else { table[i].neg() };
                res.set_coefficient(i, v);
            }
            i += 1;
        }
        assert(res@ =~= s_cos(n as nat, p));
        Ok(res)
    }

    /// The series of `log(1 + x)`, known to `acc` terms, or to `Self::capacity()` where `acc` is more.
    ///
    /// Fails where one of the integers from `1` to the last index has no inverse.
    fn log1px(acc: usize) -> (r: Result<Self, SeriesError>)
        ensures
            r is Err <==> !units_upto(min_len(acc as nat, Self::capacity()) as int, Self::Coeff::modulus()),
            r is Ok ==> r->Ok_0@ == s_log1px(min_len(acc as nat, Self::capacity()), Self::Coeff::modulus()),
    {
        let ghost p = Self::Coeff::modulus();
        let n: usize = if acc < Self::cap() { acc } else { Self::cap() };
        let mut res = Self::zeroes(n);
        let mut i: usize = 1;
        proof { Self::Coeff::lemma_modulus(); }
        while i < n
            invariant
                1 <= i,
                i <= n || n == 0,
                n <= Self::capacity(),
                n == min_len(acc as nat, Self::capacity()),
                res@.len() == n,
                p == Self::Coeff::modulus(),
                p > 1,
                units_upto(i as int, p),
                forall|j: int| 0 <= j < i && j < n ==> #[trigger] res@[j] == s_log1px(n as nat, p)[j],
                forall|j: int| i <= j < n ==> #[trigger] res@[j] == 0,
            decreases n - i,
        {
            proof { lemma_unit_mod(i as int, p); }
            match index_element::<Self::Coeff>(i).inv() {
                Some(x) => {
                    let v = if i % 2 == 1 { x } else { x.neg() };
                    res.set_coefficient(i, v);
                },
                None => {
                    assert(!is_unit(i as int, p));
                    return Err(SeriesError::InvalidOperand);
                },
            }
            i += 1;
        }
        proof {
            if n == 0 {
                assert forall|k: int| 1 <= k < n implies #[trigger] is_unit(k, p) by {}
            }
        }
        assert(res@ =~= s_log1px(n as nat, p));
        Ok(res)
    }

    /// `exp(self) - 1`.
    ///
    /// Fails where the constant term is not zero, or where one of the
    /// integers from `1` to the last index has no inverse.
    fn exp(&self) -> (r: Result<Self, SeriesError>)
        ensures
            r is Err <==> !is_substitutable(self@) || !units_upto(self@.len() as int, Self::Coeff::modulus()),
            r is Ok ==> r->Ok_0@ == s_exp(self@, Self::Coeff::modulus()),
    {
        let ghost p = Self::Coeff::modulus();
        let n: usize = self.accuracy();
        let e = match Self::expx(n) {
            Ok(v) => v,
            Err(er) => {
                return Err(er);
            },
        };
        let mut res = match e.compose(self) {
            Ok(v) => v,
            Err(er) => {
                return Err(er);
            },
        };
        if res.accuracy() > 0 {
            let c = res.coefficient(0).sub(Self::Coeff::one());
            res.set_coefficient(0, c);
        }
        assert(res@ =~= s_exp(self@, p));
        Ok(res)
    }

    /// `log(1 + self)`.
    ///
    /// Fails where the constant term is not zero, or where one of the
    /// integers from `1` to the last index has no inverse.
    fn log(&self) -> (r: Result<Self, SeriesError>)
        ensures
            r is Err <==> !is_substitutable(self@) || !units_upto(self@.len() as int, Self::Coeff::modulus()),
            r is Ok ==> r->Ok_0@ == s_log(self@, Self::Coeff::modulus()),
    {
        let n: usize = self.accuracy();
        let l = match Self::log1px(n) {
            Ok(v) => v,
            Err(er) => {
                return Err(er);
            },
        };
        l.compose(self)
    }

    /// The series `(1 + sin x) / cos x`, known to `acc` terms, or to `Self::capacity()` where `acc` is more.
    ///
    /// Fails where one of the integers from `1` to the last index has no inverse.
    fn updown(acc: usize) -> (r: Result<Self, SeriesError>)
        ensures
            r is Err <==> !units_upto(min_len(acc as nat, Self::capacity()) as int, Self::Coeff::modulus()),
            r is Ok ==> r->Ok_0@ == s_updown(min_len(acc as nat, Self::capacity()), Self::Coeff::modulus()),
            r is Ok ==> r->Ok_0@.len() == min_len(acc as nat, Self::capacity()),
            r is Ok ==> is_divisor(r->Ok_0@, Self::Coeff::modulus()),
    {
        let ghost p = Self::Coeff::modulus();
        let n: usize = if acc < Self::cap() { acc } else { Self::cap() };
        let s = match Self::sin(acc) {
            Ok(v) => v,
            Err(er) => {
                return Err(er);
            },
        };
        let c = match Self::cos(acc) {
            Ok(v) => v,
            Err(er) => {
                return Err(er);
            },
        };
        let mut one = Self::one();
        one.set_accuracy(n);
        assert(one@ =~= s_promote(1, n as nat));
        let top = one.add(&s);
        proof {
            Self::Coeff::lemma_modulus();
            lemma_one_is_unit(p);
            if n > 0 {
                assert(c@[0] == inv_mod(factorial(0), p));
                assert(is_unit(c@[0], p));
            }
        }
        match top.div(&c) {
            Ok(v) => {
                proof {
                    lemma_div_prefix(top@, c@, n as nat, 0, p);
                    if n > 0 {
                        // the constant term is (1 + 0) / 1
                        lemma_div_prefix(top@, c@, n as nat, 1, p);
                        reveal_with_fuel(s_div_prefix, 2);
                        let q0 = s_div_prefix(top@, c@, 0, p);
                        assert(sum(|j: int| q0[j] * c@[0 - j], 0) == 0);
                        assert(top@[0] == add_mod(1, 0, p));
                        lemma_small_mod(1, p as nat);
                        assert(1 * 1 == 1);
                        assert(v@[0] == 1);
                    }
                }
                Ok(v)
            },
            Err(er) => {
                assert(false);
                Err(er)
            },
        }
    }

    /// The boustrophedon transform.
    ///
    /// Fails where one of the integers from `1` to the last index has no inverse.
    fn bous(&self) -> (r: Result<Self, SeriesError>)
        ensures
            r is Err <==> !units_upto(self@.len() as int, Self::Coeff::modulus()),
            r is Ok ==> r->Ok_0@ == s_bous(self@, Self::Coeff::modulus()),
    {
        let n: usize = self.accuracy();
        let ud = match Self::updown(n) {
            Ok(v) => v,
            Err(er) => {
                return Err(er);
            },
        };
        let li = match self.laplace_inv() {
            Ok(v) => v,
            Err(er) => {
                return Err(er);
            },
        };
        Ok(li.mul(&ud).laplace())
    }

    /// The inverse boustrophedon transform.
    ///
    /// Fails where one of the integers from `1` to the last index has no inverse.
    fn bous_inv(&self) -> (r: Result<Self, SeriesError>)
        ensures
            r is Err <==> !units_upto(self@.len() as int, Self::Coeff::modulus()),
            r is Ok ==> r->Ok_0@ == s_bous_inv(self@, Self::Coeff::modulus()),
    {
        let ghost p = Self::Coeff::modulus();
        let n: usize = self.accuracy();
        let ud = match Self::updown(n) {
            Ok(v) => v,
            Err(er) => {
                return Err(er);
            },
        };
        let li = match self.laplace_inv() {
            Ok(v) => v,
            Err(er) => {
                return Err(er);
            },
        };
        match li.div(&ud) {
            Ok(q) => Ok(q.laplace()),
            Err(er) => {
                assert(false);
                Err(er)
            },
        }
    }

    /// The binomial transform, by iterated sums.
    fn binomial(&self) -> (r: Self)
        ensures
            r@ == s_binomial(self@, Self::Coeff::modulus()),
    {
        let ghost p = Self::Coeff::modulus();
        let n: usize = self.accuracy();
        let mut res = Self::zeroes(n);
        if n == 0 {
            assert(res@ =~= s_binomial(self@, p));
            return res;
        }
        let mut summer = *self;
        res.set_coefficient(0, summer.coefficient(0));
        let mut i: usize = 1;
        while i < n
            invariant
                1 <= i <= n,
                n == self@.len(),
                n <= Self::capacity(),
                res@.len() == n,
                p == Self::Coeff::modulus(),
                summer@ == s_sum_rows(self@, (i - 1) as nat, p),
                summer@.len() == n - (i - 1),
                forall|t: int| 0 <= t < i ==> #[trigger] res@[t] == s_sum_rows(self@, t as nat, p)[0],
            decreases n - i,
        {
            let ghost prev = summer@;
            let m: usize = summer.accuracy();
            let mut j: usize = 0;
            while j < m - 1
                invariant
                    j <= m - 1,
                    m >= 2,
                    m == prev.len(),
                    summer@.len() == m,
                    p == Self::Coeff::modulus(),
                    forall|t: int| 0 <= t < j ==> #[trigger] summer@[t] == add_mod(prev[t], prev[t + 1], p),
                    forall|t: int| j <= t < m ==> #[trigger] summer@[t] == prev[t],
                decreases m - 1 - j,
            {
                let v = summer.coefficient(j).add(summer.coefficient(j + 1));
                summer.set_coefficient(j, v);
                j += 1;
            }
            summer.limit_accuracy(m - 1);
            assert(summer@ =~= s_sum_rows(self@, i as nat, p));
            res.set_coefficient(i, summer.coefficient(0));
            i += 1;
        }
        assert(res@ =~= s_binomial(self@, p));
        res
    }

    /// The inverse binomial transform, by iterated differences.
    fn binomial_inv(&self) -> (r: Self)
        ensures
            r@ == s_binomial_inv(self@, Self::Coeff::modulus()),
    {
        let ghost p = Self::Coeff::modulus();
        let n: usize = self.accuracy();
        let mut res = Self::zeroes(n);
        if n == 0 {
            assert(res@ =~= s_binomial_inv(self@, p));
            return res;
        }
        let mut summer = *self;
        res.set_coefficient(0, summer.coefficient(0));
        let mut i: usize = 1;
        while i < n
            invariant
                1 <= i <= n,
                n == self@.len(),
                n <= Self::capacity(),
                res@.len() == n,
                p == Self::Coeff::modulus(),
                summer@ == s_diff_rows(self@, (i - 1) as nat, p),
                summer@.len() == n - (i - 1),
                forall|t: int| 0 <= t < i ==> #[trigger] res@[t] == s_diff_rows(self@, t as nat, p)[0],
            decreases n - i,
        {
            let ghost prev = summer@;
            let m: usize = summer.accuracy();
            let mut j: usize = 0;
            while j < m - 1
                invariant
                    j <= m - 1,
                    m >= 2,
                    m == prev.len(),
                    summer@.len() == m,
                    p == Self::Coeff::modulus(),
                    forall|t: int| 0 <= t < j ==> #[trigger] summer@[t] == sub_mod(prev[t + 1], prev[t], p),
                    forall|t: int| j <= t < m ==> #[trigger] summer@[t] == prev[t],
                decreases m - 1 - j,
            {
                let v = summer.coefficient(j + 1).sub(summer.coefficient(j));
                summer.set_coefficient(j, v);
                j += 1;
            }
            summer.limit_accuracy(m - 1);
            assert(summer@ =~= s_diff_rows(self@, i as nat, p));
            res.set_coefficient(i, summer.coefficient(0));
            i += 1;
        }
        assert(res@ =~= s_binomial_inv(self@, p));
        res
    }

    /// The Stirling transform.
    fn stirling(&self) -> (r: Self)
        ensures
            r@ == s_stirling(self@, Self::Coeff::modulus()),
    {
        let ghost p = Self::Coeff::modulus();
        let n: usize = self.accuracy();
        let mut res = Self::zeroes(n);
        if n == 0 {
            assert(res@ =~= s_stirling(self@, p));
            return res;
        }
        let mut row: Vec<Self::Coeff> = zero_vec(n);
        row.set(0, Self::Coeff::one());
        proof {
            Self::Coeff::lemma_modulus();
            lemma_small_mod(1, p as nat);
            lemma_small_mod(0, p as nat);
            assert forall|j: int| 0 <= j < n implies (#[trigger] row@[j]).value() == stirling2(0, j as nat) % p by {}
        }
        let mut i: usize = 0;
        while i < n
            invariant
                i <= n,
                n == self@.len(),
                n <= Self::capacity(),
                res@.len() == n,
                row@.len() == n,
                p == Self::Coeff::modulus(),
                p > 1,
                i < n ==> forall|j: int|
                    0 <= j < n ==> (#[trigger] row@[j]).value() == stirling2(i as nat, j as nat) % p,
                forall|t: int| 0 <= t < i ==> #[trigger] res@[t] == s_stirling(self@, p)[t],
            decreases n - i,
        {
            let ghost f = |j: int| stirling2(i as nat, j as nat) * self@[j];
            let mut acc = Self::Coeff::zero();
            let mut j: usize = 0;
            proof { lemma_small_mod(0, p as nat); }
            while j < i + 1
                invariant
                    j <= i + 1,
                    i < n,
                    n == self@.len(),
                    row@.len() == n,
                    p == Self::Coeff::modulus(),
                    p > 1,
                    forall|j: int|
                        0 <= j < n ==> (#[trigger] row@[j]).value() == stirling2(i as nat, j as nat) % p,
                    f == |j: int| stirling2(i as nat, j as nat) * self@[j],
                    acc.value() == sum(f, j as int) % p,
                decreases i + 1 - j,
            {
                acc = acc.add(row[j].mul(self.coefficient(j)));
                proof {
                    lemma_mul_mod_noop_left(stirling2(i as nat, j as nat), self@[j as int], p);
                    lemma_add_mod_noop(sum(f, j as int), f(j as int), p);
                    lemma_mod_twice(sum(f, j as int), p);
                }
                j += 1;
            }
            res.set_coefficient(i, acc);
            if i + 1 < n {
                // from the row of i to the row of i + 1, from the right
                let mut j: usize = i + 1;
                proof {
                    assert forall|t: int| i + 1 < t < n implies (#[trigger] row@[t]).value()
                        == stirling2((i + 1) as nat, t as nat) % p by {
                        lemma_stirling_zero(i as nat, t as nat);
                        lemma_stirling_zero((i + 1) as nat, t as nat);
                    }
                }
                while j > 0
                    invariant
                        j <= i + 1,
                        i + 1 < n,
                        row@.len() == n,
                        p == Self::Coeff::modulus(),
                        p > 1,
                        forall|t: int|
                            0 <= t <= j ==> (#[trigger] row@[t]).value() == stirling2(i as nat, t as nat) % p,
                        forall|t: int|
                            j < t < n ==> (#[trigger] row@[t]).value() == stirling2(
                                (i + 1) as nat,
                                t as nat,
                            ) % p,
                    decreases j,
                {
                    let v = index_element::<Self::Coeff>(j).mul(row[j]).add(row[j - 1]);
                    proof {
                        let a = stirling2(i as nat, j as nat);
                        let b = stirling2(i as nat, (j - 1) as nat);
                        lemma_mul_mod_noop(j as int, a, p);
                        lemma_add_mod_noop(j * a, b, p);
                    }
                    row.set(j, v);
                    j -= 1;
                }
                row.set(0, Self::Coeff::zero());
                proof { lemma_small_mod(0, p as nat); }
            }
            i += 1;
        }
        assert(res@ =~= s_stirling(self@, p));
        res
    }

    /// The inverse Stirling transform.
    fn stirling_inv(&self) -> (r: Self)
        ensures
            r@ == s_stirling_inv(self@, Self::Coeff::modulus()),
    {
        let ghost p = Self::Coeff::modulus();
        let n: usize = self.accuracy();
        let mut res = Self::zeroes(n);
        if n == 0 {
            assert(res@ =~= s_stirling_inv(self@, p));
            return res;
        }
        let mut row: Vec<Self::Coeff> = zero_vec(n);
        row.set(0, Self::Coeff::one());
        proof {
            Self::Coeff::lemma_modulus();
            lemma_small_mod(1, p as nat);
            lemma_small_mod(0, p as nat);
            assert forall|j: int| 0 <= j < n implies (#[trigger] row@[j]).value() == stirling1(0, j as nat) % p by {}
        }
        let mut i: usize = 0;
        while i < n
            invariant
                i <= n,
                n == self@.len(),
                n <= Self::capacity(),
                res@.len() == n,
                row@.len() == n,
                p == Self::Coeff::modulus(),
                p > 1,
                i < n ==> forall|j: int|
                    0 <= j < n ==> (#[trigger] row@[j]).value() == stirling1(i as nat, j as nat) % p,
                forall|t: int| 0 <= t < i ==> #[trigger] res@[t] == s_stirling_inv(self@, p)[t],
            decreases n - i,
        {
            let ghost f = |j: int| stirling1(i as nat, j as nat) * self@[j];
            let mut acc = Self::Coeff::zero();
            let mut j: usize = 0;
            proof { lemma_small_mod(0, p as nat); }
            while j < i + 1
                invariant
                    j <= i + 1,
                    i < n,
                    n == self@.len(),
                    row@.len() == n,
                    p == Self::Coeff::modulus(),
                    p > 1,
                    forall|j: int|
                        0 <= j < n ==> (#[trigger] row@[j]).value() == stirling1(i as nat, j as nat) % p,
                    f == |j: int| stirling1(i as nat, j as nat) * self@[j],
                    acc.value() == sum(f, j as int) % p,
                decreases i + 1 - j,
            {
                acc = acc.add(row[j].mul(self.coefficient(j)));
                proof {
                    lemma_mul_mod_noop_left(stirling1(i as nat, j as nat), self@[j as int], p);
                    lemma_add_mod_noop(sum(f, j as int), f(j as int), p);
                    lemma_mod_twice(sum(f, j as int), p);
                }
                j += 1;
            }
            res.set_coefficient(i, acc);
            if i + 1 < n {
                let scale = index_element::<Self::Coeff>(i).neg();
                let mut j: usize = i + 1;
                proof {
                    assert forall|t: int| i + 1 < t < n implies (#[trigger] row@[t]).value()
                        == stirling1((i + 1) as nat, t as nat) % p by {
                        lemma_stirling_zero(i as nat, t as nat);
                        lemma_stirling_zero((i + 1) as nat, t as nat);
                    }
                }
                while j > 0
                    invariant
                        j <= i + 1,
                        i + 1 < n,
                        row@.len() == n,
                        p == Self::Coeff::modulus(),
                        p > 1,
                        scale.value() == neg_mod((i as int) % p, p),
                        forall|t: int|
                            0 <= t <= j ==> (#[trigger] row@[t]).value() == stirling1(i as nat, t as nat) % p,
                        forall|t: int|
                            j < t < n ==> (#[trigger] row@[t]).value() == stirling1(
                                (i + 1) as nat,
                                t as nat,
                            ) % p,
                    decreases j,
                {
                    let v = scale.mul(row[j]).add(row[j - 1]);
                    proof {
                        let a = stirling1(i as nat, j as nat);
                        let b = stirling1(i as nat, (j - 1) as nat);
                        lemma_mod_operands(i as int, 0, p);
                        assert(scale.value() == (-(i as int)) % p);
                        lemma_mul_mod_noop(-(i as int), a, p);
                        lemma_add_mod_noop(-(i as int) * a, b, p);
                        assert(-((i + 1) - 1) * a == -(i as int) * a);
                    }
                    row.set(j, v);
                    j -= 1;
                }
                row.set(0, Self::Coeff::zero());
                proof { lemma_small_mod(0, p as nat); }
            }
            i += 1;
        }
        assert(res@ =~= s_stirling_inv(self@, p));
        res
    }

    /// The Dirichlet convolution.
    fn dirichlet(&self, other: &Self) -> (r: Self)
        ensures
            r@ == s_dirichlet(self@, other@, Self::Coeff::modulus()),
    {
        let ghost p = Self::Coeff::modulus();
        let na: usize = self.accuracy();
        let nb: usize = other.accuracy();
        let n: usize = if na < nb { na } else { nb };
        let mut res = Self::zeroes(n);
        let mut m: usize = 1;
        proof { Self::Coeff::lemma_modulus(); }
        while m < n
            invariant
                1 <= m,
                m <= n || n == 0,
                n == min_len(self@.len(), other@.len()),
                n <= Self::capacity(),
                res@.len() == n,
                p == Self::Coeff::modulus(),
                p > 1,
                n > 0 ==> res@[0] == 0,
                forall|t: int| 1 <= t < m ==> #[trigger] res@[t] == s_dirichlet(self@, other@, p)[t],
            decreases n - m,
        {
            let ghost f = |d: int| divisor_term(self@, other@, m as int, d);
            let mut acc = Self::Coeff::zero();
            let mut d: usize = 1;
            proof {
                lemma_small_mod(0, p as nat);
                assert(sum(f, 1) == f(0)) by {
                    reveal_with_fuel(sum, 2);
                }
            }
            while d < m + 1
                invariant
                    1 <= d <= m + 1,
                    m < n,
                    n == min_len(self@.len(), other@.len()),
                    p == Self::Coeff::modulus(),
                    p > 1,
                    f == |d: int| divisor_term(self@, other@, m as int, d),
                    acc.value() == sum(f, d as int) % p,
                decreases m + 1 - d,
            {
                if m % d == 0 {
                    let ghost before = acc.value();
                    acc = acc.add(self.coefficient(m / d).mul(other.coefficient(d)));
                    proof {
                        lemma_add_mod_noop(sum(f, d as int), f(d as int), p);
                        lemma_mod_twice(sum(f, d as int), p);
                    }
                } else {
                    assert(f(d as int) == 0);
                }
                d += 1;
            }
            res.set_coefficient(m, acc);
            m += 1;
        }
        assert(res@ =~= s_dirichlet(self@, other@, p));
        res
    }

    /// The Möbius function as a series, known to `acc` terms, or to `Self::capacity()` where `acc` is more.
    fn mobius_series(acc: usize) -> (r: Self)
        ensures
            r@ == s_mu(min_len(acc as nat, Self::capacity()), Self::Coeff::modulus()),
    {
        let ghost p = Self::Coeff::modulus();
        let n: usize = if acc < Self::cap() { acc } else { Self::cap() };
        let mut res = Self::zeroes(n);
        proof {
            Self::Coeff::lemma_modulus();
            lemma_small_mod(0, p as nat);
            lemma_small_mod(1, p as nat);
        }
        if n > 1 {
            res.set_coefficient(1, Self::Coeff::one());
        }
        let mut m: usize = 2;
        while m < n
            invariant
                2 <= m,
                m <= n || n < 2,
                n <= Self::capacity(),
                res@.len() == n,
                p == Self::Coeff::modulus(),
                p > 1,
                forall|t: int| 0 <= t < m && t < n ==> #[trigger] res@[t] == mobius(t as nat) % p,
            decreases n - m,
        {
            let mut acc = Self::Coeff::zero();
            let mut d: usize = 1;
            proof { lemma_small_mod(0, p as nat); }
            while d < m
                invariant
                    1 <= d <= m,
                    2 <= m < n,
                    res@.len() == n,
                    p == Self::Coeff::modulus(),
                    p > 1,
                    forall|t: int| 0 <= t < m ==> #[trigger] res@[t] == mobius(t as nat) % p,
                    acc.value() == mobius_partial(m as nat, d as nat) % p,
                decreases m - d,
            {
                if m % d == 0 {
                    acc = acc.add(res.coefficient(d));
                    proof {
                        lemma_add_mod_noop(mobius_partial(m as nat, d as nat), mobius(d as nat), p);
                        lemma_mod_twice(mobius_partial(m as nat, d as nat), p);
                    }
                }
                d += 1;
            }
            res.set_coefficient(m, acc.neg());
            proof {
                lemma_mod_operands(mobius_partial(m as nat, m as nat), 0, p);
            }
            m += 1;
        }
        assert(res@ =~= s_mu(n as nat, p));
        res
    }

    /// The Möbius transform.
    fn mobius(&self) -> (r: Self)
        ensures
            r@ == s_mobius(self@, Self::Coeff::modulus()),
    {
        let mu = Self::mobius_series(self.accuracy());
        self.dirichlet(&mu)
    }

    /// The inverse Möbius transform: the sums over the divisors.
    fn mobius_inv(&self) -> (r: Self)
        ensures
            r@ == s_mobius_inv(self@, Self::Coeff::modulus()),
    {
        let n: usize = self.accuracy();
        let one = Self::Coeff::one();
        let mut ones = Self::zeroes(n);
        let mut i: usize = 0;
        while i < n
            invariant
                i <= n,
                n <= Self::capacity(),
                ones@.len() == n,
                one.value() == 1,
                forall|t: int| 0 <= t < i ==> #[trigger] ones@[t] == 1,
            decreases n - i,
        {
            ones.set_coefficient(i, one);
            i += 1;
        }
        assert(ones@ =~= s_ones(n as nat));
        ones.dirichlet(self)
    }

    /// The Euler transform.
    ///
    /// Fails where one of the integers from `1` to the last index has no inverse.
    fn euler(&self) -> (r: Result<Self, SeriesError>)
        ensures
            r is Err <==> !units_upto(self@.len() as int, Self::Coeff::modulus()),
            r is Ok ==> r->Ok_0@ == s_euler(self@, Self::Coeff::modulus()),
    {
        let ghost p = Self::Coeff::modulus();
        let n: usize = self.accuracy();
        let c = self.point().mobius_inv();
        let mut res = Self::zeroes(n);
        proof {
            Self::Coeff::lemma_modulus();
            assert forall|k: int| 1 <= k < 1 implies #[trigger] is_unit(k, p) by {}
        }
        if n == 0 {
            assert(res@ =~= s_euler(self@, p));
            return Ok(res);
        }
        res.set_coefficient(0, self.coefficient(0));
        let ghost a0 = self@[0];
        let mut i: usize = 1;
        assert(res@.take(1) =~= s_euler_prefix(a0, c@, 1, p));
        while i < n
            invariant
                1 <= i <= n,
                n == self@.len(),
                n <= Self::capacity(),
                res@.len() == n,
                c@.len() == n,
                p == Self::Coeff::modulus(),
                p > 1,
                units_upto(i as int, p),
                res@.take(i as int) == s_euler_prefix(a0, c@, i as nat, p),
            decreases n - i,
        {
            let ghost r = s_euler_prefix(a0, c@, i as nat, p);
            let ghost f = |j: int| if j >= 1 { r[i - j] * c@[j] } else { 0 };
            let mut acc = c.coefficient(i);
            let mut j: usize = 1;
            proof {
                lemma_euler_prefix_len(a0, c@, i as nat, p);
                c.lemma_view();
                lemma_small_mod(c@[i as int] as nat, p as nat);
                assert(sum(f, 1) == f(0)) by {
                    reveal_with_fuel(sum, 2);
                }
            }
            while j < i
                invariant
                    1 <= j <= i,
                    i < n,
                    res@.len() == n,
                    c@.len() == n,
                    p == Self::Coeff::modulus(),
                    p > 1,
                    r.len() == i,
                    res@.take(i as int) == r,
                    f == |j: int| if j >= 1 { r[i - j] * c@[j] } else { 0 },
                    acc.value() == (c@[i as int] + sum(f, j as int)) % p,
                decreases i - j,
            {
                let ghost before = acc.value();
                acc = acc.add(res.coefficient(i - j).mul(c.coefficient(j)));
                proof {
                    assert(res@[i - j] == res@.take(i as int)[i - j]);
                    let t = f(j as int);
                    lemma_add_mod_noop(c@[i as int] + sum(f, j as int), t, p);
                    lemma_mod_twice(c@[i as int] + sum(f, j as int), p);
                }
                j += 1;
            }
            proof { lemma_unit_mod(i as int, p); }
            match acc.div(index_element::<Self::Coeff>(i)) {
                Some(v) => {
                    let ghost before = res@;
                    res.set_coefficient(i, v);
                    proof {
                        lemma_add_mod_noop_right(c@[i as int], euler_feedback(r, c@, i as int), p);
                        assert(res@.take(i + 1) =~= before.take(i as int).push(v.value()));
                    }
                },
                None => {
                    assert(!is_unit(i as int, p));
                    return Err(SeriesError::InvalidOperand);
                },
            }
            i += 1;
        }
        assert(res@.take(n as int) =~= res@);
        Ok(res)
    }

    /// The inverse Euler transform.
    ///
    /// Fails where one of the integers from `1` to the last index has no inverse.
    fn euler_inv(&self) -> (r: Result<Self, SeriesError>)
        ensures
            r is Err <==> !units_upto(self@.len() as int, Self::Coeff::modulus()),
            r is Ok ==> r->Ok_0@ == s_euler_inv(self@, Self::Coeff::modulus()),
    {
        let ghost p = Self::Coeff::modulus();
        let n: usize = self.accuracy();
        let mut pre = Self::zeroes(n);
        proof {
            Self::Coeff::lemma_modulus();
            assert forall|k: int| 1 <= k < 1 implies #[trigger] is_unit(k, p) by {}
        }
        if n == 0 {
            assert(pre@ =~= s_euler_inv(self@, p));
            return Ok(pre);
        }
        let mut i: usize = 1;
        assert(pre@.take(1) =~= s_euler_inv_pre(self@, 1, p));
        while i < n
            invariant
                1 <= i <= n,
                n == self@.len(),
                n <= Self::capacity(),
                pre@.len() == n,
                p == Self::Coeff::modulus(),
                p > 1,
                pre@.take(i as int) == s_euler_inv_pre(self@, i as nat, p),
            decreases n - i,
        {
            let ghost r = s_euler_inv_pre(self@, i as nat, p);
            let ghost f = |j: int| if j >= 1 { r[j] * self@[i - j] } else { 0 };
            let mut acc = index_element::<Self::Coeff>(i).mul(self.coefficient(i));
            let mut j: usize = 1;
            proof {
                lemma_euler_inv_pre_len(self@, i as nat, p);
                lemma_mul_mod_noop_left(i as int, self@[i as int], p);
                assert(sum(f, 1) == f(0)) by {
                    reveal_with_fuel(sum, 2);
                }
            }
            while j < i
                invariant
                    1 <= j <= i,
                    i < n,
                    n == self@.len(),
                    pre@.len() == n,
                    p == Self::Coeff::modulus(),
                    p > 1,
                    r.len() == i,
                    pre@.take(i as int) == r,
                    f == |j: int| if j >= 1 { r[j] * self@[i - j] } else { 0 },
                    acc.value() == (i * self@[i as int] - sum(f, j as int)) % p,
                decreases i - j,
            {
                acc = acc.sub(pre.coefficient(j).mul(self.coefficient(i - j)));
                proof {
                    assert(pre@[j as int] == pre@.take(i as int)[j as int]);
                    let t = f(j as int);
                    lemma_sub_mod_noop(i * self@[i as int] - sum(f, j as int), t, p);
                    lemma_mod_twice(i * self@[i as int] - sum(f, j as int), p);
                }
                j += 1;
            }
            let ghost before = pre@;
            pre.set_coefficient(i, acc);
            proof {
                lemma_sub_mod_noop(i * self@[i as int], euler_inv_feedback(r, self@, i as int), p);
                lemma_sub_mod_noop_right(
                    mul_mod(i as int, self@[i as int], p),
                    euler_inv_feedback(r, self@, i as int),
                    p,
                );
                assert(pre@.take(i + 1) =~= before.take(i as int).push(acc.value()));
            }
            i += 1;
        }
        assert(pre@.take(n as int) =~= pre@);
        let mut res = pre.mobius();
        let ghost mob = res@;
        assert(mob.len() == n);
        let c0 = res.coefficient(0).add(self.coefficient(0));
        res.set_coefficient(0, c0);
        let mut i: usize = 1;
        while i < n
            invariant
                1 <= i <= n,
                n == self@.len(),
                res@.len() == n,
                mob.len() == n,
                p == Self::Coeff::modulus(),
                p > 1,
                units_upto(i as int, p),
                res@[0] == add_mod(mob[0], self@[0], p),
                forall|t: int| 1 <= t < i ==> #[trigger] res@[t] == quot_mod(mob[t], t, p),
                forall|t: int| i <= t < n ==> #[trigger] res@[t] == mob[t],
            decreases n - i,
        {
            proof { lemma_unit_mod(i as int, p); }
            match res.coefficient(i).div(index_element::<Self::Coeff>(i)) {
                Some(v) => {
                    res.set_coefficient(i, v);
                },
                None => {
                    assert(!is_unit(i as int, p));
                    return Err(SeriesError::InvalidOperand);
                },
            }
            i += 1;
        }
        assert(res@ =~= s_euler_inv(self@, p));
        Ok(res)
    }

    /// The Lah number of `i` and `j`, from the tables of the factorials and their inverses.
    fn lah_entry(fac: &Vec<Self::Coeff>, ifac: &Vec<Self::Coeff>, i: usize, j: usize) -> (r: Self::Coeff)
        requires
            1 <= j <= i,
            i < fac@.len(),
            fac@.len() == ifac@.len(),
            forall|t: int|
                0 <= t < fac@.len() ==> (#[trigger] fac@[t]).value() == factorial(t as nat) % Self::Coeff::modulus(),
            forall|t: int|
                0 <= t < ifac@.len() ==> (#[trigger] ifac@[t]).value() == inv_mod(
                    factorial(t as nat),
                    Self::Coeff::modulus(),
                ),
        ensures
            r.value() == lah_number(i as int, j as int, Self::Coeff::modulus()),
    {
        proof {
            Self::Coeff::lemma_modulus();
            lemma_mul_mod_noop(factorial(i as nat), factorial((i - 1) as nat), Self::Coeff::modulus());
        }
        fac[i].mul(fac[i - 1]).mul(ifac[j]).mul(ifac[j - 1]).mul(ifac[i - j])
    }

    /// The Lah transform.
    ///
    /// Fails where one of the integers from `1` to the last index has no inverse.
    fn lah(&self) -> (r: Result<Self, SeriesError>)
        ensures
            r is Err <==> !units_upto(self@.len() as int, Self::Coeff::modulus()),
            r is Ok ==> r->Ok_0@ == s_lah(self@, Self::Coeff::modulus()),
    {
        let ghost p = Self::Coeff::modulus();
        let n: usize = self.accuracy();
        let ifac = match inverse_factorials::<Self::Coeff>(n) {
            Some(t) => t,
            None => {
                return Err(SeriesError::InvalidOperand);
            },
        };
        let fac = factorials::<Self::Coeff>(n);
        let mut res = Self::zeroes(n);
        if n == 0 {
            assert(res@ =~= s_lah(self@, p));
            return Ok(res);
        }
        res.set_coefficient(0, self.coefficient(0));
        let mut i: usize = 1;
        proof { Self::Coeff::lemma_modulus(); }
        while i < n
            invariant
                1 <= i <= n,
                n == self@.len(),
                n <= Self::capacity(),
                res@.len() == n,
                fac@.len() == n,
                ifac@.len() == n,
                p == Self::Coeff::modulus(),
                p > 1,
                forall|t: int| 0 <= t < n ==> (#[trigger] fac@[t]).value() == factorial(t as nat) % p,
                forall|t: int|
                    0 <= t < n ==> (#[trigger] ifac@[t]).value() == inv_mod(factorial(t as nat), p),
                forall|t: int| 0 <= t < i ==> #[trigger] res@[t] == s_lah(self@, p)[t],
            decreases n - i,
        {
            let ghost f = |j: int| if j >= 1 { lah_number(i as int, j, p) * self@[j] } else { 0 };
            let mut acc = Self::Coeff::zero();
            let mut j: usize = 1;
            proof {
                lemma_small_mod(0, p as nat);
                assert(sum(f, 1) == f(0)) by {
                    reveal_with_fuel(sum, 2);
                }
            }
            while j < i + 1
                invariant
                    1 <= j <= i + 1,
                    i < n,
                    n == self@.len(),
                    fac@.len() == n,
                    ifac@.len() == n,
                    p == Self::Coeff::modulus(),
                    p > 1,
                    forall|t: int|
                        0 <= t < n ==> (#[trigger] fac@[t]).value() == factorial(t as nat) % p,
                    forall|t: int|
                        0 <= t < n ==> (#[trigger] ifac@[t]).value() == inv_mod(factorial(t as nat), p),
                    f == |j: int| if j >= 1 { lah_number(i as int, j, p) * self@[j] } else { 0 },
                    acc.value() == sum(f, j as int) % p,
                decreases i + 1 - j,
            {
                let coeff = Self::lah_entry(&fac, &ifac, i, j);
                acc = acc.add(coeff.mul(self.coefficient(j)));
                proof {
                    lemma_add_mod_noop(sum(f, j as int), f(j as int), p);
                    lemma_mod_twice(sum(f, j as int), p);
                }
                j += 1;
            }
            res.set_coefficient(i, acc);
            i += 1;
        }
        assert(res@ =~= s_lah(self@, p));
        Ok(res)
    }

    /// The inverse Lah transform.
    ///
    /// Fails where one of the integers from `1` to the last index has no inverse.
    fn lah_inv(&self) -> (r: Result<Self, SeriesError>)
        ensures
            r is Err <==> !units_upto(self@.len() as int, Self::Coeff::modulus()),
            r is Ok ==> r->Ok_0@ == s_lah_inv(self@, Self::Coeff::modulus()),
    {
        let ghost p = Self::Coeff::modulus();
        let n: usize = self.accuracy();
        let ifac = match inverse_factorials::<Self::Coeff>(n) {
            Some(t) => t,
            None => {
                return Err(SeriesError::InvalidOperand);
            },
        };
        let fac = factorials::<Self::Coeff>(n);
        let mut res = Self::zeroes(n);
        if n == 0 {
            assert(res@ =~= s_lah_inv(self@, p));
            return Ok(res);
        }
        res.set_coefficient(0, self.coefficient(0));
        let mut i: usize = 1;
        proof { Self::Coeff::lemma_modulus(); }
        while i < n
            invariant
                1 <= i <= n,
                n == self@.len(),
                n <= Self::capacity(),
                res@.len() == n,
                fac@.len() == n,
                ifac@.len() == n,
                p == Self::Coeff::modulus(),
                p > 1,
                forall|t: int| 0 <= t < n ==> (#[trigger] fac@[t]).value() == factorial(t as nat) % p,
                forall|t: int|
                    0 <= t < n ==> (#[trigger] ifac@[t]).value() == inv_mod(factorial(t as nat), p),
                forall|t: int| 0 <= t < i ==> #[trigger] res@[t] == s_lah_inv(self@, p)[t],
            decreases n - i,
        {
            let ghost f = |j: int|
                if j >= 1 {
                    if (i - j) % 2 == 0 {
                        lah_number(i as int, j, p) * self@[j]
                    } else {
                        -(lah_number(i as int, j, p) * self@[j])
                    }
                } else {
                    0
                };
            let mut acc = Self::Coeff::zero();
            let mut j: usize = 1;
            proof {
                lemma_small_mod(0, p as nat);
                assert(sum(f, 1) == f(0)) by {
                    reveal_with_fuel(sum, 2);
                }
            }
            while j < i + 1
                invariant
                    1 <= j <= i + 1,
                    i < n,
                    n == self@.len(),
                    fac@.len() == n,
                    ifac@.len() == n,
                    p == Self::Coeff::modulus(),
                    p > 1,
                    forall|t: int|
                        0 <= t < n ==> (#[trigger] fac@[t]).value() == factorial(t as nat) % p,
                    forall|t: int|
                        0 <= t < n ==> (#[trigger] ifac@[t]).value() == inv_mod(factorial(t as nat), p),
                    f == |j: int|
                        if j >= 1 {
                            if (i - j) % 2 == 0 {
                                lah_number(i as int, j, p) * self@[j]
                            } else {
                                -(lah_number(i as int, j, p) * self@[j])
                            }
                        } else {
                            0
                        },
                    acc.value() == sum(f, j as int) % p,
                decreases i + 1 - j,
            {
                let coeff = Self::lah_entry(&fac, &ifac, i, j);
                let term = coeff.mul(self.coefficient(j));
                if (i - j) % 2 == 0 {
                    acc = acc.add(term);
                    proof {
                        lemma_add_mod_noop(sum(f, j as int), f(j as int), p);
                        lemma_mod_twice(sum(f, j as int), p);
                    }
                } else {
                    acc = acc.sub(term);
                    proof {
                        let t = lah_number(i as int, j as int, p) * self@[j as int];
                        lemma_sub_mod_noop(sum(f, j as int), t, p);
                        lemma_mod_twice(sum(f, j as int), p);
                        assert(sum(f, j as int) - t == sum(f, j as int) + f(j as int));
                    }
                }
                j += 1;
            }
            res.set_coefficient(i, acc);
            i += 1;
        }
        assert(res@ =~= s_lah_inv(self@, p));
        Ok(res)
    }

    /// The generating function of the subsets with distinct elements.
    ///
    /// Fails where one of the integers from `1` to the last index has no inverse.
    fn powerset(&self) -> (r: Result<Self, SeriesError>)
        ensures
            r is Err <==> !units_upto(self@.len() as int, Self::Coeff::modulus()),
            r is Ok ==> r->Ok_0@ == s_powerset(self@, Self::Coeff::modulus()),
    {
        let n: usize = self.accuracy();
        let w = match Self::log1px(n) {
            Ok(v) => v,
            Err(er) => {
                return Err(er);
            },
        };
        self.dirichlet(&w).exp()
    }

    /// The power `self^(e / q)`: the `q`-th root with constant term one, by
    /// refining one coefficient at a time, raised to the power `e`.
    ///
    /// Fails where the constant term is not one, where `q` is zero, or where
    /// a division of the iteration is not possible.
    fn ratpow(&self, e: i32, q: u32) -> (r: Result<Self, SeriesError>)
        ensures
            r is Err <==> !s_ratpow_ok(self@, e as int, q as nat, Self::Coeff::modulus()),
            r is Ok ==> r->Ok_0@ == s_ratpow(self@, e as int, q as nat, Self::Coeff::modulus()),
    {
        let ghost p = Self::Coeff::modulus();
        let n: usize = self.accuracy();
        if n == 0 {
            return Ok(*self);
        }
        if q == 0 || !self.coefficient(0).is_one() {
            return Err(SeriesError::InvalidOperand);
        }
        let mut root = Self::one();
        root.set_accuracy(n);
        assert(root@ =~= s_promote(1, self@.len()));
        let mut qs = Self::from_u32(q);
        qs.set_accuracy(n);
        assert(qs@ =~= s_promote((q as int) % p, self@.len()));
        let mut k: usize = 0;
        let mut done = false;
        while k < n && !done
            invariant
                k <= n,
                n == self@.len(),
                q != 0,
                p == Self::Coeff::modulus(),
                root@.len() == n,
                qs@ == s_promote((q as int) % p, n as nat),
                s_root_ok(self@, root@, q as nat, (n - k) as nat, p) == s_root_ok(
                    self@,
                    s_promote(1, n as nat),
                    q as nat,
                    n as nat,
                    p,
                ),
                s_root_iter(self@, root@, q as nat, (n - k) as nat, p) == s_root(self@, q as nat, p),
                done ==> s_root_iter(self@, root@, q as nat, (n - k) as nat, p) == root@,
                done ==> s_root_ok(self@, root@, q as nat, (n - k) as nat, p),
            decreases n - k + (if done { 0int } else { 1int }),
        {
            let rq1 = root.pow_nat(q - 1);
            let rq = rq1.mul(&root);
            let err = self.sub(&rq).tail_term();
            let den = qs.mul(&rq1).tail_term();
            let c = match err.div(&den) {
                Ok(v) => v,
                Err(er) => {
                    return Err(er);
                },
            };
            if c.is_zero() {
                done = true;
            } else {
                proof {
                    lemma_pow_loop_len(s_promote(1, n as nat), root@, (q - 1) as nat, p);
                    lemma_div_prefix(err@, den@, min_len(err@.len(), den@.len()), 0, p);
                    assert(c@.len() == n);
                }
                root = root.add(&c);
                k += 1;
            }
        }
        root.pow(e)
    }

    /// The square root with constant term one.
    ///
    /// Fails where the constant term is not one, or where two has no inverse.
    fn sqrt(&self) -> (r: Result<Self, SeriesError>)
        ensures
            r is Err <==> !s_ratpow_ok(self@, 1, 2, Self::Coeff::modulus()),
            r is Ok ==> r->Ok_0@ == s_sqrt(self@, Self::Coeff::modulus()),
    {
        self.ratpow(1, 2)
    }

    /// The compositional inverse: the series `r` with `self(r) == x`.
    ///
    /// Fails where the constant term is not zero, or where the coefficient of
    /// `x` has no inverse.
    fn inverse(&self) -> (r: Result<Self, SeriesError>)
        ensures
            r is Err <==> !s_inverse_ok(self@, Self::capacity(), Self::Coeff::modulus()),
            r is Ok ==> r->Ok_0@ == s_inverse(self@, Self::capacity(), Self::Coeff::modulus()),
    {
        let ghost p = Self::Coeff::modulus();
        let n: usize = self.accuracy();
        if n == 0 {
            return Ok(*self);
        }
        if !self.coefficient(0).is_zero() {
            return Err(SeriesError::InvalidOperand);
        }
        let h = self.lshift();
        let one = Self::one();
        let mut r = Self::zeroes(n);
        let mut k: usize = 0;
        while k < n
            invariant
                k <= n,
                n == self@.len(),
                p == Self::Coeff::modulus(),
                h@ == s_lshift(self@),
                one@ == s_promote(1, Self::capacity()),
                s_revert_ok(h@, r@, (n - k) as nat, Self::capacity(), p) == s_revert_ok(
                    h@,
                    s_zero(n as nat),
                    n as nat,
                    Self::capacity(),
                    p,
                ),
                s_revert_iter(h@, r@, (n - k) as nat, Self::capacity(), p) == s_revert_iter(
                    h@,
                    s_zero(n as nat),
                    n as nat,
                    Self::capacity(),
                    p,
                ),
            decreases n - k,
        {
            let c = match h.compose(&r) {
                Ok(v) => v,
                Err(er) => {
                    return Err(er);
                },
            };
            let d = match one.div(&c) {
                Ok(v) => v,
                Err(er) => {
                    return Err(er);
                },
            };
            r = d.rshift();
            k += 1;
        }
        Ok(r)
    }
}

/// The derivative: coefficient `i` is `(i + 1) * a[i + 1]`.
pub open spec fn s_derive(a: Seq<int>, p: int) -> Seq<int> {
    Seq::new(s_lshift(a).len(), |i: int| mul_mod(a[i + 1], i + 1, p))
}

/// Coefficient `i` multiplied by `i`.
pub open spec fn s_point(a: Seq<int>, p: int) -> Seq<int> {
    Seq::new(a.len(), |i: int| mul_mod(a[i], i, p))
}

/// The antiderivative with constant term zero: coefficient `i` is `a[i - 1] / i`.
pub open spec fn s_integrate(a: Seq<int>, cap: nat, p: int) -> Seq<int> {
    Seq::new(
        min_len(cap, a.len() + 1),
        |i: int| if i == 0 { 0int } else { quot_mod(a[i - 1], i, p) },
    )
}

/// The forward difference: coefficient `i` is `a[i + 1] - a[i]`.
pub open spec fn s_delta(a: Seq<int>, p: int) -> Seq<int> {
    Seq::new(s_lshift(a).len(), |i: int| sub_mod(a[i + 1], a[i], p))
}

/// The second difference: coefficient `i` is `a[i + 2] - 2 * a[i + 1] + a[i]`.
pub open spec fn s_t019(a: Seq<int>, p: int) -> Seq<int> {
    Seq::new(s_lshift(s_lshift(a)).len(), |i: int| (a[i + 2] - 2 * a[i + 1] + a[i]) % p)
}

/// Coefficient `i` is `a[0] + .. + a[i]`.
pub open spec fn s_partial_sums(a: Seq<int>, p: int) -> Seq<int> {
    Seq::new(a.len(), |i: int| sum(|j: int| a[j], i + 1) % p)
}

/// Coefficient `i` is `a[0] * .. * a[i]`.
pub open spec fn s_partial_products(a: Seq<int>, p: int) -> Seq<int> {
    Seq::new(a.len(), |i: int| product(|j: int| a[j], i + 1) % p)
}

/// From an exponential generating function to the ordinary one of the same
/// sequence: coefficient `i` is `i! * a[i]`.
pub open spec fn s_laplace(a: Seq<int>, p: int) -> Seq<int> {
    Seq::new(a.len(), |i: int| mul_mod(a[i], factorial(i as nat), p))
}

/// From an ordinary generating function to the exponential one of the same
/// sequence: coefficient `i` is `a[i] / i!`.
pub open spec fn s_laplace_inv(a: Seq<int>, p: int) -> Seq<int> {
    Seq::new(a.len(), |i: int| quot_mod(a[i], factorial(i as nat), p))
}

/// Square and multiply: `res * b^e`.
pub open spec fn s_pow_loop(res: Seq<int>, b: Seq<int>, e: nat, p: int) -> Seq<int>
    decreases e,
{
    if e == 0 {
        res
    } else {
        s_pow_loop(
            if e % 2 == 1 {
                s_mul(res, b, p)
            } else {
                res
            },
            s_mul(b, b, p),
            e / 2,
            p,
        )
    }
}

/// The power `a^e`, by squaring and multiplying.
pub open spec fn s_pow(a: Seq<int>, e: nat, p: int) -> Seq<int> {
    s_pow_loop(s_promote(1, a.len()), a, e, p)
}

/// The power `a^e` for an integer `e`: for a negative `e` the power of the reciprocal.
pub open spec fn s_pow_int(a: Seq<int>, e: int, p: int) -> Seq<int> {
    if e >= 0 {
        s_pow(a, e as nat, p)
    } else {
        s_pow(s_div(s_promote(1, a.len()), a, p), (-e) as nat, p)
    }
}

/// The product of two exponential generating functions, as ordinary ones.
pub open spec fn s_exp_mul(a: Seq<int>, b: Seq<int>, p: int) -> Seq<int> {
    s_laplace(s_mul(s_laplace_inv(a, p), s_laplace_inv(b, p), p), p)
}

/// Squaring and multiplying series of one length gives a series of that length.
pub proof fn lemma_pow_loop_len(res: Seq<int>, b: Seq<int>, e: nat, p: int)
    requires
        res.len() == b.len(),
    ensures
        s_pow_loop(res, b, e, p).len() == b.len(),
    decreases e,
{
    if e > 0 {
        lemma_pow_loop_len(
            if e % 2 == 1 {
                s_mul(res, b, p)
            } else {
                res
            },
            s_mul(b, b, p),
            e / 2,
            p,
        );
    }
}

/// The factorial of `i` is a unit exactly where every integer from `1` to `i` is.
pub proof fn lemma_factorial_unit(i: nat, p: int)
    requires
        p > 1,
    ensures
        is_unit(factorial(i), p) <==> units_upto(i as int + 1, p),
    decreases i,
{
    if i == 0 {
        lemma_one_is_unit(p);
    } else {
        lemma_factorial_unit((i - 1) as nat, p);
        let f = factorial((i - 1) as nat);
        if units_upto(i as int + 1, p) {
            assert(is_unit(i as int, p));
            assert forall|k: int| 1 <= k < i implies #[trigger] is_unit(k, p) by {}
            lemma_unit_mul(i as int, f, p);
        }
        if is_unit(factorial(i), p) {
            lemma_unit_factor(i as int, f, p);
            assert forall|k: int| 1 <= k < i + 1 implies #[trigger] is_unit(k, p) by {
                if k < i {
                    assert(units_upto(i as int, p));
                }
            }
        }
    }
}

/// The exponential series: coefficient `i` is `1 / i!`.
pub open spec fn s_expx(n: nat, p: int) -> Seq<int> {
    Seq::new(n, |i: int| inv_mod(factorial(i as nat), p))
}

/// The sine series.
pub open spec fn s_sin(n: nat, p: int) -> Seq<int> {
    Seq::new(
        n,
        |i: int|
            if i % 2 == 0 {
                0int
            } else if i % 4 == 1 {
                inv_mod(factorial(i as nat), p)
            } else {
                neg_mod(inv_mod(factorial(i as nat), p), p)
            },
    )
}

/// The cosine series.
pub open spec fn s_cos(n: nat, p: int) -> Seq<int> {
    Seq::new(
        n,
        |i: int|
            if i % 2 == 1 {
                0int
            } else if i % 4 == 0 {
                inv_mod(factorial(i as nat), p)
            } else {
                neg_mod(inv_mod(factorial(i as nat), p), p)
            },
    )
}

/// The series of `log(1 + x)`.
pub open spec fn s_log1px(n: nat, p: int) -> Seq<int> {
    Seq::new(
        n,
        |i: int|
            if i == 0 {
                0int
            } else if i % 2 == 1 {
                inv_mod(i, p)
            } else {
                neg_mod(inv_mod(i, p), p)
            },
    )
}

/// `exp(a) - 1`.
pub open spec fn s_exp(a: Seq<int>, p: int) -> Seq<int> {
    s_add_const(s_compose(s_expx(a.len(), p), a, p), -1, p)
}

/// `log(1 + a)`.
pub open spec fn s_log(a: Seq<int>, p: int) -> Seq<int> {
    s_compose(s_log1px(a.len(), p), a, p)
}

/// The exponential generating function `(1 + sin x) / cos x` of the up-down numbers.
pub open spec fn s_updown(n: nat, p: int) -> Seq<int> {
    s_div(s_add(s_promote(1, n), s_sin(n, p), p), s_cos(n, p), p)
}

/// The boustrophedon transform.
pub open spec fn s_bous(a: Seq<int>, p: int) -> Seq<int> {
    s_laplace(s_mul(s_laplace_inv(a, p), s_updown(a.len(), p), p), p)
}

/// The inverse boustrophedon transform.
pub open spec fn s_bous_inv(a: Seq<int>, p: int) -> Seq<int> {
    s_laplace(s_div(s_laplace_inv(a, p), s_updown(a.len(), p), p), p)
}

/// The inverses of the factorials `0!, 1!, .., (n - 1)!`.
///
/// Fails where one of the integers from `1` to `n - 1` has no inverse.
pub fn inverse_factorials<T: Field>(n: usize) -> (r: Option<Vec<T>>)
    ensures
        r is None <==> !units_upto(n as int, T::modulus()),
        r is Some ==> r->0@.len() == n && forall|i: int|
            0 <= i < n ==> (#[trigger] r->0@[i]).value() == inv_mod(factorial(i as nat), T::modulus()),
{
    let ghost p = T::modulus();
    let mut v: Vec<T> = Vec::new();
    proof {
        T::lemma_modulus();
        lemma_one_is_unit(p);
    }
    if n == 0 {
        return Some(v);
    }
    v.push(T::one());
    let mut i: usize = 1;
    while i < n
        invariant
            1 <= i <= n,
            v@.len() == i,
            p == T::modulus(),
            p > 1,
            units_upto(i as int, p),
            forall|j: int| 0 <= j < i ==> (#[trigger] v@[j]).value() == inv_mod(factorial(j as nat), p),
        decreases n - i,
    {
        proof {
            lemma_unit_mod(i as int, p);
            lemma_factorial_unit((i - 1) as nat, p);
        }
        match v[i - 1].div(index_element::<T>(i)) {
            Some(x) => {
                proof {
                    let f = factorial((i - 1) as nat);
                    lemma_inv_mul(f, i as int, p);
                    lemma_mul_is_commutative(f, i as int);
                }
                v.push(x);
            },
            None => {
                assert(!is_unit(i as int, p));
                return None;
            },
        }
        i += 1;
    }
    Some(v)
}

/// Row `t` of the table of iterated sums: row `0` is `a`, and entry `j` of
/// each further row is the sum of the entries `j` and `j + 1` of the row before.
pub open spec fn s_sum_rows(a: Seq<int>, t: nat, p: int) -> Seq<int>
    decreases t,
{
    if t == 0 {
        a
    } else {
        let r = s_sum_rows(a, (t - 1) as nat, p);
        Seq::new(s_lshift(r).len(), |j: int| add_mod(r[j], r[j + 1], p))
    }
}

/// Row `t` of the table of iterated differences: row `0` is `a`, and entry
/// `j` of each further row is entry `j + 1` minus entry `j` of the row before.
pub open spec fn s_diff_rows(a: Seq<int>, t: nat, p: int) -> Seq<int>
    decreases t,
{
    if t == 0 {
        a
    } else {
        let r = s_diff_rows(a, (t - 1) as nat, p);
        Seq::new(s_lshift(r).len(), |j: int| sub_mod(r[j + 1], r[j], p))
    }
}

/// The binomial transform: coefficient `t` is the sum of `C(t, j) * a[j]`,
/// which is the first entry of row `t` of the iterated sums.
pub open spec fn s_binomial(a: Seq<int>, p: int) -> Seq<int> {
    Seq::new(a.len(), |t: int| s_sum_rows(a, t as nat, p)[0])
}

/// The inverse binomial transform: coefficient `t` is the `t`-th difference of `a` at zero.
pub open spec fn s_binomial_inv(a: Seq<int>, p: int) -> Seq<int> {
    Seq::new(a.len(), |t: int| s_diff_rows(a, t as nat, p)[0])
}

/// The Stirling number of the second kind: the number of partitions of a set
/// of `i` elements into `j` blocks.
pub open spec fn stirling2(i: nat, j: nat) -> int
    decreases i,
{
    if i == 0 {
        if j == 0 {
            1
        } else {
            0
        }
    } else if j == 0 {
        0
    } else {
        j * stirling2((i - 1) as nat, j) + stirling2((i - 1) as nat, (j - 1) as nat)
    }
}

/// The signed Stirling number of the first kind.
pub open spec fn stirling1(i: nat, j: nat) -> int
    decreases i,
{
    if i == 0 {
        if j == 0 {
            1
        } else {
            0
        }
    } else if j == 0 {
        0
    } else {
        -(i - 1) * stirling1((i - 1) as nat, j) + stirling1((i - 1) as nat, (j - 1) as nat)
    }
}

/// The Stirling transform: coefficient `i` is the sum of `S2(i, j) * a[j]`.
pub open spec fn s_stirling(a: Seq<int>, p: int) -> Seq<int> {
    Seq::new(a.len(), |i: int| sum(|j: int| stirling2(i as nat, j as nat) * a[j], i + 1) % p)
}

/// The inverse Stirling transform: coefficient `i` is the sum of `s1(i, j) * a[j]`.
pub open spec fn s_stirling_inv(a: Seq<int>, p: int) -> Seq<int> {
    Seq::new(a.len(), |i: int| sum(|j: int| stirling1(i as nat, j as nat) * a[j], i + 1) % p)
}

/// Row `t` of the iterated sums or differences has `t` entries fewer than `a`.
pub proof fn lemma_rows_len(a: Seq<int>, t: nat, p: int)
    requires
        t <= a.len(),
    ensures
        s_sum_rows(a, t, p).len() == a.len() - t,
        s_diff_rows(a, t, p).len() == a.len() - t,
    decreases t,
{
    if t > 0 {
        lemma_rows_len(a, (t - 1) as nat, p);
    }
}

/// There are no partitions into more blocks than elements.
pub proof fn lemma_stirling_zero(i: nat, j: nat)
    requires
        j > i,
    ensures
        stirling2(i, j) == 0,
        stirling1(i, j) == 0,
    decreases i,
{
    if i > 0 {
        lemma_stirling_zero((i - 1) as nat, j);
        lemma_stirling_zero((i - 1) as nat, (j - 1) as nat);
        assert(j * 0 == 0);
        assert(-(i - 1) * 0 == 0);
    }
}

/// A vector of `n` zeros.
pub fn zero_vec<T: Ring>(n: usize) -> (v: Vec<T>)
    ensures
        v@.len() == n,
        forall|i: int| 0 <= i < n ==> (#[trigger] v@[i]).value() == 0,
{
    let z = T::zero();
    let mut v: Vec<T> = Vec::new();
    let mut k: usize = 0;
    while k < n
        invariant
            k <= n,
            v@.len() == k,
            z.value() == 0,
            forall|i: int| 0 <= i < k ==> (#[trigger] v@[i]).value() == 0,
        decreases n - k,
    {
        v.push(z);
        k += 1;
    }
    v
}

/// The term of the divisor `d` in coefficient `n` of a Dirichlet convolution.
pub open spec fn divisor_term(a: Seq<int>, b: Seq<int>, n: int, d: int) -> int {
    if d >= 1 && n % d == 0 {
        a[n / d] * b[d]
    } else {
        0
    }
}

/// The Dirichlet convolution: coefficient `n` is the sum of `a[n / d] * b[d]`
/// over the divisors `d` of `n`; coefficient `0` is zero.
pub open spec fn s_dirichlet(a: Seq<int>, b: Seq<int>, p: int) -> Seq<int> {
    Seq::new(
        min_len(a.len(), b.len()),
        |n: int|
            if n == 0 {
                0int
            } else {
                sum(|d: int| divisor_term(a, b, n, d), n + 1) % p
            },
    )
}

/// The series with `n` coefficients, all one.
pub open spec fn s_ones(n: nat) -> Seq<int> {
    Seq::new(n, |i: int| 1int)
}

/// The Möbius function: `mobius(1) == 1`, and the values at the divisors of
/// any greater `n` add up to zero.
pub open spec fn mobius(n: nat) -> int
    decreases n, n + 1,
{
    if n == 0 {
        0
    } else if n == 1 {
        1
    } else {
        -mobius_partial(n, n)
    }
}

/// The sum of the Möbius function over the divisors of `n` below `k`.
pub open spec fn mobius_partial(n: nat, k: nat) -> int
    decreases n, k,
{
    if k <= 1 || k > n {
        0
    } else {
        mobius_partial(n, (k - 1) as nat) + (if n % ((k - 1) as nat) == 0 {
            mobius((k - 1) as nat)
        } else {
            0
        })
    }
}

/// The Möbius function as a series.
pub open spec fn s_mu(n: nat, p: int) -> Seq<int> {
    Seq::new(n, |i: int| mobius(i as nat) % p)
}

/// The Möbius transform: the Dirichlet convolution with the Möbius function.
pub open spec fn s_mobius(a: Seq<int>, p: int) -> Seq<int> {
    s_dirichlet(a, s_mu(a.len(), p), p)
}

/// The inverse Möbius transform: coefficient `n` is the sum of `a` over the divisors of `n`.
pub open spec fn s_mobius_inv(a: Seq<int>, p: int) -> Seq<int> {
    s_dirichlet(s_ones(a.len()), a, p)
}

/// What the coefficients before `i` contribute to coefficient `i` of the Euler transform.
pub open spec fn euler_feedback(r: Seq<int>, c: Seq<int>, i: int) -> int {
    sum(|j: int| if j >= 1 { r[i - j] * c[j] } else { 0 }, i)
}

/// The first `m` coefficients of the Euler transform with constant term
/// `a0`, from the divisor sums `c`: `i * r[i] == c[i] + r[i - 1] * c[1] + .. + r[1] * c[i - 1]`.
pub open spec fn s_euler_prefix(a0: int, c: Seq<int>, m: nat, p: int) -> Seq<int>
    decreases m,
{
    if m == 0 {
        Seq::empty()
    } else if m == 1 {
        seq![a0]
    } else {
        let r = s_euler_prefix(a0, c, (m - 1) as nat, p);
        r.push(quot_mod(add_mod(c[m - 1], euler_feedback(r, c, m - 1), p), m - 1, p))
    }
}

/// The Euler transform.
pub open spec fn s_euler(a: Seq<int>, p: int) -> Seq<int> {
    s_euler_prefix(a[0], s_mobius_inv(s_point(a, p), p), a.len(), p)
}

/// What the coefficients before `i` take from coefficient `i` in the inverse Euler transform.
pub open spec fn euler_inv_feedback(r: Seq<int>, a: Seq<int>, i: int) -> int {
    sum(|j: int| if j >= 1 { r[j] * a[i - j] } else { 0 }, i)
}

/// The divisor sums that the inverse Euler transform recovers first:
/// `c[i] == i * a[i] - (c[1] * a[i - 1] + .. + c[i - 1] * a[1])`.
pub open spec fn s_euler_inv_pre(a: Seq<int>, m: nat, p: int) -> Seq<int>
    decreases m,
{
    if m == 0 {
        Seq::empty()
    } else if m == 1 {
        seq![0int]
    } else {
        let r = s_euler_inv_pre(a, (m - 1) as nat, p);
        r.push(sub_mod(mul_mod(m - 1, a[m - 1], p), euler_inv_feedback(r, a, m - 1), p))
    }
}

/// The inverse Euler transform.
pub open spec fn s_euler_inv(a: Seq<int>, p: int) -> Seq<int> {
    let mob = s_mobius(s_euler_inv_pre(a, a.len(), p), p);
    Seq::new(
        a.len(),
        |i: int|
            if i == 0 {
                add_mod(mob[0], a[0], p)
            } else {
                quot_mod(mob[i], i, p)
            },
    )
}

/// The Lah number `i! * (i - 1)! / (j! * (j - 1)! * (i - j)!)`, modulo `p`.
pub open spec fn lah_number(i: int, j: int, p: int) -> int {
    quot_mod(
        quot_mod(
            quot_mod(
                mul_mod(factorial(i as nat), factorial((i - 1) as nat), p),
                factorial(j as nat),
                p,
            ),
            factorial((j - 1) as nat),
            p,
        ),
        factorial((i - j) as nat),
        p,
    )
}

/// The Lah transform: coefficient `i` is the sum of `L(i, j) * a[j]` for `j`
/// from `1` to `i`; the constant term is kept.
pub open spec fn s_lah(a: Seq<int>, p: int) -> Seq<int> {
    Seq::new(
        a.len(),
        |i: int|
            if i == 0 {
                a[0]
            } else {
                sum(|j: int| if j >= 1 { lah_number(i, j, p) * a[j] } else { 0 }, i + 1) % p
            },
    )
}

/// The inverse Lah transform: as the Lah transform, with the sign `(-1)^(i - j)`.
pub open spec fn s_lah_inv(a: Seq<int>, p: int) -> Seq<int> {
    Seq::new(
        a.len(),
        |i: int|
            if i == 0 {
                a[0]
            } else {
                sum(
                    |j: int|
                        if j >= 1 {
                            if (i - j) % 2 == 0 {
                                lah_number(i, j, p) * a[j]
                            } else {
                                -(lah_number(i, j, p) * a[j])
                            }
                        } else {
                            0
                        },
                    i + 1,
                ) % p
            },
    )
}

/// The generating function of the subsets with distinct elements:
/// `exp` of the Dirichlet convolution with the coefficients of `log(1 + x)`.
pub open spec fn s_powerset(a: Seq<int>, p: int) -> Seq<int> {
    s_exp(s_dirichlet(a, s_log1px(a.len(), p), p), p)
}

/// The Euler transform to `m` terms has `m` terms.
pub proof fn lemma_euler_prefix_len(a0: int, c: Seq<int>, m: nat, p: int)
    ensures
        s_euler_prefix(a0, c, m, p).len() == m,
    decreases m,
{
    if m > 1 {
        lemma_euler_prefix_len(a0, c, (m - 1) as nat, p);
    }
}

/// The divisor sums to `m` terms have `m` terms.
pub proof fn lemma_euler_inv_pre_len(a: Seq<int>, m: nat, p: int)
    ensures
        s_euler_inv_pre(a, m, p).len() == m,
    decreases m,
{
    if m > 1 {
        lemma_euler_inv_pre_len(a, (m - 1) as nat, p);
    }
}

/// The factorials `0!, 1!, .., (n - 1)!`.
pub fn factorials<T: Ring>(n: usize) -> (v: Vec<T>)
    ensures
        v@.len() == n,
        forall|i: int| 0 <= i < n ==> (#[trigger] v@[i]).value() == factorial(i as nat) % T::modulus(),
{
    let ghost p = T::modulus();
    let mut v: Vec<T> = Vec::new();
    proof {
        T::lemma_modulus();
        lemma_small_mod(1, p as nat);
    }
    if n == 0 {
        return v;
    }
    v.push(T::one());
    let mut i: usize = 1;
    while i < n
        invariant
            1 <= i <= n,
            v@.len() == i,
            p == T::modulus(),
            p > 1,
            forall|j: int| 0 <= j < i ==> (#[trigger] v@[j]).value() == factorial(j as nat) % p,
        decreases n - i,
    {
        let x = v[i - 1].mul(index_element::<T>(i));
        proof {
            lemma_mul_mod_noop(factorial((i - 1) as nat), i as int, p);
            lemma_mul_is_commutative(factorial((i - 1) as nat), i as int);
        }
        v.push(x);
        i += 1;
    }
    v
}

/// The correction of one step of the root iteration: the leading term of
/// `f - r^q` divided by the leading term of the derivative `q * r^(q - 1)`.
pub open spec fn s_root_correction(f: Seq<int>, r: Seq<int>, q: nat, p: int) -> Seq<int> {
    s_div(s_root_error(f, r, q, p), s_root_slope(r, q, p), p)
}

/// The leading term of `f - r^q`.
pub open spec fn s_root_error(f: Seq<int>, r: Seq<int>, q: nat, p: int) -> Seq<int> {
    s_tail_term(s_sub(f, s_mul(s_pow(r, (q - 1) as nat, p), r, p), p))
}

/// The leading term of `q * r^(q - 1)`.
pub open spec fn s_root_slope(r: Seq<int>, q: nat, p: int) -> Seq<int> {
    s_tail_term(s_mul(s_promote((q as int) % p, r.len()), s_pow(r, (q - 1) as nat, p), p))
}

/// Every division of up to `k` steps of the root iteration from `r` is possible.
pub open spec fn s_root_ok(f: Seq<int>, r: Seq<int>, q: nat, k: nat, p: int) -> bool
    decreases k,
{
    k == 0 || {
        let c = s_root_correction(f, r, q, p);
        &&& is_divisor(s_root_slope(r, q, p), p)
        &&& (c == s_zero(c.len()) || s_root_ok(f, s_add(r, c, p), q, (k - 1) as nat, p))
    }
}

/// The result of up to `k` steps of the root iteration from `r`: each step
/// adds the correction, and the iteration stops where the correction is zero.
pub open spec fn s_root_iter(f: Seq<int>, r: Seq<int>, q: nat, k: nat, p: int) -> Seq<int>
    decreases k,
{
    if k == 0 {
        r
    } else {
        let c = s_root_correction(f, r, q, p);
        if c == s_zero(c.len()) {
            r
        } else {
            s_root_iter(f, s_add(r, c, p), q, (k - 1) as nat, p)
        }
    }
}

/// The `q`-th root of `f` with constant term one.
pub open spec fn s_root(f: Seq<int>, q: nat, p: int) -> Seq<int> {
    s_root_iter(f, s_promote(1, f.len()), q, f.len(), p)
}

/// The power `f^(e / q)` exists: `f` has constant term one, `q` is not zero,
/// and the divisions of the iteration are possible.
pub open spec fn s_ratpow_ok(f: Seq<int>, e: int, q: nat, p: int) -> bool {
    f.len() == 0 || {
        &&& q != 0
        &&& f[0] == 1
        &&& s_root_ok(f, s_promote(1, f.len()), q, f.len(), p)
        &&& (e >= 0 || is_divisor(s_root(f, q, p), p))
    }
}

/// The power `f^(e / q)`: the power with exponent `e` of the `q`-th root.
pub open spec fn s_ratpow(f: Seq<int>, e: int, q: nat, p: int) -> Seq<int> {
    if f.len() == 0 {
        f
    } else {
        s_pow_int(s_root(f, q, p), e, p)
    }
}

/// The square root of `f` with constant term one.
pub open spec fn s_sqrt(f: Seq<int>, p: int) -> Seq<int> {
    s_ratpow(f, 1, 2, p)
}

/// One step of the iteration for the compositional inverse of `x * h`:
/// `x / h(r)`.
pub open spec fn s_revert_step(h: Seq<int>, r: Seq<int>, cap: nat, p: int) -> Seq<int> {
    s_rshift(s_div(s_promote(1, cap), s_compose(h, r, p), p), cap)
}

/// Every composition and division of `k` steps of the iteration from `r` is possible.
pub open spec fn s_revert_ok(h: Seq<int>, r: Seq<int>, k: nat, cap: nat, p: int) -> bool
    decreases k,
{
    k == 0 || {
        &&& is_substitutable(r)
        &&& is_divisor(s_compose(h, r, p), p)
        &&& s_revert_ok(h, s_revert_step(h, r, cap, p), (k - 1) as nat, cap, p)
    }
}

/// The result of `k` steps of the iteration from `r`.
pub open spec fn s_revert_iter(h: Seq<int>, r: Seq<int>, k: nat, cap: nat, p: int) -> Seq<int>
    decreases k,
{
    if k == 0 {
        r
    } else {
        s_revert_iter(h, s_revert_step(h, r, cap, p), (k - 1) as nat, cap, p)
    }
}

/// The compositional inverse exists: the constant term of `f` is zero and the
/// steps of the iteration are possible.
pub open spec fn s_inverse_ok(f: Seq<int>, cap: nat, p: int) -> bool {
    f.len() == 0 || (f[0] == 0 && s_revert_ok(s_lshift(f), s_zero(f.len()), f.len(), cap, p))
}

/// The compositional inverse of `f`: the fixed point of `r -> x / h(r)`,
/// where `f == x * h`, reached from zero in as many steps as `f` has known
/// coefficients.
pub open spec fn s_inverse(f: Seq<int>, cap: nat, p: int) -> Seq<int> {
    if f.len() == 0 {
        f
    } else {
        s_revert_iter(s_lshift(f), s_zero(f.len()), f.len(), cap, p)
    }
}

} // verus!
