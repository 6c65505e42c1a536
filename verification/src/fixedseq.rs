//! Power series truncated to a fixed number of coefficients.

use crate::mathtypes::{Field, Group, One, Ring, Zero};
use crate::modarith::{add_mod, inv_mod, mul_mod, neg_mod, sub_mod};
use crate::powerseries::PowerSeries;
use crate::sums::sum;
use crate::truncated::{
    conv, div_feedback, first_nonzero, is_divisor, is_reduced, min_len, s_add, s_div, s_div_prefix,
    s_hadamard, s_identity, s_lshift, s_mul, s_neg, s_promote, s_rshift, s_sub, s_tail_term,
    s_zero,
};
use vstd::std_specs::cmp::PartialEqSpecImpl;
use vstd::arithmetic::div_mod::*;
use vstd::prelude::*;

verus! {

/// Why an operation on series failed.
#[derive(Debug, Clone, Copy, PartialEq, Eq)]
pub enum SeriesError {
    /// The text is not a list of numbers.
    Malformed,
    /// An operand is outside the domain of the operation.
    InvalidOperand,
}

/// A power series over the field `T` of which at most `N` coefficients are
/// kept, the first `accuracy()` of which are known.
#[derive(Debug, Copy)]
pub struct FixedSeq<T: Field, const N: usize> {
    seq: [T; N],
    cnt: usize,
}

/// A series of sixteen coefficients.
pub type ShortSeq<T> = FixedSeq<T, 16>;

impl<T: Field, const N: usize> Clone for FixedSeq<T, N> {
    fn clone(&self) -> (r: Self)
        ensures
            r == *self,
    {
        *self
    }
}

impl<T: Field, const N: usize> View for FixedSeq<T, N> {
    type V = Seq<int>;

    /// The known coefficients, constant term first.
    closed spec fn view(&self) -> Seq<int> {
        Seq::new(self.cnt as nat, |i: int| self.seq[i].value())
    }
}

impl<T: Field, const N: usize> FixedSeq<T, N> {
    #[verifier::type_invariant]
    spec fn well_formed(self) -> bool {
        self.cnt <= N
    }

    /// The known coefficients are canonical residues, and at most `N`.
    pub proof fn lemma_view(&self)
        ensures
            is_reduced(self@, T::modulus()),
    {
        assert forall|i: int| 0 <= i < self@.len() implies 0 <= #[trigger] self@[i] < T::modulus() by {
            self.seq[i].lemma_value_range();
        }
    }

    /// The series with the coefficients `arr`, all of them known.
    pub fn new(arr: [T; N]) -> (r: Self)
        ensures
            r@ == Seq::new(N as nat, |i: int| arr[i].value()),
    {
        FixedSeq { seq: arr, cnt: N }
    }

    /// The series with the coefficients `arr`, all of them known.
    pub fn new_u32(arr: [u32; N]) -> (r: Self)
        ensures
            r@ == Seq::new(N as nat, |i: int| (arr[i] as int) % T::modulus()),
    {
        let mut seq: [T; N] = [T::zero(); N];
        let mut i: usize = 0;
        while i < N
            invariant
                i <= N,
                forall|j: int| 0 <= j < i ==> (#[trigger] seq[j]).value() == (arr[j] as int) % T::modulus(),
            decreases N - i,
        {
            seq[i] = T::from_u32(arr[i]);
            i += 1;
        }
        let r = FixedSeq { seq, cnt: N };
        assert(r@ =~= Seq::new(N as nat, |i: int| (arr[i] as int) % T::modulus()));
        r
    }

    /// The series with the first `N` elements of `items` as its known coefficients.
    pub fn from_slice(items: &[T]) -> (r: Self)
        ensures
            r@ == Seq::new(min_len(items@.len(), N as nat), |i: int| items@[i].value()),
    {
        let mut seq: [T; N] = [T::zero(); N];
        let n: usize = if items.len() < N { items.len() } else { N };
        let mut i: usize = 0;
        while i < n
            invariant
                i <= n,
                n <= N,
                n <= items@.len(),
                forall|j: int| 0 <= j < i ==> (#[trigger] seq[j]).value() == items@[j].value(),
            decreases n - i,
        {
            seq[i] = items[i];
            i += 1;
        }
        let r = FixedSeq { seq, cnt: n };
        assert(r@ =~= Seq::new(min_len(items@.len(), N as nat), |i: int| items@[i].value()));
        r
    }

    /// The series with the first `N` terms of `s` as its known coefficients:
    /// a term that `s` does not have is not known.
    pub fn from_series(s: &[T]) -> (r: Self)
        ensures
            r@ == Seq::new(min_len(s@.len(), N as nat), |i: int| s@[i].value()),
    {
        Self::from_slice(s)
    }

    /// The known coefficients, constant term first.
    pub fn to_vec(&self) -> (v: Vec<T>)
        ensures
            v@.len() == self@.len(),
            forall|i: int| 0 <= i < v@.len() ==> (#[trigger] v@[i]).value() == self@[i],
    {
        proof { use_type_invariant(self); }
        let mut v: Vec<T> = Vec::new();
        let mut i: usize = 0;
        while i < self.cnt
            invariant
                i <= self.cnt,
                self.cnt <= N,
                v@.len() == i,
                forall|j: int| 0 <= j < i ==> (#[trigger] v@[j]).value() == self@[j],
            decreases self.cnt - i,
        {
            v.push(self.seq[i]);
            i += 1;
        }
        v
    }

    /// The known coefficient of `x^i`.
    pub fn coefficient(&self, i: usize) -> (c: T)
        requires
            i < self@.len(),
        ensures
            c.value() == self@[i as int],
    {
        proof { use_type_invariant(self); }
        self.seq[i]
    }

    /// Replaces the known coefficient of `x^i` by `c`.
    pub fn set_coefficient(&mut self, i: usize, c: T)
        requires
            i < old(self)@.len(),
        ensures
            final(self)@ == old(self)@.update(i as int, c.value()),
    {
        proof { use_type_invariant(&*self); }
        let ghost before = self@;
        self.seq[i] = c;
        assert(self@ =~= before.update(i as int, c.value()));
    }

    /// The series zero, known to `N` terms.
    pub fn zero() -> (r: Self)
        ensures
            r@ == s_zero(N as nat),
    {
        let r = FixedSeq { seq: [T::zero(); N], cnt: N };
        assert(r@ =~= s_zero(N as nat));
        r
    }

    /// The series zero, known to `acc` terms, or to `N` where `acc` is more.
    pub fn zeroes(acc: usize) -> (r: Self)
        ensures
            r@ == s_zero(min_len(acc as nat, N as nat)),
    {
        let r = FixedSeq { seq: [T::zero(); N], cnt: if acc < N { acc } else { N } };
        assert(r@ =~= s_zero(min_len(acc as nat, N as nat)));
        r
    }

    /// The constant series `c`, known to `N` terms.
    pub fn promote(c: T) -> (r: Self)
        ensures
            r@ == s_promote(c.value(), N as nat),
    {
        let mut seq: [T; N] = [T::zero(); N];
        if N > 0 {
            seq[0] = c;
        }
        let r = FixedSeq { seq, cnt: N };
        assert(r@ =~= s_promote(c.value(), N as nat));
        r
    }

    /// The series one, known to `N` terms.
    pub fn one() -> (r: Self)
        ensures
            r@ == s_promote(1, N as nat),
    {
        Self::promote(T::one())
    }

    /// The constant series of the residue of `x`, known to `N` terms.
    pub fn from_u32(x: u32) -> (r: Self)
        ensures
            r@ == s_promote((x as int) % T::modulus(), N as nat),
    {
        Self::promote(T::from_u32(x))
    }

    /// The series `x`, known to `acc` terms, or to `N` where `acc` is more.
    pub fn identity(acc: usize) -> (r: Self)
        ensures
            r@ == s_identity(min_len(acc as nat, N as nat)),
    {
        let mut seq: [T; N] = [T::zero(); N];
        if N > 1 {
            seq[1] = T::one();
        }
        let r = FixedSeq { seq, cnt: if acc < N { acc } else { N } };
        assert(r@ =~= s_identity(min_len(acc as nat, N as nat)));
        r
    }

    /// Whether every known coefficient is zero.
    pub fn is_zero(&self) -> (b: bool)
        ensures
            b <==> self@ == s_zero(self@.len()),
    {
        proof { use_type_invariant(self); }
        let mut i: usize = 0;
        while i < self.cnt
            invariant
                i <= self.cnt,
                self.cnt <= N,
                forall|j: int| 0 <= j < i ==> #[trigger] self@[j] == 0,
            decreases self.cnt - i,
        {
            if !self.seq[i].is_zero() {
                assert(self@[i as int] != 0);
                assert(s_zero(self@.len())[i as int] == 0);
                return false;
            }
            i += 1;
        }
        assert(self@ =~= s_zero(self@.len()));
        true
    }

    /// Whether the series is known to some term and is the constant one as far as it is known.
    pub fn is_one(&self) -> (b: bool)
        ensures
            b <==> self@.len() > 0 && self@ == s_promote(1, self@.len()),
    {
        proof { use_type_invariant(self); }
        if self.cnt == 0 {
            return false;
        }
        if !self.seq[0].is_one() {
            assert(self@[0] != 1);
            assert(s_promote(1, self@.len())[0] == 1);
            return false;
        }
        let mut i: usize = 1;
        while i < self.cnt
            invariant
                1 <= i <= self.cnt,
                self.cnt <= N,
                self@[0] == 1,
                forall|j: int| 1 <= j < i ==> #[trigger] self@[j] == 0,
            decreases self.cnt - i,
        {
            if !self.seq[i].is_zero() {
                assert(self@[i as int] != 0);
                assert(s_promote(1, self@.len())[i as int] == 0);
                return false;
            }
            i += 1;
        }
        assert(self@ =~= s_promote(1, self@.len()));
        true
    }

    /// Whether the two series are known to the same number of terms and agree in all of them.
    pub fn identical(&self, other: &Self) -> (b: bool)
        ensures
            b <==> self@ == other@,
    {
        proof {
            use_type_invariant(self);
            use_type_invariant(other);
        }
        if self.cnt != other.cnt {
            assert(self@.len() != other@.len());
            return false;
        }
        let n: usize = self.cnt;
        let mut i: usize = 0;
        while i < n
            invariant
                i <= n,
                n == self.cnt,
                n == other.cnt,
                n <= N,
                forall|j: int| 0 <= j < i ==> self@[j] == other@[j],
            decreases n - i,
        {
            if !self.seq[i].equals(&other.seq[i]) {
                assert(self@[i as int] != other@[i as int]);
                return false;
            }
            i += 1;
        }
        assert(self@ =~= other@);
        true
    }

    /// Whether the two series agree as far as both are known.
    pub fn matches(&self, other: &Self) -> (b: bool)
        ensures
            b <==> forall|i: int| 0 <= i < min_len(self@.len(), other@.len()) ==> self@[i] == other@[i],
    {
        proof {
            use_type_invariant(self);
            use_type_invariant(other);
        }
        let n: usize = if self.cnt < other.cnt { self.cnt } else { other.cnt };
        let mut i: usize = 0;
        while i < n
            invariant
                i <= n,
                n == min_len(self@.len(), other@.len()),
                n <= N,
                n <= self.cnt,
                n <= other.cnt,
                forall|j: int| 0 <= j < i ==> self@[j] == other@[j],
            decreases n - i,
        {
            if !self.seq[i].equals(&other.seq[i]) {
                assert(self@[i as int] != other@[i as int]);
                return false;
            }
            i += 1;
        }
        true
    }

    /// Forgets the coefficients from `x^acc` on.
    pub fn set_accuracy(&mut self, acc: usize)
        ensures
            final(self)@ == old(self)@.take(min_len(acc as nat, old(self)@.len()) as int),
    {
        self.expand_to(acc);
        self.limit_accuracy(acc);
    }

    /// The sum of two series.
    pub fn add(&self, other: &Self) -> (r: Self)
        ensures
            r@ == s_add(self@, other@, T::modulus()),
    {
        proof {
            use_type_invariant(self);
            use_type_invariant(other);
        }
        let n: usize = if self.cnt < other.cnt { self.cnt } else { other.cnt };
        let mut seq: [T; N] = [T::zero(); N];
        let mut i: usize = 0;
        while i < n
            invariant
                i <= n,
                n <= N,
                n <= self.cnt,
                n <= other.cnt,
                forall|j: int|
                    0 <= j < i ==> (#[trigger] seq[j]).value() == add_mod(
                        self@[j],
                        other@[j],
                        T::modulus(),
                    ),
            decreases n - i,
        {
            seq[i] = self.seq[i].add(other.seq[i]);
            i += 1;
        }
        let r = FixedSeq { seq, cnt: n };
        assert(r@ =~= s_add(self@, other@, T::modulus()));
        r
    }

    /// The difference of two series.
    pub fn sub(&self, other: &Self) -> (r: Self)
        ensures
            r@ == s_sub(self@, other@, T::modulus()),
    {
        proof {
            use_type_invariant(self);
            use_type_invariant(other);
        }
        let n: usize = if self.cnt < other.cnt { self.cnt } else { other.cnt };
        let mut seq: [T; N] = [T::zero(); N];
        let mut i: usize = 0;
        while i < n
            invariant
                i <= n,
                n <= N,
                n <= self.cnt,
                n <= other.cnt,
                forall|j: int|
                    0 <= j < i ==> (#[trigger] seq[j]).value() == sub_mod(
                        self@[j],
                        other@[j],
                        T::modulus(),
                    ),
            decreases n - i,
        {
            seq[i] = self.seq[i].sub(other.seq[i]);
            i += 1;
        }
        let r = FixedSeq { seq, cnt: n };
        assert(r@ =~= s_sub(self@, other@, T::modulus()));
        r
    }

    /// The negative of a series.
    pub fn neg(&self) -> (r: Self)
        ensures
            r@ == s_neg(self@, T::modulus()),
    {
        proof { use_type_invariant(self); }
        let n: usize = self.cnt;
        let mut seq: [T; N] = [T::zero(); N];
        let mut i: usize = 0;
        while i < n
            invariant
                i <= n,
                n <= N,
                n == self.cnt,
                forall|j: int| 0 <= j < i ==> (#[trigger] seq[j]).value() == neg_mod(self@[j], T::modulus()),
            decreases n - i,
        {
            seq[i] = self.seq[i].neg();
            i += 1;
        }
        let r = FixedSeq { seq, cnt: n };
        assert(r@ =~= s_neg(self@, T::modulus()));
        r
    }

    /// The coefficientwise product of two series.
    pub fn hadamard(&self, other: &Self) -> (r: Self)
        ensures
            r@ == s_hadamard(self@, other@, T::modulus()),
    {
        proof {
            use_type_invariant(self);
            use_type_invariant(other);
        }
        let n: usize = if self.cnt < other.cnt { self.cnt } else { other.cnt };
        let mut seq: [T; N] = [T::zero(); N];
        let mut i: usize = 0;
        while i < n
            invariant
                i <= n,
                n <= N,
                n <= self.cnt,
                n <= other.cnt,
                forall|j: int|
                    0 <= j < i ==> (#[trigger] seq[j]).value() == mul_mod(
                        self@[j],
                        other@[j],
                        T::modulus(),
                    ),
            decreases n - i,
        {
            seq[i] = self.seq[i].mul(other.seq[i]);
            i += 1;
        }
        let r = FixedSeq { seq, cnt: n };
        assert(r@ =~= s_hadamard(self@, other@, T::modulus()));
        r
    }

    /// The Cauchy product of two series.
    pub fn mul(&self, other: &Self) -> (r: Self)
        ensures
            r@ == s_mul(self@, other@, T::modulus()),
    {
        proof {
            use_type_invariant(self);
            use_type_invariant(other);
            T::lemma_modulus();
        }
        let ghost p = T::modulus();
        let n: usize = if self.cnt < other.cnt { self.cnt } else { other.cnt };
        let mut seq: [T; N] = [T::zero(); N];
        let mut k: usize = 0;
        while k < n
            invariant
                k <= n,
                n <= N,
                n <= self.cnt,
                n <= other.cnt,
                p == T::modulus(),
                p > 1,
                forall|j: int| 0 <= j < k ==> (#[trigger] seq[j]).value() == conv(self@, other@, j) % p,
            decreases n - k,
        {
            let ghost f = |i: int| self@[i] * other@[k - i];
            let mut acc = T::zero();
            let mut i: usize = 0;
            proof { lemma_small_mod(0, p as nat); }
            while i < k + 1
                invariant
                    i <= k + 1,
                    k < n,
                    n <= N,
                    n <= self.cnt,
                    n <= other.cnt,
                    p == T::modulus(),
                    p > 1,
                    f == |i: int| self@[i] * other@[k - i],
                    acc.value() == sum(f, i as int) % p,
                decreases k + 1 - i,
            {
                let ghost before = acc.value();
                acc = acc.add(self.seq[i].mul(other.seq[k - i]));
                proof {
                    let t = f(i as int);
                    lemma_add_mod_noop(sum(f, i as int), t, p);
                    lemma_add_mod_noop(before, t % p, p);
                    lemma_mod_twice(sum(f, i as int), p);
                    lemma_mod_twice(t, p);
                }
                i += 1;
            }
            seq[k] = acc;
            k += 1;
        }
        let r = FixedSeq { seq, cnt: n };
        assert(r@ =~= s_mul(self@, other@, T::modulus()));
        r
    }

    /// The quotient of two series, by long division.
    ///
    /// Fails where the constant term of `other` is not known or has no inverse.
    pub fn div(&self, other: &Self) -> (r: Result<Self, SeriesError>)
        ensures
            r is Err <==> !is_divisor(other@, T::modulus()),
            r is Ok ==> r->Ok_0@ == s_div(self@, other@, T::modulus()),
    {
        proof {
            use_type_invariant(self);
            use_type_invariant(other);
            T::lemma_modulus();
        }
        let ghost p = T::modulus();
        if other.cnt == 0 {
            let r = FixedSeq { seq: [T::zero(); N], cnt: 0 };
            assert(r@ =~= s_div(self@, other@, T::modulus()));
            return Ok(r);
        }
        let ginv = match other.seq[0].inv() {
            Some(v) => v,
            None => {
                return Err(SeriesError::InvalidOperand);
            },
        };
        let n: usize = if self.cnt < other.cnt { self.cnt } else { other.cnt };
        let mut seq: [T; N] = [T::zero(); N];
        let mut k: usize = 0;
        assert(s_div_prefix(self@, other@, 0, p) =~= Seq::<int>::empty());
        while k < n
            invariant
                k <= n,
                n <= N,
                n <= self.cnt,
                n <= other.cnt,
                p == T::modulus(),
                p > 1,
                ginv.value() == inv_mod(other@[0], p),
                s_div_prefix(self@, other@, k as nat, p).len() == k,
                forall|j: int|
                    0 <= j < k ==> (#[trigger] seq[j]).value() == s_div_prefix(self@, other@, k as nat, p)[j],
            decreases n - k,
        {
            let ghost q = s_div_prefix(self@, other@, k as nat, p);
            let ghost f = |j: int| q[j] * other@[k - j];
            let mut acc = T::zero();
            let mut j: usize = 0;
            proof { lemma_small_mod(0, p as nat); }
            while j < k
                invariant
                    j <= k,
                    k < n,
                    n <= N,
                    n <= self.cnt,
                    n <= other.cnt,
                    p == T::modulus(),
                    p > 1,
                    q.len() == k,
                    forall|t: int| 0 <= t < k ==> (#[trigger] seq[t]).value() == q[t],
                    f == |j: int| q[j] * other@[k - j],
                    acc.value() == sum(f, j as int) % p,
                decreases k - j,
            {
                let ghost before = acc.value();
                acc = acc.add(seq[j].mul(other.seq[k - j]));
                proof {
                    let t = f(j as int);
                    lemma_add_mod_noop(sum(f, j as int), t, p);
                    lemma_add_mod_noop(before, t % p, p);
                    lemma_mod_twice(sum(f, j as int), p);
                    lemma_mod_twice(t, p);
                }
                j += 1;
            }
            let v = self.seq[k].sub(acc).mul(ginv);
            proof {
                let fb = div_feedback(q, other@, k as int);
                assert(acc.value() == fb % p);
                lemma_sub_mod_noop_right(self@[k as int], fb, p);
                let next = s_div_prefix(self@, other@, (k + 1) as nat, p);
                assert(next == q.push(v.value()));
                assert forall|t: int| 0 <= t < k implies #[trigger] next[t] == q[t] by {}
            }
            seq[k] = v;
            k += 1;
        }
        let r = FixedSeq { seq, cnt: n };
        assert(r@ =~= s_div(self@, other@, T::modulus()));
        Ok(r)
    }

    /// Whether every known coefficient but the constant term is zero.
    pub fn is_constant(&self) -> (b: bool)
        ensures
            b <==> s_lshift(self@) == s_zero(s_lshift(self@).len()),
    {
        self.lshift().is_zero()
    }

    /// The series with every coefficient but its first nonzero one replaced by zero.
    pub fn tail_term(&self) -> (r: Self)
        ensures
            r@ == s_tail_term(self@),
    {
        proof { use_type_invariant(self); }
        let n: usize = self.cnt;
        let mut seq: [T; N] = [T::zero(); N];
        let mut found = false;
        let mut i: usize = 0;
        while i < n
            invariant
                i <= n,
                n <= N,
                n == self.cnt,
                found <==> first_nonzero(self@, i as int) < i,
                first_nonzero(self@, i as int) <= i,
                forall|j: int| i <= j < N ==> (#[trigger] seq[j]).value() == 0,
                forall|j: int|
                    0 <= j < i ==> (#[trigger] seq[j]).value() == (if j == first_nonzero(self@, i as int) {
                        self@[j]
                    } else {
                        0int
                    }),
            decreases n - i,
        {
            if !found && !self.seq[i].is_zero() {
                seq[i] = self.seq[i];
                found = true;
            }
            i += 1;
        }
        let r = FixedSeq { seq, cnt: n };
        assert(r@ =~= s_tail_term(self@));
        r
    }
}

impl<T: Field, const N: usize> PowerSeries for FixedSeq<T, N> {
    type Coeff = T;

    open spec fn capacity() -> nat {
        N as nat
    }

    fn cap() -> (n: usize) {
        N
    }

    proof fn lemma_view(&self) {
        FixedSeq::lemma_view(self);
    }

    fn coefficient(&self, i: usize) -> (c: T) {
        FixedSeq::coefficient(self, i)
    }

    fn set_coefficient(&mut self, i: usize, c: T) {
        FixedSeq::set_coefficient(self, i, c)
    }

    fn zeroes(acc: usize) -> (r: Self) {
        FixedSeq::zeroes(acc)
    }

    fn one() -> (r: Self) {
        FixedSeq::one()
    }

    fn from_u32(x: u32) -> (r: Self) {
        FixedSeq::from_u32(x)
    }

    fn from_slice(items: &[T]) -> (r: Self) {
        FixedSeq::from_slice(items)
    }

    fn is_zero(&self) -> (b: bool) {
        FixedSeq::is_zero(self)
    }

    fn is_one(&self) -> (b: bool) {
        FixedSeq::is_one(self)
    }

    fn set_accuracy(&mut self, acc: usize) {
        FixedSeq::set_accuracy(self, acc)
    }

    fn add(&self, other: &Self) -> (r: Self) {
        FixedSeq::add(self, other)
    }

    fn sub(&self, other: &Self) -> (r: Self) {
        FixedSeq::sub(self, other)
    }

    fn neg(&self) -> (r: Self) {
        FixedSeq::neg(self)
    }

    fn hadamard(&self, other: &Self) -> (r: Self) {
        FixedSeq::hadamard(self, other)
    }

    fn mul(&self, other: &Self) -> (r: Self) {
        FixedSeq::mul(self, other)
    }

    fn div(&self, other: &Self) -> (r: Result<Self, SeriesError>) {
        FixedSeq::div(self, other)
    }

    fn tail_term(&self) -> (r: Self) {
        FixedSeq::tail_term(self)
    }

    /// The number of known coefficients.
    fn accuracy(&self) -> (n: usize)
    {
        proof {
            use_type_invariant(self);
            assert(Self::capacity() == N as nat);
        }
        self.cnt
    }

    /// Does nothing: the storage of a series has a fixed size.
    fn expand_to(&mut self, _l: usize)
        ensures
            *final(self) == *old(self),
    {
    }

    /// Forgets the coefficients from `x^l` on.
    fn limit_accuracy(&mut self, l: usize)
    {
        proof { use_type_invariant(&*self); }
        let ghost before = self@;
        if l < self.cnt {
            self.cnt = l;
        }
        assert(self@ =~= before.take(min_len(l as nat, before.len()) as int));
    }

    /// The series without its constant term, divided by `x`.
    fn lshift(&self) -> (r: Self)
    {
        proof { use_type_invariant(self); }
        let n: usize = if self.cnt == 0 { 0 } else { self.cnt - 1 };
        let mut seq: [T; N] = [T::zero(); N];
        let mut i: usize = 0;
        while i < n
            invariant
                i <= n,
                n < N || n == 0,
                n + 1 <= self.cnt || n == 0,
                forall|j: int| 0 <= j < i ==> (#[trigger] seq[j]).value() == self@[j + 1],
            decreases n - i,
        {
            seq[i] = self.seq[i + 1];
            i += 1;
        }
        let r = FixedSeq { seq, cnt: n };
        assert(r@ =~= s_lshift(self@));
        r
    }

    /// The series multiplied by `x`.
    fn rshift(&self) -> (r: Self)
    {
        proof { use_type_invariant(self); }
        let n: usize = if self.cnt < N { self.cnt + 1 } else { N };
        let mut seq: [T; N] = [T::zero(); N];
        let mut i: usize = 1;
        while i < n
            invariant
                1 <= i <= n || n == 0,
                n <= N,
                n <= self.cnt + 1,
                seq[0].value() == 0 || n == 0,
                forall|j: int| 1 <= j < i ==> (#[trigger] seq[j]).value() == self@[j - 1],
            decreases n - i,
        {
            seq[i] = self.seq[i - 1];
            i += 1;
        }
        let r = FixedSeq { seq, cnt: n };
        assert(r@ =~= s_rshift(self@, N as nat));
        r
    }
}

impl<T: Field, const N: usize> PartialEq for FixedSeq<T, N> {
    /// Series are equal where they agree as far as both are known.
    fn eq(&self, other: &Self) -> (b: bool) {
        self.matches(other)
    }
}

impl<T: Field, const N: usize> PartialEqSpecImpl for FixedSeq<T, N> {
    open spec fn obeys_eq_spec() -> bool {
        true
    }

    open spec fn eq_spec(&self, other: &Self) -> bool {
        forall|i: int| 0 <= i < min_len(self@.len(), other@.len()) ==> self@[i] == other@[i]
    }
}

} // verus!
