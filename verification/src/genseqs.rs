//! Sequences given by a rule for their terms.

use crate::mathtypes::{values, Group, Ring, Zero};
use crate::sums::sum;
use vstd::arithmetic::div_mod::*;
use vstd::prelude::*;

verus! {

/// The sequence of the natural numbers `0, 1, 2, ...`: term `i` is `i`, taken
/// modulo 2^32 before it enters the ring.
pub fn a001477<T: Ring>(i: usize, _cache: &Vec<T>) -> (r: T)
    ensures
        r.value() == ((i as int) % 0x1_0000_0000) % T::modulus(),
{
    let w: u64 = i as u64;
    let lo: u32 = (w & 0xFFFF_FFFF) as u32;
    proof {
        assert(w & 0xFFFF_FFFF == w % 0x1_0000_0000) by (bit_vector);
    }
    T::from_u32(lo)
}

/// A sequence whose terms are computed as they are asked for.
pub trait GS<T: Ring>: Sized {
    /// The sequence is in order: its terms can be asked for.
    spec fn ready(&self) -> bool;

    /// Term `i` of the sequence.
    spec fn term(&self, i: int) -> int;

    /// Term `i` of the sequence. The sequence stays the same.
    fn coeff(&mut self, i: usize) -> (r: T)
        requires
            old(self).ready(),
            i < usize::MAX,
        ensures
            final(self).ready(),
            r.value() == old(self).term(i as int),
            forall|k: int| 0 <= k ==> #[trigger] final(self).term(k) == old(self).term(k),
    ;

    /// The first `len` terms of the sequence.
    fn into_bounded(&mut self, len: usize) -> (res: Vec<T>)
        requires
            old(self).ready(),
        ensures
            final(self).ready(),
            res@.len() == len,
            forall|i: int| 0 <= i < len ==> (#[trigger] res@[i]).value() == old(self).term(i),
            forall|k: int| 0 <= k ==> #[trigger] final(self).term(k) == old(self).term(k),
    {
        let mut res: Vec<T> = Vec::new();
        let mut i: usize = 0;
        while i < len
            invariant
                i <= len,
                self.ready(),
                res@.len() == i,
                forall|j: int| 0 <= j < i ==> (#[trigger] res@[j]).value() == old(self).term(j),
                forall|k: int| 0 <= k ==> #[trigger] self.term(k) == old(self).term(k),
            decreases len - i,
        {
            let c = self.coeff(i);
            res.push(c);
            i += 1;
        }
        res
    }
}

/// The term that follows `known` in the sequence with
/// `a[n] == c + coeff[0] * a[n - 1] + coeff[1] * a[n - 2] + ...`, modulo `p`.
pub open spec fn next_term(known: Seq<int>, coeff: Seq<int>, c: int, p: int) -> int {
    (c + sum(|i: int| coeff[i] * known[known.len() - 1 - i], coeff.len() as int)) % p
}

/// The first `n` terms of the sequence that begins with `initial` and goes
/// on by the recurrence with the coefficients `coeff` and the constant `c`.
pub open spec fn recurrence_terms(initial: Seq<int>, coeff: Seq<int>, c: int, n: nat, p: int) -> Seq<int>
    decreases n,
{
    if n <= initial.len() {
        initial.take(n as int)
    } else {
        let known = recurrence_terms(initial, coeff, c, (n - 1) as nat, p);
        known.push(next_term(known, coeff, c, p))
    }
}

/// The first `n` terms are `n` in number, and begin like the first `m` for `m <= n`.
pub proof fn lemma_recurrence_terms(initial: Seq<int>, coeff: Seq<int>, c: int, m: nat, n: nat, p: int)
    requires
        m <= n,
    ensures
        recurrence_terms(initial, coeff, c, n, p).len() == n,
        recurrence_terms(initial, coeff, c, m, p) == recurrence_terms(initial, coeff, c, n, p).take(m as int),
    decreases n,
{
    let full = recurrence_terms(initial, coeff, c, n, p);
    if n <= initial.len() {
        assert(recurrence_terms(initial, coeff, c, m, p) =~= full.take(m as int));
    } else {
        lemma_recurrence_terms(initial, coeff, c, (n - 1) as nat, (n - 1) as nat, p);
        if m < n {
            lemma_recurrence_terms(initial, coeff, c, m, (n - 1) as nat, p);
            assert(recurrence_terms(initial, coeff, c, m, p) =~= full.take(m as int));
        } else {
            assert(full =~= full.take(m as int));
        }
    }
}

/// A sequence with a linear recurrence with constant coefficients, whose
/// terms are computed as they are asked for and kept.
pub struct LinRecGS<T: Ring> {
    cache: Vec<T>,
    coeff: Vec<T>,
    const_coeff: T,
    given: usize,
}

impl<T: Ring> LinRecGS<T> {
    /// The terms that the sequence was made with.
    pub closed spec fn initial(&self) -> Seq<int> {
        values(self.cache@).take(self.given as int)
    }

    /// The coefficients of the recurrence, that of the last term first.
    pub closed spec fn coefficients(&self) -> Seq<int> {
        values(self.coeff@)
    }

    /// The constant of the recurrence.
    pub closed spec fn constant(&self) -> int {
        self.const_coeff.value()
    }

    /// The terms computed so far.
    pub closed spec fn known(&self) -> Seq<int> {
        values(self.cache@)
    }

    /// The terms computed so far are those of the sequence, and there are
    /// at least as many initial terms as the recurrence reaches back.
    pub closed spec fn wf(&self) -> bool {
        &&& self.coeff@.len() <= self.given <= self.cache@.len()
        &&& values(self.cache@) == recurrence_terms(
            self.initial(),
            self.coefficients(),
            self.constant(),
            self.cache@.len(),
            T::modulus(),
        )
    }

    /// The sequence that begins with `initial` and goes on with
    /// `a[n] == const_coeff + coeff[0] * a[n - 1] + coeff[1] * a[n - 2] + ...`.
    pub fn new(coeff: Vec<T>, initial: Vec<T>, const_coeff: T) -> (r: Self)
        requires
            coeff@.len() <= initial@.len(),
        ensures
            r.wf(),
            r.initial() == values(initial@),
            r.coefficients() == values(coeff@),
            r.constant() == const_coeff.value(),
            r.known() == values(initial@),
    {
        let given: usize = initial.len();
        let r = LinRecGS { cache: initial, coeff, const_coeff, given };
        proof {
            assert(values(initial@).take(given as int) =~= values(initial@));
        }
        r
    }

    /// Computes the term that follows those known.
    pub fn calc_next(&mut self)
        requires
            old(self).wf(),
        ensures
            final(self).wf(),
            final(self).initial() == old(self).initial(),
            final(self).coefficients() == old(self).coefficients(),
            final(self).constant() == old(self).constant(),
            final(self).known() == old(self).known().push(
                next_term(old(self).known(), old(self).coefficients(), old(self).constant(), T::modulus()),
            ),
    {
        let ghost p = T::modulus();
        let ghost before = values(self.cache@);
        let ghost co = values(self.coeff@);
        let ghost init = self.initial();
        let ghost f = |i: int| co[i] * before[before.len() - 1 - i];
        let n: usize = self.cache.len();
        let m: usize = self.coeff.len();
        let mut sm = self.const_coeff;
        let mut i: usize = 0;
        proof {
            T::lemma_modulus();
            sm.lemma_value_range();
            lemma_small_mod(sm.value() as nat, p as nat);
        }
        while i < m
            invariant
                i <= m,
                m == self.coeff@.len(),
                n == self.cache@.len(),
                m <= n,
                p == T::modulus(),
                p > 1,
                before == values(self.cache@),
                co == values(self.coeff@),
                f == |i: int| co[i] * before[before.len() - 1 - i],
                sm.value() == (self.const_coeff.value() + sum(f, i as int)) % p,
            decreases m - i,
        {
            let ghost acc = sm.value();
            let t = self.coeff[i].mul(self.cache[n - i - 1]);
            sm = sm.add(t);
            proof {
                let c = self.const_coeff.value();
                assert(t.value() == f(i as int) % p);
                lemma_add_mod_noop(c + sum(f, i as int), f(i as int), p);
                lemma_mod_twice(c + sum(f, i as int), p);
                lemma_add_mod_noop(acc, t.value(), p);
                lemma_mod_twice(f(i as int), p);
            }
            i += 1;
        }
        self.cache.push(sm);
        proof {
            let after = values(self.cache@);
            assert(after =~= before.push(sm.value()));
            assert(after.take(self.given as int) =~= init);
            assert(sm.value() == next_term(before, co, self.constant(), p));
        }
    }

    /// Term `i` of the sequence, which is computed with the terms before
    /// it where it is not known yet.
    pub fn term_at(&mut self, i: usize) -> (r: T)
        requires
            old(self).wf(),
            i < usize::MAX,
        ensures
            final(self).wf(),
            final(self).initial() == old(self).initial(),
            final(self).coefficients() == old(self).coefficients(),
            final(self).constant() == old(self).constant(),
            r.value() == recurrence_terms(
                old(self).initial(),
                old(self).coefficients(),
                old(self).constant(),
                (i + 1) as nat,
                T::modulus(),
            )[i as int],
    {
        while self.cache.len() <= i
            invariant
                self.wf(),
                self.initial() == old(self).initial(),
                self.coefficients() == old(self).coefficients(),
                self.constant() == old(self).constant(),
            decreases i + 1 - self.cache@.len(),
        {
            self.calc_next();
        }
        proof {
            lemma_recurrence_terms(
                self.initial(),
                self.coefficients(),
                self.constant(),
                (i + 1) as nat,
                self.cache@.len() as nat,
                T::modulus(),
            );
        }
        self.cache[i]
    }
}

impl<T: Ring> GS<T> for LinRecGS<T> {
    open spec fn ready(&self) -> bool {
        self.wf()
    }

    open spec fn term(&self, i: int) -> int {
        recurrence_terms(self.initial(), self.coefficients(), self.constant(), (i + 1) as nat, T::modulus())[i]
    }

    fn coeff(&mut self, i: usize) -> (r: T) {
        self.term_at(i)
    }
}

} // verus!
