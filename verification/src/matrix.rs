//! Dense matrices over a ring of residues, with Gaussian elimination over a
//! field.

use crate::linalg::{
    annihilates, augment, augment_identity, dot, identity, is_basic_solution, is_canonical,
    is_rref, is_singular, is_table, lemma_singular_from_rref, lemma_augment_solves,
    lemma_dot_update, lemma_dot_zero_row, lemma_inconsistent_row, lemma_inverse_from_rref,
    lemma_left_inverse_from_rref,
    lemma_reduce_same_kernel, lemma_rref_extend_free, lemma_rref_extend_pivot,
    lemma_rref_full_left, lemma_rref_swap, is_elimination, lemma_elimination_start,
    lemma_trace_reduce, lemma_trace_scale, lemma_trace_swap, product_mod, lemma_rref_unchanged, lemma_same_kernel_trans,
    lemma_scale_same_kernel, lemma_swap_same_kernel, mat_add, mat_mul, mat_neg, mat_sub,
    pivot_from, row_reduced, row_scaled, rows_swapped, same_kernel, solves,
};
use crate::mathtypes::{values, Field, Group, One, Ring, Zero};
use crate::modarith::{
    add_mod, is_unit, lemma_inv_is_unit, lemma_inv_mod, lemma_one_is_unit,
    lemma_unit_mul, lemma_unit_neg, lemma_unit_nonzero, mul_mod, neg_mod, sub_mod,
};
use crate::sums::{lemma_sum_ext, lemma_sum_zero, sum};
use vstd::arithmetic::div_mod::*;
use vstd::arithmetic::mul::*;
use vstd::prelude::*;

verus! {

/// The position of an entry in the row-by-row storage lies within the storage.
pub proof fn lemma_flat_index(i: int, j: int, r: int, c: int)
    requires
        0 <= i < r,
        0 <= j < c,
    ensures
        0 <= i * c,
        0 <= i * c + j < r * c,
        i * c + c <= r * c,
{
    assert(i * c + c <= r * c) by (nonlinear_arith)
        requires
            0 <= i < r,
            c > 0,
    ;
    assert(0 <= i * c) by (nonlinear_arith)
        requires
            0 <= i,
            c > 0,
    ;
}

/// Different entries have different positions in the row-by-row storage.
pub proof fn lemma_flat_injective(i1: int, j1: int, i2: int, j2: int, c: int)
    requires
        0 <= j1 < c,
        0 <= j2 < c,
        i1 * c + j1 == i2 * c + j2,
    ensures
        i1 == i2,
        j1 == j2,
{
    if i1 < i2 {
        assert(i2 * c >= i1 * c + c) by (nonlinear_arith)
            requires
                i1 + 1 <= i2,
                c > 0,
        ;
    } else if i2 < i1 {
        assert(i1 * c >= i2 * c + c) by (nonlinear_arith)
            requires
                i2 + 1 <= i1,
                c > 0,
        ;
    }
}

/// A dense table of ring elements with `r` rows and `c` columns, stored row by row.
#[derive(Debug, PartialEq)]
pub struct Matrix<T: Ring> {
    r: usize,
    c: usize,
    dat: Vec<T>,
}

impl<T: Ring> View for Matrix<T> {
    type V = Seq<Seq<int>>;

    /// The rows of the matrix, each entry by its value.
    closed spec fn view(&self) -> Seq<Seq<int>> {
        Seq::new(
            self.r as nat,
            |i: int| Seq::new(self.c as nat, |j: int| self.dat@[i * self.c + j].value()),
        )
    }
}

impl<T: Ring> Clone for Matrix<T> {
    fn clone(&self) -> (m: Self)
        ensures
            m.rows() == self.rows(),
            m.cols() == self.cols(),
            m@ == self@,
    {
        proof { use_type_invariant(self); }
        let n: usize = self.dat.len();
        let mut dat: Vec<T> = Vec::new();
        let mut k: usize = 0;
        while k < n
            invariant
                k <= n,
                n == self.dat.len(),
                dat.len() == k,
                forall|t: int| 0 <= t < k ==> #[trigger] dat@[t] == self.dat@[t],
            decreases n - k,
        {
            dat.push(self.dat[k]);
            k += 1;
        }
        let m = Matrix { r: self.r, c: self.c, dat };
        proof {
            assert forall|i: int, j: int| 0 <= i < self.r && 0 <= j < self.c implies m@[i][j]
                == self@[i][j] by {
                lemma_flat_index(i, j, self.r as int, self.c as int);
            }
            assert(m@ =~~= self@);
        }
        m
    }
}

impl<T: Ring> Matrix<T> {
    #[verifier::type_invariant]
    spec fn well_formed(self) -> bool {
        self.dat.len() == self.r * self.c
    }

    /// The number of rows.
    pub closed spec fn rows(&self) -> nat {
        self.r as nat
    }

    /// The number of columns.
    pub closed spec fn cols(&self) -> nat {
        self.c as nat
    }

    /// The view is a table of canonical residues of the matrix's shape.
    pub proof fn lemma_view(&self)
        ensures
            is_table(self@, self.rows(), self.cols()),
            is_canonical(self@, T::modulus()),
    {
        assert forall|i: int, j: int|
            0 <= i < self@.len() && 0 <= j < self@[i].len() implies 0 <= #[trigger] self@[i][j]
            < T::modulus() by {
            self.dat@[i * self.c + j].lemma_value_range();
        }
    }

    /// The matrix with `r` rows and `c` columns whose entries are those of
    /// `dat`, row by row.
    pub fn from_entries(r: usize, c: usize, dat: Vec<T>) -> (m: Self)
        requires
            dat@.len() == r * c,
        ensures
            m.rows() == r,
            m.cols() == c,
            forall|i: int, j: int|
                0 <= i < r && 0 <= j < c ==> #[trigger] m@[i][j] == dat@[i * c + j].value(),
    {
        Matrix { r, c, dat }
    }

    /// The zero matrix with `r` rows and `c` columns.
    pub fn new(r: usize, c: usize) -> (m: Self)
        requires
            r * c <= usize::MAX,
        ensures
            m.rows() == r,
            m.cols() == c,
            forall|i: int, j: int| 0 <= i < r && 0 <= j < c ==> #[trigger] m@[i][j] == 0,
    {
        let n: usize = r * c;
        let z = T::zero();
        let mut dat: Vec<T> = Vec::new();
        let mut k: usize = 0;
        while k < n
            invariant
                k <= n,
                dat.len() == k,
                z.value() == 0,
                forall|t: int| 0 <= t < k ==> (#[trigger] dat@[t]).value() == 0,
            decreases n - k,
        {
            dat.push(z);
            k += 1;
        }
        let m = Matrix { r, c, dat };
        proof {
            assert forall|i: int, j: int| 0 <= i < r && 0 <= j < c implies #[trigger] m@[i][j]
                == 0 by {
                lemma_flat_index(i, j, r as int, c as int);
            }
        }
        m
    }

    /// The numbers of rows and of columns.
    pub fn shape(&self) -> (s: (usize, usize))
        ensures
            s.0 == self.rows(),
            s.1 == self.cols(),
    {
        (self.r, self.c)
    }

    /// The entry in row `i` and column `j`.
    pub fn get(&self, i: usize, j: usize) -> (v: T)
        requires
            i < self.rows(),
            j < self.cols(),
        ensures
            v.value() == self@[i as int][j as int],
    {
        proof {
            use_type_invariant(self);
            lemma_flat_index(i as int, j as int, self.r as int, self.c as int);
        }
        self.dat[i * self.c + j]
    }

    /// Replaces the entry in row `i` and column `j` by `v`.
    pub fn set(&mut self, i: usize, j: usize, v: T)
        requires
            i < old(self).rows(),
            j < old(self).cols(),
        ensures
            final(self).rows() == old(self).rows(),
            final(self).cols() == old(self).cols(),
            final(self)@ == old(self)@.update(
                i as int,
                old(self)@[i as int].update(j as int, v.value()),
            ),
    {
        proof {
            use_type_invariant(&*self);
            lemma_flat_index(i as int, j as int, self.r as int, self.c as int);
        }
        let ghost before = *self;
        let idx: usize = i * self.c + j;
        self.dat[idx] = v;
        proof {
            let expected = before@.update(i as int, before@[i as int].update(j as int, v.value()));
            assert forall|i2: int, j2: int| 0 <= i2 < self.r && 0 <= j2 < self.c implies self@[i2][j2]
                == expected[i2][j2] by {
                lemma_flat_index(i2, j2, self.r as int, self.c as int);
                if i2 * self.c + j2 == idx {
                    lemma_flat_injective(i2, j2, i as int, j as int, self.c as int);
                }
            }
            assert(self@ =~~= expected);
        }
    }

    /// Exchanges the entries at the positions `a` and `b`.
    pub fn swap(&mut self, a: (usize, usize), b: (usize, usize))
        requires
            a.0 < old(self).rows(),
            a.1 < old(self).cols(),
            b.0 < old(self).rows(),
            b.1 < old(self).cols(),
        ensures
            final(self).rows() == old(self).rows(),
            final(self).cols() == old(self).cols(),
            final(self)@ == ({
                let m = old(self)@;
                let m1 = m.update(a.0 as int, m[a.0 as int].update(a.1 as int, m[b.0 as int][b.1 as int]));
                m1.update(b.0 as int, m1[b.0 as int].update(b.1 as int, m[a.0 as int][a.1 as int]))
            }),
    {
        let va = self.get(a.0, a.1);
        let vb = self.get(b.0, b.1);
        self.set(a.0, a.1, vb);
        self.set(b.0, b.1, va);
    }

    /// The transposed matrix.
    pub fn transpose(&self) -> (m: Self)
        ensures
            m.rows() == self.cols(),
            m.cols() == self.rows(),
            forall|i: int, j: int|
                0 <= i < self.rows() && 0 <= j < self.cols() ==> #[trigger] m@[j][i] == self@[i][j],
    {
        proof {
            use_type_invariant(self);
            lemma_mul_is_commutative(self.r as int, self.c as int);
        }
        let mut res = Self::new(self.c, self.r);
        let mut i: usize = 0;
        while i < self.r
            invariant
                i <= self.r,
                res.rows() == self.c,
                res.cols() == self.r,
                self.rows() == self.r,
                self.cols() == self.c,
                forall|i2: int, j2: int|
                    0 <= i2 < i && 0 <= j2 < self.c ==> #[trigger] res@[j2][i2] == self@[i2][j2],
            decreases self.r - i,
        {
            let mut j: usize = 0;
            while j < self.c
                invariant
                    i < self.r,
                    j <= self.c,
                    res.rows() == self.c,
                    res.cols() == self.r,
                    self.rows() == self.r,
                    self.cols() == self.c,
                    forall|i2: int, j2: int|
                        0 <= i2 < i && 0 <= j2 < self.c ==> #[trigger] res@[j2][i2]
                            == self@[i2][j2],
                    forall|j2: int| 0 <= j2 < j ==> #[trigger] res@[j2][i as int] == self@[i as int][j2],
                decreases self.c - j,
            {
                let v = self.get(i, j);
                proof { res.lemma_view(); }
                res.set(j, i, v);
                j += 1;
            }
            i += 1;
        }
        res
    }

    /// The entrywise sum, or `None` where the shapes differ.
    pub fn add(&self, other: &Self) -> (r: Option<Self>)
        ensures
            r is Some <==> self.rows() == other.rows() && self.cols() == other.cols(),
            r is Some ==> r->0.rows() == self.rows() && r->0.cols() == self.cols() && r->0@ == mat_add(
                self@,
                other@,
                T::modulus(),
            ),
    {
        proof {
            use_type_invariant(self);
            use_type_invariant(other);
            self.lemma_view();
            other.lemma_view();
        }
        if self.r != other.r || self.c != other.c {
            return None;
        }
        let n: usize = self.dat.len();
        let mut dat: Vec<T> = Vec::new();
        let mut k: usize = 0;
        while k < n
            invariant
                k <= n,
                n == self.dat@.len(),
                n == other.dat@.len(),
                dat@.len() == k,
                forall|t: int|
                    0 <= t < k ==> (#[trigger] dat@[t]).value() == add_mod(
                        self.dat@[t].value(),
                        other.dat@[t].value(),
                        T::modulus(),
                    ),
            decreases n - k,
        {
            dat.push(self.dat[k].add(other.dat[k]));
            k += 1;
        }
        let m = Matrix { r: self.r, c: self.c, dat };
        proof {
            assert forall|i: int, j: int| 0 <= i < self.r && 0 <= j < self.c implies m@[i][j]
                == mat_add(self@, other@, T::modulus())[i][j] by {
                lemma_flat_index(i, j, self.r as int, self.c as int);
            }
            assert(m@ =~~= mat_add(self@, other@, T::modulus()));
        }
        Some(m)
    }

    /// The entrywise difference, or `None` where the shapes differ.
    pub fn sub(&self, other: &Self) -> (r: Option<Self>)
        ensures
            r is Some <==> self.rows() == other.rows() && self.cols() == other.cols(),
            r is Some ==> r->0.rows() == self.rows() && r->0.cols() == self.cols() && r->0@ == mat_sub(
                self@,
                other@,
                T::modulus(),
            ),
    {
        proof {
            use_type_invariant(self);
            use_type_invariant(other);
            self.lemma_view();
            other.lemma_view();
        }
        if self.r != other.r || self.c != other.c {
            return None;
        }
        let n: usize = self.dat.len();
        let mut dat: Vec<T> = Vec::new();
        let mut k: usize = 0;
        while k < n
            invariant
                k <= n,
                n == self.dat@.len(),
                n == other.dat@.len(),
                dat@.len() == k,
                forall|t: int|
                    0 <= t < k ==> (#[trigger] dat@[t]).value() == sub_mod(
                        self.dat@[t].value(),
                        other.dat@[t].value(),
                        T::modulus(),
                    ),
            decreases n - k,
        {
            dat.push(self.dat[k].sub(other.dat[k]));
            k += 1;
        }
        let m = Matrix { r: self.r, c: self.c, dat };
        proof {
            assert forall|i: int, j: int| 0 <= i < self.r && 0 <= j < self.c implies m@[i][j]
                == mat_sub(self@, other@, T::modulus())[i][j] by {
                lemma_flat_index(i, j, self.r as int, self.c as int);
            }
            assert(m@ =~~= mat_sub(self@, other@, T::modulus()));
        }
        Some(m)
    }

    /// The entrywise negative.
    pub fn neg(&self) -> (m: Self)
        ensures
            m.rows() == self.rows(),
            m.cols() == self.cols(),
            m@ == mat_neg(self@, T::modulus()),
    {
        proof {
            use_type_invariant(self);
            self.lemma_view();
        }
        let n: usize = self.dat.len();
        let mut dat: Vec<T> = Vec::new();
        let mut k: usize = 0;
        while k < n
            invariant
                k <= n,
                n == self.dat@.len(),
                dat@.len() == k,
                forall|t: int|
                    0 <= t < k ==> (#[trigger] dat@[t]).value() == neg_mod(
                        self.dat@[t].value(),
                        T::modulus(),
                    ),
            decreases n - k,
        {
            dat.push(self.dat[k].neg());
            k += 1;
        }
        let m = Matrix { r: self.r, c: self.c, dat };
        proof {
            assert forall|i: int, j: int| 0 <= i < self.r && 0 <= j < self.c implies m@[i][j]
                == mat_neg(self@, T::modulus())[i][j] by {
                lemma_flat_index(i, j, self.r as int, self.c as int);
            }
            assert(m@ =~~= mat_neg(self@, T::modulus()));
        }
        m
    }

    /// The product `self * other`, or `None` where `self` has not as many
    /// columns as `other` has rows.
    pub fn mul(&self, other: &Self) -> (r: Option<Self>)
        requires
            self.rows() * other.cols() <= usize::MAX,
        ensures
            r is Some <==> self.cols() == other.rows(),
            r is Some ==> r->0.rows() == self.rows() && r->0.cols() == other.cols() && r->0@ == mat_mul(
                self@,
                other@,
                other.cols(),
                T::modulus(),
            ),
    {
        let ghost p = T::modulus();
        proof {
            T::lemma_modulus();
            self.lemma_view();
            other.lemma_view();
        }
        if self.c != other.r {
            return None;
        }
        let rows: usize = self.r;
        let inner: usize = self.c;
        let cols: usize = other.c;
        let mut res = Self::new(rows, cols);
        let mut i: usize = 0;
        while i < rows
            invariant
                i <= rows,
                rows == self.rows(),
                inner == self.cols(),
                inner == other.rows(),
                cols == other.cols(),
                res.rows() == rows,
                res.cols() == cols,
                p == T::modulus(),
                p > 1,
                is_table(self@, rows as nat, inner as nat),
                forall|i2: int, j2: int|
                    0 <= i2 < i && 0 <= j2 < cols ==> #[trigger] res@[i2][j2] == mat_mul(
                        self@,
                        other@,
                        cols as nat,
                        p,
                    )[i2][j2],
            decreases rows - i,
        {
            let mut j: usize = 0;
            while j < cols
                invariant
                    i < rows,
                    j <= cols,
                    rows == self.rows(),
                    inner == self.cols(),
                    inner == other.rows(),
                    cols == other.cols(),
                    res.rows() == rows,
                    res.cols() == cols,
                    p == T::modulus(),
                    p > 1,
                    is_table(self@, rows as nat, inner as nat),
                    forall|i2: int, j2: int|
                        0 <= i2 < i && 0 <= j2 < cols ==> #[trigger] res@[i2][j2] == mat_mul(
                            self@,
                            other@,
                            cols as nat,
                            p,
                        )[i2][j2],
                    forall|j2: int|
                        0 <= j2 < j ==> #[trigger] res@[i as int][j2] == mat_mul(
                            self@,
                            other@,
                            cols as nat,
                            p,
                        )[i as int][j2],
                decreases cols - j,
            {
                let ghost f = |k: int| self@[i as int][k] * other@[k][j as int];
                let mut acc = T::zero();
                let mut k: usize = 0;
                proof { lemma_small_mod(0, p as nat); }
                while k < inner
                    invariant
                        k <= inner,
                        i < rows,
                        j < cols,
                        rows == self.rows(),
                        inner == self.cols(),
                        inner == other.rows(),
                        cols == other.cols(),
                        p == T::modulus(),
                        p > 1,
                        f == |k: int| self@[i as int][k] * other@[k][j as int],
                        acc.value() == sum(f, k as int) % p,
                    decreases inner - k,
                {
                    acc = acc.add(self.get(i, k).mul(other.get(k, j)));
                    proof {
                        lemma_add_mod_noop(sum(f, k as int), f(k as int), p);
                        lemma_mod_twice(sum(f, k as int), p);
                    }
                    k += 1;
                }
                proof { res.lemma_view(); }
                res.set(i, j, acc);
                j += 1;
            }
            i += 1;
        }
        proof {
            res.lemma_view();
            assert(res@ =~~= mat_mul(self@, other@, cols as nat, p));
        }
        Some(res)
    }

    /// Exchanges the rows `a` and `b`.
    pub fn swap_rows(&mut self, a: usize, b: usize)
        requires
            a < old(self).rows(),
            b < old(self).rows(),
        ensures
            final(self).rows() == old(self).rows(),
            final(self).cols() == old(self).cols(),
            rows_swapped(old(self)@, final(self)@, a as int, b as int),
    {
        let ghost before = self@;
        let c: usize = self.c;
        proof { self.lemma_view(); }
        if a == b {
            return ;
        }
        let mut j: usize = 0;
        while j < c
            invariant
                j <= c,
                a != b,
                c == self.cols(),
                a < self.rows(),
                b < self.rows(),
                self.rows() == before.len(),
                is_table(before, self.rows(), self.cols()),
                is_table(self@, self.rows(), self.cols()),
                forall|t: int| 0 <= t < self.rows() && t != a && t != b ==> #[trigger] self@[t] == before[t],
                forall|j2: int| 0 <= j2 < j ==> #[trigger] self@[a as int][j2] == before[b as int][j2],
                forall|j2: int| 0 <= j2 < j ==> #[trigger] self@[b as int][j2] == before[a as int][j2],
                forall|j2: int| j <= j2 < c ==> #[trigger] self@[a as int][j2] == before[a as int][j2],
                forall|j2: int| j <= j2 < c ==> #[trigger] self@[b as int][j2] == before[b as int][j2],
            decreases c - j,
        {
            self.swap((a, j), (b, j));
            proof { self.lemma_view(); }
            j += 1;
        }
        proof {
            assert(self@[a as int] =~= before[b as int]);
            assert(self@[b as int] =~= before[a as int]);
        }
    }

    /// Multiplies row `i` by `s`.
    pub fn scale_row(&mut self, i: usize, s: T)
        requires
            i < old(self).rows(),
        ensures
            final(self).rows() == old(self).rows(),
            final(self).cols() == old(self).cols(),
            row_scaled(old(self)@, final(self)@, i as int, s.value(), T::modulus()),
            forall|j: int|
                0 <= j < old(self).cols() ==> #[trigger] final(self)@[i as int][j] == mul_mod(
                    s.value(),
                    old(self)@[i as int][j],
                    T::modulus(),
                ),
    {
        let ghost before = self@;
        let c: usize = self.c;
        proof {
            self.lemma_view();
            T::lemma_modulus();
        }
        let mut j: usize = 0;
        while j < c
            invariant
                j <= c,
                c == self.cols(),
                i < self.rows(),
                self.rows() == before.len(),
                is_table(before, self.rows(), self.cols()),
                is_table(self@, self.rows(), self.cols()),
                forall|t: int| 0 <= t < self.rows() && t != i ==> #[trigger] self@[t] == before[t],
                forall|j2: int|
                    0 <= j2 < j ==> #[trigger] self@[i as int][j2] == mul_mod(
                        s.value(),
                        before[i as int][j2],
                        T::modulus(),
                    ),
                forall|j2: int| j <= j2 < c ==> #[trigger] self@[i as int][j2] == before[i as int][j2],
            decreases c - j,
        {
            let v = self.get(i, j);
            self.set(i, j, s.mul(v));
            proof { self.lemma_view(); }
            j += 1;
        }
        proof {
            assert forall|j2: int| 0 <= j2 < c implies (#[trigger] self@[i as int][j2]) % T::modulus() == (
            s.value() * before[i as int][j2]) % T::modulus() by {
                lemma_mod_twice(s.value() * before[i as int][j2], T::modulus());
            }
        }
    }

    /// Subtracts `z` times row `k` from row `i`.
    pub fn sub_scaled_row(&mut self, i: usize, k: usize, z: T)
        requires
            i < old(self).rows(),
            k < old(self).rows(),
            i != k,
        ensures
            final(self).rows() == old(self).rows(),
            final(self).cols() == old(self).cols(),
            row_reduced(old(self)@, final(self)@, i as int, k as int, z.value(), T::modulus()),
            forall|j: int|
                0 <= j < old(self).cols() ==> #[trigger] final(self)@[i as int][j] == sub_mod(
                    old(self)@[i as int][j],
                    mul_mod(z.value(), old(self)@[k as int][j], T::modulus()),
                    T::modulus(),
                ),
    {
        let ghost before = self@;
        let c: usize = self.c;
        proof {
            self.lemma_view();
            T::lemma_modulus();
        }
        let mut j: usize = 0;
        while j < c
            invariant
                j <= c,
                c == self.cols(),
                i < self.rows(),
                k < self.rows(),
                i != k,
                self.rows() == before.len(),
                is_table(before, self.rows(), self.cols()),
                is_table(self@, self.rows(), self.cols()),
                forall|t: int| 0 <= t < self.rows() && t != i ==> #[trigger] self@[t] == before[t],
                forall|j2: int|
                    0 <= j2 < j ==> #[trigger] self@[i as int][j2] == sub_mod(
                        before[i as int][j2],
                        mul_mod(z.value(), before[k as int][j2], T::modulus()),
                        T::modulus(),
                    ),
                forall|j2: int| j <= j2 < c ==> #[trigger] self@[i as int][j2] == before[i as int][j2],
            decreases c - j,
        {
            let v = self.get(i, j);
            let w = self.get(k, j);
            self.set(i, j, v.sub(z.mul(w)));
            proof { self.lemma_view(); }
            j += 1;
        }
        proof {
            assert forall|j2: int| 0 <= j2 < c implies (#[trigger] self@[i as int][j2]) % T::modulus() == (
            before[i as int][j2] - z.value() * before[k as int][j2]) % T::modulus() by {
                let a = before[i as int][j2];
                let b = z.value() * before[k as int][j2];
                lemma_sub_mod_noop_right(a, b, T::modulus());
                lemma_mod_twice(a - b, T::modulus());
            }
        }
    }
}

impl<T: Field> Matrix<T> {
    /// Gaussian elimination to reduced row echelon form.
    ///
    /// Returns the reduced matrix, the determinant and the rank. The reduced
    /// matrix has the same kernel as `self`, and comes from it by elementary
    /// row operations. The determinant is zero where the matrix is not square
    /// or not of full rank. Otherwise it is the signed product of the pivots:
    /// the value that, multiplied by the factors by which the row operations
    /// change a determinant, gives one, the determinant of the reduced matrix.
    /// Never fails: over a field every nonzero pivot has an inverse.
    pub fn rref(&self) -> (res: Option<(Self, T, usize)>)
        ensures
            match res {
                Some((m, det, rank)) => {
                    &&& m.rows() == self.rows()
                    &&& m.cols() == self.cols()
                    &&& same_kernel(self@, m@, self.cols(), T::modulus())
                    &&& exists|pc: Seq<int>| pc.len() == rank && #[trigger] is_rref(m@, self.cols() as int, pc)
                    &&& self.rows() == self.cols() ==> (det.value() == 0 <==> rank < self.rows())
                    &&& self.rows() != self.cols() ==> det.value() == 0
                    &&& exists|steps: Seq<Seq<Seq<int>>>, fs: Seq<int>|
                        {
                            &&& #[trigger] is_elimination(steps, fs, T::modulus())
                            &&& steps[0] == self@
                            &&& steps.last() == m@
                            &&& self.rows() == self.cols() && rank == self.rows() ==> mul_mod(
                                det.value(),
                                product_mod(fs, T::modulus()),
                                T::modulus(),
                            ) == 1
                        }
                },
                None => false,
            },
    {
        let r: usize = self.r;
        let c: usize = self.c;
        let ghost p = T::modulus();
        let mut mat = self.clone();
        let mut acc = T::one();
        let mut ri: usize = 0;
        let mut ci: usize = 0;
        let ghost mut pc: Seq<int> = Seq::empty();
        let ghost mut steps: Seq<Seq<Seq<int>>> = seq![self@];
        let ghost mut fs: Seq<int> = Seq::empty();
        proof {
            T::lemma_modulus();
            lemma_one_is_unit(p);
            mat.lemma_view();
            lemma_elimination_start(self@, p);
        }
        while ci < c
            invariant
                r == self.rows(),
                c == self.cols(),
                mat.rows() == r,
                mat.cols() == c,
                ci <= c,
                ri <= r,
                ri <= ci,
                p == T::modulus(),
                p > 1,
                same_kernel(self@, mat@, c as nat, p),
                pc.len() == ri,
                is_rref(mat@, ci as int, pc),
                is_unit(acc.value(), p),
                is_elimination(steps, fs, p),
                steps.len() > 0,
                steps[0] == self@,
                steps.last() == mat@,
                (acc.value() * product_mod(fs, p)) % p == 1,
            decreases c - ci,
        {
            proof { mat.lemma_view(); }
            let mut k: usize = ri;
            let mut found = false;
            while k < r && !found
                invariant
                    ri <= k <= r,
                    mat.rows() == r,
                    mat.cols() == c,
                    ci < c,
                    forall|t: int| ri <= t < k ==> (#[trigger] mat@[t])[ci as int] == 0,
                    found ==> k < r && mat@[k as int][ci as int] != 0,
                decreases r - k + (if found { 0int } else { 1int }),
            {
                if mat.get(k, ci).is_zero() {
                    k += 1;
                } else {
                    found = true;
                }
            }
            if !found {
                proof { lemma_rref_extend_free(mat@, ci as int, pc); }
            } else {
                if k != ri {
                    let ghost m0 = mat@;
                    let ghost acc0 = acc.value();
                    acc = acc.neg();
                    mat.swap_rows(k, ri);
                    proof {
                        lemma_unit_neg(acc0, p);
                        lemma_swap_same_kernel(m0, mat@, k as int, ri as int, c as nat, p);
                        lemma_same_kernel_trans(self@, m0, mat@, c as nat, p);
                        lemma_rref_swap(m0, mat@, k as int, ri as int, ci as int, pc);
                        acc.lemma_value_range();
                        lemma_trace_swap(steps, fs, mat@, k as int, ri as int, acc0, acc.value(), p);
                        steps = steps.push(mat@);
                        fs = fs.push(-1);
                    }
                }
                let d = mat.get(ri, ci);
                match d.inv() {
                    None => {
                        proof {
                            d.lemma_value_range();
                            assert(!is_unit(d.value(), p));
                            T::lemma_field();
                        }
                        return None;
                    },
                    Some(dinv) => {
                        let ghost m1 = mat@;
                        let ghost acc0 = acc.value();
                        acc = acc.mul(d);
                        proof {
                            mat.lemma_view();
                            lemma_unit_mul(acc0, d.value(), p);
                            lemma_inv_is_unit(d.value(), p);
                            lemma_inv_mod(d.value(), p);
                        }
                        mat.scale_row(ri, dinv);
                        proof {
                            mat.lemma_view();
                            lemma_scale_same_kernel(m1, mat@, ri as int, dinv.value(), c as nat, p);
                            lemma_same_kernel_trans(self@, m1, mat@, c as nat, p);
                            assert forall|t: int, j: int|
                                0 <= t < m1.len() && 0 <= j < ci implies #[trigger] mat@[t][j]
                                == m1[t][j] by {
                                if t == ri {
                                    assert(m1[ri as int][j] == 0);
                                    assert(dinv.value() * 0 == 0);
                                    lemma_small_mod(0, p as nat);
                                    assert(mat@[ri as int][j] == mul_mod(dinv.value(), m1[ri as int][j], p));
                                    assert(mul_mod(dinv.value(), 0, p) == 0);
                                    assert(mat@[ri as int][j] == 0);
                                } else {
                                    assert(mat@[t] == m1[t]);
                                }
                            }
                            lemma_rref_unchanged(m1, mat@, ci as int, pc);
                            assert(mat@[ri as int][ci as int] == mul_mod(dinv.value(), m1[ri as int][ci as int], p));
                            acc.lemma_value_range();
                            lemma_trace_scale(
                                steps,
                                fs,
                                mat@,
                                ri as int,
                                d.value(),
                                dinv.value(),
                                acc0,
                                acc.value(),
                                p,
                            );
                            steps = steps.push(mat@);
                            fs = fs.push(dinv.value());
                        }
                        let mut i: usize = 0;
                        while i < r
                            invariant
                                i <= r,
                                ri < r,
                                ci < c,
                                r == self.rows(),
                                c == self.cols(),
                                mat.rows() == r,
                                mat.cols() == c,
                                p == T::modulus(),
                                p > 1,
                                same_kernel(self@, mat@, c as nat, p),
                                pc.len() == ri,
                                is_rref(mat@, ci as int, pc),
                                is_elimination(steps, fs, p),
                                steps.len() > 0,
                                steps[0] == self@,
                                steps.last() == mat@,
                                (acc.value() * product_mod(fs, p)) % p == 1,
                                mat@[ri as int][ci as int] == 1,
                                forall|t: int|
                                    0 <= t < i && t != ri ==> (#[trigger] mat@[t])[ci as int] == 0,
                            decreases r - i,
                        {
                            if i != ri {
                                let z = mat.get(i, ci);
                                if !z.is_zero() {
                                    let ghost m2 = mat@;
                                    proof { mat.lemma_view(); }
                                    mat.sub_scaled_row(i, ri, z);
                                    proof {
                                        mat.lemma_view();
                                        lemma_reduce_same_kernel(m2, mat@, i as int, ri as int, z.value(), c as nat, p);
                                        lemma_same_kernel_trans(self@, m2, mat@, c as nat, p);
                                        lemma_trace_reduce(
                                            steps,
                                            fs,
                                            mat@,
                                            i as int,
                                            ri as int,
                                            z.value(),
                                            acc.value(),
                                            p,
                                        );
                                        steps = steps.push(mat@);
                                        fs = fs.push(1);
                                        assert forall|t: int, j: int|
                                            0 <= t < m2.len() && 0 <= j < ci implies #[trigger] mat@[t][j]
                                            == m2[t][j] by {
                                            if t == i {
                                                assert(m2[ri as int][j] == 0);
                                                assert(z.value() * 0 == 0);
                                                assert(mat@[i as int][j] == sub_mod(
                                                    m2[i as int][j],
                                                    mul_mod(z.value(), m2[ri as int][j], p),
                                                    p,
                                                ));
                                                assert(0 <= m2[i as int][j] < p);
                                                lemma_small_mod(m2[i as int][j] as nat, p as nat);
                                                lemma_small_mod(0, p as nat);
                                                assert(mat@[i as int][j] == m2[i as int][j]);
                                            } else {
                                                assert(mat@[t] == m2[t]);
                                            }
                                        }
                                        lemma_rref_unchanged(m2, mat@, ci as int, pc);
                                        assert(mat@[i as int][ci as int] == sub_mod(
                                            m2[i as int][ci as int],
                                            mul_mod(z.value(), m2[ri as int][ci as int], p),
                                            p,
                                        ));
                                        assert(z.value() * 1 == z.value());
                                        lemma_small_mod(z.value() as nat, p as nat);
                                        lemma_small_mod(0, p as nat);
                                        assert(m2[ri as int][ci as int] == 1);
                                        assert(m2[i as int][ci as int] == z.value());
                                        assert(mul_mod(z.value(), m2[ri as int][ci as int], p) == z.value());
                                        assert(mat@[i as int][ci as int] == 0);
                                        assert(mat@[ri as int] == m2[ri as int]);
                                        assert forall|t: int|
                                            0 <= t < i + 1 && t != ri implies (#[trigger] mat@[t])[ci as int]
                                            == 0 by {
                                            if t < i {
                                                assert(mat@[t] == m2[t]);
                                            }
                                        }
                                    }
                                } else {
                                    assert(mat@[i as int][ci as int] == 0);
                                }
                            }
                            i += 1;
                        }
                        proof {
                            lemma_rref_extend_pivot(mat@, ci as int, pc);
                            pc = pc.push(ci as int);
                        }
                        ri += 1;
                    },
                }
            }
            ci += 1;
        }
        let full = r == c && ri == r;
        let det = if full { acc } else { T::zero() };
        proof {
            assert(is_rref(mat@, self.cols() as int, pc));
            assert(is_elimination(steps, fs, p) && steps[0] == self@ && steps.last() == mat@);
            if full {
                lemma_unit_nonzero(acc.value(), p);
                acc.lemma_value_range();
                lemma_small_mod(acc.value() as nat, p as nat);
            }
        }
        Some((mat, det, ri))
    }

    /// The solution of `self * x == targ` in which every free unknown is zero.
    ///
    /// Returns `None` where `targ` has not one entry for each row, or where
    /// the system has no solution.
    pub fn solve(&self, targ: &[T]) -> (res: Option<Vec<T>>)
        requires
            self.cols() + 1 <= usize::MAX,
            self.rows() * (self.cols() + 1) <= usize::MAX,
        ensures
            match res {
                Some(x) => {
                    &&& targ@.len() == self.rows()
                    &&& is_basic_solution(
                        self@,
                        values(targ@),
                        values(x@),
                        self.cols(),
                        T::modulus(),
                    )
                },
                None => {
                    ||| targ@.len() != self.rows()
                    ||| forall|x: Seq<int>|
                        x.len() == self.cols() ==> !#[trigger] solves(
                            self@,
                            x,
                            values(targ@),
                            T::modulus(),
                        )
                },
            },
    {
        let r: usize = self.r;
        let c: usize = self.c;
        let ghost p = T::modulus();
        if targ.len() != r {
            return None;
        }
        let ghost b = values(targ@);
        proof {
            T::lemma_modulus();
            self.lemma_view();
        }
        let mut aug = Self::new(r, c + 1);
        let mut i: usize = 0;
        while i < r
            invariant
                i <= r,
                r == self.rows(),
                c == self.cols(),
                targ@.len() == r,
                aug.rows() == r,
                aug.cols() == c + 1,
                forall|i2: int, j2: int| 0 <= i2 < i && 0 <= j2 < c ==> #[trigger] aug@[i2][j2] == self@[i2][j2],
                forall|i2: int| 0 <= i2 < i ==> (#[trigger] aug@[i2])[c as int] == targ@[i2].value(),
            decreases r - i,
        {
            let mut j: usize = 0;
            while j < c
                invariant
                    i < r,
                    j <= c,
                    r == self.rows(),
                    c == self.cols(),
                    aug.rows() == r,
                    aug.cols() == c + 1,
                    targ@.len() == r,
                    forall|i2: int, j2: int|
                        0 <= i2 < i && 0 <= j2 < c ==> #[trigger] aug@[i2][j2] == self@[i2][j2],
                    forall|i2: int| 0 <= i2 < i ==> (#[trigger] aug@[i2])[c as int] == targ@[i2].value(),
                    forall|j2: int| 0 <= j2 < j ==> #[trigger] aug@[i as int][j2] == self@[i as int][j2],
                decreases c - j,
            {
                let v = self.get(i, j);
                proof { aug.lemma_view(); }
                aug.set(i, j, v);
                j += 1;
            }
            proof { aug.lemma_view(); }
            aug.set(i, c, targ[i]);
            i += 1;
        }
        proof {
            aug.lemma_view();
            assert(aug@ =~~= augment(self@, b));
        }
        match aug.rref() {
            None => None,
            Some((red, _det, rank)) => {
                let ghost pc = choose|pc: Seq<int>| pc.len() == rank && #[trigger] is_rref(red@, (c + 1) as int, pc);
                let zero = T::zero();
                let mut res: Vec<T> = Vec::new();
                let mut k: usize = 0;
                while k < c
                    invariant
                        k <= c,
                        res@.len() == k,
                        zero.value() == 0,
                        forall|t: int| 0 <= t < k ==> (#[trigger] res@[t]).value() == 0,
                    decreases c - k,
                {
                    res.push(zero);
                    k += 1;
                }
                proof { red.lemma_view(); }
                let mut i: usize = r;
                while i > 0
                    invariant
                        i <= r,
                        r == self.rows(),
                        c == self.cols(),
                        p == T::modulus(),
                        p > 1,
                        targ@.len() == r,
                        b == values(targ@),
                        red.rows() == r,
                        red.cols() == c + 1,
                        res@.len() == c,
                        is_table(self@, r as nat, c as nat),
                        is_table(red@, r as nat, (c + 1) as nat),
                        is_canonical(red@, p),
                        same_kernel(augment(self@, b), red@, (c + 1) as nat, p),
                        is_rref(red@, (c + 1) as int, pc),
                        forall|t: int|
                            i <= t < r ==> dot(#[trigger] red@[t], values(res@).push(-1)) % p == 0,
                        forall|j: int|
                            0 <= j < c && !pivot_from(pc, i as int, j) ==> #[trigger] values(res@)[j] == 0,
                    decreases i,
                {
                    i -= 1;
                    let ghost xs = values(res@);
                    let ghost y = xs.push(-1);
                    let mut piv: usize = 0;
                    let mut found = false;
                    while piv < c && !found
                        invariant
                            piv <= c,
                            i < r,
                            red.rows() == r,
                            red.cols() == c + 1,
                            forall|j2: int| 0 <= j2 < piv ==> #[trigger] red@[i as int][j2] == 0,
                            found ==> piv < c && red@[i as int][piv as int] != 0,
                        decreases c - piv + (if found { 0int } else { 1int }),
                    {
                        if red.get(i, piv).is_zero() {
                            piv += 1;
                        } else {
                            found = true;
                        }
                    }
                    if !found {
                        let last = red.get(i, c);
                        if !last.is_zero() {
                            proof {
                                lemma_small_mod(last.value() as nat, p as nat);
                                lemma_inconsistent_row(self@, b, c as nat, red@, i as int, p);
                            }
                            return None;
                        }
                        proof {
                            lemma_dot_zero_row(red@[i as int], y);
                            lemma_small_mod(0, p as nat);
                            assert forall|j: int|
                                0 <= j < c && !pivot_from(pc, i as int, j) implies #[trigger] values(res@)[j]
                                == 0 by {
                                if pivot_from(pc, i as int + 1, j) {
                                    let t = choose|t: int| i + 1 <= t < pc.len() && #[trigger] pc[t] == j;
                                    assert(i <= t < pc.len() && pc[t] == j);
                                }
                            }
                        }
                    } else {
                        proof {
                            // the first nonzero entry of row i is its pivot
                            if pc.len() <= i {
                                assert(red@[i as int][piv as int] == 0);
                            }
                            if piv < pc[i as int] {
                                assert(red@[i as int][piv as int] == 0);
                            }
                            if pc[i as int] < piv {
                                assert(red@[i as int][pc[i as int]] == 1);
                            }
                            assert(pc[i as int] == piv);
                            assert(red@[i as int][pc[i as int]] == 1);
                        }
                        let ghost g = |j: int| red@[i as int][j] * xs[j];
                        let mut sm = red.get(i, c);
                        let mut j: usize = piv + 1;
                        proof {
                            sm.lemma_value_range();
                            lemma_small_mod(sm.value() as nat, p as nat);
                        }
                        while j < c
                            invariant
                                piv < j <= c,
                                i < r,
                                p == T::modulus(),
                                p > 1,
                                red.rows() == r,
                                red.cols() == c + 1,
                                res@.len() == c,
                                xs == values(res@),
                                g == |j: int| red@[i as int][j] * xs[j],
                                (sm.value() + sum(g, j as int) - sum(g, piv + 1)) % p == red@[i as int][c as int] % p,
                            decreases c - j,
                        {
                            let ghost s0 = sm.value();
                            let e = red.get(i, j);
                            let x = res[j];
                            sm = sm.sub(e.mul(x));
                            proof {
                                assert(x.value() == xs[j as int]);
                                assert(g(j as int) == e.value() * x.value());
                                let gj = g(j as int);
                                let rest = sum(g, j as int) - sum(g, piv + 1);
                                // sm == (s0 - gj % p) % p, so sm + gj is congruent to s0
                                lemma_sub_mod_noop_right(s0, gj, p);
                                assert(sm.value() == (s0 - gj) % p);
                                lemma_add_mod_noop_right(gj + rest, s0 - gj, p);
                                assert(sum(g, j + 1) == sum(g, j as int) + gj);
                            }
                            j += 1;
                        }
                        res.set(piv, sm);
                        proof {
                            let xs2 = values(res@);
                            let y2 = xs2.push(-1);
                            assert(xs2 =~= xs.update(piv as int, sm.value()));
                            assert(y2 =~= y.update(piv as int, sm.value()));
                            // the unknown was still zero
                            if pivot_from(pc, i as int + 1, piv as int) {
                                let t = choose|t: int| i + 1 <= t < pc.len() && #[trigger] pc[t] == piv as int;
                                assert(pc[i as int] < pc[t]);
                            }
                            assert(xs[piv as int] == 0);
                            // rows below are untouched by the new value
                            assert forall|t: int| i < t < r implies dot(#[trigger] red@[t], y2) % p == 0 by {
                                lemma_dot_update(red@[t], y, piv as int, sm.value());
                                if t < pc.len() {
                                    assert(red@[t][pc[i as int]] == 0);
                                } else {
                                    assert(red@[t][piv as int] == 0);
                                }
                                assert(0 * (sm.value() - y[piv as int]) == 0);
                            }
                            // row i holds with the new value
                            let row = red@[i as int];
                            lemma_dot_update(row, y, piv as int, sm.value());
                            assert(1 * (sm.value() - 0) == sm.value());
                            let f = |j: int| row[j] * y[j];
                            lemma_sum_ext(f, g, c as int);
                            assert(sum(f, c + 1) == sum(f, c as int) + f(c as int));
                            assert(f(c as int) == row[c as int] * (-1));
                            assert(row[c as int] * (-1) == -row[c as int]);
                            assert forall|j: int| 0 <= j < piv + 1 implies #[trigger] g(j) == 0 by {
                                if j < piv {
                                    assert(red@[i as int][j] == 0);
                                    assert(0 * xs[j] == 0);
                                } else {
                                    assert(red@[i as int][j] * 0 == 0);
                                }
                            }
                            lemma_sum_zero(g, piv + 1);
                            assert(dot(row, y2) == (sm.value() + sum(g, c as int)) - row[c as int]);
                            lemma_mod_equivalence(sm.value() + sum(g, c as int), row[c as int], p);
                            assert forall|j: int|
                                0 <= j < c && !pivot_from(pc, i as int, j) implies #[trigger] values(res@)[j]
                                == 0 by {
                                if j == piv {
                                    assert(pc[i as int] == j);
                                    assert(pivot_from(pc, i as int, j));
                                } else {
                                    if pivot_from(pc, i as int + 1, j) {
                                        let t = choose|t: int| i + 1 <= t < pc.len() && #[trigger] pc[t] == j;
                                        assert(i <= t < pc.len() && pc[t] == j);
                                    }
                                    assert(xs[j] == 0);
                                }
                            }
                        }
                    }
                }
                proof {
                    let xs = values(res@);
                    assert(annihilates(red@, xs.push(-1), p));
                    assert(annihilates(augment(self@, b), xs.push(-1), p));
                    lemma_augment_solves(self@, b, c as nat, xs, p);
                    assert forall|j: int| 0 <= j < xs.len() && !pc.contains(j) implies #[trigger] xs[j]
                        == 0 by {
                        if pivot_from(pc, 0, j) {
                            let t = choose|t: int| 0 <= t < pc.len() && #[trigger] pc[t] == j;
                            assert(pc.contains(j));
                        }
                    }
                    assert(is_rref(red@, self.cols() as int + 1, pc));
                    assert(self@.len() == r);
                    assert forall|j: int| 0 <= j < xs.len() implies 0 <= #[trigger] xs[j] < p by {
                        res@[j].lemma_value_range();
                    }
                }
                Some(res)
            },
        }
    }

    /// The inverse of a square matrix, by reducing `[self | 1]` to `[1 | inverse]`.
    ///
    /// Returns `None` where the matrix is not square or is singular.
    pub fn inverse(&self) -> (res: Option<Self>)
        requires
            self.rows() == self.cols() ==> self.rows() * (2 * self.cols()) <= usize::MAX,
        ensures
            self.rows() != self.cols() ==> res is None,
            match res {
                Some(b) => {
                    &&& self.rows() == self.cols()
                    &&& b.rows() == self.rows()
                    &&& b.cols() == self.rows()
                    &&& mat_mul(self@, b@, self.rows(), T::modulus()) == identity(self.rows())
                    &&& mat_mul(b@, self@, self.rows(), T::modulus()) == identity(self.rows())
                },
                None => {
                    ||| self.rows() != self.cols()
                    ||| is_singular(self@, T::modulus())
                },
            },
    {
        let n: usize = self.r;
        let ghost p = T::modulus();
        if self.c != n {
            return None;
        }
        proof {
            T::lemma_modulus();
            self.lemma_view();
            assert(n * n <= n * (2 * n)) by (nonlinear_arith);
        }
        if n == 0 {
            let e = Self::new(0, 0);
            proof {
                e.lemma_view();
                assert(mat_mul(self@, e@, 0, p) =~~= identity(0));
                assert(mat_mul(e@, self@, 0, p) =~~= identity(0));
            }
            return Some(e);
        }
        proof {
            assert(2 * n <= n * (2 * n)) by (nonlinear_arith)
                requires
                    n >= 1,
            ;
        }
        let one = T::one();
        let mut aug = Self::new(n, 2 * n);
        let mut i: usize = 0;
        while i < n
            invariant
                i <= n,
                n == self.rows(),
                n == self.cols(),
                one.value() == 1,
                aug.rows() == n,
                aug.cols() == 2 * n,
                forall|i2: int, j2: int| 0 <= i2 < n && 0 <= j2 < 2 * n ==> 0 <= #[trigger] aug@[i2][j2],
                forall|i2: int, j2: int|
                    i <= i2 < n && 0 <= j2 < 2 * n ==> #[trigger] aug@[i2][j2] == 0,
                forall|i2: int, j2: int|
                    0 <= i2 < i && 0 <= j2 < 2 * n ==> #[trigger] aug@[i2][j2] == augment_identity(
                        self@,
                        n as nat,
                    )[i2][j2],
            decreases n - i,
        {
            let mut j: usize = 0;
            while j < n
                invariant
                    i < n,
                    j <= n,
                    n == self.rows(),
                    n == self.cols(),
                    aug.rows() == n,
                    aug.cols() == 2 * n,
                    forall|i2: int, j2: int|
                        i < i2 < n && 0 <= j2 < 2 * n ==> #[trigger] aug@[i2][j2] == 0,
                    forall|j2: int| j <= j2 < 2 * n ==> #[trigger] aug@[i as int][j2] == 0,
                    forall|j2: int| 0 <= j2 < j ==> #[trigger] aug@[i as int][j2] == self@[i as int][j2],
                    forall|i2: int, j2: int|
                        0 <= i2 < i && 0 <= j2 < 2 * n ==> #[trigger] aug@[i2][j2]
                            == augment_identity(self@, n as nat)[i2][j2],
                decreases n - j,
            {
                let v = self.get(i, j);
                proof { aug.lemma_view(); }
                aug.set(i, j, v);
                j += 1;
            }
            proof { aug.lemma_view(); }
            aug.set(i, i + n, one);
            proof { aug.lemma_view(); }
            i += 1;
        }
        proof {
            aug.lemma_view();
            assert(aug@ =~~= augment_identity(self@, n as nat));
        }
        match aug.rref() {
            None => None,
            Some((red, _det, rank)) => {
                proof { red.lemma_view(); }
                let ghost pc = choose|pc: Seq<int>| pc.len() == rank && #[trigger] is_rref(red@, (2 * n) as int, pc);
                if !red.get(n - 1, n - 1).is_one() {
                    proof {
                        lemma_singular_from_rref(self@, red@, n as nat, pc, p);
                    }
                    return None;
                }
                proof {
                    lemma_rref_full_left(red@, n as nat, (2 * n) as int, pc);
                }
                let mut res = Self::new(n, n);
                let mut i: usize = 0;
                while i < n
                    invariant
                        i <= n,
                        red.rows() == n,
                        red.cols() == 2 * n,
                        res.rows() == n,
                        res.cols() == n,
                        forall|i2: int, j2: int|
                            0 <= i2 < i && 0 <= j2 < n ==> #[trigger] res@[i2][j2] == red@[i2][n + j2],
                    decreases n - i,
                {
                    let mut j: usize = 0;
                    while j < n
                        invariant
                            i < n,
                            j <= n,
                            red.rows() == n,
                            red.cols() == 2 * n,
                            res.rows() == n,
                            res.cols() == n,
                            forall|i2: int, j2: int|
                                0 <= i2 < i && 0 <= j2 < n ==> #[trigger] res@[i2][j2] == red@[i2][n + j2],
                            forall|j2: int|
                                0 <= j2 < j ==> #[trigger] res@[i as int][j2] == red@[i as int][n + j2],
                        decreases n - j,
                    {
                        let v = red.get(i, j + n);
                        proof { res.lemma_view(); }
                        res.set(i, j, v);
                        j += 1;
                    }
                    i += 1;
                }
                proof {
                    res.lemma_view();
                    lemma_inverse_from_rref(self@, red@, res@, n as nat, p);
                    lemma_left_inverse_from_rref(self@, red@, res@, n as nat, p);
                }
                Some(res)
            },
        }
    }
}

} // verus!
