//! Linear algebra over residues, on mathematical tables.
//!
//! A table is a sequence of rows, each a sequence of integers. The contracts of
//! [`crate::matrix::Matrix`] are stated over the notions of this module.

use crate::modarith::{is_unit, inv_mod, lemma_inv_mod};
use crate::truncated::is_reduced;
use crate::sums::{
    lemma_sum_cong, lemma_sum_ext, lemma_sum_linear, lemma_sum_scale, lemma_sum_single,
    lemma_sum_split, lemma_sum_tail_zero, lemma_sum_update, lemma_sum_zero, sum,
};
use vstd::arithmetic::div_mod::*;
use vstd::arithmetic::mul::*;
use vstd::prelude::*;

verus! {

/// The dot product of `a` with the first `a.len()` entries of `b`.
pub open spec fn dot(a: Seq<int>, b: Seq<int>) -> int {
    sum(|j: int| a[j] * b[j], a.len() as int)
}

/// `m` has `rows` rows of `cols` entries each.
pub open spec fn is_table(m: Seq<Seq<int>>, rows: nat, cols: nat) -> bool {
    &&& m.len() == rows
    &&& forall|i: int| 0 <= i < rows ==> (#[trigger] m[i]).len() == cols
}

/// Every entry of `m` is a canonical residue modulo `p`.
pub open spec fn is_canonical(m: Seq<Seq<int>>, p: int) -> bool {
    forall|i: int, j: int|
        0 <= i < m.len() && 0 <= j < m[i].len() ==> 0 <= #[trigger] m[i][j] < p
}

/// `m * x == b` modulo `p`.
pub open spec fn solves(m: Seq<Seq<int>>, x: Seq<int>, b: Seq<int>, p: int) -> bool {
    forall|i: int| 0 <= i < m.len() ==> dot(#[trigger] m[i], x) % p == b[i] % p
}

/// `m * y == 0` modulo `p`.
pub open spec fn annihilates(m: Seq<Seq<int>>, y: Seq<int>, p: int) -> bool {
    forall|i: int| 0 <= i < m.len() ==> dot(#[trigger] m[i], y) % p == 0
}

/// `a` and `b` annihilate the same vectors of length `cols`: they have the
/// same solutions as homogeneous systems.
pub open spec fn same_kernel(a: Seq<Seq<int>>, b: Seq<Seq<int>>, cols: nat, p: int) -> bool {
    forall|y: Seq<int>| y.len() == cols ==> (#[trigger] annihilates(a, y, p) <==> annihilates(b, y, p))
}

/// The table `a` with the column `b` appended.
pub open spec fn augment(a: Seq<Seq<int>>, b: Seq<int>) -> Seq<Seq<int>> {
    Seq::new(a.len(), |i: int| a[i].push(b[i]))
}

/// The product of the tables `a` and `b` modulo `p`, where `b` has `cols` columns.
pub open spec fn mat_mul(a: Seq<Seq<int>>, b: Seq<Seq<int>>, cols: nat, p: int) -> Seq<Seq<int>> {
    Seq::new(a.len(), |i: int| Seq::new(cols, |j: int| sum(|k: int| a[i][k] * b[k][j], a[i].len() as int) % p))
}

/// The entrywise sum of two tables of the same shape.
pub open spec fn mat_add(a: Seq<Seq<int>>, b: Seq<Seq<int>>, p: int) -> Seq<Seq<int>> {
    Seq::new(a.len(), |i: int| Seq::new(a[i].len(), |j: int| (a[i][j] + b[i][j]) % p))
}

/// The entrywise difference of two tables of the same shape.
pub open spec fn mat_sub(a: Seq<Seq<int>>, b: Seq<Seq<int>>, p: int) -> Seq<Seq<int>> {
    Seq::new(a.len(), |i: int| Seq::new(a[i].len(), |j: int| (a[i][j] - b[i][j]) % p))
}

/// The entrywise negative of a table.
pub open spec fn mat_neg(a: Seq<Seq<int>>, p: int) -> Seq<Seq<int>> {
    Seq::new(a.len(), |i: int| Seq::new(a[i].len(), |j: int| (-a[i][j]) % p))
}

/// The identity table of dimension `n`.
pub open spec fn identity(n: nat) -> Seq<Seq<int>> {
    Seq::new(n, |i: int| Seq::new(n, |j: int| if i == j { 1int } else { 0int }))
}

/// `b` comes from `a` by one elementary row operation, which multiplies the
/// determinant by `f`: an exchange of two rows (`f` is `-1`), the
/// multiplication of a row by the unit `f`, or the subtraction of a multiple
/// of one row from another (`f` is `1`).
pub open spec fn is_row_step(a: Seq<Seq<int>>, b: Seq<Seq<int>>, f: int, p: int) -> bool {
    ||| (f == -1 && exists|i: int, k: int| i != k && #[trigger] rows_swapped(a, b, i, k))
    ||| (is_unit(f, p) && exists|i: int| #[trigger] row_scaled(a, b, i, f, p))
    ||| (f == 1 && exists|i: int, k: int, z: int| #[trigger] row_reduced(a, b, i, k, z, p))
}

/// Step `t` of the elimination leads from table `t` to table `t + 1`.
pub open spec fn is_step_at(steps: Seq<Seq<Seq<int>>>, fs: Seq<int>, t: int, p: int) -> bool {
    is_row_step(steps[t], steps[t + 1], fs[t], p)
}

/// `steps` is a run of elementary row operations from its first table to
/// its last, and `fs` are the factors by which they multiply the determinant.
#[verifier::opaque]
pub open spec fn is_elimination(steps: Seq<Seq<Seq<int>>>, fs: Seq<int>, p: int) -> bool {
    &&& steps.len() == fs.len() + 1
    &&& forall|t: int| 0 <= t < fs.len() ==> #[trigger] is_step_at(steps, fs, t, p)
}

/// The product of the entries of `fs` modulo `p`.
pub open spec fn product_mod(fs: Seq<int>, p: int) -> int
    decreases fs.len(),
{
    if fs.len() == 0 {
        1
    } else {
        (product_mod(fs.drop_last(), p) * fs.last()) % p
    }
}

/// One more row operation extends an elimination.
pub proof fn lemma_elimination_push(steps: Seq<Seq<Seq<int>>>, fs: Seq<int>, b: Seq<Seq<int>>, f: int, p: int)
    requires
        is_elimination(steps, fs, p),
        is_row_step(steps.last(), b, f, p),
    ensures
        is_elimination(steps.push(b), fs.push(f), p),
        product_mod(fs.push(f), p) == (product_mod(fs, p) * f) % p,
        steps.push(b)[0] == steps[0],
        steps.push(b).last() == b,
{
    reveal(is_elimination);
    let s2 = steps.push(b);
    let f2 = fs.push(f);
    assert forall|t: int| 0 <= t < f2.len() implies #[trigger] is_step_at(s2, f2, t, p) by {
        if t < fs.len() {
            assert(is_step_at(steps, fs, t, p));
            assert(s2[t] == steps[t]);
            assert(s2[t + 1] == steps[t + 1]);
            assert(f2[t] == fs[t]);
        } else {
            assert(s2[t] == steps.last());
        }
    }
    assert(f2.drop_last() =~= fs);
}

/// Where the accumulated value times the product of the factors is one, it
/// stays one when the value is multiplied by `g` and a factor `f` with
/// `g * f == 1` is added.
pub proof fn lemma_product_step(acc: int, acc2: int, prod: int, g: int, f: int, p: int)
    requires
        p > 1,
        (acc * prod) % p == 1,
        (g * f) % p == 1,
        acc2 % p == (acc * g) % p,
    ensures
        (acc2 * ((prod * f) % p)) % p == 1,
{
    lemma_mul_mod_noop_general(acc2, prod * f, p);
    lemma_mul_mod_noop_general(acc * g, prod * f, p);
    assert((acc * g) * (prod * f) == (acc * prod) * (g * f)) by (nonlinear_arith);
    lemma_mul_mod_noop_general(acc * prod, g * f, p);
    lemma_small_mod(1, p as nat);
}

/// A run of row operations that begins with a table alone.
pub proof fn lemma_elimination_start(a: Seq<Seq<int>>, p: int)
    requires
        p > 1,
    ensures
        is_elimination(seq![a], Seq::empty(), p),
        seq![a][0] == a,
        seq![a].last() == a,
        (1 * product_mod(Seq::empty(), p)) % p == 1,
{
    reveal(is_elimination);
    assert(1 * 1 == 1);
    lemma_small_mod(1, p as nat);
}

/// An exchange of two rows extends the run; the value kept beside it changes its sign.
pub proof fn lemma_trace_swap(
    steps: Seq<Seq<Seq<int>>>,
    fs: Seq<int>,
    after: Seq<Seq<int>>,
    i: int,
    k: int,
    acc: int,
    acc2: int,
    p: int,
)
    requires
        p > 1,
        is_elimination(steps, fs, p),
        i != k,
        rows_swapped(steps.last(), after, i, k),
        (acc * product_mod(fs, p)) % p == 1,
        0 <= acc2 < p,
        acc2 == (-acc) % p,
    ensures
        is_elimination(steps.push(after), fs.push(-1), p),
        steps.push(after)[0] == steps[0],
        steps.push(after).last() == after,
        (acc2 * product_mod(fs.push(-1), p)) % p == 1,
{
    assert(is_row_step(steps.last(), after, -1, p));
    lemma_elimination_push(steps, fs, after, -1, p);
    assert(((-1) * (-1)) % p == 1) by {
        assert((-1) * (-1) == 1) by (nonlinear_arith);
        lemma_small_mod(1, p as nat);
    }
    assert(acc * (-1) == -acc);
    lemma_small_mod(acc2 as nat, p as nat);
    lemma_product_step(acc, acc2, product_mod(fs, p), -1, -1, p);
}

/// The multiplication of a row by the inverse of `d` extends the run; the
/// value kept beside it is multiplied by `d`.
pub proof fn lemma_trace_scale(
    steps: Seq<Seq<Seq<int>>>,
    fs: Seq<int>,
    after: Seq<Seq<int>>,
    i: int,
    d: int,
    dinv: int,
    acc: int,
    acc2: int,
    p: int,
)
    requires
        p > 1,
        is_elimination(steps, fs, p),
        row_scaled(steps.last(), after, i, dinv, p),
        is_unit(dinv, p),
        (d * dinv) % p == 1,
        (acc * product_mod(fs, p)) % p == 1,
        0 <= acc2 < p,
        acc2 == (acc * d) % p,
    ensures
        is_elimination(steps.push(after), fs.push(dinv), p),
        steps.push(after)[0] == steps[0],
        steps.push(after).last() == after,
        (acc2 * product_mod(fs.push(dinv), p)) % p == 1,
{
    assert(is_row_step(steps.last(), after, dinv, p));
    lemma_elimination_push(steps, fs, after, dinv, p);
    lemma_small_mod(acc2 as nat, p as nat);
    lemma_mod_twice(acc * d, p);
    lemma_product_step(acc, acc2, product_mod(fs, p), d, dinv, p);
}

/// The subtraction of a multiple of one row from another extends the run;
/// the value kept beside it stays.
pub proof fn lemma_trace_reduce(
    steps: Seq<Seq<Seq<int>>>,
    fs: Seq<int>,
    after: Seq<Seq<int>>,
    i: int,
    k: int,
    z: int,
    acc: int,
    p: int,
)
    requires
        p > 1,
        is_elimination(steps, fs, p),
        row_reduced(steps.last(), after, i, k, z, p),
        (acc * product_mod(fs, p)) % p == 1,
    ensures
        is_elimination(steps.push(after), fs.push(1), p),
        steps.push(after)[0] == steps[0],
        steps.push(after).last() == after,
        (acc * product_mod(fs.push(1), p)) % p == 1,
{
    assert(is_row_step(steps.last(), after, 1, p));
    lemma_elimination_push(steps, fs, after, 1, p);
    assert(1 * 1 == 1);
    assert(acc * 1 == acc);
    lemma_small_mod(1, p as nat);
    lemma_product_step(acc, acc, product_mod(fs, p), 1, 1, p);
}

/// The product of the table `m` and the vector `x` modulo `p`.
pub open spec fn mat_vec(m: Seq<Seq<int>>, x: Seq<int>, p: int) -> Seq<int> {
    Seq::new(m.len(), |i: int| dot(m[i], x) % p)
}

/// Column `k` of `m`.
pub open spec fn column(m: Seq<Seq<int>>, k: int) -> Seq<int> {
    Seq::new(m.len(), |i: int| m[i][k])
}

/// `m`, seen in its first `cols` columns, is in reduced row echelon form with
/// its pivots in the columns `pc`: row `t` has its leading entry, a one, in
/// column `pc[t]`; these columns increase with `t` and are zero elsewhere; the
/// rows below the pivot rows are zero.
pub open spec fn is_rref(m: Seq<Seq<int>>, cols: int, pc: Seq<int>) -> bool {
    &&& pc.len() <= m.len()
    &&& forall|t: int| 0 <= t < pc.len() ==> 0 <= #[trigger] pc[t] < cols
    &&& forall|s: int, t: int| 0 <= s < t < pc.len() ==> #[trigger] pc[s] < #[trigger] pc[t]
    &&& forall|t: int| 0 <= t < pc.len() ==> m[t][#[trigger] pc[t]] == 1
    &&& forall|t: int, j: int| 0 <= t < pc.len() && 0 <= j < pc[t] ==> #[trigger] m[t][j] == 0
    &&& forall|t: int, i: int|
        0 <= t < pc.len() && 0 <= i < m.len() && i != t ==> #[trigger] m[i][pc[t]] == 0
    &&& forall|i: int, j: int| pc.len() <= i < m.len() && 0 <= j < cols ==> #[trigger] m[i][j] == 0
}

/// `b` is `a` with the rows `i` and `k` exchanged.
pub open spec fn rows_swapped(a: Seq<Seq<int>>, b: Seq<Seq<int>>, i: int, k: int) -> bool {
    &&& 0 <= i < a.len()
    &&& 0 <= k < a.len()
    &&& b.len() == a.len()
    &&& b[i] == a[k]
    &&& b[k] == a[i]
    &&& forall|t: int| 0 <= t < a.len() && t != i && t != k ==> #[trigger] b[t] == a[t]
}

/// `b` is `a` with row `i` multiplied by `s`.
pub open spec fn row_scaled(a: Seq<Seq<int>>, b: Seq<Seq<int>>, i: int, s: int, p: int) -> bool {
    &&& 0 <= i < a.len()
    &&& b.len() == a.len()
    &&& b[i].len() == a[i].len()
    &&& forall|j: int| 0 <= j < a[i].len() ==> (#[trigger] b[i][j]) % p == (s * a[i][j]) % p
    &&& forall|t: int| 0 <= t < a.len() && t != i ==> #[trigger] b[t] == a[t]
}

/// `b` is `a` with `z` times row `k` subtracted from row `i`.
pub open spec fn row_reduced(a: Seq<Seq<int>>, b: Seq<Seq<int>>, i: int, k: int, z: int, p: int) -> bool {
    &&& 0 <= i < a.len()
    &&& 0 <= k < a.len()
    &&& i != k
    &&& b.len() == a.len()
    &&& b[i].len() == a[i].len()
    &&& a[k].len() == a[i].len()
    &&& forall|j: int|
        0 <= j < a[i].len() ==> (#[trigger] b[i][j]) % p == (a[i][j] - z * a[k][j]) % p
    &&& forall|t: int| 0 <= t < a.len() && t != i ==> #[trigger] b[t] == a[t]
}

/// The dot product is linear in its first argument.
pub proof fn lemma_dot_row_op(a: Seq<int>, b: Seq<int>, c: Seq<int>, z: int, y: Seq<int>, p: int)
    requires
        p > 0,
        a.len() == b.len(),
        a.len() == c.len(),
        forall|j: int| 0 <= j < a.len() ==> (#[trigger] c[j]) % p == (a[j] - z * b[j]) % p,
    ensures
        dot(c, y) % p == (dot(a, y) - z * dot(b, y)) % p,
{
    let n = a.len() as int;
    let fa = |j: int| a[j] * y[j];
    let fb = |j: int| b[j] * y[j];
    let fc = |j: int| c[j] * y[j];
    let h = |j: int| 1 * fa(j) + (-z) * fb(j);
    lemma_sum_linear(h, 1, fa, -z, fb, n);
    assert forall|j: int| 0 <= j < n implies (#[trigger] fc(j)) % p == h(j) % p by {
        lemma_mul_mod_noop_left(c[j], y[j], p);
        lemma_mul_mod_noop_left(a[j] - z * b[j], y[j], p);
        assert((a[j] - z * b[j]) * y[j] == 1 * (a[j] * y[j]) + (-z) * (b[j] * y[j]))
            by (nonlinear_arith);
    }
    lemma_sum_cong(fc, h, n, p);
    assert(1 * sum(fa, n) + (-z) * sum(fb, n) == sum(fa, n) - z * sum(fb, n)) by (nonlinear_arith);
}

/// Scaling a row scales its dot products.
pub proof fn lemma_dot_scale(a: Seq<int>, c: Seq<int>, s: int, y: Seq<int>, p: int)
    requires
        p > 0,
        a.len() == c.len(),
        forall|j: int| 0 <= j < a.len() ==> (#[trigger] c[j]) % p == (s * a[j]) % p,
    ensures
        dot(c, y) % p == (s * dot(a, y)) % p,
{
    let n = a.len() as int;
    let fa = |j: int| a[j] * y[j];
    let fc = |j: int| c[j] * y[j];
    let h = |j: int| s * fa(j);
    lemma_sum_scale(h, s, fa, n);
    assert forall|j: int| 0 <= j < n implies (#[trigger] fc(j)) % p == h(j) % p by {
        lemma_mul_mod_noop_left(c[j], y[j], p);
        lemma_mul_mod_noop_left(s * a[j], y[j], p);
        lemma_mul_is_associative(s, a[j], y[j]);
    }
    lemma_sum_cong(fc, h, n, p);
}

/// Changing one entry of the vector changes the dot product by that term.
pub proof fn lemma_dot_update(a: Seq<int>, y: Seq<int>, k: int, v: int)
    requires
        0 <= k < a.len(),
        a.len() <= y.len(),
    ensures
        dot(a, y.update(k, v)) == dot(a, y) + a[k] * (v - y[k]),
{
    let y2 = y.update(k, v);
    let f = |j: int| a[j] * y[j];
    let g = |j: int| a[j] * y2[j];
    lemma_sum_update(f, g, a.len() as int, k);
    lemma_mul_is_distributive_sub(a[k], v, y[k]);
}

/// Appending an entry to both vectors adds one term to the dot product.
pub proof fn lemma_dot_push(a: Seq<int>, x: int, y: Seq<int>, w: int)
    requires
        a.len() == y.len(),
    ensures
        dot(a.push(x), y.push(w)) == dot(a, y) + x * w,
{
    let n = a.len() as int;
    let a2 = a.push(x);
    let y2 = y.push(w);
    let f = |j: int| a[j] * y[j];
    let g = |j: int| a2[j] * y2[j];
    lemma_sum_ext(f, g, n);
    assert(sum(g, n + 1) == sum(g, n) + g(n));
}

/// A solution of `a * x == b` is a vector `(x, -1)` that the augmented table annihilates.
pub proof fn lemma_augment_solves(a: Seq<Seq<int>>, b: Seq<int>, cols: nat, x: Seq<int>, p: int)
    requires
        p > 0,
        is_table(a, a.len(), cols),
        b.len() == a.len(),
        x.len() == cols,
    ensures
        annihilates(augment(a, b), x.push(-1), p) <==> solves(a, x, b, p),
{
    let aug = augment(a, b);
    let y = x.push(-1);
    assert forall|i: int| 0 <= i < a.len() implies (dot(#[trigger] aug[i], y) % p == 0 <==> dot(
        a[i],
        x,
    ) % p == b[i] % p) by {
        lemma_dot_push(a[i], b[i], x, -1);
        assert(b[i] * (-1) == -b[i]);
        lemma_mod_equivalence(dot(a[i], x), b[i], p);
    }
    if annihilates(aug, y, p) {
        assert forall|i: int| 0 <= i < a.len() implies dot(#[trigger] a[i], x) % p == b[i] % p by {
            assert(dot(aug[i], y) % p == 0);
        }
    }
    if solves(a, x, b, p) {
        assert forall|i: int| 0 <= i < aug.len() implies dot(#[trigger] aug[i], y) % p == 0 by {
            assert(dot(a[i], x) % p == b[i] % p);
        }
    }
}

/// Exchanging two rows keeps the kernel.
pub proof fn lemma_swap_same_kernel(a: Seq<Seq<int>>, b: Seq<Seq<int>>, i: int, k: int, cols: nat, p: int)
    requires
        rows_swapped(a, b, i, k),
    ensures
        same_kernel(a, b, cols, p),
{
    assert forall|y: Seq<int>| y.len() == cols implies (#[trigger] annihilates(a, y, p)
        <==> annihilates(b, y, p)) by {
        if annihilates(a, y, p) {
            assert forall|t: int| 0 <= t < b.len() implies dot(#[trigger] b[t], y) % p == 0 by {
                if t == i {
                    assert(dot(a[k], y) % p == 0);
                } else if t == k {
                    assert(dot(a[i], y) % p == 0);
                } else {
                    assert(dot(a[t], y) % p == 0);
                }
            }
        }
        if annihilates(b, y, p) {
            assert forall|t: int| 0 <= t < a.len() implies dot(#[trigger] a[t], y) % p == 0 by {
                if t == i {
                    assert(dot(b[k], y) % p == 0);
                } else if t == k {
                    assert(dot(b[i], y) % p == 0);
                } else {
                    assert(dot(b[t], y) % p == 0);
                }
            }
        }
    }
}

/// Multiplying a row by a unit keeps the kernel.
pub proof fn lemma_scale_same_kernel(a: Seq<Seq<int>>, b: Seq<Seq<int>>, i: int, s: int, cols: nat, p: int)
    requires
        p > 1,
        is_unit(s, p),
        row_scaled(a, b, i, s, p),
    ensures
        same_kernel(a, b, cols, p),
{
    let si = inv_mod(s, p);
    lemma_inv_mod(s, p);
    assert forall|y: Seq<int>| y.len() == cols implies (#[trigger] annihilates(a, y, p)
        <==> annihilates(b, y, p)) by {
        lemma_dot_scale(a[i], b[i], s, y, p);
        let d = dot(a[i], y);
        // s * d == 0 exactly when d == 0, modulo p
        if d % p == 0 {
            lemma_mul_mod_noop_right(s, d, p);
            assert(s * 0 == 0);
        }
        if (s * d) % p == 0 {
            lemma_mul_mod_noop_right(si, s * d, p);
            assert(si * 0 == 0);
            lemma_mul_is_associative(si, s, d);
            lemma_mul_mod_noop_left(si * s, d, p);
            lemma_mul_is_commutative(si, s);
            assert(1 * d == d);
        }
        if annihilates(a, y, p) {
            assert forall|t: int| 0 <= t < b.len() implies dot(#[trigger] b[t], y) % p == 0 by {
                if t == i {
                    assert(dot(a[i], y) % p == 0);
                } else {
                    assert(dot(a[t], y) % p == 0);
                }
            }
        }
        if annihilates(b, y, p) {
            assert forall|t: int| 0 <= t < a.len() implies dot(#[trigger] a[t], y) % p == 0 by {
                if t == i {
                    assert(dot(b[i], y) % p == 0);
                } else {
                    assert(dot(b[t], y) % p == 0);
                }
            }
        }
    }
}

/// Subtracting a multiple of another row keeps the kernel.
pub proof fn lemma_reduce_same_kernel(
    a: Seq<Seq<int>>,
    b: Seq<Seq<int>>,
    i: int,
    k: int,
    z: int,
    cols: nat,
    p: int,
)
    requires
        p > 0,
        row_reduced(a, b, i, k, z, p),
    ensures
        same_kernel(a, b, cols, p),
{
    assert forall|y: Seq<int>| y.len() == cols implies (#[trigger] annihilates(a, y, p)
        <==> annihilates(b, y, p)) by {
        lemma_dot_row_op(a[i], a[k], b[i], z, y, p);
        let di = dot(a[i], y);
        let dk = dot(a[k], y);
        assert(b[k] == a[k]);
        if dk % p == 0 {
            lemma_mul_mod_noop_right(z, dk, p);
            assert(z * 0 == 0);
            lemma_sub_mod_noop_right(di, z * dk, p);
            assert((di - z * dk) % p == di % p);
        }
        if annihilates(a, y, p) {
            assert(dot(a[k], y) % p == 0);
            assert(dot(a[i], y) % p == 0);
            assert forall|t: int| 0 <= t < b.len() implies dot(#[trigger] b[t], y) % p == 0 by {
                if t != i {
                    assert(dot(a[t], y) % p == 0);
                }
            }
        }
        if annihilates(b, y, p) {
            assert(dot(b[k], y) % p == 0);
            assert(dot(b[i], y) % p == 0);
            assert forall|t: int| 0 <= t < a.len() implies dot(#[trigger] a[t], y) % p == 0 by {
                if t != i {
                    assert(dot(b[t], y) % p == 0);
                }
            }
        }
    }
}

/// Having the same kernel is transitive.
pub proof fn lemma_same_kernel_trans(a: Seq<Seq<int>>, b: Seq<Seq<int>>, c: Seq<Seq<int>>, cols: nat, p: int)
    requires
        same_kernel(a, b, cols, p),
        same_kernel(b, c, cols, p),
    ensures
        same_kernel(a, c, cols, p),
{
    assert forall|y: Seq<int>| y.len() == cols implies (#[trigger] annihilates(a, y, p)
        <==> annihilates(c, y, p)) by {
        assert(annihilates(a, y, p) <==> annihilates(b, y, p));
        assert(annihilates(b, y, p) <==> annihilates(c, y, p));
    }
}

/// Reduced row echelon form in the first `cols` columns only depends on those columns.
pub proof fn lemma_rref_unchanged(a: Seq<Seq<int>>, b: Seq<Seq<int>>, cols: int, pc: Seq<int>)
    requires
        is_rref(a, cols, pc),
        b.len() == a.len(),
        forall|t: int, j: int| 0 <= t < a.len() && 0 <= j < cols ==> #[trigger] b[t][j] == a[t][j],
    ensures
        is_rref(b, cols, pc),
{
    assert forall|t: int| 0 <= t < pc.len() implies b[t][#[trigger] pc[t]] == 1 by {
        assert(b[t][pc[t]] == a[t][pc[t]]);
    }
    assert forall|t: int, j: int| 0 <= t < pc.len() && 0 <= j < pc[t] implies #[trigger] b[t][j]
        == 0 by {
        assert(b[t][j] == a[t][j]);
    }
    assert forall|t: int, i: int|
        0 <= t < pc.len() && 0 <= i < b.len() && i != t implies #[trigger] b[i][pc[t]] == 0 by {
        assert(b[i][pc[t]] == a[i][pc[t]]);
    }
    assert forall|i: int, j: int| pc.len() <= i < b.len() && 0 <= j < cols implies #[trigger] b[i][j]
        == 0 by {
        assert(b[i][j] == a[i][j]);
    }
}

/// Exchanging two rows below the pivot rows keeps the form.
pub proof fn lemma_rref_swap(a: Seq<Seq<int>>, b: Seq<Seq<int>>, i: int, k: int, cols: int, pc: Seq<int>)
    requires
        is_rref(a, cols, pc),
        rows_swapped(a, b, i, k),
        pc.len() <= i,
        pc.len() <= k,
    ensures
        is_rref(b, cols, pc),
{
    assert forall|t: int, j: int| 0 <= t < a.len() && 0 <= j < cols implies #[trigger] b[t][j]
        == a[t][j] by {
        if t == i {
            assert(a[k][j] == 0);
            assert(a[i][j] == 0);
        } else if t == k {
            assert(a[k][j] == 0);
            assert(a[i][j] == 0);
        } else {
            assert(b[t] == a[t]);
        }
    }
    lemma_rref_unchanged(a, b, cols, pc);
}

/// A column without a pivot extends the form by one column.
pub proof fn lemma_rref_extend_free(m: Seq<Seq<int>>, cols: int, pc: Seq<int>)
    requires
        is_rref(m, cols, pc),
        forall|i: int| pc.len() <= i < m.len() ==> (#[trigger] m[i])[cols] == 0,
    ensures
        is_rref(m, cols + 1, pc),
{
    assert forall|i: int, j: int| pc.len() <= i < m.len() && 0 <= j < cols + 1 implies #[trigger] m[i][j]
        == 0 by {
        if j == cols {
            assert(m[i][cols] == 0);
        }
    }
}

/// A column whose only nonzero entry is a one in the first row below the
/// pivot rows extends the form by one column and one pivot.
pub proof fn lemma_rref_extend_pivot(m: Seq<Seq<int>>, cols: int, pc: Seq<int>)
    requires
        is_rref(m, cols, pc),
        0 <= cols,
        pc.len() < m.len(),
        m[pc.len() as int][cols] == 1,
        forall|i: int| 0 <= i < m.len() && i != pc.len() ==> (#[trigger] m[i])[cols] == 0,
    ensures
        is_rref(m, cols + 1, pc.push(cols)),
{
    let pc2 = pc.push(cols);
    let n = pc.len() as int;
    assert forall|t: int| 0 <= t < pc2.len() implies 0 <= #[trigger] pc2[t] < cols + 1 by {
        if t < n {
            assert(pc2[t] == pc[t]);
        }
    }
    assert forall|s: int, t: int| 0 <= s < t < pc2.len() implies #[trigger] pc2[s] < #[trigger] pc2[t] by {
        assert(pc2[s] == pc[s]);
        if t < n {
            assert(pc2[t] == pc[t]);
        }
    }
    assert forall|t: int| 0 <= t < pc2.len() implies m[t][#[trigger] pc2[t]] == 1 by {
        if t < n {
            assert(pc2[t] == pc[t]);
        }
    }
    assert forall|t: int, j: int| 0 <= t < pc2.len() && 0 <= j < pc2[t] implies #[trigger] m[t][j]
        == 0 by {
        if t < n {
            assert(pc2[t] == pc[t]);
        }
    }
    assert forall|t: int, i: int|
        0 <= t < pc2.len() && 0 <= i < m.len() && i != t implies #[trigger] m[i][pc2[t]] == 0 by {
        if t < n {
            assert(pc2[t] == pc[t]);
            assert(m[i][pc[t]] == 0);
        } else {
            assert(m[i][cols] == 0);
        }
    }
    assert forall|i: int, j: int| pc2.len() <= i < m.len() && 0 <= j < cols + 1 implies #[trigger] m[i][j]
        == 0 by {
        if j == cols {
            assert(m[i][cols] == 0);
        }
    }
}

/// In reduced row echelon form the pivot of row `t` lies in column `t` or further right.
pub proof fn lemma_rref_pivot_lower(m: Seq<Seq<int>>, cols: int, pc: Seq<int>, t: int)
    requires
        is_rref(m, cols, pc),
        0 <= t < pc.len(),
    ensures
        pc[t] >= t,
    decreases t,
{
    if t > 0 {
        lemma_rref_pivot_lower(m, cols, pc, t - 1);
        assert(pc[t - 1] < pc[t]);
    }
}

/// The pivot of row `t` lies at least `s - t` columns left of the pivot of a later row `s`.
pub proof fn lemma_rref_pivot_upper(m: Seq<Seq<int>>, cols: int, pc: Seq<int>, t: int, s: int)
    requires
        is_rref(m, cols, pc),
        0 <= t <= s < pc.len(),
    ensures
        pc[t] + (s - t) <= pc[s],
    decreases s - t,
{
    if t < s {
        lemma_rref_pivot_upper(m, cols, pc, t + 1, s);
        assert(pc[t] < pc[t + 1]);
    }
}

/// Some pivot row from `i` on has its pivot in column `j`.
pub open spec fn pivot_from(pc: Seq<int>, i: int, j: int) -> bool {
    exists|t: int| i <= t < pc.len() && #[trigger] pc[t] == j
}

/// `x` is zero in every position that is not a pivot column.
pub open spec fn zero_off_pivots(x: Seq<int>, pc: Seq<int>) -> bool {
    forall|j: int| 0 <= j < x.len() && !pc.contains(j) ==> #[trigger] x[j] == 0
}

/// `x` is the solution of `m * x == b` in canonical residues that is zero off
/// the pivot columns of the reduced row echelon form of `[m | b]`: every free
/// unknown is zero.
pub open spec fn is_basic_solution(m: Seq<Seq<int>>, b: Seq<int>, x: Seq<int>, cols: nat, p: int) -> bool {
    &&& x.len() == cols
    &&& is_reduced(x, p)
    &&& solves(m, x, b, p)
    &&& exists|red: Seq<Seq<int>>, pc: Seq<int>|
        {
            &&& #[trigger] is_rref(red, cols as int + 1, pc)
            &&& is_table(red, m.len(), cols + 1)
            &&& same_kernel(augment(m, b), red, cols + 1, p)
            &&& zero_off_pivots(x, pc)
        }
}

/// The row in which column `j` has its pivot.
pub open spec fn pivot_row(pc: Seq<int>, j: int) -> int {
    choose|t: int| 0 <= t < pc.len() && pc[t] == j
}

/// A vector that a table in reduced row echelon form annihilates, and that
/// is zero behind the pivot of row `t`, is zero at that pivot.
pub proof fn lemma_pivot_forces_zero(red: Seq<Seq<int>>, w: int, pc: Seq<int>, t: int, y: Seq<int>, p: int)
    requires
        p > 0,
        is_rref(red, w, pc),
        0 <= t < pc.len(),
        red[t].len() == w,
        y.len() == w,
        forall|l: int| pc[t] < l < w ==> #[trigger] y[l] == 0,
        dot(red[t], y) % p == 0,
    ensures
        y[pc[t]] % p == 0,
{
    let c = pc[t];
    let f = |l: int| red[t][l] * y[l];
    assert forall|l: int| 0 <= l < w && l != c implies #[trigger] f(l) == 0 by {
        if l < c {
            assert(red[t][l] == 0);
            assert(0 * y[l] == 0);
        } else {
            assert(y[l] == 0);
            assert(red[t][l] * 0 == 0);
        }
    }
    lemma_sum_single(f, w, c);
    assert(f(c) == y[c]) by {
        assert(red[t][c] == 1);
        assert(1 * y[c] == y[c]);
    }
}

/// A column without a pivot is a combination of the pivot columns before
/// it: the table annihilates a vector that is `-1` in that column and zero
/// behind it.
pub proof fn lemma_free_column_kernel(red: Seq<Seq<int>>, w: int, pc: Seq<int>, j: int, p: int) -> (y: Seq<
    int,
>)
    requires
        p > 0,
        is_rref(red, w, pc),
        is_table(red, red.len(), w as nat),
        0 <= j < w,
        !pc.contains(j),
    ensures
        y.len() == w,
        y[j] == -1,
        forall|l: int| j < l < w ==> #[trigger] y[l] == 0,
        forall|l: int| 0 <= l < j && !pc.contains(l) ==> #[trigger] y[l] == 0,
        forall|t: int| 0 <= t < pc.len() && pc[t] < j ==> y[#[trigger] pc[t]] == red[t][j],
        annihilates(red, y, p),
{
    let y = Seq::new(
        w as nat,
        |l: int|
            if l == j {
                -1int
            } else if l < j && pc.contains(l) {
                red[pivot_row(pc, l)][j]
            } else {
                0int
            },
    );
    assert forall|t: int| 0 <= t < red.len() implies dot(#[trigger] red[t], y) % p == 0 by {
        if t >= pc.len() {
            assert forall|l: int| 0 <= l < red[t].len() implies #[trigger] red[t][l] == 0 by {}
            lemma_dot_zero_row(red[t], y);
        } else {
            let c = pc[t];
            assert(pc.contains(c));
            let f = |l: int| red[t][l] * y[l];
            let g1 = |l: int| if l == c { f(l) } else { 0int };
            let g2 = |l: int| if l == j { f(l) } else { 0int };
            assert forall|l: int| 0 <= l < w implies #[trigger] f(l) == 1 * g1(l) + 1 * g2(l) by {
                if l != c && l != j {
                    if pc.contains(l) {
                        let s = pivot_row(pc, l);
                        assert(pc[s] == l);
                        assert(s != t);
                        assert(red[t][pc[s]] == 0);
                        assert(0 * y[l] == 0);
                    } else {
                        assert(y[l] == 0);
                        assert(red[t][l] * 0 == 0);
                    }
                }
            }
            lemma_sum_linear(f, 1, g1, 1, g2, w);
            lemma_sum_single(g1, w, c);
            lemma_sum_single(g2, w, j);
            assert(red[t][c] == 1);
            if c < j {
                let s = pivot_row(pc, c);
                assert(pc[s] == c);
                assert(s == t) by {
                    if s < t {
                        assert(pc[s] < pc[t]);
                    }
                    if t < s {
                        assert(pc[t] < pc[s]);
                    }
                }
                assert(y[c] == red[t][j]);
                assert(f(c) == red[t][j]) by {
                    assert(1 * red[t][j] == red[t][j]);
                }
                assert(f(j) == -red[t][j]) by {
                    assert(red[t][j] * (-1) == -red[t][j]);
                }
            } else {
                assert(y[c] == 0);
                assert(red[t][j] == 0);
                assert(f(c) == 0) by {
                    assert(1 * 0 == 0);
                }
                assert(f(j) == 0) by {
                    assert(0 * y[j] == 0);
                }
            }
            assert(dot(red[t], y) == 0);
        }
        lemma_small_mod(0, p as nat);
    }
    assert forall|t: int| 0 <= t < pc.len() && pc[t] < j implies y[#[trigger] pc[t]] == red[t][j] by {
        let c = pc[t];
        assert(pc.contains(c));
        let s = pivot_row(pc, c);
        assert(pc[s] == c);
        if s < t {
            assert(pc[s] < pc[t]);
        }
        if t < s {
            assert(pc[t] < pc[s]);
        }
    }
    y
}

/// Increasing sequences of pivot columns that hold the same columns agree
/// in their first `t` entries.
proof fn lemma_pivots_agree(
    red1: Seq<Seq<int>>,
    pc1: Seq<int>,
    red2: Seq<Seq<int>>,
    pc2: Seq<int>,
    w: int,
    t: int,
)
    requires
        is_rref(red1, w, pc1),
        is_rref(red2, w, pc2),
        forall|j: int| 0 <= j < w ==> (pc1.contains(j) <==> pc2.contains(j)),
        0 <= t <= pc1.len(),
        t <= pc2.len(),
    ensures
        forall|s: int| 0 <= s < t ==> #[trigger] pc1[s] == pc2[s],
    decreases t,
{
    if t > 0 {
        lemma_pivots_agree(red1, pc1, red2, pc2, w, t - 1);
        let k = t - 1;
        assert(pc1.contains(pc1[k]));
        assert(pc2.contains(pc2[k]));
        let u = pivot_row(pc2, pc1[k]);
        let v = pivot_row(pc1, pc2[k]);
        assert(pc2[u] == pc1[k]);
        assert(pc1[v] == pc2[k]);
        if u < k {
            assert(pc1[u] == pc2[u]);
            assert(pc1[u] < pc1[k]);
        }
        if v < k {
            assert(pc1[v] == pc2[v]);
            assert(pc2[v] < pc2[k]);
        }
        if u > k {
            assert(pc2[k] < pc2[u]);
        }
        if v > k {
            assert(pc1[k] < pc1[v]);
        }
    }
}

/// The reduced row echelon form is unique: two tables of canonical
/// residues in that form with the kernel of one table are equal, and
/// have their pivots in the same columns.
pub proof fn lemma_rref_unique(
    a: Seq<Seq<int>>,
    red1: Seq<Seq<int>>,
    pc1: Seq<int>,
    red2: Seq<Seq<int>>,
    pc2: Seq<int>,
    rows: nat,
    w: int,
    p: int,
)
    requires
        p > 1,
        0 <= w,
        is_rref(red1, w, pc1),
        is_table(red1, rows, w as nat),
        is_canonical(red1, p),
        is_rref(red2, w, pc2),
        is_table(red2, rows, w as nat),
        is_canonical(red2, p),
        same_kernel(a, red1, w as nat, p),
        same_kernel(a, red2, w as nat, p),
    ensures
        pc1 == pc2,
        red1 == red2,
{
    assert forall|j: int| 0 <= j < w implies (pc1.contains(j) <==> pc2.contains(j)) by {
        if pc1.contains(j) {
            lemma_same_pivots(a, red1, pc1, red2, pc2, w, j, p);
        }
        if pc2.contains(j) {
            lemma_same_pivots(a, red2, pc2, red1, pc1, w, j, p);
        }
    }
    let n1 = pc1.len() as int;
    let n2 = pc2.len() as int;
    let n = if n1 <= n2 { n1 } else { n2 };
    lemma_pivots_agree(red1, pc1, red2, pc2, w, n);
    if n1 > n2 {
        assert(pc1.contains(pc1[n2]));
        let u = pivot_row(pc2, pc1[n2]);
        assert(pc2[u] == pc1[n2]);
        assert(pc1[u] == pc2[u]);
        assert(pc1[u] < pc1[n2]);
    }
    if n2 > n1 {
        assert(pc2.contains(pc2[n1]));
        let u = pivot_row(pc1, pc2[n1]);
        assert(pc1[u] == pc2[n1]);
        assert(pc1[u] == pc2[u]);
        assert(pc2[u] < pc2[n1]);
    }
    assert(pc1 =~= pc2);
    let pc = pc1;
    assert forall|t: int, j: int| 0 <= t < rows && 0 <= j < w implies #[trigger] red1[t][j] == red2[t][j] by {
        if t >= pc.len() {
            assert(red1[t][j] == 0);
            assert(red2[t][j] == 0);
        } else if pc.contains(j) {
            let s = pivot_row(pc, j);
            assert(pc[s] == j);
            if s == t {
                assert(red1[t][pc[t]] == 1);
                assert(red2[t][pc[t]] == 1);
            } else {
                assert(red1[t][pc[s]] == 0);
                assert(red2[t][pc[s]] == 0);
            }
        } else if j < pc[t] {
            assert(red1[t][j] == 0);
            assert(red2[t][j] == 0);
        } else {
            let c = pc[t];
            let y = lemma_free_column_kernel(red2, w, pc, j, p);
            assert(annihilates(a, y, p));
            assert(annihilates(red1, y, p));
            assert(dot(red1[t], y) % p == 0);
            let f = |l: int| red1[t][l] * y[l];
            let g1 = |l: int| if l == c { f(l) } else { 0int };
            let g2 = |l: int| if l == j { f(l) } else { 0int };
            assert forall|l: int| 0 <= l < w implies #[trigger] f(l) == 1 * g1(l) + 1 * g2(l) by {
                if l != c && l != j {
                    if pc.contains(l) {
                        let s = pivot_row(pc, l);
                        assert(pc[s] == l);
                        assert(s != t);
                        assert(red1[t][pc[s]] == 0);
                        assert(0 * y[l] == 0);
                    } else {
                        assert(y[l] == 0);
                        assert(red1[t][l] * 0 == 0);
                    }
                }
            }
            lemma_sum_linear(f, 1, g1, 1, g2, w);
            lemma_sum_single(g1, w, c);
            lemma_sum_single(g2, w, j);
            assert(y[pc[t]] == red2[t][j]);
            assert(f(c) == red2[t][j]) by {
                assert(red1[t][c] == 1);
                assert(1 * red2[t][j] == red2[t][j]);
            }
            assert(f(j) == -red1[t][j]) by {
                assert(red1[t][j] * (-1) == -red1[t][j]);
            }
            assert(dot(red1[t], y) == red2[t][j] - red1[t][j]);
            lemma_mod_equivalence(red2[t][j], red1[t][j], p);
            lemma_small_mod(red1[t][j] as nat, p as nat);
            lemma_small_mod(red2[t][j] as nat, p as nat);
        }
    }
    assert(red1 =~~= red2);
}

/// The pivot columns of a reduced row echelon form are fixed by the kernel:
/// two such forms of one table have their pivots in the same columns.
pub proof fn lemma_same_pivots(
    a: Seq<Seq<int>>,
    red1: Seq<Seq<int>>,
    pc1: Seq<int>,
    red2: Seq<Seq<int>>,
    pc2: Seq<int>,
    w: int,
    j: int,
    p: int,
)
    requires
        p > 1,
        0 <= j < w,
        is_rref(red1, w, pc1),
        is_table(red1, red1.len(), w as nat),
        is_rref(red2, w, pc2),
        is_table(red2, red2.len(), w as nat),
        same_kernel(a, red1, w as nat, p),
        same_kernel(a, red2, w as nat, p),
        pc1.contains(j),
    ensures
        pc2.contains(j),
{
    if !pc2.contains(j) {
        let y = lemma_free_column_kernel(red2, w, pc2, j, p);
        assert(annihilates(a, y, p));
        assert(annihilates(red1, y, p));
        let t = pivot_row(pc1, j);
        assert(pc1[t] == j);
        assert(dot(red1[t], y) % p == 0);
        lemma_pivot_forces_zero(red1, w, pc1, t, y, p);
        lemma_small_mod((p - 1) as nat, p as nat);
        lemma_mod_add_multiples_vanish(-1, p);
        assert(false);
    }
}

/// A system has at most one basic solution.
pub proof fn lemma_basic_solution_unique(
    m: Seq<Seq<int>>,
    b: Seq<int>,
    x1: Seq<int>,
    x2: Seq<int>,
    cols: nat,
    p: int,
)
    requires
        p > 1,
        is_table(m, m.len(), cols),
        b.len() == m.len(),
        is_basic_solution(m, b, x1, cols, p),
        is_basic_solution(m, b, x2, cols, p),
    ensures
        x1 == x2,
{
    let w = cols as int + 1;
    let aug = augment(m, b);
    let (red1, pc1) = choose|red: Seq<Seq<int>>, pc: Seq<int>|
        {
            &&& #[trigger] is_rref(red, cols as int + 1, pc)
            &&& is_table(red, m.len(), cols + 1)
            &&& same_kernel(augment(m, b), red, cols + 1, p)
            &&& zero_off_pivots(x1, pc)
        };
    let (red2, pc2) = choose|red: Seq<Seq<int>>, pc: Seq<int>|
        {
            &&& #[trigger] is_rref(red, cols as int + 1, pc)
            &&& is_table(red, m.len(), cols + 1)
            &&& same_kernel(augment(m, b), red, cols + 1, p)
            &&& zero_off_pivots(x2, pc)
        };
    let d = Seq::new(cols, |l: int| x1[l] - x2[l]);
    let y = d.push(0);
    // the difference of the solutions, with a zero appended, is annihilated
    assert forall|i: int| 0 <= i < aug.len() implies dot(#[trigger] aug[i], y) % p == 0 by {
        lemma_dot_push(m[i], b[i], d, 0);
        assert(aug[i] == m[i].push(b[i]));
        assert(b[i] * 0 == 0);
        let f = |l: int| m[i][l] * d[l];
        let f1 = |l: int| m[i][l] * x1[l];
        let f2 = |l: int| m[i][l] * x2[l];
        assert forall|l: int| 0 <= l < cols implies #[trigger] f(l) == 1 * f1(l) + (-1) * f2(l) by {
            lemma_mul_is_distributive_sub(m[i][l], x1[l], x2[l]);
        }
        lemma_sum_linear(f, 1, f1, -1, f2, cols as int);
        assert(dot(m[i], d) == dot(m[i], x1) - dot(m[i], x2));
        assert(dot(m[i], x1) % p == b[i] % p);
        assert(dot(m[i], x2) % p == b[i] % p);
        lemma_sub_mod_noop(dot(m[i], x1), dot(m[i], x2), p);
        lemma_small_mod(0, p as nat);
    }
    assert(annihilates(aug, y, p));
    assert(annihilates(red1, y, p));
    assert forall|j: int| 0 <= j < cols implies x1[j] == x2[j] by {
        if !pc1.contains(j) {
            if pc2.contains(j) {
                lemma_same_pivots(aug, red2, pc2, red1, pc1, w, j, p);
            }
            assert(x1[j] == 0);
            assert(x2[j] == 0);
        } else {
            let t = pivot_row(pc1, j);
            assert(pc1[t] == j);
            assert(dot(red1[t], y) % p == 0);
            let f = |l: int| red1[t][l] * y[l];
            assert forall|l: int| 0 <= l < w && l != j implies #[trigger] f(l) == 0 by {
                if l == cols {
                    assert(y[l] == 0);
                    assert(red1[t][l] * 0 == 0);
                } else if pc1.contains(l) {
                    let s = pivot_row(pc1, l);
                    assert(pc1[s] == l);
                    assert(s != t);
                    assert(red1[t][pc1[s]] == 0);
                    assert(0 * y[l] == 0);
                } else {
                    if pc2.contains(l) {
                        lemma_same_pivots(aug, red2, pc2, red1, pc1, w, l, p);
                    }
                    assert(x1[l] == 0);
                    assert(x2[l] == 0);
                    assert(y[l] == d[l]);
                    assert(red1[t][l] * 0 == 0);
                }
            }
            lemma_sum_single(f, w, j);
            assert(f(j) == d[j]) by {
                assert(red1[t][j] == 1);
                assert(y[j] == d[j]);
                assert(1 * d[j] == d[j]);
            }
            assert(dot(red1[t], y) == d[j]);
            assert((x1[j] - x2[j]) % p == 0);
            lemma_mod_equivalence(x1[j], x2[j], p);
            lemma_small_mod(x1[j] as nat, p as nat);
            lemma_small_mod(x2[j] as nat, p as nat);
        }
    }
    assert(x1 =~= x2);
}

/// The table `a` of dimension `n` with the identity appended on the right.
pub open spec fn augment_identity(a: Seq<Seq<int>>, n: nat) -> Seq<Seq<int>> {
    Seq::new(n, |i: int| Seq::new(2 * n, |j: int| if j < n { a[i][j] } else if j - n == i { 1int } else { 0int }))
}

/// A row of zeros has dot product zero with every vector.
pub proof fn lemma_dot_zero_row(a: Seq<int>, y: Seq<int>)
    requires
        forall|j: int| 0 <= j < a.len() ==> #[trigger] a[j] == 0,
    ensures
        dot(a, y) == 0,
{
    let f = |j: int| a[j] * y[j];
    assert forall|j: int| 0 <= j < a.len() implies #[trigger] f(j) == 0 by {
        assert(a[j] == 0);
        assert(0 * y[j] == 0);
    }
    lemma_sum_zero(f, a.len() as int);
}

/// A system whose reduced augmented table has a row `0 = v` with `v` nonzero has no solution.
pub proof fn lemma_inconsistent_row(
    a: Seq<Seq<int>>,
    b: Seq<int>,
    cols: nat,
    red: Seq<Seq<int>>,
    i: int,
    p: int,
)
    requires
        p > 1,
        is_table(a, a.len(), cols),
        b.len() == a.len(),
        same_kernel(augment(a, b), red, cols + 1, p),
        0 <= i < red.len(),
        red[i].len() == cols + 1,
        forall|j: int| 0 <= j < cols ==> #[trigger] red[i][j] == 0,
        red[i][cols as int] % p != 0,
    ensures
        forall|x: Seq<int>| x.len() == cols ==> !#[trigger] solves(a, x, b, p),
{
    assert forall|x: Seq<int>| x.len() == cols implies !#[trigger] solves(a, x, b, p) by {
        if solves(a, x, b, p) {
            let y = x.push(-1);
            lemma_augment_solves(a, b, cols, x, p);
            assert(annihilates(augment(a, b), y, p));
            assert(annihilates(red, y, p));
            assert(dot(red[i], y) % p == 0);
            let f = |j: int| red[i][j] * y[j];
            assert forall|j: int| 0 <= j < cols + 1 && j != cols implies #[trigger] f(j) == 0 by {
                assert(red[i][j] == 0);
                assert(0 * y[j] == 0);
            }
            lemma_sum_single(f, (cols + 1) as int, cols as int);
            let v = red[i][cols as int];
            assert(dot(red[i], y) == v * (-1));
            assert(v * (-1) == 0 - v);
            lemma_mod_equivalence(0, v, p);
            lemma_small_mod(0, p as nat);
            assert(false);
        }
    }
}

/// A table in reduced row echelon form whose entry `(n - 1, n - 1)` is
/// nonzero has the identity as its left block of dimension `n`.
pub proof fn lemma_rref_full_left(red: Seq<Seq<int>>, n: nat, cols: int, pc: Seq<int>)
    requires
        n > 0,
        n <= cols,
        red.len() == n,
        is_rref(red, cols, pc),
        red[n - 1][n - 1] != 0,
    ensures
        forall|i: int, j: int|
            0 <= i < n && 0 <= j < n ==> #[trigger] red[i][j] == (if i == j {
                1int
            } else {
                0int
            }),
{
    let last = n - 1;
    if pc.len() < n {
        assert(red[last][last] == 0);
    }
    assert(pc.len() == n);
    if last < pc[last] {
        assert(red[last][last] == 0);
    }
    lemma_rref_pivot_lower(red, cols, pc, last);
    assert(pc[last] == last);
    assert forall|t: int| 0 <= t < n implies #[trigger] pc[t] == t by {
        lemma_rref_pivot_lower(red, cols, pc, t);
        lemma_rref_pivot_upper(red, cols, pc, t, last);
    }
    assert forall|i: int, j: int| 0 <= i < n && 0 <= j < n implies #[trigger] red[i][j] == (if i
        == j {
        1int
    } else {
        0int
    }) by {
        assert(pc[j] == j);
        if i == j {
            assert(red[j][pc[j]] == 1);
        } else {
            assert(red[i][pc[j]] == 0);
        }
    }
}

/// Where `[a | 1]` reduces to `[1 | b]`, the table `b` is a right inverse of `a`.
pub proof fn lemma_inverse_from_rref(a: Seq<Seq<int>>, red: Seq<Seq<int>>, b: Seq<Seq<int>>, n: nat, p: int)
    requires
        p > 1,
        is_table(a, n, n),
        is_table(red, n, 2 * n),
        same_kernel(augment_identity(a, n), red, 2 * n, p),
        forall|i: int, j: int|
            0 <= i < n && 0 <= j < n ==> #[trigger] red[i][j] == (if i == j {
                1int
            } else {
                0int
            }),
        is_table(b, n, n),
        forall|i: int, j: int| 0 <= i < n && 0 <= j < n ==> #[trigger] b[i][j] == red[i][n + j],
    ensures
        mat_mul(a, b, n, p) == identity(n),
{
    let aug = augment_identity(a, n);
    let prod = mat_mul(a, b, n, p);
    assert forall|i: int, k: int| 0 <= i < n && 0 <= k < n implies #[trigger] prod[i][k] == identity(
        n,
    )[i][k] by {
        let y = Seq::new(
            2 * n,
            |j: int|
                if j < n {
                    b[j][k]
                } else if j - n == k {
                    -1int
                } else {
                    0int
                },
        );
        // the reduced table annihilates y
        assert forall|t: int| 0 <= t < red.len() implies dot(#[trigger] red[t], y) % p == 0 by {
            let f = |j: int| red[t][j] * y[j];
            let g = |j: int| f(n + j);
            lemma_sum_split(f, g, n as int, (2 * n) as int);
            assert forall|j: int| 0 <= j < n && j != t implies #[trigger] f(j) == 0 by {
                assert(red[t][j] == 0);
                assert(0 * y[j] == 0);
            }
            lemma_sum_single(f, n as int, t);
            assert(red[t][t] == 1);
            assert(f(t) == b[t][k]) by {
                assert(1 * y[t] == y[t]);
            }
            assert forall|j: int| 0 <= j < n && j != k implies #[trigger] g(j) == 0 by {
                assert(y[n + j] == 0);
                assert(red[t][n + j] * 0 == 0);
            }
            lemma_sum_single(g, n as int, k);
            assert(g(k) == -b[t][k]) by {
                assert(y[n + k] == -1);
                assert(b[t][k] == red[t][n + k]);
                assert(red[t][n + k] * (-1) == -red[t][n + k]);
            }
            assert(dot(red[t], y) == 0);
            lemma_small_mod(0, p as nat);
        }
        assert(annihilates(red, y, p));
        assert(annihilates(aug, y, p));
        assert(dot(aug[i], y) % p == 0);
        // row i of the augmented table gives the entry (i, k) of the product
        let f = |j: int| aug[i][j] * y[j];
        let g = |j: int| f(n + j);
        let h = |j: int| a[i][j] * b[j][k];
        lemma_sum_split(f, g, n as int, (2 * n) as int);
        lemma_sum_ext(f, h, n as int);
        assert forall|j: int| 0 <= j < n && j != i implies #[trigger] g(j) == 0 by {
            assert(aug[i][n + j] == 0);
            assert(0 * y[n + j] == 0);
        }
        lemma_sum_single(g, n as int, i);
        assert(g(i) == y[n + i]) by {
            assert(aug[i][n + i] == 1);
            assert(1 * y[n + i] == y[n + i]);
        }
        let delta = if i == k { 1int } else { 0int };
        assert(y[n + i] == -delta);
        assert(dot(aug[i], y) == sum(h, n as int) - delta);
        lemma_mod_equivalence(sum(h, n as int), delta, p);
        lemma_small_mod(delta as nat, p as nat);
        assert(prod[i][k] == sum(h, a[i].len() as int) % p);
    }
    assert(prod =~~= identity(n));
}

/// Where `[a | 1]` reduces to `[1 | b]`, the table `b` is a left inverse of `a` too.
pub proof fn lemma_left_inverse_from_rref(
    a: Seq<Seq<int>>,
    red: Seq<Seq<int>>,
    b: Seq<Seq<int>>,
    n: nat,
    p: int,
)
    requires
        p > 1,
        is_table(a, n, n),
        is_table(red, n, 2 * n),
        same_kernel(augment_identity(a, n), red, 2 * n, p),
        forall|i: int, j: int|
            0 <= i < n && 0 <= j < n ==> #[trigger] red[i][j] == (if i == j {
                1int
            } else {
                0int
            }),
        is_table(b, n, n),
        forall|i: int, j: int| 0 <= i < n && 0 <= j < n ==> #[trigger] b[i][j] == red[i][n + j],
    ensures
        mat_mul(b, a, n, p) == identity(n),
{
    let aug = augment_identity(a, n);
    let prod = mat_mul(b, a, n, p);
    assert forall|t: int, k: int| 0 <= t < n && 0 <= k < n implies #[trigger] prod[t][k] == identity(
        n,
    )[t][k] by {
        // the k-th unit vector, followed by the negative of column k of a
        let y = Seq::new(
            2 * n,
            |j: int|
                if j < n {
                    if j == k {
                        1int
                    } else {
                        0int
                    }
                } else {
                    -a[j - n][k]
                },
        );
        assert forall|i: int| 0 <= i < aug.len() implies dot(#[trigger] aug[i], y) % p == 0 by {
            let f = |j: int| aug[i][j] * y[j];
            let g = |j: int| f(n + j);
            lemma_sum_split(f, g, n as int, (2 * n) as int);
            assert forall|j: int| 0 <= j < n && j != k implies #[trigger] f(j) == 0 by {
                assert(y[j] == 0);
                assert(aug[i][j] * 0 == 0);
            }
            lemma_sum_single(f, n as int, k);
            assert(f(k) == a[i][k]) by {
                assert(y[k] == 1);
                assert(aug[i][k] == a[i][k]);
                assert(a[i][k] * 1 == a[i][k]);
            }
            assert forall|j: int| 0 <= j < n && j != i implies #[trigger] g(j) == 0 by {
                assert(aug[i][n + j] == 0);
                assert(0 * y[n + j] == 0);
            }
            lemma_sum_single(g, n as int, i);
            assert(g(i) == -a[i][k]) by {
                assert(aug[i][n + i] == 1);
                assert(y[n + i] == -a[i][k]);
                assert(1 * y[n + i] == y[n + i]);
            }
            assert(dot(aug[i], y) == 0);
            lemma_small_mod(0, p as nat);
        }
        assert(annihilates(aug, y, p));
        assert(annihilates(red, y, p));
        assert(dot(red[t], y) % p == 0);
        // row t of the reduced table gives the entry (t, k) of the product
        let f = |j: int| red[t][j] * y[j];
        let g = |j: int| f(n + j);
        let h = |j: int| b[t][j] * a[j][k];
        let hn = |j: int| -1 * h(j);
        lemma_sum_split(f, g, n as int, (2 * n) as int);
        assert forall|j: int| 0 <= j < n && j != k implies #[trigger] f(j) == 0 by {
            assert(y[j] == 0);
            assert(red[t][j] * 0 == 0);
        }
        lemma_sum_single(f, n as int, k);
        let delta = if t == k { 1int } else { 0int };
        assert(f(k) == delta) by {
            assert(y[k] == 1);
            assert(red[t][k] == delta);
            assert(delta * 1 == delta);
        }
        assert forall|j: int| 0 <= j < n implies #[trigger] g(j) == hn(j) by {
            assert(red[t][n + j] == b[t][j]);
            assert(y[n + j] == -a[j][k]);
            assert(b[t][j] * (-a[j][k]) == -1 * (b[t][j] * a[j][k])) by (nonlinear_arith);
        }
        lemma_sum_ext(g, hn, n as int);
        lemma_sum_scale(hn, -1, h, n as int);
        assert(dot(red[t], y) == delta - sum(h, n as int));
        lemma_mod_equivalence(delta, sum(h, n as int), p);
        lemma_small_mod(delta as nat, p as nat);
        assert(prod[t][k] == sum(h, b[t].len() as int) % p);
    }
    assert(prod =~~= identity(n));
}

/// Some entry of `x` is not zero modulo `p`.
pub open spec fn is_nonzero_vector(x: Seq<int>, p: int) -> bool {
    exists|j: int| 0 <= j < x.len() && #[trigger] x[j] % p != 0
}

/// The square table `a` is singular: it annihilates a vector that is not zero.
pub open spec fn is_singular(a: Seq<Seq<int>>, p: int) -> bool {
    exists|x: Seq<int>| x.len() == a.len() && is_nonzero_vector(x, p) && #[trigger] annihilates(a, x, p)
}

/// The first row from `t` on whose pivot is not on the diagonal, or the number of pivots.
pub open spec fn first_gap(pc: Seq<int>, t: int) -> int
    decreases pc.len() - t,
{
    if 0 <= t < pc.len() && pc[t] == t {
        first_gap(pc, t + 1)
    } else {
        t
    }
}

proof fn lemma_first_gap(pc: Seq<int>, t: int)
    requires
        0 <= t <= pc.len(),
    ensures
        t <= first_gap(pc, t) <= pc.len(),
        forall|s: int| t <= s < first_gap(pc, t) ==> #[trigger] pc[s] == s,
        first_gap(pc, t) < pc.len() ==> pc[first_gap(pc, t)] != first_gap(pc, t),
    decreases pc.len() - t,
{
    if t < pc.len() && pc[t] == t {
        lemma_first_gap(pc, t + 1);
    }
}

/// Where the reduced form of `[a | 1]` has not the identity on its left, `a`
/// annihilates a vector that is not zero.
pub proof fn lemma_singular_from_rref(a: Seq<Seq<int>>, red: Seq<Seq<int>>, n: nat, pc: Seq<int>, p: int)
    requires
        p > 1,
        n > 0,
        is_table(a, n, n),
        is_table(red, n, 2 * n),
        same_kernel(augment_identity(a, n), red, 2 * n, p),
        is_rref(red, (2 * n) as int, pc),
        red[n - 1][n - 1] != 1,
    ensures
        is_singular(a, p),
{
    let f = first_gap(pc, 0);
    lemma_first_gap(pc, 0);
    // the column f is on the left and has no pivot
    if f >= n {
        assert(pc[n - 1] == n - 1);
        assert(red[n - 1][pc[n - 1]] == 1);
    }
    assert(f < n);
    let x = Seq::new(
        n,
        |j: int|
            if j == f {
                1int
            } else if j < f {
                -red[j][f]
            } else {
                0int
            },
    );
    let y = Seq::new(2 * n, |j: int| if j < n { x[j] } else { 0int });
    assert forall|t: int| 0 <= t < red.len() implies dot(#[trigger] red[t], y) % p == 0 by {
        let g = |j: int| red[t][j] * y[j];
        if t < f {
            assert(pc[t] == t);
            let g0 = |j: int| if j == f { 0int } else { g(j) };
            assert forall|j: int| 0 <= j < 2 * n && j != t implies #[trigger] g0(j) == 0 by {
                if j < f {
                    assert(pc[j] == j);
                    assert(red[t][pc[j]] == 0);
                    assert(0 * y[j] == 0);
                } else if j > f {
                    assert(red[t][j] * 0 == 0);
                }
            }
            lemma_sum_single(g0, (2 * n) as int, t);
            lemma_sum_update(g0, g, (2 * n) as int, f);
            assert(red[t][pc[t]] == 1);
            assert(g(t) == -red[t][f]) by {
                assert(1 * y[t] == y[t]);
            }
            assert(g(f) == red[t][f]) by {
                assert(red[t][f] * 1 == red[t][f]);
            }
            assert(dot(red[t], y) == 0);
        } else {
            assert forall|j: int| 0 <= j < 2 * n implies #[trigger] g(j) == 0 by {
                if j <= f {
                    if t < pc.len() {
                        if f < pc.len() {
                            lemma_rref_pivot_upper(red, (2 * n) as int, pc, f, t);
                            lemma_rref_pivot_lower(red, (2 * n) as int, pc, f);
                        } else {
                            assert(false);
                        }
                        assert(j < pc[t]);
                        assert(red[t][j] == 0);
                    } else {
                        assert(red[t][j] == 0);
                    }
                    assert(0 * y[j] == 0);
                } else {
                    assert(red[t][j] * 0 == 0);
                }
            }
            lemma_sum_zero(g, (2 * n) as int);
        }
        lemma_small_mod(0, p as nat);
    }
    assert(annihilates(red, y, p));
    let aug = augment_identity(a, n);
    assert(annihilates(aug, y, p));
    assert forall|i: int| 0 <= i < a.len() implies dot(#[trigger] a[i], x) % p == 0 by {
        let g = |j: int| aug[i][j] * y[j];
        let h = |j: int| a[i][j] * x[j];
        assert forall|j: int| n <= j < 2 * n implies #[trigger] g(j) == 0 by {
            assert(aug[i][j] * 0 == 0);
        }
        lemma_sum_tail_zero(g, n as int, (2 * n) as int);
        lemma_sum_ext(g, h, n as int);
        assert(dot(aug[i], y) % p == 0);
    }
    lemma_small_mod(1, p as nat);
    assert(x[f] % p != 0);
    assert(is_nonzero_vector(x, p));
    assert(annihilates(a, x, p));
}

} // verus!
