//! The operations that the search for relations between sequences tries, by number.

use crate::coeff::{MersP31, MersP61};
use crate::fixedseq::{FixedSeq, ShortSeq};
use crate::mathtypes::{Field, Group, One, Ring, Zero};
use crate::modarith::{units_upto};
use crate::sums::sum;
use crate::powerseries::{
    s_binomial, s_binomial_inv, s_bous, s_bous_inv, s_delta, s_derive, s_euler, s_euler_inv, s_exp,
    s_exp_mul, s_dirichlet, s_integrate, s_lah, s_lah_inv, s_laplace, s_laplace_inv, s_log,
    s_mobius, s_mobius_inv, s_partial_products, s_partial_sums, s_point, s_pow, s_ratpow,
    s_ratpow_ok, s_stirling, s_stirling_inv, s_t019, PowerSeries,
};
use crate::truncated::{
    is_divisor, is_substitutable, min_len, s_add, s_add_const, s_compose, s_div, s_hadamard,
    s_lshift, s_mul, s_neg, s_rshift, s_sub,
};
use vstd::arithmetic::div_mod::*;
use vstd::arithmetic::power2::{lemma2_to64, lemma2_to64_rest, lemma_pow2_unfold, pow2};
use vstd::prelude::*;

verus! {

/// The number of ways in which two series are combined.
pub const BINOP_NUM: usize = 10;

/// The number of transforms of one series.
pub const UNOP_NUM: usize = 30;

/// The number of adjustments of a series before and after the other operations.
pub const PREOP_NUM: usize = 8;

/// What the adjustment number `i` makes of `a`.
pub open spec fn s_preop(a: Seq<int>, i: int, cap: nat, p: int) -> Seq<int> {
    if i == 0 {
        a
    } else if i == 1 {
        s_lshift(a)
    } else if i == 2 {
        s_lshift(s_lshift(a))
    } else if i == 3 {
        s_rshift(a, cap)
    } else if i == 4 {
        s_rshift(s_rshift(a, cap), cap)
    } else if i == 5 {
        s_rshift(s_lshift(a), cap)
    } else if i == 6 {
        s_add_const(a, 1, p)
    } else {
        s_add_const(a, -1, p)
    }
}

/// What the transform number `i` makes of `a`, where it applies.
pub open spec fn s_unop(a: Seq<int>, i: int, cap: nat, p: int) -> Option<Seq<int>> {
    let all = units_upto(a.len() as int, p);
    if i == 0 {
        Some(a)
    } else if i == 1 {
        Some(s_neg(a, p))
    } else if i == 2 {
        Some(s_derive(a, p))
    } else if i == 3 {
        if units_upto(min_len(cap, a.len() + 1) as int, p) {
            Some(s_integrate(a, cap, p))
        } else {
            None
        }
    } else if i == 4 {
        Some(s_point(a, p))
    } else if i == 5 {
        if is_divisor(a, p) {
            Some(s_div(s_derive(a, p), a, p))
        } else {
            None
        }
    } else if i == 6 {
        Some(s_partial_sums(a, p))
    } else if i == 7 {
        Some(s_partial_products(a, p))
    } else if i == 8 {
        Some(s_delta(a, p))
    } else if i == 9 {
        Some(s_binomial(a, p))
    } else if i == 10 {
        Some(s_binomial_inv(a, p))
    } else if i == 11 {
        Some(s_t019(a, p))
    } else if i == 12 {
        if is_substitutable(a) && all {
            Some(s_exp(a, p))
        } else {
            None
        }
    } else if i == 13 {
        if is_substitutable(a) && all {
            Some(s_log(a, p))
        } else {
            None
        }
    } else if i == 14 {
        Some(s_laplace(a, p))
    } else if i == 15 {
        if all {
            Some(s_laplace_inv(a, p))
        } else {
            None
        }
    } else if i == 16 {
        if all {
            Some(s_bous(a, p))
        } else {
            None
        }
    } else if i == 17 {
        if all {
            Some(s_bous_inv(a, p))
        } else {
            None
        }
    } else if i == 18 {
        Some(s_mobius(a, p))
    } else if i == 19 {
        Some(s_mobius_inv(a, p))
    } else if i == 20 {
        Some(s_stirling(a, p))
    } else if i == 21 {
        Some(s_stirling_inv(a, p))
    } else if i == 22 {
        if all {
            Some(s_euler(a, p))
        } else {
            None
        }
    } else if i == 23 {
        if all {
            Some(s_euler_inv(a, p))
        } else {
            None
        }
    } else if i == 24 {
        if all {
            Some(s_lah(a, p))
        } else {
            None
        }
    } else if i == 25 {
        if all {
            Some(s_lah_inv(a, p))
        } else {
            None
        }
    } else if i == 26 {
        if s_ratpow_ok(a, 1, 2, p) {
            Some(s_ratpow(a, 1, 2, p))
        } else {
            None
        }
    } else if i == 27 {
        if s_ratpow_ok(a, 1, 3, p) {
            Some(s_ratpow(a, 1, 3, p))
        } else {
            None
        }
    } else if i == 28 {
        Some(s_pow(a, 2, p))
    } else {
        Some(s_pow(a, 3, p))
    }
}

/// What the transform number `i` costs in the score of a match.
pub open spec fn unop_cost(i: int) -> int {
    if i == 0 {
        0
    } else if i == 1 {
        50
    } else if 2 <= i <= 5 || i == 9 || i == 10 || i == 12 || i == 13 || i == 28 {
        100
    } else if i == 8 || (20 <= i <= 23) || i == 26 || i == 29 {
        150
    } else {
        200
    }
}

/// What the combination number `i` makes of `a` and `b`, where it applies.
pub open spec fn s_binop(a: Seq<int>, b: Seq<int>, i: int, p: int) -> Option<Seq<int>> {
    if i == 0 {
        Some(s_add(a, b, p))
    } else if i == 1 {
        Some(s_sub(a, b, p))
    } else if i == 2 {
        Some(s_mul(a, b, p))
    } else if i == 3 {
        if is_divisor(b, p) {
            Some(s_div(a, b, p))
        } else {
            None
        }
    } else if i == 4 {
        if is_divisor(a, p) {
            Some(s_div(b, a, p))
        } else {
            None
        }
    } else if i == 5 {
        if is_substitutable(b) {
            Some(s_compose(a, b, p))
        } else {
            None
        }
    } else if i == 6 {
        if is_substitutable(a) {
            Some(s_compose(b, a, p))
        } else {
            None
        }
    } else if i == 7 {
        Some(s_hadamard(a, b, p))
    } else if i == 8 {
        if units_upto(a.len() as int, p) && units_upto(b.len() as int, p) {
            Some(s_exp_mul(a, b, p))
        } else {
            None
        }
    } else {
        Some(s_dirichlet(a, b, p))
    }
}

/// What the combination number `i` costs in the score of a match.
pub open spec fn binop_cost(i: int) -> int {
    if i <= 2 {
        100
    } else if i <= 4 {
        150
    } else {
        200
    }
}

/// A result that may have failed, as an option.
fn known<T: Field, const N: usize>(r: Result<FixedSeq<T, N>, crate::fixedseq::SeriesError>) -> (o:
    Option<FixedSeq<T, N>>)
    ensures
        o is Some <==> r is Ok,
        o is Some ==> o->0 == r->Ok_0,
{
    match r {
        Ok(v) => Some(v),
        Err(_) => None,
    }
}

/// The adjustment number `i` of `a`.
pub fn ps_preop<T: Field, const N: usize>(a: FixedSeq<T, N>, i: usize) -> (r: FixedSeq<T, N>)
    requires
        i < PREOP_NUM,
    ensures
        r@ == s_preop(a@, i as int, N as nat, T::modulus()),
{
    if i == 0 {
        a
    } else if i == 1 {
        a.lshift()
    } else if i == 2 {
        a.lshift().lshift()
    } else if i == 3 {
        a.rshift()
    } else if i == 4 {
        a.rshift().rshift()
    } else if i == 5 {
        a.lshift().rshift()
    } else {
        let mut res = a;
        if res.accuracy() > 0 {
            let c = if i == 6 {
                res.coefficient(0).add(T::one())
            } else {
                res.coefficient(0).sub(T::one())
            };
            res.set_coefficient(0, c);
        }
        assert(res@ =~= s_preop(a@, i as int, N as nat, T::modulus()));
        res
    }
}

/// The transform number `i` of `a`, where it applies, and its cost.
pub fn ps_unop<T: Field, const N: usize>(a: FixedSeq<T, N>, i: usize) -> (r: (
    Option<FixedSeq<T, N>>,
    i32,
))
    requires
        i < UNOP_NUM,
    ensures
        r.1 == unop_cost(i as int),
        match s_unop(a@, i as int, N as nat, T::modulus()) {
            Some(v) => r.0 is Some && r.0->0@ == v,
            None => r.0 is None,
        },
{
    if i == 0 {
        (Some(a), 0)
    } else if i == 1 {
        (Some(a.neg()), 50)
    } else if i == 2 {
        (Some(a.derive()), 100)
    } else if i == 3 {
        (known(a.integrate()), 100)
    } else if i == 4 {
        (Some(a.point()), 100)
    } else if i == 5 {
        (known(a.log_derive()), 100)
    } else if i == 6 {
        (Some(a.partial_sums()), 200)
    } else if i == 7 {
        (Some(a.partial_products()), 200)
    } else if i == 8 {
        (Some(a.delta()), 150)
    } else if i == 9 {
        (Some(a.binomial()), 100)
    } else if i == 10 {
        (Some(a.binomial_inv()), 100)
    } else if i == 11 {
        (Some(a.t019()), 200)
    } else if i == 12 {
        (known(a.exp()), 100)
    } else if i == 13 {
        (known(a.log()), 100)
    } else if i == 14 {
        (Some(a.laplace()), 200)
    } else if i == 15 {
        (known(a.laplace_inv()), 200)
    } else if i == 16 {
        (known(a.bous()), 200)
    } else if i == 17 {
        (known(a.bous_inv()), 200)
    } else if i == 18 {
        (Some(a.mobius()), 200)
    } else if i == 19 {
        (Some(a.mobius_inv()), 200)
    } else if i == 20 {
        (Some(a.stirling()), 150)
    } else if i == 21 {
        (Some(a.stirling_inv()), 150)
    } else if i == 22 {
        (known(a.euler()), 150)
    } else if i == 23 {
        (known(a.euler_inv()), 150)
    } else if i == 24 {
        (known(a.lah()), 200)
    } else if i == 25 {
        (known(a.lah_inv()), 200)
    } else if i == 26 {
        (known(a.sqrt()), 150)
    } else if i == 27 {
        (known(a.ratpow(1, 3)), 200)
    } else if i == 28 {
        (Some(a.pow_nat(2)), 100)
    } else {
        (Some(a.pow_nat(3)), 150)
    }
}

/// The combination number `i` of `a` and `b`, where it applies, and its cost.
pub fn ps_binop<T: Field, const N: usize>(a: FixedSeq<T, N>, b: &FixedSeq<T, N>, i: usize) -> (r: (
    Option<FixedSeq<T, N>>,
    i32,
))
    requires
        i < BINOP_NUM,
    ensures
        r.1 == binop_cost(i as int),
        match s_binop(a@, b@, i as int, T::modulus()) {
            Some(v) => r.0 is Some && r.0->0@ == v,
            None => r.0 is None,
        },
{
    if i == 0 {
        (Some(a.add(b)), 100)
    } else if i == 1 {
        (Some(a.sub(b)), 100)
    } else if i == 2 {
        (Some(a.mul(b)), 100)
    } else if i == 3 {
        (known(a.div(b)), 150)
    } else if i == 4 {
        (known(b.div(&a)), 150)
    } else if i == 5 {
        (known(a.compose(b)), 200)
    } else if i == 6 {
        (known(b.compose(&a)), 200)
    } else if i == 7 {
        (Some(a.hadamard(b)), 200)
    } else if i == 8 {
        (known(a.exp_mul(b)), 200)
    } else {
        (Some(a.dirichlet(b)), 200)
    }
}

/// The integer of least absolute value in the class of the canonical
/// residue `v` modulo the odd number `p`.
pub open spec fn centered(v: int, p: int) -> int {
    if 2 * v > p {
        v - p
    } else {
        v
    }
}

/// The integer of least absolute value that `x` stands for.
pub fn signed(x: MersP61) -> (r: i64)
    ensures
        r as int == centered(x.value(), MersP61::modulus()),
{
    let v: u64 = x.residue();
    if v > 1152921504606846975 {
        let d: u64 = 2305843009213693951 - v;
        -(d as i64)
    } else {
        v as i64
    }
}

/// The first sixteen coefficients of `s`, each taken as the integer of
/// least absolute value that it stands for, modulo 2^31 - 1.
pub fn shorten<const N: usize>(s: &FixedSeq<MersP61, N>) -> (r: ShortSeq<MersP31>)
    ensures
        r@ == Seq::new(
            min_len(s@.len(), 16),
            |i: int| centered(s@[i], MersP61::modulus()) % MersP31::modulus(),
        ),
{
    let ghost p = MersP31::modulus();
    let ghost q = MersP61::modulus();
    let acc: usize = s.accuracy();
    let n: usize = if acc < 16 { acc } else { 16 };
    let mut items: Vec<MersP31> = Vec::new();
    let mut i: usize = 0;
    while i < n
        invariant
            i <= n,
            n <= s@.len(),
            n == min_len(s@.len(), 16),
            p == MersP31::modulus(),
            q == MersP61::modulus(),
            items@.len() == i,
            forall|t: int| 0 <= t < i ==> (#[trigger] items@[t]).value() == centered(s@[t], q) % p,
        decreases n - i,
    {
        let c = s.coefficient(i);
        let v: i64 = signed(c);
        proof {
            c.lemma_value_range();
        }
        let item = if v < 0 {
            let a: u64 = (-v) as u64;
            let m = MersP31::from_u32((a % 2147483647) as u32);
            proof {
                lemma_mod_twice(a as int, p);
                lemma_sub_mod_noop_right(0, a as int, p);
            }
            m.neg()
        } else {
            let a: u64 = v as u64;
            proof {
                lemma_mod_twice(a as int, p);
            }
            MersP31::from_u32((a % 2147483647) as u32)
        };
        items.push(item);
        i += 1;
    }
    let r = ShortSeq::<MersP31>::from_series(items.as_slice());
    assert(r@ =~= Seq::new(min_len(s@.len(), 16), |i: int| centered(s@[i], q) % p));
    r
}

/// What a relation makes of `inp`: an adjustment, a transform, a
/// combination with `other` where there is one, and an adjustment again.
/// Nothing where the transform or the combination is not possible.
pub open spec fn s_relation(
    inp: Seq<int>,
    pre_op: int,
    post_op: int,
    u_op: int,
    other: Option<Seq<int>>,
    b_op: int,
    cap: nat,
    p: int,
) -> Option<Seq<int>> {
    match s_unop(s_preop(inp, pre_op, cap, p), u_op, cap, p) {
        None => None,
        Some(u) => match other {
            None => Some(s_preop(u, post_op, cap, p)),
            Some(o) => match s_binop(u, o, b_op, p) {
                None => None,
                Some(w) => Some(s_preop(w, post_op, cap, p)),
            },
        },
    }
}

/// What the relation with the operations of the given numbers makes of
/// `inp`, with `other` as the second series where there is one.
pub fn calculate_long<T: Field, const N: usize>(
    inp: &FixedSeq<T, N>,
    pre_op: usize,
    post_op: usize,
    u_op: usize,
    other: Option<&FixedSeq<T, N>>,
    b_op: usize,
) -> (r: Option<FixedSeq<T, N>>)
    requires
        pre_op < PREOP_NUM,
        post_op < PREOP_NUM,
        u_op < UNOP_NUM,
        other is Some ==> b_op < BINOP_NUM,
    ensures
        match s_relation(
            inp@,
            pre_op as int,
            post_op as int,
            u_op as int,
            match other {
                Some(o) => Some(o@),
                None => None,
            },
            b_op as int,
            N as nat,
            T::modulus(),
        ) {
            Some(v) => r is Some && r->0@ == v,
            None => r is None,
        },
{
    let first = ps_preop(*inp, pre_op);
    let second = match ps_unop(first, u_op).0 {
        Some(v) => v,
        None => {
            return None;
        },
    };
    let third = match other {
        None => second,
        Some(o) => match ps_binop(second, o, b_op).0 {
            Some(v) => v,
            None => {
                return None;
            },
        },
    };
    Some(ps_preop(third, post_op))
}

/// What a coefficient adds to the score of a match: ten times its absolute
/// value, and a hundred at most.
pub open spec fn term_weight(v: int) -> int {
    let a = if v < 0 { -v } else { v };
    if a < 10 {
        10 * a
    } else {
        100
    }
}

/// The sum of the weights of the coefficients of `a` before `n`, each taken
/// as the integer of least absolute value modulo `p`.
pub open spec fn base_score(a: Seq<int>, n: int, p: int) -> int {
    sum(|i: int| term_weight(centered(a[i], p)), n)
}

/// The number of times that `n` can be halved before it is one or less.
pub open spec fn log2_floor(n: nat) -> nat
    decreases n,
{
    if n <= 1 {
        0
    } else {
        1 + log2_floor(n / 2)
    }
}

/// A number below `2^k` can be halved at most `k` times.
proof fn lemma_log2_bound(n: nat, k: nat)
    requires
        n < pow2(k),
    ensures
        log2_floor(n) <= k,
    decreases k,
{
    if n > 1 {
        if k == 0 {
            lemma2_to64();
        } else {
            lemma_pow2_unfold(k);
            lemma_log2_bound(n / 2, (k - 1) as nat);
        }
    }
}

/// The score of a match: the weights of the coefficients of the series
/// found, less the costs of the operations, less 33 for every doubling of
/// the size of the catalogue, less 800 where the series found is the one
/// that was combined with.
pub fn match_score<const N: usize>(
    found: &FixedSeq<MersP61, N>,
    pre_cost: i32,
    b_cost: i32,
    db_len: usize,
    duplicate: bool,
) -> (r: i64)
    requires
        db_len > 0,
        N <= 0x1000_0000,
    ensures
        r == base_score(found@, found@.len() as int, MersP61::modulus()) - pre_cost - b_cost - 33
            * log2_floor(db_len as nat) - (if duplicate {
            800int
        } else {
            0int
        }),
{
    let ghost p = MersP61::modulus();
    let ghost f = |i: int| term_weight(centered(found@[i], p));
    let n: usize = found.accuracy();
    let mut base: i64 = 0;
    let mut i: usize = 0;
    while i < n
        invariant
            i <= n,
            n == found@.len(),
            n <= N,
            N <= 0x1000_0000,
            p == MersP61::modulus(),
            f == |i: int| term_weight(centered(found@[i], p)),
            base == sum(f, i as int),
            0 <= base <= 100 * i,
        decreases n - i,
    {
        let c = found.coefficient(i);
        let v: i64 = signed(c);
        proof {
            c.lemma_value_range();
        }
        let a: i64 = if v < 0 { -v } else { v };
        let w: i64 = if a < 10 { 10 * a } else { 100 };
        proof {
            assert(w == f(i as int));
        }
        base = base + w;
        i += 1;
    }
    let mut halvings: i64 = 0;
    let mut m: usize = db_len;
    proof {
        lemma2_to64();
        lemma2_to64_rest();
        lemma_log2_bound(db_len as nat, 64);
    }
    while m > 1
        invariant
            0 <= halvings,
            halvings + log2_floor(m as nat) == log2_floor(db_len as nat),
            log2_floor(db_len as nat) <= 64,
        decreases m,
    {
        m = m / 2;
        halvings = halvings + 1;
    }
    let penalty: i64 = if duplicate { 800 } else { 0 };
    base - (pre_cost as i64) - (b_cost as i64) - 33 * halvings - penalty
}

} // verus!
