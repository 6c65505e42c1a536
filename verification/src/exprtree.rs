//! Expressions over series, kept as trees until their value is asked for.

use crate::fixedseq::{FixedSeq, SeriesError};
use crate::mathtypes::{Field, Group};
use crate::modarith::units_upto;
use crate::powerseries::{
    s_derive, s_integrate, s_inverse, s_inverse_ok, s_ratpow_ok, s_sqrt, PowerSeries,
};
use crate::truncated::{
    is_divisor, is_substitutable, min_len, s_add, s_compose, s_div, s_hadamard, s_lshift, s_mul,
    s_neg, s_rshift, s_sub,
};
use vstd::prelude::*;

verus! {

/// An expression over series of `N` coefficients.
#[derive(Debug)]
pub enum SeqExprTree<T: Field, const N: usize> {
    Leaf(FixedSeq<T, N>),
    Add(Box<SeqExprTree<T, N>>, Box<SeqExprTree<T, N>>),
    Sub(Box<SeqExprTree<T, N>>, Box<SeqExprTree<T, N>>),
    Mul(Box<SeqExprTree<T, N>>, Box<SeqExprTree<T, N>>),
    Div(Box<SeqExprTree<T, N>>, Box<SeqExprTree<T, N>>),
    Compose(Box<SeqExprTree<T, N>>, Box<SeqExprTree<T, N>>),
    Hadamard(Box<SeqExprTree<T, N>>, Box<SeqExprTree<T, N>>),
    Neg(Box<SeqExprTree<T, N>>),
    LShift(Box<SeqExprTree<T, N>>),
    RShift(Box<SeqExprTree<T, N>>),
    Derive(Box<SeqExprTree<T, N>>),
    Integrate(Box<SeqExprTree<T, N>>),
    Inverse(Box<SeqExprTree<T, N>>),
    Sqrt(Box<SeqExprTree<T, N>>),
}

/// What an operation on two series gives, where both exist.
pub open spec fn both(
    a: Option<Seq<int>>,
    b: Option<Seq<int>>,
    allowed: spec_fn(Seq<int>, Seq<int>) -> bool,
    f: spec_fn(Seq<int>, Seq<int>) -> Seq<int>,
) -> Option<Seq<int>> {
    match (a, b) {
        (Some(x), Some(y)) => if allowed(x, y) {
            Some(f(x, y))
        } else {
            None
        },
        _ => None,
    }
}

/// What an operation on one series gives, where the series exists.
pub open spec fn only(
    a: Option<Seq<int>>,
    allowed: spec_fn(Seq<int>) -> bool,
    f: spec_fn(Seq<int>) -> Seq<int>,
) -> Option<Seq<int>> {
    match a {
        Some(x) => if allowed(x) {
            Some(f(x))
        } else {
            None
        },
        None => None,
    }
}

/// The series that the expression stands for, or `None` where one of its
/// operations is not possible.
pub open spec fn value_of<T: Field, const N: usize>(t: SeqExprTree<T, N>) -> Option<Seq<int>>
    decreases t,
{
    let p = T::modulus();
    match t {
        SeqExprTree::Leaf(x) => Some(x@),
        SeqExprTree::Add(a, b) => both(
            value_of(*a),
            value_of(*b),
            |x: Seq<int>, y: Seq<int>| true,
            |x: Seq<int>, y: Seq<int>| s_add(x, y, p),
        ),
        SeqExprTree::Sub(a, b) => both(
            value_of(*a),
            value_of(*b),
            |x: Seq<int>, y: Seq<int>| true,
            |x: Seq<int>, y: Seq<int>| s_sub(x, y, p),
        ),
        SeqExprTree::Mul(a, b) => both(
            value_of(*a),
            value_of(*b),
            |x: Seq<int>, y: Seq<int>| true,
            |x: Seq<int>, y: Seq<int>| s_mul(x, y, p),
        ),
        SeqExprTree::Div(a, b) => both(
            value_of(*a),
            value_of(*b),
            |x: Seq<int>, y: Seq<int>| is_divisor(y, p),
            |x: Seq<int>, y: Seq<int>| s_div(x, y, p),
        ),
        SeqExprTree::Compose(a, b) => both(
            value_of(*a),
            value_of(*b),
            |x: Seq<int>, y: Seq<int>| is_substitutable(y),
            |x: Seq<int>, y: Seq<int>| s_compose(x, y, p),
        ),
        SeqExprTree::Hadamard(a, b) => both(
            value_of(*a),
            value_of(*b),
            |x: Seq<int>, y: Seq<int>| true,
            |x: Seq<int>, y: Seq<int>| s_hadamard(x, y, p),
        ),
        SeqExprTree::Neg(a) => only(value_of(*a), |x: Seq<int>| true, |x: Seq<int>| s_neg(x, p)),
        SeqExprTree::LShift(a) => only(value_of(*a), |x: Seq<int>| true, |x: Seq<int>| s_lshift(x)),
        SeqExprTree::RShift(a) => only(
            value_of(*a),
            |x: Seq<int>| true,
            |x: Seq<int>| s_rshift(x, N as nat),
        ),
        SeqExprTree::Derive(a) => only(value_of(*a), |x: Seq<int>| true, |x: Seq<int>| s_derive(x, p)),
        SeqExprTree::Integrate(a) => only(
            value_of(*a),
            |x: Seq<int>| units_upto(min_len(N as nat, x.len() + 1) as int, p),
            |x: Seq<int>| s_integrate(x, N as nat, p),
        ),
        SeqExprTree::Inverse(a) => only(
            value_of(*a),
            |x: Seq<int>| s_inverse_ok(x, N as nat, p),
            |x: Seq<int>| s_inverse(x, N as nat, p),
        ),
        SeqExprTree::Sqrt(a) => only(
            value_of(*a),
            |x: Seq<int>| s_ratpow_ok(x, 1, 2, p),
            |x: Seq<int>| s_sqrt(x, p),
        ),
    }
}

/// The result of an operation, with the one error of an expression.
fn checked<T: Field, const N: usize>(r: Result<FixedSeq<T, N>, SeriesError>) -> (c: Result<
    FixedSeq<T, N>,
    SeriesError,
>)
    ensures
        r is Ok ==> c == r,
        r is Err ==> c == Err::<FixedSeq<T, N>, SeriesError>(SeriesError::InvalidOperand),
{
    match r {
        Ok(v) => Ok(v),
        Err(_) => Err(SeriesError::InvalidOperand),
    }
}

impl<T: Field, const N: usize> SeqExprTree<T, N> {
    /// The expression that is the series `x`.
    pub fn leaf(x: FixedSeq<T, N>) -> (t: Self)
        ensures
            value_of(t) == Some(x@),
    {
        SeqExprTree::Leaf(x)
    }

    /// The series that the expression stands for.
    ///
    /// Fails with `InvalidOperand` where one of its operations is not
    /// possible: a division by a series without an invertible constant term,
    /// a substitution of a series with a constant term, an integral, an
    /// inverse or a square root that does not exist.
    pub fn eval(&self) -> (r: Result<FixedSeq<T, N>, SeriesError>)
        ensures
            match value_of(*self) {
                Some(v) => r is Ok && r->Ok_0@ == v,
                None => r == Err::<FixedSeq<T, N>, SeriesError>(SeriesError::InvalidOperand),
            },
        decreases self,
    {
        match self {
            SeqExprTree::Leaf(x) => Ok(*x),
            SeqExprTree::Add(a, b) => {
                let x = a.eval()?;
                let y = b.eval()?;
                Ok(x.add(&y))
            },
            SeqExprTree::Sub(a, b) => {
                let x = a.eval()?;
                let y = b.eval()?;
                Ok(x.sub(&y))
            },
            SeqExprTree::Mul(a, b) => {
                let x = a.eval()?;
                let y = b.eval()?;
                Ok(x.mul(&y))
            },
            SeqExprTree::Div(a, b) => {
                let x = a.eval()?;
                let y = b.eval()?;
                checked(x.div(&y))
            },
            SeqExprTree::Compose(a, b) => {
                let x = a.eval()?;
                let y = b.eval()?;
                checked(x.compose(&y))
            },
            SeqExprTree::Hadamard(a, b) => {
                let x = a.eval()?;
                let y = b.eval()?;
                Ok(x.hadamard(&y))
            },
            SeqExprTree::Neg(a) => {
                let x = a.eval()?;
                Ok(x.neg())
            },
            SeqExprTree::LShift(a) => {
                let x = a.eval()?;
                Ok(x.lshift())
            },
            SeqExprTree::RShift(a) => {
                let x = a.eval()?;
                Ok(x.rshift())
            },
            SeqExprTree::Derive(a) => {
                let x = a.eval()?;
                Ok(x.derive())
            },
            SeqExprTree::Integrate(a) => {
                let x = a.eval()?;
                checked(x.integrate())
            },
            SeqExprTree::Inverse(a) => {
                let x = a.eval()?;
                checked(x.inverse())
            },
            SeqExprTree::Sqrt(a) => {
                let x = a.eval()?;
                checked(x.sqrt())
            },
        }
    }
}

} // verus!
