//! Exact arithmetic of truncated power series over prime fields, and the
//! recognition of recurrences in integer sequences.
//!
//! * [`coeff`]: the fields of integers modulo 65521, 2^31 - 1 and 2^61 - 1;
//! * [`mersenne`]: the proof that the integers modulo 2^61 - 1 form a field;
//! * [`modulo`]: integers modulo a modulus that is a parameter of the type;
//! * [`matrix`]: dense matrices with Gaussian elimination;
//! * [`fixedseq`] and [`powerseries`]: series of a fixed number of
//!   coefficients and the transforms of them;
//! * [`exprtree`]: expressions over series, evaluated when asked for;
//! * [`genseqs`]: sequences given by a rule for their terms;
//! * [`interpolate`]: linear recurrences with constant and with polynomial
//!   coefficients;
//! * [`seqdb`] and [`search`]: the store of reference sequences and the
//!   operations that a search for relations tries;
//! * [`lexer`], [`parser`] and [`parse`]: reading expressions, numbers and series;
//! * [`laws`]: the algebraic laws that hold of all of these.
//!
//! The contracts are stated over the mathematical notions of [`modarith`],
//! [`sums`], [`linalg`] and [`truncated`].

pub mod coeff;
pub mod exprtree;
pub mod fixedseq;
pub mod genseqs;
pub mod interpolate;
pub mod laws;
pub mod lexer;
pub mod linalg;
pub mod mathtypes;
pub mod matrix;
pub mod mersenne;
pub mod modarith;
pub mod modulo;
pub mod parse;
pub mod parser;
pub mod powerseries;
pub mod search;
pub mod seqdb;
pub mod sums;
pub mod truncated;

pub use coeff::{MersP31, MersP61, ModIntP32};
pub use fixedseq::{FixedSeq, SeriesError, ShortSeq};
pub use mathtypes::{Field, Group, One, Ring, Zero};
pub use matrix::Matrix;
pub use modulo::ModInt;
pub use powerseries::PowerSeries;
