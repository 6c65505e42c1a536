//! Reading field elements and series from decimal text.

use crate::coeff::{MersP31, MersP61, ModIntP32};
use crate::fixedseq::{FixedSeq, SeriesError};
use crate::mathtypes::{values, Field, Group, One, Ring, Zero};
use crate::matrix::Matrix;
use crate::modarith::{lemma_mod_operands};
use crate::powerseries::PowerSeries;
use vstd::arithmetic::div_mod::*;
use vstd::prelude::*;
use vstd::string::StringSliceAdditionalSpecFns;

verus! {

/// `b` is a decimal digit.
pub open spec fn is_digit(b: u8) -> bool {
    48 <= b <= 57
}

/// `b` is a blank: a space, a tabulator or a line break.
pub open spec fn is_space(b: u8) -> bool {
    b == 32 || (9 <= b <= 13)
}

/// Every byte of `s` is a decimal digit.
pub open spec fn all_digits(s: Seq<u8>) -> bool {
    forall|i: int| 0 <= i < s.len() ==> is_digit(#[trigger] s[i])
}

/// The integer that the decimal digits `digits` denote.
pub open spec fn decimal_int(digits: Seq<u8>) -> int
    decreases digits.len(),
{
    if digits.len() == 0 {
        0
    } else {
        decimal_int(digits.drop_last()) * 10 + (digits.last() - 48)
    }
}

/// The residue that `text` denotes: an optional minus sign and a run of
/// decimal digits. The empty text and text with any other byte denote nothing.
pub open spec fn parse_spec(text: Seq<u8>, p: int) -> Option<int> {
    if text.len() == 0 {
        None
    } else if text[0] == 45 {
        if all_digits(text.skip(1)) {
            Some((-decimal_int(text.skip(1))) % p)
        } else {
            None
        }
    } else if all_digits(text) {
        Some(decimal_int(text) % p)
    } else {
        None
    }
}

/// The position of the first comma of `text` from `start` on, or the length
/// of `text` where there is none.
pub open spec fn next_comma(text: Seq<u8>, start: int) -> int
    decreases text.len() - start,
{
    if start >= text.len() {
        text.len() as int
    } else if text[start] == 44 {
        start
    } else {
        next_comma(text, start + 1)
    }
}

/// The position of the first byte in `a..b` that is not a blank, or `b`.
pub open spec fn skip_spaces(text: Seq<u8>, a: int, b: int) -> int
    decreases b - a,
{
    if a >= b || !is_space(text[a]) {
        a
    } else {
        skip_spaces(text, a + 1, b)
    }
}

/// The position behind the last byte in `a..b` that is not a blank, or `a`.
pub open spec fn drop_spaces(text: Seq<u8>, a: int, b: int) -> int
    decreases b - a,
{
    if b <= a || !is_space(text[b - 1]) {
        b
    } else {
        drop_spaces(text, a, b - 1)
    }
}

/// The residue that the field `a..b` of `text` denotes, blanks around it aside.
pub open spec fn field_value(text: Seq<u8>, a: int, b: int, p: int) -> Option<int> {
    let lo = skip_spaces(text, a, b);
    let hi = drop_spaces(text, lo, b);
    parse_spec(text.subrange(lo, hi), p)
}

/// The residues that the first `limit` fields of `text` from `start` on
/// denote, the fields being separated by commas; nothing where one of these
/// fields denotes nothing.
pub open spec fn parse_list(text: Seq<u8>, start: int, limit: nat, p: int) -> Option<Seq<int>>
    decreases limit,
{
    if limit == 0 {
        Some(Seq::empty())
    } else {
        let e = next_comma(text, start);
        match field_value(text, start, e, p) {
            None => None,
            Some(v) => if e >= text.len() {
                Some(seq![v])
            } else {
                match parse_list(text, e + 1, (limit - 1) as nat, p) {
                    None => None,
                    Some(r) => Some(seq![v].add(r)),
                }
            },
        }
    }
}

/// The element that the bytes `start..end` of `text` denote.
pub fn parse_element<T: Ring>(text: &[u8], start: usize, end: usize) -> (r: Option<T>)
    requires
        start <= end <= text@.len(),
    ensures
        match parse_spec(text@.subrange(start as int, end as int), T::modulus()) {
            Some(v) => r is Some && r->0.value() == v,
            None => r is None,
        },
{
    let ghost p = T::modulus();
    let ghost whole = text@.subrange(start as int, end as int);
    if start == end {
        return None;
    }
    let negative = text[start] == 45;
    let lo: usize = if negative { start + 1 } else { start };
    let ghost digits = text@.subrange(lo as int, end as int);
    proof {
        T::lemma_modulus();
        lemma_small_mod(0, p as nat);
        if negative {
            assert(whole.skip(1) =~= digits);
        } else {
            assert(whole =~= digits);
        }
        assert(whole[0] == text@[start as int]);
    }
    let ten = T::from_u32(10);
    let mut res = T::zero();
    let mut i: usize = lo;
    while i < end
        invariant
            lo <= i <= end,
            end <= text@.len(),
            p == T::modulus(),
            p > 1,
            ten.value() == 10int % p,
            digits == text@.subrange(lo as int, end as int),
            whole.len() > 0,
            negative ==> whole[0] == 45 && whole.skip(1) == digits,
            !negative ==> whole[0] != 45 && whole == digits,
            whole == text@.subrange(start as int, end as int),
            all_digits(text@.subrange(lo as int, i as int)),
            res.value() == decimal_int(text@.subrange(lo as int, i as int)) % p,
        decreases end - i,
    {
        let b = text[i];
        if b < 48 || b > 57 {
            proof {
                assert(digits[i - lo] == b);
                assert(!all_digits(digits));
            }
            return None;
        }
        let ghost before = text@.subrange(lo as int, i as int);
        let ghost after = text@.subrange(lo as int, i + 1);
        res = res.mul(ten).add(T::from_u32((b - 48) as u32));
        proof {
            assert(after.drop_last() =~= before);
            assert(after.last() == b);
            let d = decimal_int(before);
            lemma_mul_mod_noop(d, 10, p);
            lemma_add_mod_noop(d * 10, (b - 48) as int, p);
            assert forall|k: int| 0 <= k < after.len() implies is_digit(#[trigger] after[k]) by {
                if k < before.len() {
                    assert(after[k] == before[k]);
                }
            }
        }
        i += 1;
    }
    if negative {
        proof { lemma_mod_operands(decimal_int(digits), 0, p); }
        Some(res.neg())
    } else {
        Some(res)
    }
}

/// The position of the first comma of `text` from `start` on.
pub fn find_comma(text: &[u8], start: usize) -> (e: usize)
    requires
        start <= text@.len(),
    ensures
        e == next_comma(text@, start as int),
        start <= e <= text@.len(),
{
    let mut i: usize = start;
    while i < text.len() && text[i] != 44
        invariant
            start <= i <= text@.len(),
            next_comma(text@, i as int) == next_comma(text@, start as int),
        decreases text@.len() - i,
    {
        i += 1;
    }
    i
}

/// The bounds of the field `a..b` of `text` without the blanks around it.
pub fn trim_field(text: &[u8], a: usize, b: usize) -> (r: (usize, usize))
    requires
        a <= b <= text@.len(),
    ensures
        r.0 == skip_spaces(text@, a as int, b as int),
        r.1 == drop_spaces(text@, r.0 as int, b as int),
        a <= r.0 <= r.1 <= b,
{
    let mut lo: usize = a;
    while lo < b && (text[lo] == 32 || (9 <= text[lo] && text[lo] <= 13))
        invariant
            a <= lo <= b,
            b <= text@.len(),
            skip_spaces(text@, lo as int, b as int) == skip_spaces(text@, a as int, b as int),
        decreases b - lo,
    {
        lo += 1;
    }
    let mut hi: usize = b;
    while hi > lo && (text[hi - 1] == 32 || (9 <= text[hi - 1] && text[hi - 1] <= 13))
        invariant
            lo <= hi <= b,
            b <= text@.len(),
            drop_spaces(text@, lo as int, hi as int) == drop_spaces(text@, lo as int, b as int),
        decreases hi - lo,
    {
        hi -= 1;
    }
    (lo, hi)
}

impl<T: Field, const N: usize> FixedSeq<T, N> {
    /// The series whose known coefficients are the first `N` numbers of the
    /// list `text`, in which commas separate the numbers.
    ///
    /// Fails where one of these numbers is malformed.
    pub fn from_bytes(text: &[u8]) -> (r: Result<Self, SeriesError>)
        ensures
            match parse_list(text@, 0, N as nat, T::modulus()) {
                Some(v) => r is Ok && r->Ok_0@ == v,
                None => r is Err && r->Err_0 is Malformed,
            },
    {
        let ghost p = T::modulus();
        let ghost goal = parse_list(text@, 0, N as nat, p);
        let mut items: Vec<T> = Vec::new();
        let mut start: usize = 0;
        let mut done = false;
        while items.len() < N && !done
            invariant
                items@.len() <= N,
                start <= text@.len(),
                p == T::modulus(),
                goal == parse_list(text@, 0, N as nat, p),
                !done ==> goal == (match parse_list(text@, start as int, (N - items@.len()) as nat, p) {
                    None => None::<Seq<int>>,
                    Some(rest) => Some(Seq::new(items@.len(), |i: int| items@[i].value()).add(rest)),
                }),
                done ==> goal == Some(Seq::new(items@.len(), |i: int| items@[i].value())),
            decreases N - items@.len() + (if done { 0int } else { 1int }),
        {
            let e = find_comma(text, start);
            let (lo, hi) = trim_field(text, start, e);
            let ghost so_far = Seq::new(items@.len(), |i: int| items@[i].value());
            match parse_element::<T>(text, lo, hi) {
                None => {
                    return Err(SeriesError::Malformed);
                },
                Some(v) => {
                    items.push(v);
                    proof {
                        let now = Seq::new(items@.len(), |i: int| items@[i].value());
                        assert(now =~= so_far.add(seq![v.value()]));
                        if e < text@.len() {
                            match parse_list(text@, e + 1, (N - items@.len()) as nat, p) {
                                None => {},
                                Some(rest) => {
                                    assert(so_far.add(seq![v.value()].add(rest)) =~= now.add(rest));
                                },
                            }
                        }
                    }
                    if e >= text.len() {
                        done = true;
                    } else {
                        start = e + 1;
                    }
                },
            }
        }
        proof {
            if !done {
                let now = Seq::new(items@.len(), |i: int| items@[i].value());
                assert(now.add(Seq::<int>::empty()) =~= now);
            }
        }
        let res = Self::from_slice(items.as_slice());
        assert(res@ =~= Seq::new(items@.len(), |i: int| items@[i].value()));
        Ok(res)
    }
}

/// The position of the first comma in `a..b` of `text`, or `b`.
pub open spec fn comma_in(text: Seq<u8>, a: int, b: int) -> int
    decreases b - a,
{
    if a >= b {
        b
    } else if text[a] == 44 {
        a
    } else {
        comma_in(text, a + 1, b)
    }
}

/// The residues that the fields of `a..b` of `text` denote, the fields
/// being separated by commas; nothing where one of them denotes nothing.
pub open spec fn row_values(text: Seq<u8>, a: int, b: int, p: int) -> Option<Seq<int>>
    decreases b - a,
{
    let e = comma_in(text, a, b);
    match field_value(text, a, e, p) {
        None => None,
        Some(v) => if e >= b || e < a {
            Some(seq![v])
        } else {
            match row_values(text, e + 1, b, p) {
                None => None,
                Some(r) => Some(seq![v].add(r)),
            }
        },
    }
}

/// A table read so far: the numbers of its rows and columns, and its
/// entries row by row.
pub struct TableText {
    pub rows: nat,
    pub cols: nat,
    pub entries: Seq<int>,
}

/// The table that `text` denotes from position `i` on, where `depth`
/// brackets are open, the last of them opened before `rstart`, and `so_far`
/// was read before.
///
/// A bracket that closes the second level ends a row: the text from the
/// last opening bracket on is a list of numbers. All rows have the same
/// number of entries. Blanks and all other bytes outside of rows are
/// passed over.
pub open spec fn table_from(
    text: Seq<u8>,
    i: int,
    depth: int,
    rstart: int,
    so_far: TableText,
    p: int,
) -> Option<TableText>
    decreases text.len() - i,
{
    if i < 0 || i >= text.len() {
        Some(so_far)
    } else if text[i] == 91 {
        table_from(text, i + 1, depth + 1, i + 1, so_far, p)
    } else if text[i] == 93 {
        if depth == 2 {
            match row_values(text, rstart, i, p) {
                None => None,
                Some(row) => if so_far.cols != 0 && so_far.cols != row.len() {
                    None
                } else {
                    table_from(
                        text,
                        i + 1,
                        1,
                        rstart,
                        (TableText {
                            rows: so_far.rows + 1,
                            cols: row.len(),
                            entries: so_far.entries + row,
                        }),
                        p,
                    )
                },
            }
        } else {
            table_from(text, i + 1, depth - 1, rstart, so_far, p)
        }
    } else {
        table_from(text, i + 1, depth, rstart, so_far, p)
    }
}

/// The table that `text` denotes: rows in brackets within brackets, as in
/// `[[1, 2], [3, 4]]`.
pub open spec fn table_of(text: Seq<u8>, p: int) -> Option<TableText> {
    table_from(text, 0, 0, 0, (TableText { rows: 0, cols: 0, entries: Seq::empty() }), p)
}

/// The position of the first comma in `a..b` of `text`, or `b`.
pub fn find_comma_in(text: &[u8], a: usize, b: usize) -> (e: usize)
    requires
        a <= b <= text@.len(),
    ensures
        e == comma_in(text@, a as int, b as int),
        a <= e <= b,
{
    let mut i: usize = a;
    while i < b && text[i] != 44
        invariant
            a <= i <= b,
            b <= text@.len(),
            comma_in(text@, i as int, b as int) == comma_in(text@, a as int, b as int),
        decreases b - i,
    {
        i += 1;
    }
    i
}

/// The elements that the fields of `a..b` of `text` denote.
pub fn parse_row<T: Ring>(text: &[u8], a: usize, b: usize) -> (r: Option<Vec<T>>)
    requires
        a <= b <= text@.len(),
    ensures
        match row_values(text@, a as int, b as int, T::modulus()) {
            Some(v) => r is Some && values(r->0@) == v,
            None => r is None,
        },
        r is Some ==> 1 <= r->0@.len() <= b - a + 1,
{
    let ghost p = T::modulus();
    let ghost goal = row_values(text@, a as int, b as int, p);
    let mut items: Vec<T> = Vec::new();
    let mut start: usize = a;
    proof {
        match goal {
            None => {},
            Some(rest) => {
                assert(values(items@).add(rest) =~= rest);
            },
        }
    }
    loop
        invariant
            a <= start <= b,
            b <= text@.len(),
            p == T::modulus(),
            goal == row_values(text@, a as int, b as int, p),
            items@.len() <= start - a,
            goal == (match row_values(text@, start as int, b as int, p) {
                None => None::<Seq<int>>,
                Some(rest) => Some(values(items@).add(rest)),
            }),
        decreases b - start,
    {
        let e = find_comma_in(text, start, b);
        let (lo, hi) = trim_field(text, start, e);
        let ghost so_far = values(items@);
        match parse_element::<T>(text, lo, hi) {
            None => {
                return None;
            },
            Some(v) => {
                items.push(v);
                proof {
                    assert(values(items@) =~= so_far.add(seq![v.value()]));
                    if e < b {
                        match row_values(text@, e + 1, b as int, p) {
                            None => {},
                            Some(rest) => {
                                assert(so_far.add(seq![v.value()].add(rest)) =~= values(items@).add(rest));
                            },
                        }
                    }
                }
                if e >= b {
                    return Some(items);
                }
                start = e + 1;
            },
        }
    }
}

impl<T: Ring> Matrix<T> {
    /// The matrix that `text` denotes: rows in brackets within brackets, as
    /// in `[[1, 2], [3, 4]]`.
    ///
    /// Fails where a row holds a malformed number, or where two rows differ
    /// in length.
    pub fn from_bytes(text: &[u8]) -> (r: Result<Self, ()>)
        ensures
            match table_of(text@, T::modulus()) {
                Some(t) => r is Ok && r->Ok_0.rows() == t.rows && r->Ok_0.cols() == t.cols
                    && t.entries.len() == t.rows * t.cols && forall|i: int, j: int|
                    0 <= i < t.rows && 0 <= j < t.cols ==> #[trigger] r->Ok_0@[i][j] == t.entries[i
                        * t.cols + j],
                None => r is Err,
            },
    {
        let ghost p = T::modulus();
        let ghost goal = table_of(text@, p);
        let n: usize = text.len();
        let mut dat: Vec<T> = Vec::new();
        let mut rows: usize = 0;
        let mut cols: usize = 0;
        let mut opened: usize = 0;
        let mut closed: usize = 0;
        let mut rstart: usize = 0;
        let mut i: usize = 0;
        proof {
            assert(values(dat@) =~= Seq::<int>::empty());
        }
        while i < n
            invariant
                i <= n,
                n == text@.len(),
                p == T::modulus(),
                rstart <= i,
                opened <= i,
                closed <= i,
                rows <= closed,
                goal == table_of(text@, p),
                cols == 0 ==> rows == 0,
                dat@.len() == rows * cols,
                goal == table_from(
                    text@,
                    i as int,
                    opened - closed,
                    rstart as int,
                    (TableText { rows: rows as nat, cols: cols as nat, entries: values(dat@) }),
                    p,
                ),
            decreases n - i,
        {
            let ch: u8 = text[i];
            if ch == 91 {
                rstart = i + 1;
                opened += 1;
            } else if ch == 93 {
                if opened >= 2 && opened - 2 == closed {
                    match parse_row::<T>(text, rstart, i) {
                        None => {
                            return Err(());
                        },
                        Some(row) => {
                            let w: usize = row.len();
                            if cols != 0 && cols != w {
                                return Err(());
                            }
                            let ghost before = values(dat@);
                            let ghost old_len = dat@.len();
                            let mut k: usize = 0;
                            proof {
                                if cols == 0 {
                                    assert(rows * w == 0) by (nonlinear_arith)
                                        requires
                                            rows == 0,
                                    ;
                                    assert(rows * cols == 0) by (nonlinear_arith)
                                        requires
                                            rows == 0,
                                    ;
                                }
                                assert(rows * w == old_len);
                                assert(before + values(row@).take(0) =~= before);
                            }
                            while k < w
                                invariant
                                    k <= w,
                                    w == row@.len(),
                                    dat@.len() == old_len + k,
                                    values(dat@) == before + values(row@).take(k as int),
                                decreases w - k,
                            {
                                let ghost prev = values(dat@);
                                dat.push(row[k]);
                                proof {
                                    assert(values(dat@) =~= prev.push(row@[k as int].value()));
                                    assert(values(row@).take(k + 1) =~= values(row@).take(k as int).push(
                                        row@[k as int].value(),
                                    ));
                                    assert(values(dat@) =~= before + values(row@).take(k + 1));
                                }
                                k += 1;
                            }
                            proof {
                                assert(values(row@).take(w as int) =~= values(row@));
                                assert((rows + 1) * w == rows * w + w) by (nonlinear_arith);
                            }
                            rows += 1;
                            cols = w;
                        },
                    }
                }
                closed += 1;
            }
            i += 1;
        }
        let ghost entries = values(dat@);
        let m = Matrix::from_entries(rows, cols, dat);
        proof {
            m.lemma_view();
            assert forall|a: int, b: int| 0 <= a < rows && 0 <= b < cols implies #[trigger] m@[a][b]
                == entries[a * cols + b] by {
                assert(0 <= a * cols + b < rows * cols) by (nonlinear_arith)
                    requires
                        0 <= a < rows,
                        0 <= b < cols,
                ;
            }
        }
        Ok(m)
    }
}

impl<T: Ring> core::str::FromStr for Matrix<T> {
    type Err = ();

    /// The matrix that `s` denotes: rows in brackets within brackets, as in
    /// `[[1, 2], [3, 4]]`.
    ///
    /// Fails where a row holds a malformed number, or where two rows differ
    /// in length.
    fn from_str(s: &str) -> (r: Result<Self, ()>)
        ensures
            match table_of(s.spec_bytes(), T::modulus()) {
                Some(t) => r is Ok && r->Ok_0.rows() == t.rows && r->Ok_0.cols() == t.cols
                    && t.entries.len() == t.rows * t.cols && forall|i: int, j: int|
                    0 <= i < t.rows && 0 <= j < t.cols ==> #[trigger] r->Ok_0@[i][j] == t.entries[i
                        * t.cols + j],
                None => r is Err,
            },
    {
        Self::from_bytes(s.as_bytes())
    }
}

impl<T: Field, const N: usize> core::str::FromStr for FixedSeq<T, N> {
    type Err = SeriesError;

    /// The series whose known coefficients are the first `N` numbers of the
    /// list `s`, in which commas separate the numbers.
    ///
    /// Fails where one of these numbers is malformed.
    fn from_str(s: &str) -> (r: Result<Self, SeriesError>)
        ensures
            match parse_list(s.spec_bytes(), 0, N as nat, T::modulus()) {
                Some(v) => r is Ok && r->Ok_0@ == v,
                None => r is Err && r->Err_0 is Malformed,
            },
    {
        Self::from_bytes(s.as_bytes())
    }
}

impl core::str::FromStr for ModIntP32 {
    type Err = ();

    /// The element that the decimal text `s` denotes: an optional minus
    /// sign and digits.
    ///
    /// Fails where `s` is empty or holds any other character.
    fn from_str(s: &str) -> (r: Result<Self, ()>)
        ensures
            match parse_spec(s.spec_bytes(), Self::modulus()) {
                Some(v) => r is Ok && r->Ok_0.value() == v,
                None => r is Err,
            },
    {
        let text = s.as_bytes();
        assert(text@.subrange(0, text@.len() as int) =~= text@);
        match parse_element::<ModIntP32>(text, 0, text.len()) {
            Some(v) => Ok(v),
            None => Err(()),
        }
    }
}

impl core::str::FromStr for MersP31 {
    type Err = ();

    /// The element that the decimal text `s` denotes: an optional minus
    /// sign and digits.
    ///
    /// Fails where `s` is empty or holds any other character.
    fn from_str(s: &str) -> (r: Result<Self, ()>)
        ensures
            match parse_spec(s.spec_bytes(), Self::modulus()) {
                Some(v) => r is Ok && r->Ok_0.value() == v,
                None => r is Err,
            },
    {
        let text = s.as_bytes();
        assert(text@.subrange(0, text@.len() as int) =~= text@);
        match parse_element::<MersP31>(text, 0, text.len()) {
            Some(v) => Ok(v),
            None => Err(()),
        }
    }
}

impl core::str::FromStr for MersP61 {
    type Err = ();

    /// The element that the decimal text `s` denotes: an optional minus
    /// sign and digits.
    ///
    /// Fails where `s` is empty or holds any other character.
    fn from_str(s: &str) -> (r: Result<Self, ()>)
        ensures
            match parse_spec(s.spec_bytes(), Self::modulus()) {
                Some(v) => r is Ok && r->Ok_0.value() == v,
                None => r is Err,
            },
    {
        let text = s.as_bytes();
        assert(text@.subrange(0, text@.len() as int) =~= text@);
        match parse_element::<MersP61>(text, 0, text.len()) {
            Some(v) => Ok(v),
            None => Err(()),
        }
    }
}

} // verus!
