//! The store of reference sequences and the list of the best matches.

use crate::coeff::MersP31;
use crate::fixedseq::{FixedSeq, ShortSeq};
use crate::interpolate::{
    find_c_recursive, find_p_recursive, has_linear_recurrence, p_rec_found, p_rec_missed,
};
use crate::mathtypes::{values, Field, Group, One, Zero};
use crate::powerseries::PowerSeries;
use crate::truncated::{first_nonzero, min_len};
use rustc_hash::FxHashMap;
use vstd::prelude::*;

verus! {

/// The hasher of `rustc_hash`.
#[verifier::external_type_specification]
#[verifier::external_body]
pub struct ExFxHasher(rustc_hash::FxHasher);

/// The hasher factory of std that makes each hasher by `Default`.
#[verifier::external_type_specification]
#[verifier::external_body]
#[verifier::reject_recursive_types(H)]
pub struct ExBuildHasherDefault<H>(core::hash::BuildHasherDefault<H>);

/// A map without entries, with the hasher of `rustc_hash`.
fn fx_new() -> (r: FxHashMap<u32, usize>)
    ensures
        r@.len() == 0,
        forall|k: u32| !r@.contains_key(k),
{
    FxHashMap::default()
}

/// `HashMap::insert` of std on a map with the hasher of `rustc_hash`, which
/// hashes equal keys alike: afterwards the map holds `v` under `k`, and under
/// every other key what it held before.
#[verifier::external_body]
fn fx_insert(m: &mut FxHashMap<u32, usize>, k: u32, v: usize)
    ensures
        final(m)@ == old(m)@.insert(k, v),
{
    m.insert(k, v);
}

/// `HashMap::get` of std on a map with the hasher of `rustc_hash`: the
/// result is what the map holds under `k`, if anything.
#[verifier::external_body]
fn fx_get(m: &FxHashMap<u32, usize>, k: u32) -> (r: Option<usize>)
    ensures
        r is Some <==> m@.contains_key(k),
        r is Some ==> r->0 == m@[k],
{
    m.get(&k).copied()
}

/// The number of coefficients among the first `n` of `a` that are neither zero nor one.
pub open spec fn count_other(a: Seq<int>, n: int) -> int
    decreases n,
{
    if n <= 0 {
        0
    } else {
        count_other(a, n - 1) + (if a[n - 1] != 0 && a[n - 1] != 1 { 1int } else { 0int })
    }
}

/// A series says enough to be looked up: at least ten coefficients are
/// known, fewer than four zeros lead, and at least six coefficients are
/// neither zero nor one.
pub open spec fn is_significant(a: Seq<int>) -> bool {
    &&& a.len() >= 10
    &&& first_nonzero(a, a.len() as int) < 4
    &&& count_other(a, a.len() as int) >= 6
}

/// The two series agree as far as both are known.
pub open spec fn prefix_match(a: Seq<int>, b: Seq<int>) -> bool {
    forall|i: int| 0 <= i < min_len(a.len(), b.len()) ==> a[i] == b[i]
}

/// Whether the series says enough to be looked up.
pub fn significant<T: Field, const N: usize>(seq: &FixedSeq<T, N>) -> (b: bool)
    ensures
        b == is_significant(seq@),
{
    let n: usize = seq.accuracy();
    if n < 10 {
        return false;
    }
    let mut zprf: usize = 0;
    while zprf < n && seq.coefficient(zprf).is_zero()
        invariant
            zprf <= n,
            n == seq@.len(),
            first_nonzero(seq@, zprf as int) == zprf,
        decreases n - zprf,
    {
        zprf += 1;
    }
    proof {
        lemma_first_nonzero_from(seq@, zprf as int, n as int);
    }
    if zprf >= 4 {
        return false;
    }
    let mut vcnt: usize = 0;
    let mut i: usize = 0;
    while i < n
        invariant
            i <= n,
            n == seq@.len(),
            vcnt == count_other(seq@, i as int),
            vcnt <= i,
        decreases n - i,
    {
        let c = seq.coefficient(i);
        if !c.is_zero() && !c.is_one() {
            vcnt += 1;
        }
        i += 1;
    }
    vcnt >= 6
}

/// Where the first `k` coefficients are zero and the next one is not, or
/// none is left, the first nonzero coefficient is at `k`.
proof fn lemma_first_nonzero_from(a: Seq<int>, k: int, n: int)
    requires
        0 <= k <= n,
        first_nonzero(a, k) == k,
        k < n ==> a[k] != 0,
    ensures
        first_nonzero(a, n) == k,
    decreases n - k,
{
    if k < n {
        if k + 1 < n {
            lemma_first_nonzero_stays(a, k, k + 1, n);
        }
    }
}

proof fn lemma_first_nonzero_stays(a: Seq<int>, k: int, m: int, n: int)
    requires
        0 <= k < m <= n,
        first_nonzero(a, m) == k,
    ensures
        first_nonzero(a, n) == k,
    decreases n - m,
{
    if m < n {
        lemma_first_nonzero_stays(a, k, m + 1, n);
    }
}

/// The number of terms of a sequence of `len` terms that a recurrence may
/// use up: four are kept back to test it.
pub open spec fn spare_terms(len: int) -> int {
    if len >= 4 {
        len - 4
    } else {
        0
    }
}

/// The pair `(i2, j2)` of a degree and a number of polynomials is tried for
/// a sequence with `sig` spare terms.
pub open spec fn is_tried(sig: int, i2: int, j2: int) -> bool {
    1 <= i2 <= sig / 2 && 1 <= j2 <= sig / (i2 + 2)
}

/// Every pair that is tried before `(i, j)` comes to nothing: the degrees
/// are tried in increasing order, and for each the numbers of polynomials.
pub open spec fn all_missed_before(s: Seq<int>, sig: int, i: int, j: int, p: int) -> bool {
    forall|i2: int, j2: int|
        is_tried(sig, i2, j2) && (i2 < i || (i2 == i && j2 < j)) ==> #[trigger] p_rec_missed(
            s,
            i2 as nat,
            j2 as nat,
            p,
        )
}

/// The reference sequences, each under the number by which it is catalogued.
pub struct SeqDB {
    short_vec: Vec<ShortSeq<MersP31>>,
    ind_to_a: Vec<u32>,
    a_to_ind: FxHashMap<u32, usize>,
}

impl SeqDB {
    /// There is one catalogue number for each sequence, the index leads from
    /// each number to a position at which it stands, and no sequence occurs twice.
    pub closed spec fn wf(&self) -> bool {
        &&& self.short_vec@.len() == self.ind_to_a@.len()
        &&& forall|i: int|
            0 <= i < self.ind_to_a@.len() ==> self.a_to_ind@.contains_key(#[trigger] self.ind_to_a@[i])
        &&& forall|k: u32| #[trigger]
            self.a_to_ind@.contains_key(k) ==> self.a_to_ind@[k] < self.ind_to_a@.len()
                && self.ind_to_a@[self.a_to_ind@[k] as int] == k
        &&& forall|i: int, j: int|
            0 <= i < j < self.short_vec@.len() ==> (#[trigger] self.short_vec@[i])@
                != (#[trigger] self.short_vec@[j])@
    }

    /// The sequences of the store, in the order in which they came.
    pub closed spec fn series(&self) -> Seq<Seq<int>> {
        Seq::new(self.short_vec@.len(), |i: int| self.short_vec@[i]@)
    }

    /// The catalogue numbers of the sequences, in the same order.
    pub closed spec fn numbers(&self) -> Seq<u32> {
        self.ind_to_a@
    }

    /// The number of coefficients that the simplest recurrence found for
    /// `short` takes, or `None` where none is found.
    ///
    /// A recurrence with constant coefficients of at most half the spare
    /// terms is looked for first. Then come the recurrences with polynomial
    /// coefficients, by increasing degree `i` and, for each degree, by
    /// increasing number `j` of polynomials; the first that is found counts
    /// `j * (i + 2)`.
    pub fn db_interpolate_short_c(&self, short: ShortSeq<MersP31>) -> (r: Option<usize>)
        ensures
            match r {
                Some(k) => {
                    ||| (k == spare_terms(short@.len() as int) / 2 + 1 && has_linear_recurrence(
                        short@,
                        (spare_terms(short@.len() as int) / 2) as nat,
                        MersP31::modulus(),
                    ))
                    ||| (!has_linear_recurrence(
                        short@,
                        (spare_terms(short@.len() as int) / 2) as nat,
                        MersP31::modulus(),
                    ) && exists|i: int, j: int|
                        {
                            &&& is_tried(spare_terms(short@.len() as int), i, j)
                            &&& k == j * (i + 2)
                            &&& #[trigger] p_rec_found(short@, i as nat, j as nat, MersP31::modulus())
                            &&& all_missed_before(
                                short@,
                                spare_terms(short@.len() as int),
                                i,
                                j,
                                MersP31::modulus(),
                            )
                        })
                },
                None => {
                    &&& !has_linear_recurrence(
                        short@,
                        (spare_terms(short@.len() as int) / 2) as nat,
                        MersP31::modulus(),
                    )
                    &&& forall|i: int, j: int|
                        is_tried(spare_terms(short@.len() as int), i, j) ==> #[trigger] p_rec_missed(
                            short@,
                            i as nat,
                            j as nat,
                            MersP31::modulus(),
                        )
                },
            },
    {
        let ghost p = MersP31::modulus();
        let ghost s = short@;
        let known = short.to_vec();
        let n: usize = short.accuracy();
        let sig: usize = if n >= 4 { n - 4 } else { 0 };
        proof {
            assert(values(known@) =~= s);
            assert(sig == spare_terms(s.len() as int));
        }
        let half: usize = sig / 2;
        match find_c_recursive(known.as_slice(), half) {
            Some(rec) => {
                proof {
                    assert(values(rec@).len() <= half);
                    assert(has_linear_recurrence(s, half as nat, p));
                }
                return Some(half + 1);
            },
            None => {
                proof {
                    assert(!has_linear_recurrence(s, half as nat, p));
                }
            },
        }
        let mut i: usize = 1;
        while i <= half
            invariant
                1 <= i <= half + 1,
                half == sig / 2,
                sig <= 12,
                n <= 16,
                n == s.len(),
                s == short@,
                sig == spare_terms(s.len() as int),
                known@.len() == n,
                values(known@) == s,
                p == MersP31::modulus(),
                !has_linear_recurrence(s, half as nat, p),
                all_missed_before(s, sig as int, i as int, 1, p),
            decreases half + 1 - i,
        {
            let top: usize = sig / (i + 2);
            let mut j: usize = 1;
            while j <= top
                invariant
                    1 <= j <= top + 1,
                    1 <= i <= half,
                    half == sig / 2,
                    top as int == (sig as int) / (i + 2),
                    sig <= 12,
                    n <= 16,
                    n == s.len(),
                    s == short@,
                    sig == spare_terms(s.len() as int),
                    known@.len() == n,
                    values(known@) == s,
                    p == MersP31::modulus(),
                    !has_linear_recurrence(s, half as nat, p),
                    all_missed_before(s, sig as int, i as int, j as int, p),
                decreases top + 1 - j,
            {
                proof {
                    assert((n + 3) * (n + 3) <= 361) by (nonlinear_arith)
                        requires
                            n <= 16,
                    ;
                    assert(j * (i + 2) <= sig) by (nonlinear_arith)
                        requires
                            j as int <= (sig as int) / (i + 2),
                            i + 2 > 0,
                    ;
                }
                match find_p_recursive(known.as_slice(), i, j) {
                    Some(polys) => {
                        let k: usize = j * (i + 2);
                        proof {
                            let ii = i as int;
                            let jj = j as int;
                            assert(p_rec_found(s, ii as nat, jj as nat, p));
                            assert(is_tried(sig as int, ii, jj));
                            assert(k == jj * (ii + 2));
                            assert(all_missed_before(s, sig as int, ii, jj, p));
                        }
                        return Some(k);
                    },
                    None => {
                        proof {
                            assert(p_rec_missed(s, i as nat, j as nat, p));
                        }
                    },
                }
                j += 1;
            }
            i += 1;
        }
        None
    }

    /// A store without sequences.
    pub fn new() -> (db: Self)
        ensures
            db.wf(),
            db.series().len() == 0,
            db.numbers().len() == 0,
    {
        SeqDB { short_vec: Vec::new(), ind_to_a: Vec::new(), a_to_ind: fx_new() }
    }

    /// The number of sequences. There is one catalogue number for each, and
    /// no sequence occurs twice.
    pub fn len(&self) -> (n: usize)
        requires
            self.wf(),
        ensures
            n == self.series().len(),
            n == self.numbers().len(),
            forall|i: int, j: int|
                0 <= i < j < self.series().len() ==> #[trigger] self.series()[i] != #[trigger] self.series()[j],
    {
        self.short_vec.len()
    }

    /// The sequence at the position `ind`.
    pub fn sequence(&self, ind: usize) -> (s: ShortSeq<MersP31>)
        requires
            ind < self.series().len(),
        ensures
            s@ == self.series()[ind as int],
    {
        self.short_vec[ind]
    }

    /// The catalogue number of the sequence at the position `ind`.
    pub fn number(&self, ind: usize) -> (a: u32)
        requires
            ind < self.numbers().len(),
        ensures
            a == self.numbers()[ind as int],
    {
        self.ind_to_a[ind]
    }

    /// A position at which the sequence with the catalogue number `anum`
    /// stands, or `None` where the store has none.
    pub fn index_of(&self, anum: u32) -> (r: Option<usize>)
        requires
            self.wf(),
        ensures
            r is Some ==> r->0 < self.numbers().len() && self.numbers()[r->0 as int] == anum,
            r is None <==> !self.numbers().contains(anum),
    {
        let r = fx_get(&self.a_to_ind, anum);
        proof {
            if r is None && self.numbers().contains(anum) {
                let i = choose|i: int| 0 <= i < self.numbers().len() && self.numbers()[i] == anum;
                assert(self.a_to_ind@.contains_key(self.ind_to_a@[i]));
            }
        }
        r
    }

    /// Adds the sequence under the number `anum`, unless it says too little
    /// or the store holds the same sequence already. Returns whether it was added.
    pub fn add_entry(&mut self, anum: u32, seq: ShortSeq<MersP31>) -> (added: bool)
        requires
            old(self).wf(),
        ensures
            final(self).wf(),
            added <==> is_significant(seq@) && !old(self).series().contains(seq@),
            added ==> final(self).series() == old(self).series().push(seq@) && final(self).numbers()
                == old(self).numbers().push(anum),
            !added ==> final(self).series() == old(self).series() && final(self).numbers() == old(
                self,
            ).numbers(),
    {
        let ghost before = self.series();
        if !significant(&seq) {
            return false;
        }
        let n: usize = self.short_vec.len();
        let mut i: usize = 0;
        while i < n
            invariant
                i <= n,
                n == self.short_vec@.len(),
                before == self.series(),
                self.wf(),
                *self == *old(self),
                forall|j: int| 0 <= j < i ==> #[trigger] before[j] != seq@,
            decreases n - i,
        {
            if self.short_vec[i].identical(&seq) {
                assert(before[i as int] == seq@);
                return false;
            }
            i += 1;
        }
        proof {
            if before.contains(seq@) {
                let j = choose|j: int| 0 <= j < before.len() && before[j] == seq@;
                assert(before[j] != seq@);
            }
        }
        let ghost old_map = self.a_to_ind@;
        let ghost old_numbers = self.ind_to_a@;
        self.short_vec.push(seq);
        self.ind_to_a.push(anum);
        fx_insert(&mut self.a_to_ind, anum, n);
        proof {
            assert(self.series() =~= before.push(seq@));
            assert forall|k: u32| #[trigger] self.a_to_ind@.contains_key(k) implies self.a_to_ind@[k]
                < self.ind_to_a@.len() && self.ind_to_a@[self.a_to_ind@[k] as int] == k by {
                if k != anum {
                    assert(old_map.contains_key(k));
                }
            }
            assert forall|i: int| 0 <= i < self.ind_to_a@.len() implies self.a_to_ind@.contains_key(
                #[trigger] self.ind_to_a@[i],
            ) by {
                if i < n {
                    assert(old_map.contains_key(old_numbers[i]));
                }
            }
            assert forall|i: int, j: int| 0 <= i < j < self.short_vec@.len() implies (
            #[trigger] self.short_vec@[i])@ != (#[trigger] self.short_vec@[j])@ by {
                if j == n {
                    assert(before[i] != seq@);
                }
            }
        }
        true
    }

    /// The positions of the sequences that agree with `short` as far as both
    /// are known, in increasing order.
    pub fn db_match_short(&self, short: &ShortSeq<MersP31>) -> (res: Vec<usize>)
        ensures
            forall|t: int| 0 <= t < res@.len() ==> (#[trigger] res@[t]) < self.series().len(),
            forall|s: int, t: int| 0 <= s < t < res@.len() ==> res@[s] < res@[t],
            forall|i: int|
                0 <= i < self.series().len() ==> (res@.contains(i as usize) <==> prefix_match(
                    short@,
                    #[trigger] self.series()[i],
                )),
    {
        let n: usize = self.short_vec.len();
        let mut res: Vec<usize> = Vec::new();
        let mut i: usize = 0;
        while i < n
            invariant
                i <= n,
                n == self.short_vec@.len(),
                n == self.series().len(),
                forall|t: int| 0 <= t < res@.len() ==> (#[trigger] res@[t]) < i,
                forall|s: int, t: int| 0 <= s < t < res@.len() ==> res@[s] < res@[t],
                forall|j: int|
                    0 <= j < i ==> (res@.contains(j as usize) <==> prefix_match(
                        short@,
                        #[trigger] self.series()[j],
                    )),
            decreases n - i,
        {
            let ghost before = res@;
            if short.matches(&self.short_vec[i]) {
                res.push(i);
                proof {
                    assert(res@[before.len() as int] == i);
                    assert forall|j: int| 0 <= j < i + 1 implies (res@.contains(j as usize)
                        <==> prefix_match(short@, #[trigger] self.series()[j])) by {
                        if j < i {
                            if before.contains(j as usize) {
                                let t = choose|t: int| 0 <= t < before.len() && before[t] == j as usize;
                                assert(res@[t] == j as usize);
                            }
                            if res@.contains(j as usize) {
                                let t = choose|t: int| 0 <= t < res@.len() && res@[t] == j as usize;
                                assert(before[t] == j as usize);
                            }
                        }
                    }
                }
            } else {
                proof {
                    if res@.contains(i) {
                        let t = choose|t: int| 0 <= t < res@.len() && res@[t] == i;
                        assert(res@[t] < i);
                    }
                }
            }
            i += 1;
        }
        res
    }
}

/// The position of the first match from `from` on that scores less than
/// `score`, or the number of matches where there is none.
pub open spec fn rank_of<T>(v: Seq<(i32, T)>, score: i32, from: int) -> int
    decreases v.len() - from,
{
    if from < 0 || from >= v.len() || v[from].0 < score {
        from
    } else {
        rank_of(v, score, from + 1)
    }
}

/// The greatest number of matches that are kept.
pub const TOP_SHOWN: usize = 10;

/// The best matches found so far, the better first; among matches of one
/// score the earlier first.
pub struct TopResults<T> {
    results: Vec<(i32, T)>,
}

impl<T> TopResults<T> {
    /// There are at most `TOP_SHOWN` matches, and their scores do not increase.
    pub closed spec fn wf(&self) -> bool {
        &&& self.results@.len() <= TOP_SHOWN
        &&& forall|i: int, j: int|
            0 <= i < j < self.results@.len() ==> (#[trigger] self.results@[i]).0
                >= (#[trigger] self.results@[j]).0
    }

    /// The matches with their scores, the best first.
    pub closed spec fn view(&self) -> Seq<(i32, T)> {
        self.results@
    }

    /// No matches.
    pub fn new() -> (r: Self)
        ensures
            r.wf(),
            r.view().len() == 0,
    {
        TopResults { results: Vec::new() }
    }

    /// The number of matches. There are at most `TOP_SHOWN`, and their
    /// scores do not increase.
    pub fn len(&self) -> (n: usize)
        requires
            self.wf(),
        ensures
            n == self.view().len(),
            n <= TOP_SHOWN,
            forall|i: int, j: int|
                0 <= i < j < self.view().len() ==> (#[trigger] self.view()[i]).0 >= (
                #[trigger] self.view()[j]).0,
    {
        self.results.len()
    }

    /// The score of the match at the position `i`.
    pub fn score(&self, i: usize) -> (s: i32)
        requires
            i < self.view().len(),
        ensures
            s == self.view()[i as int].0,
    {
        self.results[i].0
    }

    /// The match at the position `i`.
    pub fn item(&self, i: usize) -> (t: &T)
        requires
            i < self.view().len(),
        ensures
            *t == self.view()[i as int].1,
    {
        &self.results[i].1
    }

    /// Puts the match behind the matches that score as much or more, and
    /// drops the last match where there are more than `TOP_SHOWN`.
    pub fn add_result(&mut self, score: i32, item: T)
        requires
            old(self).wf(),
        ensures
            final(self).wf(),
            final(self).view() == old(self).view().insert(
                rank_of(old(self).view(), score, 0),
                (score, item),
            ).take(min_len((old(self).view().len() + 1) as nat, TOP_SHOWN as nat) as int),
    {
        let ghost before = self.results@;
        let n: usize = self.results.len();
        let mut pos: usize = 0;
        while pos < n && self.results[pos].0 >= score
            invariant
                pos <= n,
                n == self.results@.len(),
                before == self.results@,
                rank_of(before, score, pos as int) == rank_of(before, score, 0),
                forall|i: int| 0 <= i < pos ==> (#[trigger] before[i]).0 >= score,
            decreases n - pos,
        {
            pos += 1;
        }
        proof {
            assert forall|i: int| pos <= i < before.len() implies (#[trigger] before[i]).0 < score by {
                if i > pos {
                    assert(before[pos as int].0 >= before[i].0);
                }
            }
        }
        self.results.insert(pos, (score, item));
        let ghost grown = self.results@;
        proof {
            assert(grown == before.insert(pos as int, (score, item)));
            assert forall|i: int, j: int| 0 <= i < j < grown.len() implies (#[trigger] grown[i]).0 >= (
            #[trigger] grown[j]).0 by {
                if i < pos && j > pos {
                    assert(grown[i] == before[i]);
                    assert(grown[j] == before[j - 1]);
                } else if i < pos && j < pos {
                    assert(grown[i] == before[i]);
                    assert(grown[j] == before[j]);
                } else if i > pos {
                    assert(grown[i] == before[i - 1]);
                    assert(grown[j] == before[j - 1]);
                } else if i == pos {
                    assert(grown[j] == before[j - 1]);
                } else {
                    assert(grown[i] == before[i]);
                }
            }
        }
        if self.results.len() > TOP_SHOWN {
            self.results.pop();
            proof {
                assert(self.results@ =~= grown.take(TOP_SHOWN as int));
            }
        } else {
            proof {
                assert(self.results@ =~= grown.take(grown.len() as int));
            }
        }
        proof {
            assert(self.view() == before.insert(pos as int, (score, item)).take(
                min_len((before.len() + 1) as nat, TOP_SHOWN as nat) as int,
            ));
        }
    }
}

} // verus!
