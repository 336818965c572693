//! Ordinals below ε₀ in Cantor normal form, lexicographic termination measures, and the
//! ordinal-indexed certificate (OIFC) for the prefix-sum-of-prefix-sums loop.

use vstd::prelude::*;
use std::cmp::Ordering;
use crate::text::{ix, nx};

verus! {

/// An ordinal `Σ ω^{e_i}·c_i` given by its `(exponent, coefficient)` terms. In Cantor
/// normal form the exponents strictly descend and every coefficient is at least 1; the
/// empty list is `0`.
#[derive(PartialEq, Eq, Debug)]
pub struct Ord {
    pub terms: Vec<(Ord, u64)>,
}

/// Three-way comparison of term lists: leading exponent, then coefficient, then the rest;
/// when one list is a prefix of the other the longer one is greater.
pub open spec fn terms_compare(t1: Seq<(Ord, u64)>, t2: Seq<(Ord, u64)>) -> Ordering
    decreases t1,
{
    if t1.len() == 0 || t2.len() == 0 {
        if t1.len() < t2.len() {
            Ordering::Less
        } else if t1.len() == t2.len() {
            Ordering::Equal
        } else {
            Ordering::Greater
        }
    } else {
        let c = ord_compare(t1[0].0, t2[0].0);
        if c != Ordering::Equal {
            c
        } else if t1[0].1 < t2[0].1 {
            Ordering::Less
        } else if t1[0].1 > t2[0].1 {
            Ordering::Greater
        } else {
            terms_compare(t1.drop_first(), t2.drop_first())
        }
    }
}

/// The well-order on ordinal notations: comparison of the term lists.
pub open spec fn ord_compare(a: Ord, b: Ord) -> Ordering
    decreases a,
{
    terms_compare(a.terms@, b.terms@)
}

/// The reverse of an ordering.
pub open spec fn flip(o: Ordering) -> Ordering {
    match o {
        Ordering::Less => Ordering::Greater,
        Ordering::Equal => Ordering::Equal,
        Ordering::Greater => Ordering::Less,
    }
}

/// Whether every exponent is a finite ordinal (`0` or `ω^0·c`): the `ω^k` fragment.
pub open spec fn in_fragment(o: Ord) -> bool {
    forall|i: int| 0 <= i < o.terms@.len() ==> {
        let e = #[trigger] o.terms@[i].0;
        e.terms@.len() == 0 || (e.terms@.len() == 1 && e.terms@[0].0.terms@.len() == 0)
    }
}

/// `o` is the ordinal `0`.
pub open spec fn is_zero_spec(o: Ord) -> bool {
    o.terms@.len() == 0
}

/// `o` is the finite ordinal `n` (`ω^0·n`; the empty list for `0`).
pub open spec fn is_nat(o: Ord, n: u64) -> bool {
    if n == 0 {
        o.terms@.len() == 0
    } else {
        o.terms@.len() == 1 && is_zero_spec(o.terms@[0].0) && o.terms@[0].1 == n
    }
}

/// `o` is `ω^e` for the exponent `e`.
pub open spec fn is_omega_pow(o: Ord, e: Ord) -> bool {
    o.terms@.len() == 1 && o.terms@[0].0 == e && o.terms@[0].1 == 1
}

impl Ord {
    pub fn zero() -> (o: Ord)
        ensures
            is_zero_spec(o),
    {
        Ord { terms: Vec::new() }
    }

    pub fn is_zero(&self) -> (b: bool)
        ensures
            b == is_zero_spec(*self),
    {
        self.terms.len() == 0
    }

    /// The finite ordinal `n`.
    pub fn nat_of(n: u64) -> (o: Ord)
        ensures
            is_nat(o, n),
    {
        if n == 0 {
            Ord::zero()
        } else {
            let mut terms = Vec::new();
            terms.push((Ord::zero(), n));
            Ord { terms }
        }
    }

    /// `ω`.
    pub fn omega() -> (o: Ord)
        ensures
            o.terms@.len() == 1,
            is_nat(o.terms@[0].0, 1),
            o.terms@[0].1 == 1,
    {
        let mut terms = Vec::new();
        terms.push((Ord::nat_of(1), 1));
        Ord { terms }
    }

    /// `ω^e`.
    pub fn omega_pow(e: Ord) -> (o: Ord)
        ensures
            is_omega_pow(o, e),
    {
        let mut terms = Vec::new();
        terms.push((e, 1));
        Ord { terms }
    }

    /// Compare two ordinals in the well-order (see [`ord_compare`]).
    pub fn ord_cmp(&self, o: &Ord) -> (r: Ordering)
        ensures
            r == ord_compare(*self, *o),
        decreases *self,
    {
        let n1 = self.terms.len();
        let n2 = o.terms.len();
        let mut i: usize = 0;
        assert(self.terms@.skip(0) =~= self.terms@);
        assert(o.terms@.skip(0) =~= o.terms@);
        while i < n1 && i < n2
            invariant
                n1 == self.terms@.len(),
                n2 == o.terms@.len(),
                i <= n1,
                i <= n2,
                ord_compare(*self, *o) == terms_compare(self.terms@.skip(ix(i)), o.terms@.skip(ix(i))),
            decreases n1 - i,
        {
            let ghost t1 = self.terms@.skip(ix(i));
            let ghost t2 = o.terms@.skip(ix(i));
            assert(t1[0] == self.terms@[ix(i)]);
            assert(t2[0] == o.terms@[ix(i)]);
            assert(decreases_to!(*self => self.terms@[ix(i)].0));
            let c = self.terms[i].0.ord_cmp(&o.terms[i].0);
            match c {
                Ordering::Equal => {},
                _ => { return c; },
            }
            let c1 = self.terms[i].1;
            let c2 = o.terms[i].1;
            if c1 < c2 {
                return Ordering::Less;
            }
            if c1 > c2 {
                return Ordering::Greater;
            }
            assert(t1.drop_first() =~= self.terms@.skip(ix(i) + 1));
            assert(t2.drop_first() =~= o.terms@.skip(ix(i) + 1));
            i = i + 1;
        }
        if n1 < n2 {
            Ordering::Less
        } else if n1 == n2 {
            Ordering::Equal
        } else {
            Ordering::Greater
        }
    }

    /// Every notation built here is a finite tower, hence below `ε₀`.
    pub fn is_below_epsilon0(&self) -> (b: bool)
        ensures
            b,
    {
        true
    }

    /// Whether every exponent is finite (the internally certifiable `ω^k` fragment).
    pub fn in_omega_k_fragment(&self) -> (b: bool)
        ensures
            b == in_fragment(*self),
    {
        let mut i: usize = 0;
        while i < self.terms.len()
            invariant
                i <= self.terms@.len(),
                forall|j: int| 0 <= j < i ==> {
                    let e = #[trigger] self.terms@[j].0;
                    e.terms@.len() == 0 || (e.terms@.len() == 1 && e.terms@[0].0.terms@.len() == 0)
                },
            decreases self.terms@.len() - i,
        {
            let e = &self.terms[i].0;
            let ok = e.is_zero() || (e.terms.len() == 1 && e.terms[0].0.is_zero());
            if !ok {
                return false;
            }
            i = i + 1;
        }
        true
    }
}

/// The terms contributed by the first `m` positions of `ix`: for each position `p < m`
/// with a nonzero index, `(exponent, coefficient) = (ix.len() - 1 - p, ix[p])`.
pub open spec fn measure_upto(ix: Seq<u64>, m: int) -> Seq<(int, u64)>
    decreases m,
{
    if m <= 0 {
        Seq::empty()
    } else {
        let rest = measure_upto(ix, m - 1);
        if ix[m - 1] > 0 {
            rest.push((ix.len() - m, ix[m - 1]))
        } else {
            rest
        }
    }
}

/// The terms of the lexicographic measure of `ix`.
pub open spec fn measure_terms(ix: Seq<u64>) -> Seq<(int, u64)> {
    measure_upto(ix, ix.len() as int)
}

/// `terms` are the ordinal terms with the given finite exponents and coefficients.
pub open spec fn has_finite_terms(terms: Seq<(Ord, u64)>, ts: Seq<(int, u64)>) -> bool {
    &&& terms.len() == ts.len()
    &&& forall|t: int| 0 <= t < ts.len() ==> {
        &&& is_nat(#[trigger] terms[t].0, ts[t].0 as u64)
        &&& terms[t].1 == ts[t].1
    }
}

proof fn lemma_measure_upto_bounds(ix: Seq<u64>, m: int)
    requires
        0 <= m <= ix.len(),
    ensures
        measure_upto(ix, m).len() <= m,
        forall|t: int| 0 <= t < measure_upto(ix, m).len() ==>
            ix.len() - m <= (#[trigger] measure_upto(ix, m)[t]).0 < ix.len() && measure_upto(ix, m)[t].1 > 0,
    decreases m,
{
    if m > 0 {
        lemma_measure_upto_bounds(ix, m - 1);
    }
}

/// `k - 1 - pos` as a `u64`.
fn exponent_at(k: usize, pos: usize) -> (e: u64)
    requires
        pos < k,
    ensures
        e == k - 1 - pos,
{
    (k - 1 - pos) as u64
}

/// Lexicographic termination measure of a nested loop at indices `(i₁,…,i_k)`:
/// `ω^{k-1}·i₁ + … + ω^0·i_k`, dropping zero coefficients.
pub fn lex_measure(indices: &[u64]) -> (o: Ord)
    ensures
        has_finite_terms(o.terms@, measure_terms(indices@)),
{
    let k = indices.len();
    let mut terms: Vec<(Ord, u64)> = Vec::new();
    let mut pos: usize = 0;
    while pos < k
        invariant
            k == indices@.len(),
            pos <= k,
            has_finite_terms(terms@, measure_upto(indices@, ix(pos))),
        decreases k - pos,
    {
        let v = indices[pos];
        let ghost before = terms@;
        if v > 0 {
            let exp = exponent_at(k, pos);
            let e = Ord::nat_of(exp);
            terms.push((e, v));
            assert(terms@ == before.push((terms@.last().0, v)));
            assert(is_nat(terms@[before.len() as int].0, exp));
            assert(exp == indices@.len() - (ix(pos) + 1));
        }
        proof {
            let m = ix(pos) + 1;
            let prev = measure_upto(indices@, ix(pos));
            let next = measure_upto(indices@, m);
            assert(indices@[m - 1] == v);
            if v > 0 {
                assert(next == prev.push((indices@.len() - m, v)));
                assert forall|t: int| 0 <= t < next.len() implies {
                    &&& is_nat(#[trigger] terms@[t].0, next[t].0 as u64)
                    &&& terms@[t].1 == next[t].1
                } by {
                    if t < prev.len() {
                        assert(terms@[t] == before[t]);
                        assert(is_nat(before[t].0, prev[t].0 as u64));
                        assert(next[t] == prev[t]);
                    } else {
                        assert(t == before.len());
                        assert(next[t] == (indices@.len() - m, v));
                    }
                }
                assert(terms@.len() == next.len());
                assert(has_finite_terms(terms@, next));
            } else {
                assert(next == prev);
            }
        }
        pos = pos + 1;
    }
    Ord { terms }
}

// ---- OIFC: prefix-sum-of-prefix-sums ----

/// `Σ_{j<k} a[j]`.
pub open spec fn psum(a: Seq<i64>, k: int) -> int
    decreases k,
{
    if k <= 0 { 0 } else { psum(a, k - 1) + a[k - 1] }
}

/// `Σ_{i'<i} Σ_{j≤i'} a[j]`: the accumulator after the first `i` outer iterations.
pub open spec fn rows(a: Seq<i64>, i: int) -> int
    decreases i,
{
    if i <= 0 { 0 } else { rows(a, i - 1) + psum(a, i) }
}

/// The accumulator right after step `(i, j)` of the nested loop.
pub open spec fn cum(a: Seq<i64>, i: int, j: int) -> int {
    rows(a, i) + psum(a, j + 1)
}

/// `Σ_{j<m} (i − j + 1)·a[j]`, a partial closed form.
pub open spec fn closed_upto(a: Seq<i64>, i: int, m: int) -> int
    decreases m,
{
    if m <= 0 { 0 } else { closed_upto(a, i, m - 1) + (i - (m - 1) + 1) * a[m - 1] }
}

/// The closed form `C(i) = Σ_{j=0}^{i} (i − j + 1)·a[j]`.
pub open spec fn closed(a: Seq<i64>, i: int) -> int {
    closed_upto(a, i, i + 1)
}

/// `Σ_{j<m} (i − j)·a[j]`, the off-by-one partial form.
pub open spec fn wrong_upto(a: Seq<i64>, i: int, m: int) -> int
    decreases m,
{
    if m <= 0 { 0 } else { wrong_upto(a, i, m - 1) + (i - (m - 1)) * a[m - 1] }
}

pub open spec fn fits(x: int) -> bool {
    i64::MIN <= x <= i64::MAX
}

/// Every accumulator value of the nested loop fits in `i64`.
pub open spec fn loop_fits(a: Seq<i64>) -> bool {
    forall|i: int, j: int| 0 <= j <= i < a.len() ==> fits(#[trigger] cum(a, i, j))
}

/// Every product and partial sum of the closed form at `i` fits in `i64`.
pub open spec fn closed_fits(a: Seq<i64>, i: int) -> bool {
    forall|j: int| 0 <= j <= i ==> fits((i - j + 1) * a[j]) && fits(#[trigger] closed_upto(a, i, j + 1))
}

/// Every product and partial sum of the off-by-one form at `i` fits in `i64`.
pub open spec fn wrong_fits(a: Seq<i64>, i: int) -> bool {
    forall|j: int| 0 <= j <= i ==> fits((i - j) * a[j]) && fits(#[trigger] wrong_upto(a, i, j + 1))
}

/// The prefix-sum-of-prefix-sums loop: `for i { for j ≤ i { T += a[j] }; result[i] = T }`.
pub fn prefix_of_prefix_loop(a: &[i64]) -> (result: Vec<i64>)
    requires
        loop_fits(a@),
    ensures
        result@.len() == a@.len(),
        forall|i: int| 0 <= i < a@.len() ==> result@[i] == rows(a@, i + 1),
{
    let mut t: i64 = 0;
    let mut result: Vec<i64> = Vec::new();
    let n = a.len();
    let mut i: usize = 0;
    while i < n
        invariant
            n == a@.len(),
            i <= n,
            loop_fits(a@),
            t == rows(a@, ix(i)),
            result@.len() == i,
            forall|k: int| 0 <= k < i ==> result@[k] == rows(a@, k + 1),
        decreases n - i,
    {
        let mut j: usize = 0;
        while j <= i
            invariant
                n == a@.len(),
                i < n,
                j <= i + 1,
                loop_fits(a@),
                t == rows(a@, ix(i)) + psum(a@, ix(j)),
            decreases i + 1 - j,
        {
            assert(fits(cum(a@, ix(i), ix(j))));
            t = t + a[j];
            j = j + 1;
        }
        result.push(t);
        i = i + 1;
    }
    result
}

/// The closed form `C(i) = Σ_{j=0}^{i} (i − j + 1)·a[j]`.
pub fn closed_form(a: &[i64], i: usize) -> (c: i64)
    requires
        i < a@.len() < i64::MAX,
        closed_fits(a@, ix(i)),
    ensures
        c == closed(a@, ix(i)),
{
    let mut acc: i64 = 0;
    let mut j: usize = 0;
    let ii = to_i64(i);
    while j <= i
        invariant
            i < a@.len() < i64::MAX,
            ii == i,
            j <= i + 1,
            closed_fits(a@, ix(i)),
            acc == closed_upto(a@, ix(i), ix(j)),
        decreases i + 1 - j,
    {
        assert(fits(closed_upto(a@, ix(i), ix(j) + 1)));
        let w = ii - to_i64(j) + 1;
        acc = acc + w * a[j];
        j = j + 1;
    }
    acc
}

/// The off-by-one closed form `Σ_{j=0}^{i} (i − j)·a[j]`.
pub fn closed_form_wrong(a: &[i64], i: usize) -> (c: i64)
    requires
        i < a@.len() < i64::MAX,
        wrong_fits(a@, ix(i)),
    ensures
        c == wrong_upto(a@, ix(i), ix(i) + 1),
{
    let mut acc: i64 = 0;
    let mut j: usize = 0;
    let ii = to_i64(i);
    while j <= i
        invariant
            i < a@.len() < i64::MAX,
            ii == i,
            j <= i + 1,
            wrong_fits(a@, ix(i)),
            acc == wrong_upto(a@, ix(i), ix(j)),
        decreases i + 1 - j,
    {
        assert(fits(wrong_upto(a@, ix(i), ix(j) + 1)));
        let w = ii - to_i64(j);
        acc = acc + w * a[j];
        j = j + 1;
    }
    acc
}

/// An index below the slice length as an `i64` (slice lengths are below `i64::MAX`).
fn to_i64(i: usize) -> (r: i64)
    requires
        i < 0x7fff_ffff_ffff_ffff,
    ensures
        r == i,
{
    i as i64
}

proof fn lemma_closed_shift(a: Seq<i64>, i: int, m: int)
    requires
        0 <= m <= a.len(),
    ensures
        closed_upto(a, i, m) == closed_upto(a, i - 1, m) + psum(a, m),
    decreases m,
{
    if m > 0 {
        lemma_closed_shift(a, i, m - 1);
        let x = a[m - 1] as int;
        assert((i - (m - 1) + 1) * x == (i - 1 - (m - 1) + 1) * x + x) by (nonlinear_arith);
    }
}

/// The closed form is the loop's output: `rows(a, i + 1) == C(i)`.
pub proof fn lemma_rows_closed(a: Seq<i64>, i: int)
    requires
        0 <= i < a.len(),
    ensures
        rows(a, i + 1) == closed(a, i),
    decreases i,
{
    lemma_closed_shift(a, i, i + 1);
    if i > 0 {
        lemma_rows_closed(a, i - 1);
    }
    assert(closed_upto(a, i - 1, i + 1) == closed_upto(a, i - 1, i) + (i - 1 - i + 1) * a[i]);
    let x = a[i] as int;
    assert((i - 1 - i + 1) * x == 0) by (nonlinear_arith);
    assert(closed_upto(a, i - 1, i + 1) == closed_upto(a, i - 1, i));
    assert(rows(a, i + 1) == rows(a, i) + psum(a, i + 1));
    if i == 0 {
        assert(closed_upto(a, -1, 0) == 0);
    } else {
        assert(rows(a, i) == closed(a, i - 1));
    }
}

proof fn lemma_wrong_closed(a: Seq<i64>, i: int, m: int)
    requires
        0 <= m <= a.len(),
    ensures
        wrong_upto(a, i, m) == closed_upto(a, i, m) - psum(a, m),
    decreases m,
{
    if m > 0 {
        lemma_wrong_closed(a, i, m - 1);
        let x = a[m - 1] as int;
        assert((i - (m - 1)) * x == (i - (m - 1) + 1) * x - x) by (nonlinear_arith);
    }
}

proof fn lemma_psum_nonzero(a: Seq<i64>, k: int)
    requires
        1 <= k <= a.len(),
        psum(a, k) != 0,
    ensures
        exists|j: int| 0 <= j < a.len() && a[j] != 0,
{
    if forall|j: int| 0 <= j < a.len() ==> a[j] == 0 {
        lemma_psum_zero_upto(a, k);
    }
}

proof fn lemma_psum_zero_upto(a: Seq<i64>, k: int)
    requires
        0 <= k <= a.len(),
        forall|j: int| 0 <= j < k ==> a[j] == 0,
    ensures
        psum(a, k) == 0,
    decreases k,
{
    if k > 0 {
        lemma_psum_zero_upto(a, k - 1);
    }
}

/// The accumulator value after step `(i, j)`, recomputed from scratch.
fn cum_exec(a: &[i64], i: usize, j: usize) -> (t: i64)
    requires
        j <= i < a@.len(),
        loop_fits(a@),
    ensures
        t == cum(a@, ix(i), ix(j)),
{
    let mut t: i64 = 0;
    let mut ii: usize = 0;
    while ii < i
        invariant
            j <= i < a@.len(),
            ii <= i,
            loop_fits(a@),
            t == rows(a@, ix(ii)),
        decreases i - ii,
    {
        let mut jj: usize = 0;
        while jj <= ii
            invariant
                j <= i < a@.len(),
                ii < i,
                jj <= ii + 1,
                loop_fits(a@),
                t == rows(a@, ix(ii)) + psum(a@, ix(jj)),
            decreases ii + 1 - jj,
        {
            assert(fits(cum(a@, ix(ii), ix(jj))));
            t = t + a[jj];
            jj = jj + 1;
        }
        ii = ii + 1;
    }
    let mut jj: usize = 0;
    while jj <= j
        invariant
            j <= i < a@.len(),
            jj <= j + 1,
            loop_fits(a@),
            t == rows(a@, ix(i)) + psum(a@, ix(jj)),
        decreases j + 1 - jj,
    {
        assert(fits(cum(a@, ix(i), ix(jj))));
        t = t + a[jj];
        jj = jj + 1;
    }
    t
}

/// `o` is the ordinal `ω·i + j`.
pub open spec fn is_mu(o: Ord, i: nat, j: nat) -> bool {
    &&& o.terms@.len() == (if i > 0 { 1int } else { 0 }) + (if j > 0 { 1int } else { 0 })
    &&& i > 0 ==> is_nat(o.terms@[0].0, 1) && o.terms@[0].1 == i
    &&& j > 0 ==> is_zero_spec(o.terms@.last().0) && o.terms@.last().1 == j
}

/// The measure `ω·i + j` of loop step `(i, j)`.
fn mu(i: usize, j: usize) -> (o: Ord)
    ensures
        is_mu(o, i as nat, j as nat),
{
    let mut terms: Vec<(Ord, u64)> = Vec::new();
    if i > 0 {
        terms.push((Ord::nat_of(1), i as u64));
    }
    if j > 0 {
        terms.push((Ord::zero(), j as u64));
    }
    Ord { terms }
}

proof fn lemma_nat1_equal(x: Ord, y: Ord)
    requires
        is_nat(x, 1),
        is_nat(y, 1),
    ensures
        ord_compare(x, y) == Ordering::Equal,
{
    let tx = x.terms@;
    let ty = y.terms@;
    assert(ord_compare(tx[0].0, ty[0].0) == Ordering::Equal);
    assert(tx.drop_first().len() == 0);
    assert(ty.drop_first().len() == 0);
    assert(terms_compare(tx.drop_first(), ty.drop_first()) == Ordering::Equal);
}

/// Inner step `j → j+1` strictly increases `ω·i + j`.
proof fn lemma_mu_inner(o1: Ord, o2: Ord, i: nat, j: nat)
    requires
        i > 0,
        is_mu(o1, i, j + 1),
        is_mu(o2, i, j),
    ensures
        ord_compare(o1, o2) == Ordering::Greater,
{
    let t1 = o1.terms@;
    let t2 = o2.terms@;
    lemma_nat1_equal(t1[0].0, t2[0].0);
    let r1 = t1.drop_first();
    let r2 = t2.drop_first();
    assert(r1.len() == 1);
    assert(r1[0] == t1.last());
    if j == 0 {
        assert(r2.len() == 0);
    } else {
        assert(r2.len() == 1);
        assert(r2[0] == t2.last());
        assert(ord_compare(r1[0].0, r2[0].0) == Ordering::Equal);
    }
    assert(terms_compare(r1, r2) == Ordering::Greater);
}

/// Outer step `(i, i) → (i+1, 0)` strictly increases the measure (the `ω·i + i → ω·(i+1)` jump).
proof fn lemma_mu_outer(o1: Ord, o2: Ord, i: nat)
    requires
        is_mu(o1, i + 1, 0),
        is_mu(o2, i, i),
    ensures
        ord_compare(o1, o2) == Ordering::Greater,
{
    let t1 = o1.terms@;
    let t2 = o2.terms@;
    if i > 0 {
        lemma_nat1_equal(t1[0].0, t2[0].0);
    }
}

/// OIFC certificate for the prefix-of-prefix loop: the closed form matches the loop at
/// every row, every inner step adds `a[j+1]` and raises the measure `ω·i + j`, and every
/// row boundary adds `a[0]` and raises the measure. Whenever the loop's arithmetic stays
/// within `i64`, the certificate holds.
pub fn oifc_certify(a: &[i64]) -> (ok: bool)
    requires
        a@.len() < i64::MAX,
        loop_fits(a@),
        forall|i: int| 0 <= i < a@.len() ==> #[trigger] closed_fits(a@, i),
    ensures
        ok,
{
    if a.len() == 0 {
        return true;
    }
    let n = a.len();
    let loop_out = prefix_of_prefix_loop(a);
    let mut i: usize = 0;
    while i < n
        invariant
            n == a@.len() < i64::MAX,
            forall|k: int| 0 <= k < a@.len() ==> #[trigger] closed_fits(a@, k),
            loop_out@.len() == n,
            forall|k: int| 0 <= k < a@.len() ==> loop_out@[k] == rows(a@, k + 1),
            i <= n,
        decreases n - i,
    {
        assert(closed_fits(a@, ix(i)));
        proof { lemma_rows_closed(a@, ix(i)); }
        if closed_form(a, i) != loop_out[i] {
            return false;
        }
        i = i + 1;
    }
    let mut i: usize = 0;
    while i < n
        invariant
            n == a@.len(),
            loop_fits(a@),
            i <= n,
        decreases n - i,
    {
        let mut j: usize = 0;
        while j < i
            invariant
                n == a@.len(),
                loop_fits(a@),
                i < n,
                j <= i,
            decreases i - j,
        {
            let c1 = cum_exec(a, i, j + 1);
            let c0 = cum_exec(a, i, j);
            assert(fits(cum(a@, ix(i), ix(j) + 1)));
            if c1 != c0 + a[j + 1] {
                return false;
            }
            let m1 = mu(i, j + 1);
            let m0 = mu(i, j);
            proof { lemma_mu_inner(m1, m0, nx(i), nx(j)); }
            match m1.ord_cmp(&m0) {
                Ordering::Greater => {},
                _ => { return false; },
            }
            j = j + 1;
        }
        i = i + 1;
    }
    let mut i: usize = 0;
    while i < n - 1
        invariant
            n == a@.len(),
            n >= 1,
            loop_fits(a@),
            i <= n - 1,
        decreases n - 1 - i,
    {
        let c1 = cum_exec(a, i + 1, 0);
        let c0 = cum_exec(a, i, i);
        assert(fits(cum(a@, ix(i) + 1, 0)));
        assert(rows(a@, ix(i) + 1) == rows(a@, ix(i)) + psum(a@, ix(i) + 1));
        assert(psum(a@, 1) == psum(a@, 0) + a@[0]);
        if c1 != c0 + a[0] {
            return false;
        }
        let m1 = mu(i + 1, 0);
        let m0 = mu(i, i);
        proof { lemma_mu_outer(m1, m0, nx(i)); }
        match m1.ord_cmp(&m0) {
            Ordering::Greater => {},
            _ => { return false; },
        }
        i = i + 1;
    }
    true
}

/// OIFC with the off-by-one closed form: whether it matches the loop at every row. It does
/// exactly when every entry of `a` is zero.
pub fn oifc_certify_wrong(a: &[i64]) -> (ok: bool)
    requires
        a@.len() < i64::MAX,
        loop_fits(a@),
        forall|i: int| 0 <= i < a@.len() ==> #[trigger] wrong_fits(a@, i),
    ensures
        ok == (forall|j: int| 0 <= j < a@.len() ==> a@[j] == 0),
{
    let n = a.len();
    let loop_out = prefix_of_prefix_loop(a);
    let mut i: usize = 0;
    while i < n
        invariant
            n == a@.len() < i64::MAX,
            forall|k: int| 0 <= k < a@.len() ==> #[trigger] wrong_fits(a@, k),
            loop_out@.len() == n,
            forall|k: int| 0 <= k < a@.len() ==> loop_out@[k] == rows(a@, k + 1),
            i <= n,
            forall|j: int| 0 <= j < i ==> a@[j] == 0,
        decreases n - i,
    {
        assert(wrong_fits(a@, ix(i)));
        proof {
            lemma_rows_closed(a@, ix(i));
            lemma_wrong_closed(a@, ix(i), ix(i) + 1);
        }
        if closed_form_wrong(a, i) != loop_out[i] {
            assert(psum(a@, ix(i) + 1) != 0);
            proof { lemma_psum_nonzero(a@, ix(i) + 1); }
            return false;
        }
        proof {
            lemma_psum_zero_upto(a@, ix(i));
            assert(psum(a@, ix(i) + 1) == psum(a@, ix(i)) + a@[ix(i)]);
        }
        i = i + 1;
    }
    true
}

/// The grade of a measure whose leading exponent is at least `ω` (the
/// Ackermann class): above every finite grade.
pub const ACKERMANN_LEVEL: u64 = 0xffff_ffff_ffff_ffffu64;

/// Fast-growing-hierarchy grade read off a measure's leading exponent: `0` for the
/// zero measure or a zero exponent (constant), the exponent `k` itself when it is
/// finite (`1` polynomial, `2` exponential, ...), and `ACKERMANN_LEVEL` when the
/// exponent is at least `ω`.
pub open spec fn fgh_spec(m: Ord) -> u64 {
    if m.terms@.len() == 0 {
        0
    } else if m.terms@[0].0.terms@.len() == 0 {
        0
    } else if m.terms@[0].0.terms@[0].0.terms@.len() == 0 {
        m.terms@[0].0.terms@[0].1
    } else {
        ACKERMANN_LEVEL
    }
}

/// The fast-growing-hierarchy grade of a termination measure (`fgh_spec`).
pub fn fgh_level(measure: &Ord) -> (l: u64)
    ensures
        l == fgh_spec(*measure),
{
    if measure.terms.len() == 0 {
        0
    } else {
        let e = &measure.terms[0].0;
        if e.is_zero() {
            0
        } else if e.terms[0].0.is_zero() {
            e.terms[0].1
        } else {
            ACKERMANN_LEVEL
        }
    }
}

/// A measure whose leading exponent is at least `ω` grades above the
/// exponential class, and above every measure whose leading exponent is finite.
pub proof fn lemma_fgh_ackermann(m: Ord, f: Ord)
    requires
        m.terms@.len() > 0,
        m.terms@[0].0.terms@.len() > 0,
        m.terms@[0].0.terms@[0].0.terms@.len() > 0,
        f.terms@.len() > 0 ==> f.terms@[0].0.terms@.len() > 0 ==> f.terms@[0].0.terms@[0].0.terms@.len()
            == 0,
        f.terms@.len() > 0 ==> f.terms@[0].0.terms@.len() > 0 ==> f.terms@[0].0.terms@[0].1
            < ACKERMANN_LEVEL,
    ensures
        fgh_spec(m) > 2,
        fgh_spec(f) < fgh_spec(m),
{
}

// ---- the comparison is a total order ----

/// Every ordinal compares equal to itself.
pub proof fn lemma_compare_reflexive(a: Ord)
    ensures
        ord_compare(a, a) == Ordering::Equal,
    decreases a,
{
    lemma_terms_reflexive(a.terms@);
}

proof fn lemma_terms_reflexive(t: Seq<(Ord, u64)>)
    ensures
        terms_compare(t, t) == Ordering::Equal,
    decreases t,
{
    if t.len() > 0 {
        lemma_compare_reflexive(t[0].0);
        lemma_terms_reflexive(t.drop_first());
    }
}

/// Swapping the operands reverses the comparison.
pub proof fn lemma_compare_antisymmetric(a: Ord, b: Ord)
    ensures
        ord_compare(b, a) == flip(ord_compare(a, b)),
    decreases a,
{
    lemma_terms_antisymmetric(a.terms@, b.terms@);
}

proof fn lemma_terms_antisymmetric(t1: Seq<(Ord, u64)>, t2: Seq<(Ord, u64)>)
    ensures
        terms_compare(t2, t1) == flip(terms_compare(t1, t2)),
    decreases t1,
{
    if t1.len() > 0 && t2.len() > 0 {
        lemma_compare_antisymmetric(t1[0].0, t2[0].0);
        lemma_terms_antisymmetric(t1.drop_first(), t2.drop_first());
    }
}

/// Two ordinal notations are the same term by term: the same number of terms,
/// and at each place the same exponent (recursively) and the same coefficient.
pub open spec fn ord_same(a: Ord, b: Ord) -> bool
    decreases a,
{
    terms_same(a.terms@, b.terms@)
}

/// Two term lists are the same term by term (see [`ord_same`]).
pub open spec fn terms_same(t1: Seq<(Ord, u64)>, t2: Seq<(Ord, u64)>) -> bool
    decreases t1,
{
    if t1.len() == 0 || t2.len() == 0 {
        t1.len() == t2.len()
    } else {
        ord_same(t1[0].0, t2[0].0) && t1[0].1 == t2[0].1 && terms_same(
            t1.drop_first(),
            t2.drop_first(),
        )
    }
}

/// The comparison reports `Equal` exactly for the same notation.
pub proof fn lemma_compare_equal_iff_same(a: Ord, b: Ord)
    ensures
        ord_compare(a, b) == Ordering::Equal <==> ord_same(a, b),
    decreases a,
{
    lemma_terms_equal_iff_same(a.terms@, b.terms@);
}

proof fn lemma_terms_equal_iff_same(t1: Seq<(Ord, u64)>, t2: Seq<(Ord, u64)>)
    ensures
        terms_compare(t1, t2) == Ordering::Equal <==> terms_same(t1, t2),
    decreases t1,
{
    if t1.len() > 0 && t2.len() > 0 {
        lemma_compare_equal_iff_same(t1[0].0, t2[0].0);
        lemma_terms_equal_iff_same(t1.drop_first(), t2.drop_first());
    }
}

/// The exponent of term `t` as a `u64`.
pub open spec fn exp_of(ts: Seq<(int, u64)>, t: int) -> u64 {
    ts[t].0 as u64
}

/// The exponents of a measure lie below the number of positions, and the terms
/// of a tuple without its first position lie below one fewer.
proof fn lemma_measure_terms_bounds(ix: Seq<u64>)
    ensures
        forall|t: int|
            0 <= t < measure_terms(ix).len() ==> 0 <= (#[trigger] measure_terms(ix)[t]).0 < ix.len(),
        ix.len() > 0 ==> forall|t: int|
            0 <= t < measure_terms(ix.drop_first()).len() ==> 0 <= (
            #[trigger] measure_terms(ix.drop_first())[t]).0 < ix.len() - 1,
{
    lemma_measure_upto_bounds(ix, ix.len() as int);
    if ix.len() > 0 {
        lemma_measure_upto_bounds(ix.drop_first(), ix.drop_first().len() as int);
    }
}

/// The measure's terms split at the first position (see [`lemma_measure_front`]).
proof fn lemma_measure_terms_front(ix: Seq<u64>)
    requires
        ix.len() >= 1,
    ensures
        measure_terms(ix) == measure_head(ix) + measure_terms(ix.drop_first()),
{
    lemma_measure_front(ix, ix.len() as int);
}

/// Lexicographic comparison of two index tuples, first position first.
pub open spec fn lex_seq_compare(a: Seq<u64>, b: Seq<u64>) -> Ordering
    decreases a.len(),
{
    if a.len() == 0 || b.len() == 0 {
        if a.len() < b.len() {
            Ordering::Less
        } else if a.len() == b.len() {
            Ordering::Equal
        } else {
            Ordering::Greater
        }
    } else if a[0] < b[0] {
        Ordering::Less
    } else if a[0] > b[0] {
        Ordering::Greater
    } else {
        lex_seq_compare(a.drop_first(), b.drop_first())
    }
}

/// The comparison of two lists of finite terms `(exponent, coefficient)`, as
/// `terms_compare` compares the ordinal terms they stand for.
pub open spec fn fin_compare(a: Seq<(int, u64)>, b: Seq<(int, u64)>) -> Ordering
    decreases a.len(),
{
    if a.len() == 0 || b.len() == 0 {
        if a.len() < b.len() {
            Ordering::Less
        } else if a.len() == b.len() {
            Ordering::Equal
        } else {
            Ordering::Greater
        }
    } else if a[0].0 < b[0].0 {
        Ordering::Less
    } else if a[0].0 > b[0].0 {
        Ordering::Greater
    } else if a[0].1 < b[0].1 {
        Ordering::Less
    } else if a[0].1 > b[0].1 {
        Ordering::Greater
    } else {
        fin_compare(a.drop_first(), b.drop_first())
    }
}

/// Finite ordinals compare as their values.
proof fn lemma_nat_compare(x: Ord, y: Ord, a: u64, b: u64)
    requires
        is_nat(x, a),
        is_nat(y, b),
    ensures
        ord_compare(x, y) == (if a < b {
            Ordering::Less
        } else if a == b {
            Ordering::Equal
        } else {
            Ordering::Greater
        }),
{
    let tx = x.terms@;
    let ty = y.terms@;
    assert(ord_compare(x, y) == terms_compare(tx, ty));
    if a > 0 && b > 0 {
        assert(tx[0].0.terms@.len() == 0 && ty[0].0.terms@.len() == 0);
        assert(terms_compare(tx[0].0.terms@, ty[0].0.terms@) == Ordering::Equal);
        assert(ord_compare(tx[0].0, ty[0].0) == Ordering::Equal);
        assert(tx.drop_first().len() == 0);
        assert(ty.drop_first().len() == 0);
        assert(terms_compare(tx.drop_first(), ty.drop_first()) == Ordering::Equal);
    }
}

/// Ordinal terms with finite exponents compare as their `(exponent,
/// coefficient)` lists.
proof fn lemma_terms_fin(t1: Seq<(Ord, u64)>, ts1: Seq<(int, u64)>, t2: Seq<(Ord, u64)>, ts2: Seq<(int, u64)>)
    requires
        has_finite_terms(t1, ts1),
        has_finite_terms(t2, ts2),
        forall|t: int| 0 <= t < ts1.len() ==> 0 <= #[trigger] ts1[t].0 <= u64::MAX,
        forall|t: int| 0 <= t < ts2.len() ==> 0 <= #[trigger] ts2[t].0 <= u64::MAX,
    ensures
        terms_compare(t1, t2) == fin_compare(ts1, ts2),
    decreases t1.len(),
{
    if t1.len() > 0 && t2.len() > 0 {
        assert(is_nat(t1[0].0, exp_of(ts1, 0)));
        assert(is_nat(t2[0].0, exp_of(ts2, 0)));
        lemma_nat_compare(t1[0].0, t2[0].0, exp_of(ts1, 0), exp_of(ts2, 0));
        assert(has_finite_terms(t1.drop_first(), ts1.drop_first())) by {
            assert forall|t: int| 0 <= t < ts1.drop_first().len() implies {
                &&& is_nat(#[trigger] t1.drop_first()[t].0, exp_of(ts1.drop_first(), t))
                &&& t1.drop_first()[t].1 == ts1.drop_first()[t].1
            } by {
                assert(is_nat(t1[t + 1].0, exp_of(ts1, t + 1)));
            }
        }
        assert(has_finite_terms(t2.drop_first(), ts2.drop_first())) by {
            assert forall|t: int| 0 <= t < ts2.drop_first().len() implies {
                &&& is_nat(#[trigger] t2.drop_first()[t].0, exp_of(ts2.drop_first(), t))
                &&& t2.drop_first()[t].1 == ts2.drop_first()[t].1
            } by {
                assert(is_nat(t2[t + 1].0, exp_of(ts2, t + 1)));
            }
        }
        assert forall|t: int| 0 <= t < ts1.drop_first().len() implies 0 <= #[trigger] ts1.drop_first()[t].0
            <= u64::MAX by {
            assert(ts1.drop_first()[t] == ts1[t + 1]);
        }
        assert forall|t: int| 0 <= t < ts2.drop_first().len() implies 0 <= #[trigger] ts2.drop_first()[t].0
            <= u64::MAX by {
            assert(ts2.drop_first()[t] == ts2[t + 1]);
        }
        lemma_terms_fin(t1.drop_first(), ts1.drop_first(), t2.drop_first(), ts2.drop_first());
    }
}

/// The leading term that position 0 of `ix` contributes, if its index is nonzero.
pub open spec fn measure_head(ix: Seq<u64>) -> Seq<(int, u64)> {
    if ix[0] > 0 {
        seq![(ix.len() - 1, ix[0])]
    } else {
        seq![]
    }
}

/// The measure's terms are the first position's term followed by the terms of
/// the rest, with the same exponents.
proof fn lemma_measure_front(ix: Seq<u64>, m: int)
    requires
        1 <= m <= ix.len(),
    ensures
        measure_upto(ix, m) == measure_head(ix) + measure_upto(ix.drop_first(), m - 1),
    decreases m,
{
    if m == 1 {
        assert(measure_upto(ix.drop_first(), 0) =~= Seq::<(int, u64)>::empty());
        assert(measure_upto(ix, 0) =~= Seq::<(int, u64)>::empty());
        assert(measure_upto(ix, 1) =~= measure_head(ix) + measure_upto(ix.drop_first(), 0));
    } else {
        lemma_measure_front(ix, m - 1);
        let df = ix.drop_first();
        assert(df[m - 2] == ix[m - 1]);
        assert(df.len() - (m - 1) == ix.len() - m);
        if ix[m - 1] > 0 {
            assert((measure_head(ix) + measure_upto(df, m - 2)).push((ix.len() - m, ix[m - 1]))
                =~= measure_head(ix) + measure_upto(df, m - 2).push((ix.len() - m, ix[m - 1])));
        }
    }
}

/// Equal-length measures compare as their index tuples, lexicographically.
proof fn lemma_measure_lex(ix: Seq<u64>, iy: Seq<u64>)
    requires
        ix.len() == iy.len(),
    ensures
        fin_compare(measure_terms(ix), measure_terms(iy)) == lex_seq_compare(ix, iy),
    decreases ix.len(),
{
    let n = ix.len();
    if n == 0 {
        assert(measure_terms(ix).len() == 0 && measure_terms(iy).len() == 0);
    } else {
        let dx = ix.drop_first();
        let dy = iy.drop_first();
        lemma_measure_terms_front(ix);
        lemma_measure_terms_front(iy);
        lemma_measure_lex(dx, dy);
        lemma_measure_terms_bounds(ix);
        lemma_measure_terms_bounds(iy);
        let rx = measure_terms(dx);
        let ry = measure_terms(dy);
        let tx = measure_terms(ix);
        let ty = measure_terms(iy);
        assert(tx == measure_head(ix) + rx);
        assert(ty == measure_head(iy) + ry);
        if ix[0] == iy[0] {
            if ix[0] > 0 {
                assert(tx.drop_first() =~= rx);
                assert(ty.drop_first() =~= ry);
            } else {
                assert(tx =~= rx);
                assert(ty =~= ry);
            }
        } else if ix[0] > iy[0] {
            assert(tx[0] == (n - 1, ix[0]));
            if iy[0] > 0 {
                assert(ty[0] == (n - 1, iy[0]));
            } else {
                assert(ty =~= ry);
                if ry.len() > 0 {
                    assert(ry[0].0 < n - 1);
                }
            }
        } else {
            assert(ty[0] == (n - 1, iy[0]));
            if ix[0] > 0 {
                assert(tx[0] == (n - 1, ix[0]));
            } else {
                assert(tx =~= rx);
                if rx.len() > 0 {
                    assert(rx[0].0 < n - 1);
                }
            }
        }
    }
}

/// Lexicographic termination measures of equal-length index tuples compare as
/// the tuples do, first position first.
pub proof fn lemma_lex_measure_order(ix: Seq<u64>, iy: Seq<u64>, ox: Ord, oy: Ord)
    requires
        ix.len() == iy.len(),
        ix.len() <= u64::MAX,
        has_finite_terms(ox.terms@, measure_terms(ix)),
        has_finite_terms(oy.terms@, measure_terms(iy)),
    ensures
        ord_compare(ox, oy) == lex_seq_compare(ix, iy),
{
    lemma_measure_terms_bounds(ix);
    lemma_measure_terms_bounds(iy);
    lemma_terms_fin(ox.terms@, measure_terms(ix), oy.terms@, measure_terms(iy));
    lemma_measure_lex(ix, iy);
}

/// `a ≤ b ≤ c` gives `a ≤ c`, strictly when either step is strict.
pub proof fn lemma_compare_transitive(a: Ord, b: Ord, c: Ord)
    ensures
        ord_compare(a, b) == Ordering::Equal && ord_compare(b, c) == Ordering::Equal
            ==> ord_compare(a, c) == Ordering::Equal,
        ord_compare(a, b) == Ordering::Less && ord_compare(b, c) != Ordering::Greater
            ==> ord_compare(a, c) == Ordering::Less,
        ord_compare(a, b) != Ordering::Greater && ord_compare(b, c) == Ordering::Less
            ==> ord_compare(a, c) == Ordering::Less,
    decreases a,
{
    lemma_terms_transitive(a.terms@, b.terms@, c.terms@);
}

proof fn lemma_terms_transitive(t1: Seq<(Ord, u64)>, t2: Seq<(Ord, u64)>, t3: Seq<(Ord, u64)>)
    ensures
        terms_compare(t1, t2) == Ordering::Equal && terms_compare(t2, t3) == Ordering::Equal
            ==> terms_compare(t1, t3) == Ordering::Equal,
        terms_compare(t1, t2) == Ordering::Less && terms_compare(t2, t3) != Ordering::Greater
            ==> terms_compare(t1, t3) == Ordering::Less,
        terms_compare(t1, t2) != Ordering::Greater && terms_compare(t2, t3) == Ordering::Less
            ==> terms_compare(t1, t3) == Ordering::Less,
    decreases t1,
{
    if t1.len() > 0 && t2.len() > 0 && t3.len() > 0 {
        lemma_compare_transitive(t1[0].0, t2[0].0, t3[0].0);
        lemma_terms_transitive(t1.drop_first(), t2.drop_first(), t3.drop_first());
    }
}

} // verus!
