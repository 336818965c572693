//! Rational sum-of-squares certificates of nonnegativity.
//!
//! A polynomial `p` is certified nonnegative when `p = zᵀ Q z` holds exactly for
//! the vector `z` of monomials up to half the degree and a rational `Q` whose
//! exact LDLᵀ pivots are all nonnegative. The candidate `Q` comes from a
//! diagonal-placement guess, or from a rounded numeric matrix supplied by the
//! caller; the identity is repaired and then checked exactly. Whatever cannot
//! be certified is deferred.

use vstd::prelude::*;
use crate::rational::{
    lemma_bump_hit, lemma_bump_step, lemma_cancel, lemma_pos_mul, lemma_reduce_value, lemma_reduce_zero, lemma_rep_add,
    lemma_rep_eq, lemma_rep_move, lemma_rep_self, qv_add, qv_eq, qv_div, qv_mul, qv_sub, qv_zero, reduce, rep, Rat,
};
use crate::text::str_to_string;

verus! {

/// A polynomial as a list of (exponent tuple, coefficient) entries. A later
/// entry for the same exponent tuple overrides an earlier one.
pub struct SosPoly {
    pub terms: Vec<(Vec<usize>, Rat)>,
}

impl SosPoly {
    /// Every coefficient is a canonical rational.
    pub open spec fn wf(&self) -> bool {
        forall|t: int| 0 <= t < self.terms@.len() ==> (#[trigger] self.terms@[t]).1.wf()
    }

    /// Whether every coefficient is canonical (`wf`).
    pub fn is_wf(&self) -> (b: bool)
        ensures
            b == self.wf(),
    {
        let mut i: usize = 0;
        while i < self.terms.len()
            invariant
                i <= self.terms@.len(),
                forall|t: int| 0 <= t < i ==> (#[trigger] self.terms@[t]).1.wf(),
            decreases self.terms.len() - i,
        {
            if !self.terms[i].1.is_wf() {
                return false;
            }
            i = i + 1;
        }
        true
    }

    /// The entries as plain values.
    pub open spec fn entries(&self) -> Seq<(Seq<usize>, (int, nat))> {
        self.terms@.map_values(|p: (Vec<usize>, Rat)| (p.0@, p.1@))
    }
}

/// The coefficient of exponent tuple `e`: the value of the last entry for `e`,
/// or zero when there is none.
pub open spec fn coef_in(ent: Seq<(Seq<usize>, (int, nat))>, e: Seq<usize>) -> (int, nat)
    decreases ent.len(),
{
    if ent.len() == 0 {
        qv_zero()
    } else if ent.last().0 == e {
        ent.last().1
    } else {
        coef_in(ent.drop_last(), e)
    }
}

/// The coefficient of `e` in `p`.
pub open spec fn coef(p: SosPoly, e: Seq<usize>) -> (int, nat) {
    coef_in(p.entries(), e)
}


/// A polynomial from (exponent tuple, integer coefficient) pairs.
pub fn poly_from(terms: &Vec<(Vec<usize>, i64)>) -> (p: SosPoly)
    ensures
        p.wf(),
        p.entries().len() == terms@.len(),
        forall|t: int|
            0 <= t < terms@.len() ==> #[trigger] p.entries()[t] == (terms@[t].0@, (terms@[t].1 as int, 1nat)),
{
    let mut out: Vec<(Vec<usize>, Rat)> = Vec::new();
    let mut t: usize = 0;
    while t < terms.len()
        invariant
            t <= terms@.len(),
            out@.len() == t,
            forall|s: int| 0 <= s < t ==> (#[trigger] out@[s]).1.wf(),
            forall|s: int|
                0 <= s < t ==> (#[trigger] out@[s]).0@ == terms@[s].0@ && out@[s].1@ == (
                    terms@[s].1 as int,
                    1nat,
                ),
        decreases terms.len() - t,
    {
        let e = copy_exp(&terms[t].0);
        let c = Rat::from_i64(terms[t].1);
        out.push((e, c));
        t = t + 1;
    }
    let p = SosPoly { terms: out };
    assert forall|s: int| 0 <= s < terms@.len() implies #[trigger] p.entries()[s] == (
        terms@[s].0@,
        (terms@[s].1 as int, 1nat),
    ) by {
        assert(p.entries()[s] == (p.terms@[s].0@, p.terms@[s].1@));
    }
    p
}

/// A copy of an exponent tuple.
fn copy_exp(e: &Vec<usize>) -> (r: Vec<usize>)
    ensures
        r@ == e@,
{
    let mut r: Vec<usize> = Vec::new();
    let mut k: usize = 0;
    while k < e.len()
        invariant
            k <= e@.len(),
            r@ == e@.take(k as int),
        decreases e.len() - k,
    {
        r.push(e[k]);
        k = k + 1;
        assert(r@ =~= e@.take(k as int));
    }
    assert(r@ =~= e@);
    r
}

/// Are two exponent tuples equal?
fn exp_eq(a: &Vec<usize>, b: &Vec<usize>) -> (r: bool)
    ensures
        r == (a@ == b@),
{
    if a.len() != b.len() {
        return false;
    }
    let mut k: usize = 0;
    while k < a.len()
        invariant
            a@.len() == b@.len(),
            k <= a@.len(),
            forall|q: int| 0 <= q < k ==> a@[q] == b@[q],
        decreases a.len() - k,
    {
        if a[k] != b[k] {
            return false;
        }
        k = k + 1;
    }
    assert(a@ =~= b@);
    true
}

/// The coefficient of `e` in `p`, found by a scan from the last entry.
fn coef_of(p: &SosPoly, e: &Vec<usize>) -> (c: Rat)
    requires
        p.wf(),
    ensures
        c.wf(),
        c@ == coef(*p, e@),
{
    let ghost ent = p.entries();
    let mut t: usize = p.terms.len();
    assert(ent.take(t as int) =~= ent);
    while t > 0
        invariant
            p.wf(),
            ent == p.entries(),
            t <= p.terms@.len(),
            coef_in(ent, e@) == coef_in(ent.take(t as int), e@),
        decreases t,
    {
        let ghost pre = ent.take(t as int);
        assert(pre.drop_last() =~= ent.take(t - 1));
        assert(pre.last() == (p.terms@[t - 1].0@, p.terms@[t - 1].1@));
        if exp_eq(&p.terms[t - 1].0, e) {
            return p.terms[t - 1].1.copy();
        }
        t = t - 1;
    }
    assert(ent.take(0) =~= Seq::<(Seq<usize>, (int, nat))>::empty());
    Rat::zero()
}

// ---------------------------------------------------------------------------
// The monomial basis
// ---------------------------------------------------------------------------

/// The exponent tuples of length `n` with entries summing to `t`, the first
/// entry descending, each later position ordered the same way.
pub open spec fn tuples(n: nat, t: nat) -> Seq<Seq<usize>>
    decreases n, t + 2,
{
    if n == 0 {
        if t == 0 {
            seq![Seq::<usize>::empty()]
        } else {
            Seq::empty()
        }
    } else {
        tuples_below(n, t, t + 1)
    }
}

/// The tuples of `tuples(n, t)` whose first entry is below `c`, first entry descending.
pub open spec fn tuples_below(n: nat, t: nat, c: nat) -> Seq<Seq<usize>>
    decreases n, c,
{
    if n == 0 || c == 0 {
        Seq::empty()
    } else {
        let v = (c - 1) as nat;
        let head = if v <= t {
            tuples((n - 1) as nat, (t - v) as nat).map_values(|s: Seq<usize>| seq![v as usize] + s)
        } else {
            Seq::empty()
        };
        head + tuples_below(n, t, v)
    }
}

/// The monomials of total degree below `k`, by total degree.
pub open spec fn monomials_below(n: nat, k: nat) -> Seq<Seq<usize>>
    decreases k,
{
    if k == 0 {
        Seq::empty()
    } else {
        monomials_below(n, (k - 1) as nat) + tuples(n, (k - 1) as nat)
    }
}

/// The exponent tuples of a list of tuples.
pub open spec fn exps_view(b: Seq<Vec<usize>>) -> Seq<Seq<usize>> {
    b.map_values(|v: Vec<usize>| v@)
}

/// The length-`n` tuples summing to `t`.
fn tuples_exec(n: usize, t: usize) -> (r: Vec<Vec<usize>>)
    requires
        t < usize::MAX,
    ensures
        exps_view(r@) == tuples(n as nat, t as nat),
    decreases n, t + 2,
{
    if n == 0 {
        let mut r: Vec<Vec<usize>> = Vec::new();
        if t == 0 {
            r.push(Vec::new());
            assert(exps_view(r@) =~= seq![Seq::<usize>::empty()]);
        } else {
            assert(exps_view(r@) =~= Seq::<Seq<usize>>::empty());
        }
        r
    } else {
        tuples_below_exec(n, t, t + 1)
    }
}

/// The length-`n` tuples summing to `t` with first entry below `c`.
fn tuples_below_exec(n: usize, t: usize, c: usize) -> (r: Vec<Vec<usize>>)
    requires
        t < usize::MAX,
        c <= t + 1,
    ensures
        exps_view(r@) == tuples_below(n as nat, t as nat, c as nat),
    decreases n, c,
{
    if n == 0 || c == 0 {
        let r: Vec<Vec<usize>> = Vec::new();
        assert(exps_view(r@) =~= Seq::<Seq<usize>>::empty());
        return r;
    }
    let v = c - 1;
    let sub = tuples_exec(n - 1, t - v);
    let ghost subv = tuples((n - 1) as nat, (t - v) as nat);
    let ghost head = subv.map_values(|s: Seq<usize>| seq![v as usize] + s);
    let mut r: Vec<Vec<usize>> = Vec::new();
    let mut k: usize = 0;
    while k < sub.len()
        invariant
            exps_view(sub@) == subv,
            head == subv.map_values(|s: Seq<usize>| seq![v as usize] + s),
            k <= sub@.len(),
            exps_view(r@) == head.take(k as int),
        decreases sub.len() - k,
    {
        let mut e: Vec<usize> = Vec::new();
        e.push(v);
        let mut q: usize = 0;
        while q < sub[k].len()
            invariant
                k < sub@.len(),
                q <= sub@[k as int]@.len(),
                e@ == seq![v] + sub@[k as int]@.take(q as int),
            decreases sub@[k as int]@.len() - q,
        {
            e.push(sub[k][q]);
            q = q + 1;
            assert(e@ =~= seq![v] + sub@[k as int]@.take(q as int));
        }
        assert(sub@[k as int]@.take(q as int) =~= sub@[k as int]@);
        assert(subv[k as int] == sub@[k as int]@);
        assert(head[k as int] == seq![v as usize] + subv[k as int]);
        let ghost old_r = exps_view(r@);
        r.push(e);
        assert(exps_view(r@) =~= old_r.push(head[k as int]));
        k = k + 1;
        assert(exps_view(r@) =~= head.take(k as int));
    }
    assert(head.take(k as int) =~= head);
    let rest = tuples_below_exec(n, t, v);
    let mut out = r;
    let mut q: usize = 0;
    let ghost base = exps_view(out@);
    while q < rest.len()
        invariant
            base == head,
            exps_view(rest@) == tuples_below(n as nat, t as nat, v as nat),
            q <= rest@.len(),
            exps_view(out@) == base + exps_view(rest@).take(q as int),
        decreases rest.len() - q,
    {
        let e = copy_exp(&rest[q]);
        assert(exps_view(rest@)[q as int] == rest@[q as int]@);
        let ghost old_o = exps_view(out@);
        out.push(e);
        assert(exps_view(out@) =~= old_o.push(rest@[q as int]@));
        q = q + 1;
        assert(exps_view(out@) =~= base + exps_view(rest@).take(q as int));
    }
    assert(exps_view(rest@).take(q as int) =~= exps_view(rest@));
    out
}

/// All monomials (exponent tuples) in `nvars` variables up to total degree
/// `deg`: by total degree, and within one degree by descending first entry,
/// then descending second entry, and so on.
pub fn monomials(nvars: usize, deg: usize) -> (r: Vec<Vec<usize>>)
    requires
        deg < usize::MAX,
    ensures
        exps_view(r@) == monomials_below(nvars as nat, (deg + 1) as nat),
{
    let mut out: Vec<Vec<usize>> = Vec::new();
    let mut total: usize = 0;
    assert(exps_view(out@) =~= monomials_below(nvars as nat, 0));
    while total <= deg
        invariant
            deg < usize::MAX,
            total <= deg + 1,
            exps_view(out@) == monomials_below(nvars as nat, total as nat),
        decreases deg + 1 - total,
    {
        let block = tuples_exec(nvars, total);
        let ghost base = exps_view(out@);
        let mut q: usize = 0;
        while q < block.len()
            invariant
                q <= block@.len(),
                exps_view(out@) == base + exps_view(block@).take(q as int),
            decreases block.len() - q,
        {
            let e = copy_exp(&block[q]);
            assert(exps_view(block@)[q as int] == block@[q as int]@);
            let ghost old_o = exps_view(out@);
            out.push(e);
            assert(exps_view(out@) =~= old_o.push(block@[q as int]@));
            q = q + 1;
            assert(exps_view(out@) =~= base + exps_view(block@).take(q as int));
        }
        assert(exps_view(block@).take(q as int) =~= exps_view(block@));
        total = total + 1;
    }
    out
}

// ---------------------------------------------------------------------------
// Exact LDLᵀ
// ---------------------------------------------------------------------------

/// A matrix of rationals as plain values.
pub open spec fn mat_view(m: Seq<Vec<Rat>>) -> Seq<Seq<(int, nat)>> {
    m.map_values(|row: Vec<Rat>| row@.map_values(|x: Rat| x@))
}

/// `n` rows or more, each with at least `n` entries, every entry canonical.
pub open spec fn mat_wf(m: Seq<Vec<Rat>>, n: nat) -> bool {
    &&& m.len() >= n
    &&& forall|i: int| 0 <= i < m.len() ==> (#[trigger] m[i])@.len() >= n
    &&& forall|i: int, j: int| 0 <= i < m.len() && 0 <= j < m[i]@.len() ==> (#[trigger] m[i]@[j]).wf()
}

/// The multiplier `m[i][k] / m[k][k]` of elimination step `k`.
pub open spec fn ldl_factor(m: Seq<Seq<(int, nat)>>, k: int, i: int) -> (int, nat) {
    qv_div(m[i][k], m[k][k])
}

/// Elimination step `k` on the trailing block of an `n x n` matrix:
/// `m[i][j] -= (l_i * m[k][k]) * l_j` for `i, j > k`.
pub open spec fn ldl_update(m: Seq<Seq<(int, nat)>>, k: int, n: int) -> Seq<Seq<(int, nat)>> {
    Seq::new(
        m.len(),
        |i: int|
            Seq::new(
                m[i].len(),
                |j: int|
                    if k < i < n && k < j < n {
                        qv_sub(m[i][j], qv_mul(qv_mul(ldl_factor(m, k, i), m[k][k]), ldl_factor(m, k, j)))
                    } else {
                        m[i][j]
                    },
            ),
    )
}

proof fn lemma_update_entry(m: Seq<Seq<(int, nat)>>, k: int, n: int, i: int, j: int)
    requires
        0 <= i < m.len(),
        0 <= j < m[i].len(),
    ensures
        ldl_update(m, k, n).len() == m.len(),
        ldl_update(m, k, n)[i].len() == m[i].len(),
        ldl_update(m, k, n)[i][j] == (if k < i < n && k < j < n {
            qv_sub(m[i][j], qv_mul(qv_mul(ldl_factor(m, k, i), m[k][k]), ldl_factor(m, k, j)))
        } else {
            m[i][j]
        }),
{
}

/// The matrix before elimination step `k` (a zero pivot skips its step).
pub open spec fn ldl_state(q: Seq<Seq<(int, nat)>>, k: nat, n: int) -> Seq<Seq<(int, nat)>>
    decreases k,
{
    if k == 0 {
        q
    } else {
        let m = ldl_state(q, (k - 1) as nat, n);
        if m[k - 1][k - 1].0 == 0 {
            m
        } else {
            ldl_update(m, k - 1, n)
        }
    }
}

/// A zero pivot at step `k` with a nonzero entry below it.
pub open spec fn ldl_saddle(m: Seq<Seq<(int, nat)>>, k: int, n: int) -> bool {
    m[k][k].0 == 0 && exists|i: int| k < i < n && (#[trigger] m[i][k]).0 != 0
}

/// The first step from `k` on that meets a saddle, or `n`.
pub open spec fn ldl_stop_from(q: Seq<Seq<(int, nat)>>, k: nat, n: nat) -> nat
    decreases n - k,
{
    if k >= n {
        n
    } else if ldl_saddle(ldl_state(q, k, n as int), k as int, n as int) {
        k
    } else {
        ldl_stop_from(q, k + 1, n)
    }
}

/// The pivots recorded up to the stopping step; zero after it.
pub open spec fn ldl_pivots(q: Seq<Seq<(int, nat)>>, n: nat) -> Seq<(int, nat)> {
    let s = ldl_stop_from(q, 0, n);
    Seq::new(n, |k: int| if k <= s { ldl_state(q, k as nat, n as int)[k][k] } else { qv_zero() })
}

/// The factorization completes and every pivot is nonnegative.
pub open spec fn ldl_psd(q: Seq<Seq<(int, nat)>>, n: nat) -> bool {
    ldl_stop_from(q, 0, n) == n && forall|k: int| 0 <= k < n ==> (#[trigger] ldl_pivots(q, n)[k]).0 >= 0
}

/// A copy of a row of rationals.
fn copy_row(r: &Vec<Rat>) -> (c: Vec<Rat>)
    ensures
        c@.len() == r@.len(),
        forall|j: int| 0 <= j < r@.len() ==> (#[trigger] c@[j]).neg == r@[j].neg && c@[j].num@ == r@[j].num@
            && c@[j].den@ == r@[j].den@,
{
    let mut c: Vec<Rat> = Vec::new();
    let mut j: usize = 0;
    while j < r.len()
        invariant
            j <= r@.len(),
            c@.len() == j,
            forall|q: int| 0 <= q < j ==> (#[trigger] c@[q]).neg == r@[q].neg && c@[q].num@ == r@[q].num@
                && c@[q].den@ == r@[q].den@,
        decreases r.len() - j,
    {
        c.push(r[j].copy());
        j = j + 1;
    }
    c
}

/// A copy of a matrix of rationals.
fn copy_matrix(q: &Vec<Vec<Rat>>, n: usize) -> (m: Vec<Vec<Rat>>)
    requires
        mat_wf(q@, n as nat),
    ensures
        mat_wf(m@, n as nat),
        m@.len() == q@.len(),
        mat_view(m@) == mat_view(q@),
{
    let mut m: Vec<Vec<Rat>> = Vec::new();
    let mut i: usize = 0;
    while i < q.len()
        invariant
            mat_wf(q@, n as nat),
            i <= q@.len(),
            m@.len() == i,
            forall|a: int| 0 <= a < i ==> (#[trigger] m@[a])@.len() == q@[a]@.len(),
            forall|a: int, j: int| 0 <= a < i && 0 <= j < m@[a]@.len() ==> (#[trigger] m@[a]@[j]).wf()
                && m@[a]@[j]@ == q@[a]@[j]@,
        decreases q.len() - i,
    {
        let row = copy_row(&q[i]);
        proof {
            assert forall|j: int| 0 <= j < row@.len() implies (#[trigger] row@[j]).wf() && row@[j]@ == q@[i as int]@[j]@ by {
                assert(q@[i as int]@[j].wf());
            }
        }
        m.push(row);
        i = i + 1;
    }
    assert(mat_view(m@) =~= mat_view(q@)) by {
        assert forall|a: int| 0 <= a < m@.len() implies mat_view(m@)[a] == mat_view(q@)[a] by {
            assert(mat_view(m@)[a] =~= mat_view(q@)[a]);
        }
    }
    m
}

/// Exact LDLᵀ over the rationals: `(is_psd, pivots)`. The matrix is PSD when
/// the factorization completes and every pivot is nonnegative; a zero pivot
/// with a nonzero entry below it is a saddle and stops the factorization.
pub fn exact_ldl_psd(q: &Vec<Vec<Rat>>) -> (res: (bool, Vec<Rat>))
    requires
        mat_wf(q@, q@.len()),
    ensures
        res.1@.len() == q@.len(),
        forall|k: int| 0 <= k < q@.len() ==> (#[trigger] res.1@[k]).wf() && res.1@[k]@ == ldl_pivots(mat_view(q@), q@.len())[k],
        res.0 == ldl_psd(mat_view(q@), q@.len()),
{
    let n = q.len();
    let ghost qv = mat_view(q@);
    let mut m = copy_matrix(q, n);
    let mut d: Vec<Rat> = Vec::new();
    while d.len() < n
        invariant
            d@.len() <= n,
            forall|a: int| 0 <= a < d@.len() ==> (#[trigger] d@[a]).wf() && d@[a]@ == qv_zero(),
        decreases n - d.len(),
    {
        d.push(Rat::zero());
    }
    let mut k: usize = 0;
    while k < n
        invariant
            n == q@.len(),
            qv == mat_view(q@),
            k <= n,
            mat_wf(m@, n as nat),
            m@.len() == n,
            mat_view(m@) == ldl_state(qv, k as nat, n as int),
            ldl_stop_from(qv, 0, n as nat) == ldl_stop_from(qv, k as nat, n as nat),
            d@.len() == n,
            forall|a: int| 0 <= a < n ==> (#[trigger] d@[a]).wf(),
            forall|a: int| 0 <= a < k ==> (#[trigger] d@[a])@ == ldl_state(qv, a as nat, n as int)[a][a],
            forall|a: int| k <= a < n ==> (#[trigger] d@[a])@ == qv_zero(),
        decreases n - k,
    {
        let ghost s = ldl_state(qv, k as nat, n as int);
        assert(mat_view(m@)[k as int] == m@[k as int]@.map_values(|x: Rat| x@));
        let dk = m[k][k].copy();
        assert(m@[k as int]@[k as int].wf());
        assert(dk@ == s[k as int][k as int]);
        d.set(k, m[k][k].copy());
        if dk.is_zero() {
            let mut i: usize = k + 1;
            while i < n
                invariant
                    k < n,
                    k + 1 <= i <= n,
                    mat_wf(m@, n as nat),
                    m@.len() == n,
                    mat_view(m@) == s,
                    s == ldl_state(qv, k as nat, n as int),
                    qv == mat_view(q@),
                    n == q@.len(),
                    ldl_stop_from(qv, 0, n as nat) == ldl_stop_from(qv, k as nat, n as nat),
                    d@.len() == n,
                    forall|a: int| 0 <= a < n ==> (#[trigger] d@[a]).wf(),
                    forall|a: int| 0 <= a < k ==> (#[trigger] d@[a])@ == ldl_state(qv, a as nat, n as int)[a][a],
                    forall|a: int| k < a < n ==> (#[trigger] d@[a])@ == qv_zero(),
                    d@[k as int]@ == s[k as int][k as int],
                    s[k as int][k as int].0 == 0,
                    forall|a: int| k < a < i ==> (#[trigger] s[a][k as int]).0 == 0,
                decreases n - i,
            {
                assert(mat_view(m@)[i as int] == m@[i as int]@.map_values(|x: Rat| x@));
                assert(m@[i as int]@[k as int].wf());
                if !m[i][k].is_zero() {
                    proof {
                        assert(s[i as int][k as int] == m@[i as int]@[k as int]@);
                        assert(ldl_saddle(s, k as int, n as int));
                        assert(ldl_stop_from(qv, k as nat, n as nat) == k);
                        assert forall|a: int| 0 <= a < n implies (#[trigger] d@[a])@ == ldl_pivots(qv, n as nat)[a] by {
                            if a == k {
                                assert(d@[a]@ == s[k as int][k as int]);
                            }
                        }
                    }
                    return (false, d);
                }
                i = i + 1;
            }
            proof {
                assert(!ldl_saddle(s, k as int, n as int));
                assert(ldl_state(qv, (k + 1) as nat, n as int) == s);
            }
            k = k + 1;
            continue;
        }
        let mut lcol: Vec<Rat> = Vec::new();
        let mut i: usize = 0;
        while i < n
            invariant
                k < n,
                i <= n,
                mat_wf(m@, n as nat),
                m@.len() == n,
                mat_view(m@) == s,
                dk.wf(),
                dk@ == s[k as int][k as int],
                dk@.0 != 0,
                lcol@.len() == i,
                forall|a: int| 0 <= a < i ==> (#[trigger] lcol@[a]).wf(),
                forall|a: int| k < a < i ==> (#[trigger] lcol@[a])@ == ldl_factor(s, k as int, a),
            decreases n - i,
        {
            if i > k {
                assert(mat_view(m@)[i as int] == m@[i as int]@.map_values(|x: Rat| x@));
                assert(m@[i as int]@[k as int].wf());
                lcol.push(m[i][k].div(&dk));
            } else {
                lcol.push(Rat::zero());
            }
            i = i + 1;
        }
        let ghost u = ldl_update(s, k as int, n as int);
        let mut i: usize = k + 1;
        while i < n
            invariant
                k < n,
                k + 1 <= i <= n,
                mat_wf(m@, n as nat),
                m@.len() == n,
                s.len() == n,
                forall|a: int| 0 <= a < n ==> (#[trigger] s[a]).len() >= n,
                forall|a: int| 0 <= a < n ==> (#[trigger] mat_view(m@)[a]) == (if k < a < i { u[a] } else { s[a] }),
                dk.wf(),
                dk@ == s[k as int][k as int],
                lcol@.len() == n,
                forall|a: int| 0 <= a < n ==> (#[trigger] lcol@[a]).wf(),
                forall|a: int| k < a < n ==> (#[trigger] lcol@[a])@ == ldl_factor(s, k as int, a),
                u == ldl_update(s, k as int, n as int),
            decreases n - i,
        {
            assert(mat_view(m@)[i as int] == m@[i as int]@.map_values(|x: Rat| x@));
            let li = lcol[i].mul(&dk);
            let mut row: Vec<Rat> = Vec::new();
            let mut j: usize = 0;
            let rlen = m[i].len();
            while j < rlen
                invariant
                    k < i < n,
                    rlen == m@[i as int]@.len(),
                    j <= rlen,
                    mat_wf(m@, n as nat),
                    m@.len() == n,
                    mat_view(m@)[i as int] == s[i as int],
                    s.len() == n,
                    li.wf(),
                    li@ == qv_mul(ldl_factor(s, k as int, i as int), s[k as int][k as int]),
                    lcol@.len() == n,
                    forall|a: int| 0 <= a < n ==> (#[trigger] lcol@[a]).wf(),
                    forall|a: int| k < a < n ==> (#[trigger] lcol@[a])@ == ldl_factor(s, k as int, a),
                    u == ldl_update(s, k as int, n as int),
                    row@.len() == j,
                    forall|b: int| 0 <= b < j ==> (#[trigger] row@[b]).wf() && row@[b]@ == u[i as int][b],
                decreases rlen - j,
            {
                assert(mat_view(m@)[i as int] == m@[i as int]@.map_values(|x: Rat| x@));
                assert(m@[i as int]@[j as int].wf());
                proof {
                    assert(s[i as int][j as int] == m@[i as int]@[j as int]@);
                    lemma_update_entry(s, k as int, n as int, i as int, j as int);
                }
                if j > k && j < n {
                    let t = li.mul(&lcol[j]);
                    row.push(m[i][j].sub(&t));
                } else {
                    row.push(m[i][j].copy());
                }
                j = j + 1;
            }
            proof {
                lemma_update_entry(s, k as int, n as int, i as int, 0);
                assert(row@.map_values(|x: Rat| x@) =~= u[i as int]);
            }
            let ghost old_m = m@;
            let ghost old_mv = mat_view(m@);
            m.set(i, row);
            proof {
                assert forall|a: int| 0 <= a < n implies (#[trigger] mat_view(m@)[a]) == (if k < a < i + 1 { u[a] } else { s[a] }) by {
                    assert(mat_view(m@)[a] == m@[a]@.map_values(|x: Rat| x@));
                    if a != i {
                        assert(m@[a] == old_m[a]);
                        assert(old_mv[a] == old_m[a]@.map_values(|x: Rat| x@));
                    }
                }
            }
            i = i + 1;
        }
        proof {
            assert(mat_view(m@) =~= u) by {
                assert forall|a: int| 0 <= a < n implies mat_view(m@)[a] == u[a] by {
                    if a <= k {
                        assert(u[a] =~= s[a]);
                    }
                }
            }
            assert(!ldl_saddle(s, k as int, n as int));
            assert(ldl_state(qv, (k + 1) as nat, n as int) == u);
        }
        k = k + 1;
    }
    proof {
        assert(ldl_stop_from(qv, n as nat, n as nat) == n);
    }
    let mut ok = true;
    let mut a: usize = 0;
    while a < n
        invariant
            a <= n,
            d@.len() == n,
            forall|b: int| 0 <= b < n ==> (#[trigger] d@[b]).wf(),
            ok == forall|b: int| 0 <= b < a ==> (#[trigger] d@[b])@.0 >= 0,
        decreases n - a,
    {
        if d[a].is_negative() {
            ok = false;
        }
        a = a + 1;
    }
    proof {
        assert forall|b: int| 0 <= b < n implies (#[trigger] d@[b])@ == ldl_pivots(qv, n as nat)[b] by {}
        if ok {
            assert forall|b: int| 0 <= b < n implies (#[trigger] ldl_pivots(qv, n as nat)[b]).0 >= 0 by {
                assert(d@[b]@ == ldl_pivots(qv, n as nat)[b]);
            }
        } else {
            let b = choose|b: int| 0 <= b < n && !((#[trigger] d@[b])@.0 >= 0);
            assert(d@[b]@ == ldl_pivots(qv, n as nat)[b]);
        }
    }
    (ok, d)
}

// ---------------------------------------------------------------------------
// Slots: the entries of Q that feed one exponent of zᵀ Q z
// ---------------------------------------------------------------------------

/// The exponent tuple of the product of two basis monomials, over `n` variables.
pub open spec fn esum(a: Seq<usize>, b: Seq<usize>, n: nat) -> Seq<usize> {
    Seq::new(n, |k: int| (a[k] + b[k]) as usize)
}

/// Entry `(i, j)` of `Q` multiplies the monomial `e`.
pub open spec fn is_slot(b: Seq<Seq<usize>>, n: nat, e: Seq<usize>, i: int, j: int) -> bool {
    0 <= i < b.len() && 0 <= j < b.len() && esum(b[i], b[j], n) == e
}

pub open spec fn has_slot(b: Seq<Seq<usize>>, n: nat, e: Seq<usize>) -> bool {
    exists|i: int, j: int| #[trigger] is_slot(b, n, e, i, j)
}

pub open spec fn has_diag(b: Seq<Seq<usize>>, n: nat, e: Seq<usize>) -> bool {
    exists|i: int| #[trigger] is_slot(b, n, e, i, i)
}

/// `(i, i)` is the first diagonal slot of `e`.
pub open spec fn first_diag(b: Seq<Seq<usize>>, n: nat, e: Seq<usize>, i: int) -> bool {
    is_slot(b, n, e, i, i) && forall|i2: int| 0 <= i2 < i ==> !#[trigger] is_slot(b, n, e, i2, i2)
}

/// `(i, j)` with `i < j` is the first such slot of `e` in row-major order.
pub open spec fn first_off(b: Seq<Seq<usize>>, n: nat, e: Seq<usize>, i: int, j: int) -> bool {
    &&& i < j
    &&& is_slot(b, n, e, i, j)
    &&& forall|i2: int, j2: int|
        i2 < j2 && #[trigger] is_slot(b, n, e, i2, j2) ==> (i < i2 || (i == i2 && j <= j2))
}

/// The sum of `q[i][j]` over the slots of `e` among the first `f` entries in
/// row-major order, accumulated in that order.
pub open spec fn slot_sum(q: Seq<Seq<(int, nat)>>, b: Seq<Seq<usize>>, n: nat, e: Seq<usize>, f: nat) -> (int, nat)
    decreases f,
{
    if f == 0 || b.len() == 0 {
        qv_zero()
    } else {
        let g = f - 1;
        let i = g / (b.len() as int);
        let j = g % (b.len() as int);
        let prev = slot_sum(q, b, n, e, (f - 1) as nat);
        if esum(b[i], b[j], n) == e {
            qv_add(prev, q[i][j])
        } else {
            prev
        }
    }
}

/// The coefficient of the monomial `e` in `zᵀ Q z`.
pub open spec fn zqz(q: Seq<Seq<(int, nat)>>, b: Seq<Seq<usize>>, n: nat, e: Seq<usize>) -> (int, nat) {
    slot_sum(q, b, n, e, b.len() * b.len())
}

/// `zᵀ Q z = p` exactly: every monomial has the same coefficient on both sides.
pub open spec fn identity_holds(q: Seq<Seq<(int, nat)>>, p: SosPoly, b: Seq<Seq<usize>>, n: nat) -> bool {
    forall|e: Seq<usize>| #![trigger zqz(q, b, n, e)] #![trigger coef(p, e)] qv_eq(zqz(q, b, n, e), coef(p, e))
}

/// Every basis tuple has `n` entries, small enough that two of them add without overflow.
pub open spec fn basis_fits(b: Seq<Seq<usize>>, n: nat) -> bool {
    forall|i: int| 0 <= i < b.len() ==> (#[trigger] b[i]).len() >= n && forall|k: int| 0 <= k < n ==> 2 * b[i][k] <= usize::MAX
}

/// The exponent tuple of a product of two monomials.
fn exp_add(a: &Vec<usize>, b: &Vec<usize>, n: usize) -> (r: Vec<usize>)
    requires
        a@.len() >= n,
        b@.len() >= n,
        forall|k: int| 0 <= k < n ==> 2 * a@[k] <= usize::MAX && 2 * b@[k] <= usize::MAX,
    ensures
        r@ == esum(a@, b@, n as nat),
{
    let mut r: Vec<usize> = Vec::new();
    let mut k: usize = 0;
    while k < n
        invariant
            k <= n,
            a@.len() >= n,
            b@.len() >= n,
            forall|q: int| 0 <= q < n ==> 2 * a@[q] <= usize::MAX && 2 * b@[q] <= usize::MAX,
            r@ =~= esum(a@, b@, n as nat).take(k as int),
        decreases n - k,
    {
        r.push(a[k] + b[k]);
        k = k + 1;
    }
    r
}

/// The first diagonal slot of `e`, if any.
fn find_diag(b: &Vec<Vec<usize>>, n: usize, e: &Vec<usize>) -> (r: Option<usize>)
    requires
        basis_fits(exps_view(b@), n as nat),
    ensures
        match r {
            Some(i) => first_diag(exps_view(b@), n as nat, e@, i as int),
            None => !has_diag(exps_view(b@), n as nat, e@),
        },
{
    let ghost bv = exps_view(b@);
    let mut i: usize = 0;
    while i < b.len()
        invariant
            bv == exps_view(b@),
            basis_fits(bv, n as nat),
            i <= b@.len(),
            forall|i2: int| 0 <= i2 < i ==> !#[trigger] is_slot(bv, n as nat, e@, i2, i2),
        decreases b.len() - i,
    {
        assert(bv[i as int] == b@[i as int]@);
        let s = exp_add(&b[i], &b[i], n);
        if exp_eq(&s, e) {
            return Some(i);
        }
        i = i + 1;
    }
    None
}

/// The first slot `(i, j)` of `e` with `i < j`, in row-major order, if any.
fn find_off(b: &Vec<Vec<usize>>, n: usize, e: &Vec<usize>) -> (r: Option<(usize, usize)>)
    requires
        basis_fits(exps_view(b@), n as nat),
    ensures
        match r {
            Some(p) => first_off(exps_view(b@), n as nat, e@, p.0 as int, p.1 as int),
            None => forall|i: int, j: int| i < j ==> !#[trigger] is_slot(exps_view(b@), n as nat, e@, i, j),
        },
{
    let ghost bv = exps_view(b@);
    let mut i: usize = 0;
    while i < b.len()
        invariant
            bv == exps_view(b@),
            basis_fits(bv, n as nat),
            i <= b@.len(),
            forall|i2: int, j2: int| 0 <= i2 < i && i2 < j2 ==> !#[trigger] is_slot(bv, n as nat, e@, i2, j2),
        decreases b.len() - i,
    {
        let mut j: usize = i + 1;
        while j < b.len()
            invariant
                bv == exps_view(b@),
                basis_fits(bv, n as nat),
                i < b@.len(),
                i + 1 <= j <= b@.len(),
                forall|i2: int, j2: int| 0 <= i2 < i && i2 < j2 ==> !#[trigger] is_slot(bv, n as nat, e@, i2, j2),
                forall|j2: int| i < j2 < j ==> !#[trigger] is_slot(bv, n as nat, e@, i as int, j2),
            decreases b.len() - j,
        {
            assert(bv[i as int] == b@[i as int]@);
            assert(bv[j as int] == b@[j as int]@);
            let s = exp_add(&b[i], &b[j], n);
            if exp_eq(&s, e) {
                return Some((i, j));
            }
            j = j + 1;
        }
        i = i + 1;
    }
    None
}

/// The coefficient of `e` in `zᵀ Q z`, summed over the slots in row-major order.
fn slot_total(q: &Vec<Vec<Rat>>, b: &Vec<Vec<usize>>, n: usize, e: &Vec<usize>) -> (r: Rat)
    requires
        basis_fits(exps_view(b@), n as nat),
        mat_wf(q@, b@.len()),
    ensures
        r.wf(),
        r@ == zqz(mat_view(q@), exps_view(b@), n as nat, e@),
{
    let ghost bv = exps_view(b@);
    let ghost qv = mat_view(q@);
    let nb = b.len();
    let mut acc = Rat::zero();
    let mut i: usize = 0;
    while i < nb
        invariant
            bv == exps_view(b@),
            qv == mat_view(q@),
            nb == b@.len(),
            basis_fits(bv, n as nat),
            mat_wf(q@, nb as nat),
            i <= nb,
            acc.wf(),
            acc@ == slot_sum(qv, bv, n as nat, e@, (i * nb) as nat),
        decreases nb - i,
    {
        let mut j: usize = 0;
        while j < nb
            invariant
                bv == exps_view(b@),
                qv == mat_view(q@),
                nb == b@.len(),
                basis_fits(bv, n as nat),
                mat_wf(q@, nb as nat),
                i < nb,
                j <= nb,
                acc.wf(),
                acc@ == slot_sum(qv, bv, n as nat, e@, (i * nb + j) as nat),
            decreases nb - j,
        {
            proof {
                vstd::arithmetic::div_mod::lemma_fundamental_div_mod_converse((i * nb + j) as int, nb as int, i as int, j as int);
                assert(bv[i as int] == b@[i as int]@);
                assert(bv[j as int] == b@[j as int]@);
                assert(qv[i as int] == q@[i as int]@.map_values(|x: Rat| x@));
                assert(q@[i as int]@[j as int].wf());
            }
            let s = exp_add(&b[i], &b[j], n);
            if exp_eq(&s, e) {
                acc = acc.add(&q[i][j]);
            }
            j = j + 1;
        }
        assert((i + 1) * nb == i * nb + nb) by (nonlinear_arith);
        i = i + 1;
    }
    acc
}

proof fn lemma_esum_comm(a: Seq<usize>, b: Seq<usize>, n: nat)
    ensures
        esum(a, b, n) == esum(b, a, n),
{
    assert(esum(a, b, n) =~= esum(b, a, n));
}

proof fn lemma_first_diag_unique(b: Seq<Seq<usize>>, n: nat, e: Seq<usize>, i: int, i2: int)
    requires
        first_diag(b, n, e, i),
        first_diag(b, n, e, i2),
    ensures
        i == i2,
{
    if i < i2 {
        assert(!is_slot(b, n, e, i, i));
    } else if i2 < i {
        assert(!is_slot(b, n, e, i2, i2));
    }
}

proof fn lemma_first_off_unique(b: Seq<Seq<usize>>, n: nat, e: Seq<usize>, i: int, j: int, i2: int, j2: int)
    requires
        first_off(b, n, e, i, j),
        first_off(b, n, e, i2, j2),
    ensures
        i == i2 && j == j2,
{
    assert(is_slot(b, n, e, i2, j2));
    assert(is_slot(b, n, e, i, j));
}

/// With no slot, the coefficient of `e` in `zᵀ Q z` is zero.
proof fn lemma_slot_sum_none(q: Seq<Seq<(int, nat)>>, b: Seq<Seq<usize>>, n: nat, e: Seq<usize>, f: nat)
    requires
        !has_slot(b, n, e),
        f <= b.len() * b.len(),
    ensures
        slot_sum(q, b, n, e, f) == qv_zero(),
    decreases f,
{
    if f > 0 && b.len() > 0 {
        let nb = b.len() as int;
        let g = f - 1;
        lemma_slot_sum_none(q, b, n, e, (f - 1) as nat);
        vstd::arithmetic::div_mod::lemma_fundamental_div_mod(g, nb);
        let i = g / nb;
        let j = g % nb;
        assert(0 <= i < nb) by (nonlinear_arith)
            requires
                g == nb * i + j,
                0 <= j < nb,
                0 <= g < nb * nb,
        ;
        if esum(b[i], b[j], n) == e {
            assert(is_slot(b, n, e, i, j));
        }
    }
}

/// A nonzero coefficient belongs to some entry.
proof fn lemma_coef_key(ent: Seq<(Seq<usize>, (int, nat))>, e: Seq<usize>)
    requires
        coef_in(ent, e).0 != 0,
    ensures
        exists|t: int| 0 <= t < ent.len() && (#[trigger] ent[t]).0 == e,
    decreases ent.len(),
{
    if ent.last().0 == e {
        assert(ent[ent.len() - 1].0 == e);
    } else {
        lemma_coef_key(ent.drop_last(), e);
        let t = choose|t: int| 0 <= t < ent.drop_last().len() && (#[trigger] ent.drop_last()[t]).0 == e;
        assert(ent[t] == ent.drop_last()[t]);
    }
}

/// Does `e` have a slot?
fn has_slot_exec(b: &Vec<Vec<usize>>, n: usize, e: &Vec<usize>) -> (r: bool)
    requires
        basis_fits(exps_view(b@), n as nat),
    ensures
        r == has_slot(exps_view(b@), n as nat, e@),
{
    let ghost bv = exps_view(b@);
    let mut i: usize = 0;
    while i < b.len()
        invariant
            bv == exps_view(b@),
            basis_fits(bv, n as nat),
            i <= b@.len(),
            forall|i2: int, j2: int| 0 <= i2 < i ==> !#[trigger] is_slot(bv, n as nat, e@, i2, j2),
        decreases b.len() - i,
    {
        let mut j: usize = 0;
        while j < b.len()
            invariant
                bv == exps_view(b@),
                basis_fits(bv, n as nat),
                i < b@.len(),
                j <= b@.len(),
                forall|i2: int, j2: int| 0 <= i2 < i ==> !#[trigger] is_slot(bv, n as nat, e@, i2, j2),
                forall|j2: int| 0 <= j2 < j ==> !#[trigger] is_slot(bv, n as nat, e@, i as int, j2),
            decreases b.len() - j,
        {
            assert(bv[i as int] == b@[i as int]@);
            assert(bv[j as int] == b@[j as int]@);
            let s = exp_add(&b[i], &b[j], n);
            if exp_eq(&s, e) {
                assert(is_slot(bv, n as nat, e@, i as int, j as int));
                return true;
            }
            j = j + 1;
        }
        i = i + 1;
    }
    false
}

/// Entry `(i, j)` of the diagonal-placement candidate: each nonzero coefficient
/// of `p` goes to the first diagonal slot of its monomial, or else is split in
/// halves over the first off-diagonal slot and its mirror.
pub open spec fn cand_entry(p: SosPoly, b: Seq<Seq<usize>>, n: nat, i: int, j: int) -> (int, nat) {
    let e = esum(b[i], b[j], n);
    let w = coef(p, e);
    let lo = if i < j { i } else { j };
    let hi = if i < j { j } else { i };
    if w.0 == 0 {
        qv_zero()
    } else if i == j {
        if first_diag(b, n, e, i) { qv_add(qv_zero(), w) } else { qv_zero() }
    } else if has_diag(b, n, e) {
        qv_zero()
    } else if first_off(b, n, e, lo, hi) {
        qv_add(qv_zero(), qv_div(w, (2, 1)))
    } else {
        qv_zero()
    }
}

/// The diagonal-placement candidate `Q`.
pub open spec fn cand_matrix(p: SosPoly, b: Seq<Seq<usize>>, n: nat) -> Seq<Seq<(int, nat)>> {
    Seq::new(b.len(), |i: int| Seq::new(b.len(), |j: int| cand_entry(p, b, n, i, j)))
}

/// The candidate entry at `(i, j)`.
fn cand_entry_exec(p: &SosPoly, b: &Vec<Vec<usize>>, n: usize, i: usize, j: usize) -> (x: Rat)
    requires
        p.wf(),
        basis_fits(exps_view(b@), n as nat),
        i < b@.len(),
        j < b@.len(),
    ensures
        x.wf(),
        x@ == cand_entry(*p, exps_view(b@), n as nat, i as int, j as int),
{
    let ghost bv = exps_view(b@);
    assert(bv[i as int] == b@[i as int]@);
    assert(bv[j as int] == b@[j as int]@);
    let e = exp_add(&b[i], &b[j], n);
    let w = coef_of(p, &e);
    if w.is_zero() {
        return Rat::zero();
    }
    let (lo, hi) = if i < j { (i, j) } else { (j, i) };
    proof {
        lemma_esum_comm(bv[i as int], bv[j as int], n as nat);
        assert(is_slot(bv, n as nat, e@, lo as int, hi as int));
    }
    let d = find_diag(b, n, &e);
    if i == j {
        match d {
            Some(d) => {
                if d == i {
                    Rat::zero().add(&w)
                } else {
                    proof {
                        if first_diag(bv, n as nat, e@, i as int) {
                            lemma_first_diag_unique(bv, n as nat, e@, i as int, d as int);
                        }
                    }
                    Rat::zero()
                }
            },
            None => {
                assert(is_slot(bv, n as nat, e@, i as int, i as int));
                Rat::zero()
            },
        }
    } else {
        match d {
            Some(_) => Rat::zero(),
            None => {
                match find_off(b, n, &e) {
                    Some(pr) => {
                        if pr.0 == lo && pr.1 == hi {
                            let two = Rat::from_i64(2);
                            Rat::zero().add(&w.div(&two))
                        } else {
                            proof {
                                if first_off(bv, n as nat, e@, lo as int, hi as int) {
                                    lemma_first_off_unique(bv, n as nat, e@, lo as int, hi as int, pr.0 as int, pr.1 as int);
                                }
                            }
                            Rat::zero()
                        }
                    },
                    None => Rat::zero(),
                }
            },
        }
    }
}

/// The diagonal-placement candidate: `zᵀ Q z` reproduces every coefficient of
/// `p` whose monomial has a slot.
fn build_candidate(p: &SosPoly, b: &Vec<Vec<usize>>, n: usize) -> (q: Vec<Vec<Rat>>)
    requires
        p.wf(),
        basis_fits(exps_view(b@), n as nat),
    ensures
        q@.len() == b@.len(),
        mat_wf(q@, b@.len()),
        forall|i: int| 0 <= i < q@.len() ==> (#[trigger] q@[i])@.len() == b@.len(),
        mat_view(q@) == cand_matrix(*p, exps_view(b@), n as nat),
{
    let nb = b.len();
    let ghost target = cand_matrix(*p, exps_view(b@), n as nat);
    let mut q: Vec<Vec<Rat>> = Vec::new();
    let mut i: usize = 0;
    while i < nb
        invariant
            p.wf(),
            basis_fits(exps_view(b@), n as nat),
            nb == b@.len(),
            target == cand_matrix(*p, exps_view(b@), n as nat),
            i <= nb,
            q@.len() == i,
            forall|a: int| 0 <= a < i ==> (#[trigger] q@[a])@.len() == nb,
            forall|a: int, c: int| 0 <= a < i && 0 <= c < nb ==> (#[trigger] q@[a]@[c]).wf() && q@[a]@[c]@ == target[a][c],
        decreases nb - i,
    {
        let mut row: Vec<Rat> = Vec::new();
        let mut j: usize = 0;
        while j < nb
            invariant
                p.wf(),
                basis_fits(exps_view(b@), n as nat),
                nb == b@.len(),
                target == cand_matrix(*p, exps_view(b@), n as nat),
                i < nb,
                j <= nb,
                row@.len() == j,
                forall|c: int| 0 <= c < j ==> (#[trigger] row@[c]).wf() && row@[c]@ == target[i as int][c],
            decreases nb - j,
        {
            let x = cand_entry_exec(p, b, n, i, j);
            row.push(x);
            j = j + 1;
        }
        q.push(row);
        i = i + 1;
    }
    assert(mat_view(q@) =~= target) by {
        assert forall|a: int| 0 <= a < nb implies mat_view(q@)[a] == target[a] by {
            assert(mat_view(q@)[a] =~= target[a]);
        }
    }
    q
}

/// Every nonzero coefficient of `p` sits on a monomial that has a slot.
pub open spec fn fix_ok(p: SosPoly, b: Seq<Seq<usize>>, n: nat) -> bool {
    forall|e: Seq<usize>| #[trigger] coef(p, e).0 != 0 ==> has_slot(b, n, e)
}

/// Entry `(i, j)` after the repair of `q0`: the residual `coef - zᵀ q0 z` of
/// each monomial goes to its first diagonal slot, or else in halves to its first
/// off-diagonal slot and the mirror.
pub open spec fn fixed_entry(q0: Seq<Seq<(int, nat)>>, p: SosPoly, b: Seq<Seq<usize>>, n: nat, i: int, j: int) -> (int, nat) {
    let e = esum(b[i], b[j], n);
    let diff = qv_sub(coef(p, e), zqz(q0, b, n, e));
    let lo = if i < j { i } else { j };
    let hi = if i < j { j } else { i };
    if diff.0 == 0 {
        q0[i][j]
    } else if i == j {
        if first_diag(b, n, e, i) { qv_add(q0[i][j], diff) } else { q0[i][j] }
    } else if has_diag(b, n, e) {
        q0[i][j]
    } else if first_off(b, n, e, lo, hi) {
        qv_add(q0[i][j], qv_div(diff, (2, 1)))
    } else {
        q0[i][j]
    }
}

/// The repaired matrix.
pub open spec fn fixed_matrix(q0: Seq<Seq<(int, nat)>>, p: SosPoly, b: Seq<Seq<usize>>, n: nat) -> Seq<Seq<(int, nat)>> {
    Seq::new(b.len(), |i: int| Seq::new(b.len(), |j: int| fixed_entry(q0, p, b, n, i, j)))
}

/// Is every nonzero coefficient of `p` on a monomial with a slot?
fn all_coefs_have_slots(p: &SosPoly, b: &Vec<Vec<usize>>, n: usize) -> (r: bool)
    requires
        p.wf(),
        basis_fits(exps_view(b@), n as nat),
    ensures
        r == fix_ok(*p, exps_view(b@), n as nat),
{
    let ghost bv = exps_view(b@);
    let ghost ent = p.entries();
    let mut t: usize = 0;
    while t < p.terms.len()
        invariant
            p.wf(),
            bv == exps_view(b@),
            basis_fits(bv, n as nat),
            ent == p.entries(),
            t <= p.terms@.len(),
            forall|t2: int| 0 <= t2 < t ==> (#[trigger] coef(*p, ent[t2].0)).0 != 0 ==> has_slot(bv, n as nat, ent[t2].0),
        decreases p.terms.len() - t,
    {
        assert(ent[t as int].0 == p.terms@[t as int].0@);
        let c = coef_of(p, &p.terms[t].0);
        if !c.is_zero() && !has_slot_exec(b, n, &p.terms[t].0) {
            return false;
        }
        t = t + 1;
    }
    assert forall|e: Seq<usize>| #[trigger] coef(*p, e).0 != 0 implies has_slot(bv, n as nat, e) by {
        lemma_coef_key(ent, e);
        let t2 = choose|t2: int| 0 <= t2 < ent.len() && (#[trigger] ent[t2]).0 == e;
        assert(coef(*p, ent[t2].0).0 != 0);
    }
    true
}

/// Repair `q` so that `zᵀ q z = p` exactly, placing each residual in one slot.
/// Fails, leaving `q` as it was, when a nonzero coefficient has no slot.
fn fix_identity(q: &mut Vec<Vec<Rat>>, p: &SosPoly, b: &Vec<Vec<usize>>, n: usize) -> (ok: bool)
    requires
        p.wf(),
        basis_fits(exps_view(b@), n as nat),
        old(q)@.len() == b@.len(),
        mat_wf(old(q)@, b@.len()),
    ensures
        ok == fix_ok(*p, exps_view(b@), n as nat),
        ok ==> mat_view(final(q)@) == fixed_matrix(mat_view(old(q)@), *p, exps_view(b@), n as nat),
        ok ==> mat_wf(final(q)@, b@.len()) && final(q)@.len() == b@.len(),
        !ok ==> final(q)@ == old(q)@,
{
    if !all_coefs_have_slots(p, b, n) {
        return false;
    }
    let ghost bv = exps_view(b@);
    let ghost q0 = mat_view(q@);
    let ghost target = fixed_matrix(q0, *p, bv, n as nat);
    let nb = b.len();
    let mut out: Vec<Vec<Rat>> = Vec::new();
    let mut i: usize = 0;
    while i < nb
        invariant
            p.wf(),
            bv == exps_view(b@),
            basis_fits(bv, n as nat),
            nb == b@.len(),
            q@.len() == nb,
            mat_wf(q@, nb as nat),
            q0 == mat_view(q@),
            target == fixed_matrix(q0, *p, bv, n as nat),
            i <= nb,
            out@.len() == i,
            forall|a: int| 0 <= a < i ==> (#[trigger] out@[a])@.len() == nb,
            forall|a: int, c: int| 0 <= a < i && 0 <= c < nb ==> (#[trigger] out@[a]@[c]).wf() && out@[a]@[c]@ == target[a][c],
        decreases nb - i,
    {
        let mut row: Vec<Rat> = Vec::new();
        let mut j: usize = 0;
        while j < nb
            invariant
                p.wf(),
                bv == exps_view(b@),
                basis_fits(bv, n as nat),
                nb == b@.len(),
                q@.len() == nb,
                mat_wf(q@, nb as nat),
                q0 == mat_view(q@),
                target == fixed_matrix(q0, *p, bv, n as nat),
                i < nb,
                j <= nb,
                row@.len() == j,
                forall|c: int| 0 <= c < j ==> (#[trigger] row@[c]).wf() && row@[c]@ == target[i as int][c],
            decreases nb - j,
        {
            assert(bv[i as int] == b@[i as int]@);
            assert(bv[j as int] == b@[j as int]@);
            assert(q0[i as int] == q@[i as int]@.map_values(|x: Rat| x@));
            assert(q@[i as int]@[j as int].wf());
            let e = exp_add(&b[i], &b[j], n);
            let have = slot_total(q, b, n, &e);
            let want = coef_of(p, &e);
            let diff = want.sub(&have);
            let (lo, hi) = if i < j { (i, j) } else { (j, i) };
            proof {
                lemma_esum_comm(bv[i as int], bv[j as int], n as nat);
                assert(is_slot(bv, n as nat, e@, lo as int, hi as int));
                assert(is_slot(bv, n as nat, e@, i as int, j as int));
            }
            let x = if diff.is_zero() {
                q[i][j].copy()
            } else {
                let d = find_diag(b, n, &e);
                if i == j {
                    match d {
                        Some(d) => {
                            if d == i {
                                q[i][j].add(&diff)
                            } else {
                                proof {
                                    if first_diag(bv, n as nat, e@, i as int) {
                                        lemma_first_diag_unique(bv, n as nat, e@, i as int, d as int);
                                    }
                                }
                                q[i][j].copy()
                            }
                        },
                        None => q[i][j].copy(),
                    }
                } else {
                    match d {
                        Some(_) => q[i][j].copy(),
                        None => {
                            match find_off(b, n, &e) {
                                Some(pr) => {
                                    if pr.0 == lo && pr.1 == hi {
                                        let two = Rat::from_i64(2);
                                        q[i][j].add(&diff.div(&two))
                                    } else {
                                        proof {
                                            if first_off(bv, n as nat, e@, lo as int, hi as int) {
                                                lemma_first_off_unique(
                                                    bv,
                                                    n as nat,
                                                    e@,
                                                    lo as int,
                                                    hi as int,
                                                    pr.0 as int,
                                                    pr.1 as int,
                                                );
                                            }
                                        }
                                        q[i][j].copy()
                                    }
                                },
                                None => q[i][j].copy(),
                            }
                        },
                    }
                }
            };
            row.push(x);
            j = j + 1;
        }
        out.push(row);
        i = i + 1;
    }
    assert(mat_view(out@) =~= target) by {
        assert forall|a: int| 0 <= a < nb implies mat_view(out@)[a] == target[a] by {
            assert(mat_view(out@)[a] =~= target[a]);
        }
    }
    *q = out;
    true
}

/// The exact check `zᵀ q z = p`, monomial by monomial.
fn verify_identity(q: &Vec<Vec<Rat>>, p: &SosPoly, b: &Vec<Vec<usize>>, n: usize) -> (r: bool)
    requires
        p.wf(),
        basis_fits(exps_view(b@), n as nat),
        mat_wf(q@, b@.len()),
    ensures
        r == identity_holds(mat_view(q@), *p, exps_view(b@), n as nat),
{
    let ghost bv = exps_view(b@);
    let ghost qv = mat_view(q@);
    let ghost ent = p.entries();
    let nb = b.len();
    let mut i: usize = 0;
    while i < nb
        invariant
            p.wf(),
            bv == exps_view(b@),
            qv == mat_view(q@),
            basis_fits(bv, n as nat),
            mat_wf(q@, nb as nat),
            nb == b@.len(),
            i <= nb,
            forall|i2: int, j2: int| 0 <= i2 < i && 0 <= j2 < nb ==> qv_eq(
                zqz(qv, bv, n as nat, #[trigger] esum(bv[i2], bv[j2], n as nat)),
                coef(*p, esum(bv[i2], bv[j2], n as nat)),
            ),
        decreases nb - i,
    {
        let mut j: usize = 0;
        while j < nb
            invariant
                p.wf(),
                bv == exps_view(b@),
                qv == mat_view(q@),
                basis_fits(bv, n as nat),
                mat_wf(q@, nb as nat),
                nb == b@.len(),
                i < nb,
                j <= nb,
                forall|i2: int, j2: int| 0 <= i2 < i && 0 <= j2 < nb ==> qv_eq(
                    zqz(qv, bv, n as nat, #[trigger] esum(bv[i2], bv[j2], n as nat)),
                    coef(*p, esum(bv[i2], bv[j2], n as nat)),
                ),
                forall|j2: int| 0 <= j2 < j ==> qv_eq(
                    zqz(qv, bv, n as nat, #[trigger] esum(bv[i as int], bv[j2], n as nat)),
                    coef(*p, esum(bv[i as int], bv[j2], n as nat)),
                ),
            decreases nb - j,
        {
            assert(bv[i as int] == b@[i as int]@);
            assert(bv[j as int] == b@[j as int]@);
            let e = exp_add(&b[i], &b[j], n);
            let z = slot_total(q, b, n, &e);
            let c = coef_of(p, &e);
            let dz = z.sub(&c);
            proof {
                assert(z@.1 * c@.1 != 0) by (nonlinear_arith)
                    requires
                        z@.1 >= 1,
                        c@.1 >= 1,
                ;
                lemma_reduce_value(z@.0 * c@.1 - c@.0 * z@.1, (z@.1 * c@.1) as int);
            }
            if !dz.is_zero() {
                return false;
            }
            j = j + 1;
        }
        i = i + 1;
    }
    let mut t: usize = 0;
    while t < p.terms.len()
        invariant
            p.wf(),
            bv == exps_view(b@),
            qv == mat_view(q@),
            basis_fits(bv, n as nat),
            mat_wf(q@, nb as nat),
            nb == b@.len(),
            ent == p.entries(),
            t <= p.terms@.len(),
            forall|i2: int, j2: int| 0 <= i2 < nb && 0 <= j2 < nb ==> qv_eq(
                zqz(qv, bv, n as nat, #[trigger] esum(bv[i2], bv[j2], n as nat)),
                coef(*p, esum(bv[i2], bv[j2], n as nat)),
            ),
            forall|t2: int| 0 <= t2 < t ==> (#[trigger] coef(*p, ent[t2].0)).0 != 0 ==> has_slot(bv, n as nat, ent[t2].0),
        decreases p.terms.len() - t,
    {
        assert(ent[t as int].0 == p.terms@[t as int].0@);
        let c = coef_of(p, &p.terms[t].0);
        if !c.is_zero() && !has_slot_exec(b, n, &p.terms[t].0) {
            proof {
                let e = ent[t as int].0;
                lemma_slot_sum_none(qv, bv, n as nat, e, bv.len() * bv.len());
            }
            return false;
        }
        t = t + 1;
    }
    assert forall|e: Seq<usize>| #![trigger zqz(qv, bv, n as nat, e)] #![trigger coef(*p, e)] qv_eq(zqz(qv, bv, n as nat, e), coef(*p, e)) by {
        if has_slot(bv, n as nat, e) {
            let (i2, j2) = choose|i2: int, j2: int| #[trigger] is_slot(bv, n as nat, e, i2, j2);
            assert(esum(bv[i2], bv[j2], n as nat) == e);
        } else {
            lemma_slot_sum_none(qv, bv, n as nat, e, bv.len() * bv.len());
            if coef(*p, e).0 != 0 {
                lemma_coef_key(ent, e);
                let t2 = choose|t2: int| 0 <= t2 < ent.len() && (#[trigger] ent[t2]).0 == e;
                assert(coef(*p, ent[t2].0).0 != 0);
            }
        }
    }
    true
}

// ---------------------------------------------------------------------------
// Certification
// ---------------------------------------------------------------------------

/// Every tuple has `n` entries, each below `bound`.
pub open spec fn tuple_below(s: Seq<usize>, n: nat, bound: nat) -> bool {
    s.len() == n && forall|k: int| 0 <= k < n ==> s[k] < bound
}

proof fn lemma_tuples_fit(n: nat, t: nat)
    ensures
        forall|x: int| 0 <= x < tuples(n, t).len() ==> tuple_below(#[trigger] tuples(n, t)[x], n, t + 1),
    decreases n, t + 2,
{
    if n > 0 {
        lemma_below_fit(n, t, t + 1);
        assert(tuples(n, t) == tuples_below(n, t, t + 1));
    } else if t == 0 {
        assert(tuples(n, t) == seq![Seq::<usize>::empty()]);
        assert(tuples(n, t)[0].len() == 0);
    } else {
        assert(tuples(n, t).len() == 0);
    }
}

proof fn lemma_below_fit(n: nat, t: nat, c: nat)
    requires
        c <= t + 1,
    ensures
        forall|x: int| 0 <= x < tuples_below(n, t, c).len() ==> tuple_below(#[trigger] tuples_below(n, t, c)[x], n, t + 1),
    decreases n, c,
{
    if n > 0 && c > 0 {
        let v = (c - 1) as nat;
        lemma_tuples_fit((n - 1) as nat, (t - v) as nat);
        lemma_below_fit(n, t, v);
        let sub = tuples((n - 1) as nat, (t - v) as nat);
        let head = sub.map_values(|s: Seq<usize>| seq![v as usize] + s);
        let all = tuples_below(n, t, c);
        assert(all == head + tuples_below(n, t, v));
        assert forall|x: int| 0 <= x < all.len() implies tuple_below(#[trigger] all[x], n, t + 1) by {
            if x < head.len() {
                let s = sub[x];
                assert(tuple_below(s, (n - 1) as nat, (t - v + 1) as nat));
                assert(all[x] == seq![v as usize] + s);
                assert forall|k: int| 0 <= k < n implies all[x][k] < t + 1 by {
                    if k > 0 {
                        assert(all[x][k] == s[k - 1]);
                    }
                }
            } else {
                assert(all[x] == tuples_below(n, t, v)[x - head.len()]);
            }
        }
    }
}

proof fn lemma_monomials_fit(n: nat, k: nat)
    ensures
        forall|x: int| 0 <= x < monomials_below(n, k).len() ==> tuple_below(#[trigger] monomials_below(n, k)[x], n, k),
    decreases k,
{
    if k > 0 {
        lemma_monomials_fit(n, (k - 1) as nat);
        lemma_tuples_fit(n, (k - 1) as nat);
        let a = monomials_below(n, (k - 1) as nat);
        let t = tuples(n, (k - 1) as nat);
        assert forall|x: int| 0 <= x < monomials_below(n, k).len() implies tuple_below(#[trigger] monomials_below(n, k)[x], n, k) by {
            if x < a.len() {
                assert(monomials_below(n, k)[x] == a[x]);
                assert(tuple_below(a[x], n, (k - 1) as nat));
            } else {
                assert(monomials_below(n, k)[x] == t[x - a.len()]);
            }
        }
    }
}

/// The exact checks pass on the repair of `q0`: the identity holds and the
/// exact LDLᵀ pivots are all nonnegative.
pub open spec fn certifies(q0: Seq<Seq<(int, nat)>>, p: SosPoly, b: Seq<Seq<usize>>, n: nat) -> bool {
    &&& fix_ok(p, b, n)
    &&& identity_holds(fixed_matrix(q0, p, b, n), p, b, n)
    &&& ldl_psd(fixed_matrix(q0, p, b, n), b.len())
}

/// Why the repair of `q0` does not certify.
pub open spec fn defer_reason(q0: Seq<Seq<(int, nat)>>, p: SosPoly, b: Seq<Seq<usize>>, n: nat) -> Seq<char> {
    if !fix_ok(p, b, n) || !identity_holds(fixed_matrix(q0, p, b, n), p, b, n) {
        "rational rounding/repair broke the exact identity"@
    } else {
        "candidate Q is not PSD over the rationals (saddle/negative pivot)"@
    }
}

/// The outcome of an SOS nonnegativity attempt.
#[derive(Clone, Debug, PartialEq, Eq)]
pub enum SosOutcome {
    /// `p = zᵀ Q z` exactly, and `Q` has nonnegative exact LDLᵀ pivots.
    Certified { pivots: Vec<Rat>, basis_size: usize },
    /// Not certified: no SOS over this basis, a broken identity, or `Q` not PSD.
    Defer { reason: String },
}

impl SosOutcome {
    pub fn is_certified(&self) -> (b: bool)
        ensures
            b == (self is Certified),
    {
        match self {
            SosOutcome::Certified { .. } => true,
            SosOutcome::Defer { .. } => false,
        }
    }
}

/// What certification of the candidate `q0` gives.
pub open spec fn outcome_of(out: SosOutcome, q0: Seq<Seq<(int, nat)>>, p: SosPoly, b: Seq<Seq<usize>>, n: nat) -> bool {
    match out {
        SosOutcome::Certified { pivots, basis_size } => {
            &&& certifies(q0, p, b, n)
            &&& basis_size == b.len()
            &&& pivots@.len() == b.len()
            &&& forall|k: int| 0 <= k < b.len() ==> (#[trigger] pivots@[k]).wf()
                && pivots@[k]@ == ldl_pivots(fixed_matrix(q0, p, b, n), b.len())[k]
        },
        SosOutcome::Defer { reason } => !certifies(q0, p, b, n) && reason@ == defer_reason(q0, p, b, n),
    }
}

/// Verify an exact candidate: repair the identity, check it exactly, then
/// check PSD by exact LDLᵀ.
fn certify_with_rational_q(q: Vec<Vec<Rat>>, p: &SosPoly, b: &Vec<Vec<usize>>, n: usize) -> (out: SosOutcome)
    requires
        p.wf(),
        basis_fits(exps_view(b@), n as nat),
        q@.len() == b@.len(),
        mat_wf(q@, b@.len()),
    ensures
        outcome_of(out, mat_view(q@), *p, exps_view(b@), n as nat),
{
    let ghost q0 = mat_view(q@);
    let ghost bv = exps_view(b@);
    let mut q = q;
    let fixed = fix_identity(&mut q, p, b, n);
    if !fixed {
        return SosOutcome::Defer { reason: str_to_string("rational rounding/repair broke the exact identity") };
    }
    if !verify_identity(&q, p, b, n) {
        return SosOutcome::Defer { reason: str_to_string("rational rounding/repair broke the exact identity") };
    }
    let (is_psd, pivots) = exact_ldl_psd(&q);
    if !is_psd {
        return SosOutcome::Defer {
            reason: str_to_string("candidate Q is not PSD over the rationals (saddle/negative pivot)"),
        };
    }
    SosOutcome::Certified { pivots, basis_size: b.len() }
}

/// Prove `poly ≥ 0` with the diagonal-placement candidate over the monomials
/// up to degree `half_deg`, verified exactly; otherwise defer.
pub fn prove_nonneg(poly: &SosPoly, nvars: usize, half_deg: usize) -> (out: SosOutcome)
    requires
        poly.wf(),
        2 * half_deg <= usize::MAX,
    ensures
        outcome_of(
            out,
            cand_matrix(*poly, monomials_below(nvars as nat, (half_deg + 1) as nat), nvars as nat),
            *poly,
            monomials_below(nvars as nat, (half_deg + 1) as nat),
            nvars as nat,
        ),
{
    let basis = monomials(nvars, half_deg);
    proof {
        lemma_monomials_fit(nvars as nat, (half_deg + 1) as nat);
        let bv = exps_view(basis@);
        assert forall|i: int| 0 <= i < bv.len() implies (#[trigger] bv[i]).len() >= nvars && forall|k: int| 0 <= k < nvars ==> 2 * bv[i][k] <= usize::MAX by {
            assert(tuple_below(monomials_below(nvars as nat, (half_deg + 1) as nat)[i], nvars as nat, (half_deg + 1) as nat));
        }
    }
    let q = build_candidate(poly, &basis, nvars);
    certify_with_rational_q(q, poly, &basis, nvars)
}

/// The symmetric rational matrix `num[min(i,j)][max(i,j)] / denom` (upper triangle mirrored).
pub open spec fn round_matrix(num: Seq<Vec<i64>>, denom: i64, size: nat) -> Seq<Seq<(int, nat)>> {
    Seq::new(
        size,
        |i: int|
            Seq::new(
                size,
                |j: int|
                    if i <= j {
                        reduce(num[i]@[j] as int, denom as int)
                    } else {
                        reduce(num[j]@[i] as int, denom as int)
                    },
            ),
    )
}

/// The symmetric rational matrix with entries `num[i][j] / denom` for `i <= j`,
/// mirrored below the diagonal. `num` holds a numeric `Q` already scaled by
/// `denom` and rounded to integers.
pub fn symmetric_from_upper(num: &Vec<Vec<i64>>, denom: i64) -> (q: Vec<Vec<Rat>>)
    requires
        denom != 0 || num@.len() == 0,
        forall|i: int| 0 <= i < num@.len() ==> (#[trigger] num@[i])@.len() >= num@.len(),
    ensures
        q@.len() == num@.len(),
        mat_wf(q@, num@.len()),
        forall|i: int| 0 <= i < q@.len() ==> (#[trigger] q@[i])@.len() == num@.len(),
        mat_view(q@) == round_matrix(num@, denom, num@.len()),
{
    let n = num.len();
    let ghost target = round_matrix(num@, denom, n as nat);
    let mut q: Vec<Vec<Rat>> = Vec::new();
    let mut i: usize = 0;
    while i < n
        invariant
            n == num@.len(),
            denom != 0 || n == 0,
            forall|a: int| 0 <= a < n ==> (#[trigger] num@[a])@.len() >= n,
            target == round_matrix(num@, denom, n as nat),
            i <= n,
            q@.len() == i,
            forall|a: int| 0 <= a < i ==> (#[trigger] q@[a])@.len() == n,
            forall|a: int, c: int| 0 <= a < i && 0 <= c < n ==> (#[trigger] q@[a]@[c]).wf() && q@[a]@[c]@ == target[a][c],
        decreases n - i,
    {
        let mut row: Vec<Rat> = Vec::new();
        let mut j: usize = 0;
        while j < n
            invariant
                n == num@.len(),
                denom != 0,
                forall|a: int| 0 <= a < n ==> (#[trigger] num@[a])@.len() >= n,
                target == round_matrix(num@, denom, n as nat),
                i < n,
                j <= n,
                row@.len() == j,
                forall|c: int| 0 <= c < j ==> (#[trigger] row@[c]).wf() && row@[c]@ == target[i as int][c],
            decreases n - j,
        {
            let x = if i <= j {
                Rat::ratio(num[i][j], denom)
            } else {
                Rat::ratio(num[j][i], denom)
            };
            row.push(x);
            j = j + 1;
        }
        q.push(row);
        i = i + 1;
    }
    assert(mat_view(q@) =~= target) by {
        assert forall|a: int| 0 <= a < n implies mat_view(q@)[a] == target[a] by {
            assert(mat_view(q@)[a] =~= target[a]);
        }
    }
    q
}

/// Certify against a numeric `Q` supplied from outside (for example by an SDP
/// solver), given as `num[i][j] = round(Q[i][j] * denom)`: a size mismatch with
/// the monomial basis defers; otherwise the rounded rational matrix goes
/// through the same exact verification.
pub fn prove_nonneg_with_q(poly: &SosPoly, nvars: usize, half_deg: usize, num: &Vec<Vec<i64>>, denom: i64) -> (out: SosOutcome)
    requires
        poly.wf(),
        2 * half_deg <= usize::MAX,
        num@.len() == monomials_below(nvars as nat, (half_deg + 1) as nat).len() ==> {
            &&& (denom != 0 || num@.len() == 0)
            &&& forall|i: int| 0 <= i < num@.len() ==> (#[trigger] num@[i])@.len() >= num@.len()
        },
    ensures
        num@.len() != monomials_below(nvars as nat, (half_deg + 1) as nat).len() ==> out == (SosOutcome::Defer {
            reason: out->reason,
        }) && out->reason@ == "supplied Q size != monomial basis size"@,
        num@.len() == monomials_below(nvars as nat, (half_deg + 1) as nat).len() ==> outcome_of(
            out,
            round_matrix(num@, denom, num@.len()),
            *poly,
            monomials_below(nvars as nat, (half_deg + 1) as nat),
            nvars as nat,
        ),
{
    let basis = monomials(nvars, half_deg);
    proof {
        lemma_monomials_fit(nvars as nat, (half_deg + 1) as nat);
        let bv = exps_view(basis@);
        assert forall|i: int| 0 <= i < bv.len() implies (#[trigger] bv[i]).len() >= nvars && forall|k: int| 0 <= k < nvars ==> 2 * bv[i][k] <= usize::MAX by {
            assert(tuple_below(monomials_below(nvars as nat, (half_deg + 1) as nat)[i], nvars as nat, (half_deg + 1) as nat));
        }
    }
    if num.len() != basis.len() {
        return SosOutcome::Defer { reason: str_to_string("supplied Q size != monomial basis size") };
    }
    let q = symmetric_from_upper(num, denom);
    certify_with_rational_q(q, poly, &basis, nvars)
}

/// Whether a dependent fold may fire.
#[derive(Clone, Debug, PartialEq, Eq)]
pub enum GateDecision {
    Fire { pivots_len: usize },
    HonestDefer { reason: String },
}

/// Discharge a fold's `precond ≥ 0` obligation: fire on an exact SOS
/// certificate, defer otherwise.
pub fn require_nonneg(precond: &SosPoly, nvars: usize, half_deg: usize) -> (g: GateDecision)
    requires
        precond.wf(),
        2 * half_deg <= usize::MAX,
    ensures
        ({
            let b = monomials_below(nvars as nat, (half_deg + 1) as nat);
            let q0 = cand_matrix(*precond, b, nvars as nat);
            match g {
                GateDecision::Fire { pivots_len } => certifies(q0, *precond, b, nvars as nat) && pivots_len == b.len(),
                GateDecision::HonestDefer { reason } => !certifies(q0, *precond, b, nvars as nat) && reason@
                    == defer_reason(q0, *precond, b, nvars as nat),
            }
        }),
{
    match prove_nonneg(precond, nvars, half_deg) {
        SosOutcome::Certified { pivots, .. } => GateDecision::Fire { pivots_len: pivots.len() },
        SosOutcome::Defer { reason } => GateDecision::HonestDefer { reason },
    }
}

// ---------------------------------------------------------------------------
// The monomial basis is complete and repeats nothing
// ---------------------------------------------------------------------------

/// The total degree of an exponent tuple.
pub open spec fn tsum(s: Seq<usize>) -> int
    decreases s.len(),
{
    if s.len() == 0 {
        0
    } else {
        s[0] + tsum(s.drop_first())
    }
}

/// No element occurs twice.
pub open spec fn no_dup(s: Seq<Seq<usize>>) -> bool {
    forall|i: int, j: int| 0 <= i < j < s.len() ==> s[i] != s[j]
}

proof fn lemma_tsum_nonneg(s: Seq<usize>)
    ensures
        tsum(s) >= 0,
    decreases s.len(),
{
    if s.len() > 0 {
        lemma_tsum_nonneg(s.drop_first());
    }
}

proof fn lemma_tuples_member(n: nat, t: nat)
    requires
        t <= usize::MAX,
    ensures
        forall|s: Seq<usize>| #[trigger] tuples(n, t).contains(s) <==> (s.len() == n && tsum(s) == t),
        no_dup(tuples(n, t)),
    decreases n, t + 2,
{
    if n > 0 {
        lemma_below_member(n, t, t + 1);
        assert(tuples(n, t) == tuples_below(n, t, t + 1));
        assert forall|s: Seq<usize>| #[trigger] tuples(n, t).contains(s) <==> (s.len() == n && tsum(s) == t) by {
            if s.len() == n && tsum(s) == t {
                lemma_tsum_nonneg(s.drop_first());
                assert(s[0] <= t);
            }
        }
    } else {
        assert forall|s: Seq<usize>| #[trigger] tuples(n, t).contains(s) <==> (s.len() == n && tsum(s) == t) by {
            if t == 0 {
                assert(tuples(n, t) == seq![Seq::<usize>::empty()]);
                if s.len() == 0 {
                    assert(s =~= Seq::<usize>::empty());
                    assert(tuples(n, t)[0] == s);
                }
            } else {
                assert(tuples(n, t).len() == 0);
            }
        }
    }
}

proof fn lemma_below_member(n: nat, t: nat, c: nat)
    requires
        n > 0,
        t <= usize::MAX,
    ensures
        forall|s: Seq<usize>| #[trigger] tuples_below(n, t, c).contains(s) <==> (s.len() == n && tsum(s) == t && s[0] < c),
        no_dup(tuples_below(n, t, c)),
        forall|x: int| 0 <= x < tuples_below(n, t, c).len() ==> (#[trigger] tuples_below(n, t, c)[x])[0] < c,
    decreases n, c,
{
    if c > 0 {
        let v = (c - 1) as nat;
        lemma_below_member(n, t, v);
        let rest = tuples_below(n, t, v);
        let all = tuples_below(n, t, c);
        if v <= t {
            lemma_tuples_member((n - 1) as nat, (t - v) as nat);
            let sub = tuples((n - 1) as nat, (t - v) as nat);
            let head = sub.map_values(|s: Seq<usize>| seq![v as usize] + s);
            assert(all == head + rest);
            assert forall|x: int| 0 <= x < head.len() implies (#[trigger] head[x]).len() == n && tsum(head[x]) == t && head[x][0] == v && head[x].drop_first() == sub[x] by {
                assert(head[x] == seq![v as usize] + sub[x]);
                assert(head[x].drop_first() =~= sub[x]);
                assert(sub.contains(sub[x]));
                assert(tsum(sub[x]) == t - v);
                assert(tsum(head[x]) == head[x][0] + tsum(head[x].drop_first()));
            }
            assert forall|s: Seq<usize>| #[trigger] all.contains(s) <==> (s.len() == n && tsum(s) == t && s[0] < c) by {
                if all.contains(s) {
                    let x = choose|x: int| 0 <= x < all.len() && all[x] == s;
                    if x < head.len() {
                        assert(all[x] == head[x]);
                    } else {
                        assert(all[x] == rest[x - head.len()]);
                        assert(rest.contains(s));
                    }
                }
                if s.len() == n && tsum(s) == t && s[0] < c {
                    if s[0] == v {
                        assert(sub.contains(s.drop_first()));
                        let x = choose|x: int| 0 <= x < sub.len() && sub[x] == s.drop_first();
                        assert(head[x] =~= s);
                        assert(all[x] == head[x]);
                    } else {
                        assert(rest.contains(s));
                        let x = choose|x: int| 0 <= x < rest.len() && rest[x] == s;
                        assert(all[x + head.len()] == rest[x]);
                    }
                }
            }
            assert forall|x: int| 0 <= x < all.len() implies (#[trigger] all[x])[0] < c by {
                if x < head.len() {
                    assert(all[x] == head[x]);
                } else {
                    assert(all[x] == rest[x - head.len()]);
                }
            }
            assert forall|i: int, j: int| 0 <= i < j < all.len() implies all[i] != all[j] by {
                if j < head.len() {
                    assert(all[i] == head[i] && all[j] == head[j]);
                    if head[i] == head[j] {
                        assert(sub[i] == head[i].drop_first());
                    }
                } else if i < head.len() {
                    assert(all[i] == head[i]);
                    assert(all[j] == rest[j - head.len()]);
                    assert(rest[j - head.len()][0] < v);
                } else {
                    assert(all[i] == rest[i - head.len()]);
                    assert(all[j] == rest[j - head.len()]);
                }
            }
        } else {
            assert(all == Seq::<Seq<usize>>::empty() + rest);
            assert(all =~= rest);
            assert forall|s: Seq<usize>| #[trigger] all.contains(s) <==> (s.len() == n && tsum(s) == t && s[0] < c) by {
                if s.len() == n && tsum(s) == t && s[0] < c {
                    lemma_tsum_nonneg(s.drop_first());
                }
            }
        }
    } else {
        assert(tuples_below(n, t, c).len() == 0);
    }
}

/// The monomial basis lists every exponent tuple of `n` entries with total
/// degree at most `deg`, and each of them once.
pub proof fn lemma_monomials_complete(n: nat, deg: nat)
    requires
        deg < usize::MAX,
    ensures
        forall|s: Seq<usize>| #[trigger] monomials_below(n, deg + 1).contains(s) <==> (s.len() == n && tsum(s) <= deg),
        no_dup(monomials_below(n, deg + 1)),
{
    lemma_monomials_below_member(n, deg + 1);
}

proof fn lemma_monomials_below_member(n: nat, k: nat)
    requires
        k <= usize::MAX,
    ensures
        forall|s: Seq<usize>| #[trigger] monomials_below(n, k).contains(s) <==> (s.len() == n && tsum(s) < k),
        no_dup(monomials_below(n, k)),
        forall|x: int| 0 <= x < monomials_below(n, k).len() ==> tsum(#[trigger] monomials_below(n, k)[x]) < k,
    decreases k,
{
    if k > 0 {
        let t = (k - 1) as nat;
        lemma_monomials_below_member(n, t);
        lemma_tuples_member(n, t);
        let a = monomials_below(n, t);
        let b = tuples(n, t);
        let all = monomials_below(n, k);
        assert(all == a + b);
        assert forall|s: Seq<usize>| #[trigger] all.contains(s) <==> (s.len() == n && tsum(s) < k) by {
            if all.contains(s) {
                let x = choose|x: int| 0 <= x < all.len() && all[x] == s;
                if x < a.len() {
                    assert(all[x] == a[x]);
                    assert(a.contains(s));
                } else {
                    assert(all[x] == b[x - a.len()]);
                    assert(b.contains(s));
                }
            }
            if s.len() == n && tsum(s) < k {
                if tsum(s) == t {
                    assert(b.contains(s));
                    let x = choose|x: int| 0 <= x < b.len() && b[x] == s;
                    assert(all[x + a.len()] == b[x]);
                } else {
                    assert(a.contains(s));
                    let x = choose|x: int| 0 <= x < a.len() && a[x] == s;
                    assert(all[x] == a[x]);
                }
            }
        }
        assert forall|x: int| 0 <= x < all.len() implies tsum(#[trigger] all[x]) < k by {
            if x < a.len() {
                assert(all[x] == a[x]);
            } else {
                assert(all[x] == b[x - a.len()]);
                assert(b.contains(b[x - a.len()]));
            }
        }
        assert forall|i: int, j: int| 0 <= i < j < all.len() implies all[i] != all[j] by {
            if j < a.len() {
                assert(all[i] == a[i] && all[j] == a[j]);
            } else if i < a.len() {
                assert(all[i] == a[i]);
                assert(all[j] == b[j - a.len()]);
                assert(b.contains(b[j - a.len()]));
            } else {
                assert(all[i] == b[i - a.len()]);
                assert(all[j] == b[j - a.len()]);
            }
        }
    } else {
        assert(monomials_below(n, k).len() == 0);
        assert forall|s: Seq<usize>| #[trigger] monomials_below(n, k).contains(s) <==> (s.len() == n && tsum(s) < k) by {
            lemma_tsum_nonneg(s);
        }
    }
}

// ---------------------------------------------------------------------------
// The repair restores the identity
// ---------------------------------------------------------------------------

/// The bump after `k` additions of `delta`.
pub open spec fn bumps(delta: (int, nat), k: nat) -> (int, nat)
    decreases k,
{
    if k == 0 {
        qv_zero()
    } else {
        qv_add(bumps(delta, (k - 1) as nat), delta)
    }
}

/// How many slots of `e` among the first `f` entries (row-major) are marked by `hit`.
pub open spec fn hits_below(hit: spec_fn(int) -> bool, b: Seq<Seq<usize>>, n: nat, e: Seq<usize>, f: nat) -> nat
    decreases f,
{
    if f == 0 || b.len() == 0 {
        0
    } else {
        let g = f - 1;
        let i = g / (b.len() as int);
        let j = g % (b.len() as int);
        hits_below(hit, b, n, e, (f - 1) as nat) + (if esum(b[i], b[j], n) == e && hit(g) {
            1nat
        } else {
            0nat
        })
    }
}

/// Every entry of the first `size` rows and columns has a positive denominator.
pub open spec fn mat_pd(q: Seq<Seq<(int, nat)>>, size: nat) -> bool {
    &&& q.len() >= size
    &&& forall|i: int| 0 <= i < size ==> (#[trigger] q[i]).len() >= size
    &&& forall|i: int, j: int| 0 <= i < size && 0 <= j < size ==> (#[trigger] q[i][j]).1 > 0
}

proof fn lemma_flat_index(g: int, nb: int)
    requires
        nb > 0,
        0 <= g < nb * nb,
    ensures
        0 <= g / nb < nb,
        0 <= g % nb < nb,
        g == (g / nb) * nb + g % nb,
{
    vstd::arithmetic::div_mod::lemma_fundamental_div_mod(g, nb);
    let i = g / nb;
    let j = g % nb;
    assert(0 <= i < nb) by (nonlinear_arith)
        requires
            g == nb * i + j,
            0 <= j < nb,
            0 <= g < nb * nb,
    ;
    assert(g == i * nb + j) by (nonlinear_arith)
        requires
            g == nb * i + j,
    ;
}

proof fn lemma_flat_unique(i: int, j: int, i2: int, j2: int, nb: int)
    requires
        0 <= i < nb,
        0 <= j < nb,
        0 <= i2 < nb,
        0 <= j2 < nb,
        i * nb + j == i2 * nb + j2,
    ensures
        i == i2 && j == j2,
{
    vstd::arithmetic::div_mod::lemma_fundamental_div_mod_converse(i * nb + j, nb, i, j);
    vstd::arithmetic::div_mod::lemma_fundamental_div_mod_converse(i2 * nb + j2, nb, i2, j2);
}

proof fn lemma_bumps_pd(delta: (int, nat), k: nat)
    requires
        delta.1 > 0,
    ensures
        bumps(delta, k).1 > 0,
    decreases k,
{
    if k > 0 {
        lemma_bumps_pd(delta, (k - 1) as nat);
        lemma_rep_self(bumps(delta, (k - 1) as nat));
        lemma_rep_self(delta);
        lemma_rep_add(bumps(delta, (k - 1) as nat), bumps(delta, (k - 1) as nat).0, bumps(delta, (k - 1) as nat).1 as int, delta, delta.0, delta.1 as int);
    }
}

proof fn lemma_slot_sum_pd(q: Seq<Seq<(int, nat)>>, b: Seq<Seq<usize>>, n: nat, e: Seq<usize>, f: nat)
    requires
        mat_pd(q, b.len()),
        f <= b.len() * b.len(),
    ensures
        slot_sum(q, b, n, e, f).1 > 0,
    decreases f,
{
    if f > 0 && b.len() > 0 {
        let nb = b.len() as int;
        lemma_slot_sum_pd(q, b, n, e, (f - 1) as nat);
        lemma_flat_index(f - 1, nb);
        let i = (f - 1) / nb;
        let j = (f - 1) % nb;
        let prev = slot_sum(q, b, n, e, (f - 1) as nat);
        if esum(b[i], b[j], n) == e {
            assert(q[i][j].1 > 0);
            lemma_rep_self(prev);
            lemma_rep_self(q[i][j]);
            lemma_rep_add(prev, prev.0, prev.1 as int, q[i][j], q[i][j].0, q[i][j].1 as int);
        }
    }
}

/// Slot sums of `q1` against those of `q0`, where on the slots of `e` the two
/// agree except at the entries marked by `hit`, where `q1 = q0 + delta`: the
/// sum of `q1` is the sum of `q0` plus one `delta` per mark passed.
proof fn lemma_track(
    q0: Seq<Seq<(int, nat)>>,
    q1: Seq<Seq<(int, nat)>>,
    b: Seq<Seq<usize>>,
    n: nat,
    e: Seq<usize>,
    hit: spec_fn(int) -> bool,
    delta: (int, nat),
    f: nat,
)
    requires
        mat_pd(q0, b.len()),
        q1.len() >= b.len(),
        forall|i: int| 0 <= i < b.len() ==> (#[trigger] q1[i]).len() >= b.len(),
        delta.1 > 0,
        forall|i: int, j: int|
            0 <= i < b.len() && 0 <= j < b.len() && esum(b[i], b[j], n) == e ==> (if hit(i * b.len() + j) {
                #[trigger] q1[i][j] == qv_add(q0[i][j], delta)
            } else {
                q1[i][j] == q0[i][j]
            }),
        f <= b.len() * b.len(),
    ensures
        slot_sum(q0, b, n, e, f).1 > 0,
        rep(
            slot_sum(q1, b, n, e, f),
            slot_sum(q0, b, n, e, f).0 * bumps(delta, hits_below(hit, b, n, e, f)).1 + bumps(
                delta,
                hits_below(hit, b, n, e, f),
            ).0 * slot_sum(q0, b, n, e, f).1,
            (slot_sum(q0, b, n, e, f).1 * bumps(delta, hits_below(hit, b, n, e, f)).1) as int,
        ),
    decreases f,
{
    lemma_slot_sum_pd(q0, b, n, e, f);
    if f == 0 || b.len() == 0 {
        assert(bumps(delta, 0) == qv_zero());
    } else {
        let nb = b.len() as int;
        let g = f - 1;
        lemma_track(q0, q1, b, n, e, hit, delta, (f - 1) as nat);
        lemma_flat_index(g, nb);
        let i = g / nb;
        let j = g % nb;
        let s0 = slot_sum(q0, b, n, e, (f - 1) as nat);
        let s1 = slot_sum(q1, b, n, e, (f - 1) as nat);
        let k = hits_below(hit, b, n, e, (f - 1) as nat);
        let bb = bumps(delta, k);
        lemma_bumps_pd(delta, k);
        lemma_slot_sum_pd(q0, b, n, e, (f - 1) as nat);
        if esum(b[i], b[j], n) == e {
            assert(q0[i][j].1 > 0);
            if hit(g) {
                assert(q1[i][j] == qv_add(q0[i][j], delta));
                lemma_bump_hit(s0, s1, q0[i][j], delta, bb);
            } else {
                assert(q1[i][j] == q0[i][j]);
                lemma_bump_step(s0, s1, q0[i][j], bb);
            }
        }
    }
}

/// `z = S + B` in value, and `S + B = c`, cross-multiplied: then `z = c`.
proof fn lemma_close(z: (int, nat), s: (int, nat), bb: (int, nat), c: (int, nat))
    requires
        s.1 > 0,
        bb.1 > 0,
        c.1 > 0,
        rep(z, s.0 * bb.1 + bb.0 * s.1, (s.1 * bb.1) as int),
        (s.0 * bb.1 + bb.0 * s.1) * c.1 == c.0 * (s.1 * bb.1),
    ensures
        qv_eq(z, c),
{
    lemma_rep_move(z, s.0 * bb.1 + bb.0 * s.1, (s.1 * bb.1) as int, c.0, c.1 as int);
    lemma_rep_self(c);
    lemma_rep_eq(z, c, c.0, c.1 as int);
}

/// `bb` has the value `num / den`: then `S + bb = S + num/den`, cross-multiplied with `c`.
proof fn lemma_close_via(s: (int, nat), bb: (int, nat), num: int, den: int, c: (int, nat))
    requires
        s.1 > 0,
        c.1 > 0,
        rep(bb, num, den),
        (s.0 * den + num * s.1) * c.1 == c.0 * (s.1 * den),
    ensures
        (s.0 * bb.1 + bb.0 * s.1) * c.1 == c.0 * (s.1 * bb.1),
{
    broadcast use vstd::arithmetic::mul::group_mul_properties;

    assert(((s.0 * bb.1 + bb.0 * s.1) * c.1) * den == (s.0 * den) * (bb.1 * c.1) + (bb.0 * den) * (s.1 * c.1));
    assert((bb.0 * den) * (s.1 * c.1) == (num * bb.1) * (s.1 * c.1));
    assert((s.0 * den) * (bb.1 * c.1) + (num * bb.1) * (s.1 * c.1) == ((s.0 * den + num * s.1) * c.1) * bb.1);
    assert(((s.0 * den + num * s.1) * c.1) * bb.1 == (c.0 * (s.1 * den)) * bb.1);
    assert((c.0 * (s.1 * den)) * bb.1 == (c.0 * (s.1 * bb.1)) * den);
    lemma_cancel(den, (s.0 * bb.1 + bb.0 * s.1) * c.1, c.0 * (s.1 * bb.1));
}

proof fn lemma_sub_close(s: (int, nat), c: (int, nat), dd: (int, nat))
    requires
        dd.0 * (c.1 * s.1) == (c.0 * s.1 - s.0 * c.1) * dd.1,
    ensures
        (s.0 * dd.1 + dd.0 * s.1) * c.1 == c.0 * (s.1 * dd.1),
{
    broadcast use vstd::arithmetic::mul::group_mul_properties;

    assert((s.0 * dd.1 + dd.0 * s.1) * c.1 == s.0 * dd.1 * c.1 + dd.0 * (c.1 * s.1));
    assert(s.0 * dd.1 * c.1 + (c.0 * s.1 - s.0 * c.1) * dd.1 == c.0 * (s.1 * dd.1));
}

proof fn lemma_coef_in_pd(ent: Seq<(Seq<usize>, (int, nat))>, e: Seq<usize>)
    requires
        forall|t: int| 0 <= t < ent.len() ==> (#[trigger] ent[t]).1.1 > 0,
    ensures
        coef_in(ent, e).1 > 0,
    decreases ent.len(),
{
    if ent.len() > 0 {
        assert(ent.last() == ent[ent.len() - 1]);
        let pre = ent.drop_last();
        assert forall|t: int| 0 <= t < pre.len() implies (#[trigger] pre[t]).1.1 > 0 by {
            assert(pre[t] == ent[t]);
        }
        lemma_coef_in_pd(pre, e);
    }
}

proof fn lemma_coef_pd(p: SosPoly, e: Seq<usize>)
    requires
        p.wf(),
    ensures
        coef(p, e).1 > 0,
{
    let ent = p.entries();
    assert forall|t: int| 0 <= t < ent.len() implies (#[trigger] ent[t]).1.1 > 0 by {
        assert(ent[t] == (p.terms@[t].0@, p.terms@[t].1@));
        assert(p.terms@[t].1.wf());
    }
    lemma_coef_in_pd(ent, e);
}

proof fn lemma_min_diag(b: Seq<Seq<usize>>, n: nat, e: Seq<usize>, i0: int)
    requires
        is_slot(b, n, e, i0, i0),
    ensures
        exists|d: int| first_diag(b, n, e, d),
    decreases i0,
{
    if exists|i: int| 0 <= i < i0 && #[trigger] is_slot(b, n, e, i, i) {
        let i = choose|i: int| 0 <= i < i0 && #[trigger] is_slot(b, n, e, i, i);
        lemma_min_diag(b, n, e, i);
    } else {
        assert(first_diag(b, n, e, i0));
    }
}

proof fn lemma_min_off(b: Seq<Seq<usize>>, n: nat, e: Seq<usize>, i0: int, j0: int)
    requires
        i0 < j0,
        is_slot(b, n, e, i0, j0),
    ensures
        exists|lo: int, hi: int| first_off(b, n, e, lo, hi),
    decreases i0 * b.len() + j0,
{
    if exists|i: int, j: int| i < j && #[trigger] is_slot(b, n, e, i, j) && (i < i0 || (i == i0 && j < j0)) {
        let (i, j) = choose|i: int, j: int| i < j && #[trigger] is_slot(b, n, e, i, j) && (i < i0 || (i == i0 && j < j0));
        assert(i * b.len() + j < i0 * b.len() + j0) by (nonlinear_arith)
            requires
                i < i0 || (i == i0 && j < j0),
                0 <= j < b.len(),
                0 <= j0 < b.len(),
                0 <= i,
        ;
        lemma_min_off(b, n, e, i, j);
    } else {
        assert(first_off(b, n, e, i0, j0));
    }
}

/// Marks at two slot positions (possibly the same) are passed once each.
proof fn lemma_hits_two(b: Seq<Seq<usize>>, n: nat, e: Seq<usize>, p1: int, p2: int, f: nat)
    requires
        b.len() > 0,
        0 <= p1 <= p2 < b.len() * b.len(),
        esum(b[p1 / (b.len() as int)], b[p1 % (b.len() as int)], n) == e,
        esum(b[p2 / (b.len() as int)], b[p2 % (b.len() as int)], n) == e,
        f <= b.len() * b.len(),
    ensures
        hits_below(|g: int| g == p1 || g == p2, b, n, e, f) == (if p1 < f { 1nat } else { 0nat }) + (if p1 < p2 && p2 < f {
            1nat
        } else {
            0nat
        }),
    decreases f,
{
    if f > 0 {
        lemma_hits_two(b, n, e, p1, p2, (f - 1) as nat);
    }
}

/// The repair settles every monomial that has a slot: afterwards the
/// coefficient of `e` in `zᵀ Q z` equals that of `p`.
pub proof fn lemma_fixed_slot(q0: Seq<Seq<(int, nat)>>, p: SosPoly, b: Seq<Seq<usize>>, n: nat, e: Seq<usize>)
    requires
        p.wf(),
        mat_pd(q0, b.len()),
        has_slot(b, n, e),
    ensures
        qv_eq(zqz(fixed_matrix(q0, p, b, n), b, n, e), coef(p, e)),
{
    let nb = b.len();
    let q1 = fixed_matrix(q0, p, b, n);
    let c = coef(p, e);
    let fa = nb * nb;
    lemma_coef_pd(p, e);
    lemma_slot_sum_pd(q0, b, n, e, fa);
    let s = zqz(q0, b, n, e);
    lemma_pos_mul(c.1 as int, s.1 as int);
    lemma_reduce_value(c.0 * s.1 - s.0 * c.1, (c.1 * s.1) as int);
    let dd = qv_sub(c, s);
    let d1: int = dd.1 as int;
    lemma_sub_close(s, c, dd);
    let (i0, j0) = choose|i: int, j: int| #[trigger] is_slot(b, n, e, i, j);
    assert(nb > 0);
    assert forall|i: int| 0 <= i < nb implies (#[trigger] q1[i]).len() >= nb by {}
    if dd.0 == 0 {
        let hit = |g: int| g == -1 || g == -1;
        assert forall|i: int, j: int| 0 <= i < nb && 0 <= j < nb && esum(b[i], b[j], n) == e implies (if hit(i * nb + j) {
            #[trigger] q1[i][j] == qv_add(q0[i][j], qv_zero())
        } else {
            q1[i][j] == q0[i][j]
        }) by {
            assert(0 <= i * nb + j) by (nonlinear_arith)
                requires
                    0 <= i,
                    0 <= j,
                    nb > 0,
            ;
            assert(q1[i][j] == fixed_entry(q0, p, b, n, i, j));
        }
        lemma_track(q0, q1, b, n, e, hit, qv_zero(), fa);
        assert(hits_below(hit, b, n, e, fa) == 0) by {
            lemma_hits_zero(b, n, e, fa);
        }
        lemma_rep_self(qv_zero());
        assert(c.0 * s.1 - s.0 * c.1 == 0);
        assert((s.0 * 1 + 0 * s.1) * c.1 == s.0 * c.1);
        assert(c.0 * (s.1 * 1) == c.0 * s.1);
        lemma_close_via(s, bumps(qv_zero(), 0), 0, 1, c);
        lemma_close(zqz(q1, b, n, e), s, bumps(qv_zero(), 0), c);
    } else if has_diag(b, n, e) {
        let i1 = choose|i: int| #[trigger] is_slot(b, n, e, i, i);
        lemma_min_diag(b, n, e, i1);
        let d = choose|d: int| first_diag(b, n, e, d);
        let pos = d * nb + d;
        lemma_flat_range(d, d, nb as int);
        let hit = |g: int| g == pos || g == pos;
        assert forall|i: int, j: int| 0 <= i < nb && 0 <= j < nb && esum(b[i], b[j], n) == e implies (if hit(i * nb + j) {
            #[trigger] q1[i][j] == qv_add(q0[i][j], dd)
        } else {
            q1[i][j] == q0[i][j]
        }) by {
            assert(q1[i][j] == fixed_entry(q0, p, b, n, i, j));
            assert(is_slot(b, n, e, i, j));
            if i * nb + j == pos {
                lemma_flat_unique(i, j, d, d, nb as int);
            } else if i == j && first_diag(b, n, e, i) {
                lemma_first_diag_unique(b, n, e, i, d);
            }
        }
        lemma_track(q0, q1, b, n, e, hit, dd, fa);
        lemma_flat_index(pos, nb as int);
        lemma_flat_unique(pos / (nb as int), pos % (nb as int), d, d, nb as int);
        lemma_hits_two(b, n, e, pos, pos, fa);
        let bb = bumps(dd, 1);
        assert(bumps(dd, 0) == qv_zero());
        assert(bb == qv_add(qv_zero(), dd));
        lemma_rep_self(qv_zero());
        lemma_rep_self(dd);
        lemma_rep_add(qv_zero(), 0, 1, dd, dd.0, d1);
        lemma_rep_move(bb, 0 * d1 + dd.0 * 1, 1 * d1, dd.0, d1);
        lemma_close_via(s, bb, dd.0, dd.1 as int, c);
        lemma_close(zqz(q1, b, n, e), s, bb, c);
    } else {
        assert(i0 != j0);
        let (a0, c0) = if i0 < j0 { (i0, j0) } else { (j0, i0) };
        lemma_esum_comm(b[i0], b[j0], n);
        assert(is_slot(b, n, e, a0, c0));
        lemma_min_off(b, n, e, a0, c0);
        let (lo, hi) = choose|lo: int, hi: int| first_off(b, n, e, lo, hi);
        lemma_flat_range(lo, hi, nb as int);
        lemma_flat_range(hi, lo, nb as int);
        let pos1 = lo * nb + hi;
        let pos2 = hi * nb + lo;
        assert(pos1 < pos2) by (nonlinear_arith)
            requires
                lo < hi,
                0 <= lo,
                hi < nb,
                pos1 == lo * nb + hi,
                pos2 == hi * nb + lo,
        ;
        let h = qv_div(dd, (2, 1));
        lemma_pos_mul(d1, 2);
        lemma_reduce_value(dd.0 * 1, d1 * 2);
        let hit = |g: int| g == pos1 || g == pos2;
        assert forall|i: int, j: int| 0 <= i < nb && 0 <= j < nb && esum(b[i], b[j], n) == e implies (if hit(i * nb + j) {
            #[trigger] q1[i][j] == qv_add(q0[i][j], h)
        } else {
            q1[i][j] == q0[i][j]
        }) by {
            assert(q1[i][j] == fixed_entry(q0, p, b, n, i, j));
            assert(is_slot(b, n, e, i, j));
            if i * nb + j == pos1 {
                lemma_flat_unique(i, j, lo, hi, nb as int);
            } else if i * nb + j == pos2 {
                lemma_flat_unique(i, j, hi, lo, nb as int);
            } else if i == j {
                assert(is_slot(b, n, e, i, i));
            } else {
                let mn = if i < j { i } else { j };
                let mx = if i < j { j } else { i };
                if first_off(b, n, e, mn, mx) {
                    lemma_first_off_unique(b, n, e, mn, mx, lo, hi);
                }
            }
        }
        lemma_track(q0, q1, b, n, e, hit, h, fa);
        lemma_flat_index(pos1, nb as int);
        lemma_flat_index(pos2, nb as int);
        lemma_flat_unique(pos1 / (nb as int), pos1 % (nb as int), lo, hi, nb as int);
        lemma_flat_unique(pos2 / (nb as int), pos2 % (nb as int), hi, lo, nb as int);
        lemma_esum_comm(b[lo], b[hi], n);
        lemma_hits_two(b, n, e, pos1, pos2, fa);
        // h = dd / 2, and h + h = dd
        lemma_pos_mul(d1, 2);
        lemma_reduce_value(dd.0 * 1, d1 * 2);
        assert(rep(h, dd.0 * 1, d1 * 2));
        lemma_rep_self(qv_zero());
        lemma_rep_add(qv_zero(), 0, 1, h, dd.0 * 1, d1 * 2);
        let b1 = bumps(h, 1);
        let b2 = bumps(h, 2);
        assert(bumps(h, 0) == qv_zero());
        assert(b1 == qv_add(qv_zero(), h));
        assert(b2 == qv_add(b1, h));
        lemma_rep_move(b1, 0 * (d1 * 2) + (dd.0 * 1) * 1, 1 * (d1 * 2), dd.0, d1 * 2);
        lemma_rep_move(h, dd.0 * 1, d1 * 2, dd.0, d1 * 2);
        lemma_rep_add(b1, dd.0, d1 * 2, h, dd.0, d1 * 2);
        lemma_halves(dd.0, d1);
        lemma_rep_move(b2, dd.0 * (d1 * 2) + dd.0 * (d1 * 2), (d1 * 2) * (d1 * 2), dd.0, d1);
        lemma_close_via(s, b2, dd.0, dd.1 as int, c);
        lemma_close(zqz(q1, b, n, e), s, b2, c);
    }
}

proof fn lemma_halves(d0: int, d1: int)
    ensures
        (d0 * (d1 * 2) + d0 * (d1 * 2)) * d1 == d0 * ((d1 * 2) * (d1 * 2)),
{
    broadcast use {vstd::arithmetic::mul::group_mul_is_commutative_and_distributive, vstd::arithmetic::mul::lemma_mul_is_associative};

}

proof fn lemma_flat_range(i: int, j: int, nb: int)
    requires
        0 <= i < nb,
        0 <= j < nb,
    ensures
        0 <= i * nb + j < nb * nb,
{
    assert(0 <= i * nb + j < nb * nb) by (nonlinear_arith)
        requires
            0 <= i < nb,
            0 <= j < nb,
    ;
}

proof fn lemma_hits_zero(b: Seq<Seq<usize>>, n: nat, e: Seq<usize>, f: nat)
    ensures
        hits_below(|g: int| g == -1 || g == -1, b, n, e, f) == 0,
    decreases f,
{
    if f > 0 && b.len() > 0 {
        lemma_hits_zero(b, n, e, (f - 1) as nat);
    }
}

/// A successful repair makes the identity hold: after it, `zᵀ Q z = p` for
/// every monomial, so the exact identity check cannot fail.
pub proof fn lemma_repair_restores_identity(q0: Seq<Seq<(int, nat)>>, p: SosPoly, b: Seq<Seq<usize>>, n: nat)
    requires
        p.wf(),
        mat_pd(q0, b.len()),
        fix_ok(p, b, n),
    ensures
        identity_holds(fixed_matrix(q0, p, b, n), p, b, n),
{
    let q1 = fixed_matrix(q0, p, b, n);
    assert forall|e: Seq<usize>| #![trigger zqz(q1, b, n, e)] #![trigger coef(p, e)] qv_eq(zqz(q1, b, n, e), coef(p, e)) by {
        if has_slot(b, n, e) {
            lemma_fixed_slot(q0, p, b, n, e);
        } else {
            lemma_slot_sum_none(q1, b, n, e, b.len() * b.len());
            assert(!(coef(p, e).0 != 0));
        }
    }
}

/// The all-zero `size x size` matrix.
pub open spec fn zero_mat(size: nat) -> Seq<Seq<(int, nat)>> {
    Seq::new(size, |i: int| Seq::new(size, |j: int| qv_zero()))
}

proof fn lemma_zero_slot_sum(b: Seq<Seq<usize>>, n: nat, e: Seq<usize>, f: nat)
    requires
        f <= b.len() * b.len(),
    ensures
        slot_sum(zero_mat(b.len()), b, n, e, f) == qv_zero(),
    decreases f,
{
    if f > 0 && b.len() > 0 {
        lemma_zero_slot_sum(b, n, e, (f - 1) as nat);
        lemma_flat_index(f - 1, b.len() as int);
        lemma_reduce_zero(1);
        assert(qv_add(qv_zero(), qv_zero()) == reduce(0, 1));
    }
}

/// The diagonal-placement candidate reproduces the coefficient of every
/// monomial that has a slot.
pub proof fn lemma_candidate_slot(p: SosPoly, b: Seq<Seq<usize>>, n: nat, e: Seq<usize>)
    requires
        p.wf(),
        has_slot(b, n, e),
    ensures
        qv_eq(zqz(cand_matrix(p, b, n), b, n, e), coef(p, e)),
{
    let nb = b.len();
    let q0 = zero_mat(nb);
    let q1 = cand_matrix(p, b, n);
    let c = coef(p, e);
    let fa = nb * nb;
    lemma_coef_pd(p, e);
    lemma_zero_slot_sum(b, n, e, fa);
    let s = qv_zero();
    let w1: int = c.1 as int;
    let (i0, j0) = choose|i: int, j: int| #[trigger] is_slot(b, n, e, i, j);
    assert(nb > 0);
    assert(mat_pd(q0, nb));
    assert forall|i: int| 0 <= i < nb implies (#[trigger] q1[i]).len() >= nb by {}
    if c.0 == 0 {
        let hit = |g: int| g == -1 || g == -1;
        assert forall|i: int, j: int| 0 <= i < nb && 0 <= j < nb && esum(b[i], b[j], n) == e implies (if hit(i * nb + j) {
            #[trigger] q1[i][j] == qv_add(q0[i][j], qv_zero())
        } else {
            q1[i][j] == q0[i][j]
        }) by {
            assert(0 <= i * nb + j) by (nonlinear_arith)
                requires
                    0 <= i,
                    0 <= j,
                    nb > 0,
            ;
            assert(q1[i][j] == cand_entry(p, b, n, i, j));
        }
        lemma_track(q0, q1, b, n, e, hit, qv_zero(), fa);
        lemma_hits_zero(b, n, e, fa);
        lemma_rep_self(qv_zero());
        lemma_close_via(s, bumps(qv_zero(), 0), 0, 1, c);
        lemma_close(zqz(q1, b, n, e), s, bumps(qv_zero(), 0), c);
    } else if has_diag(b, n, e) {
        let i1 = choose|i: int| #[trigger] is_slot(b, n, e, i, i);
        lemma_min_diag(b, n, e, i1);
        let d = choose|d: int| first_diag(b, n, e, d);
        let pos = d * nb + d;
        lemma_flat_range(d, d, nb as int);
        let hit = |g: int| g == pos || g == pos;
        assert forall|i: int, j: int| 0 <= i < nb && 0 <= j < nb && esum(b[i], b[j], n) == e implies (if hit(i * nb + j) {
            #[trigger] q1[i][j] == qv_add(q0[i][j], c)
        } else {
            q1[i][j] == q0[i][j]
        }) by {
            assert(q1[i][j] == cand_entry(p, b, n, i, j));
            assert(is_slot(b, n, e, i, j));
            if i * nb + j == pos {
                lemma_flat_unique(i, j, d, d, nb as int);
            } else if i == j && first_diag(b, n, e, i) {
                lemma_first_diag_unique(b, n, e, i, d);
            }
        }
        lemma_track(q0, q1, b, n, e, hit, c, fa);
        lemma_flat_index(pos, nb as int);
        lemma_flat_unique(pos / (nb as int), pos % (nb as int), d, d, nb as int);
        lemma_hits_two(b, n, e, pos, pos, fa);
        let bb = bumps(c, 1);
        assert(bumps(c, 0) == qv_zero());
        assert(bb == qv_add(qv_zero(), c));
        lemma_rep_self(qv_zero());
        lemma_rep_self(c);
        lemma_rep_add(qv_zero(), 0, 1, c, c.0, w1);
        lemma_rep_move(bb, 0 * w1 + c.0 * 1, 1 * w1, c.0, w1);
        lemma_close_via(s, bb, c.0, w1, c);
        lemma_close(zqz(q1, b, n, e), s, bb, c);
    } else {
        assert(i0 != j0);
        let (a0, c0) = if i0 < j0 { (i0, j0) } else { (j0, i0) };
        lemma_esum_comm(b[i0], b[j0], n);
        assert(is_slot(b, n, e, a0, c0));
        lemma_min_off(b, n, e, a0, c0);
        let (lo, hi) = choose|lo: int, hi: int| first_off(b, n, e, lo, hi);
        lemma_flat_range(lo, hi, nb as int);
        lemma_flat_range(hi, lo, nb as int);
        let pos1 = lo * nb + hi;
        let pos2 = hi * nb + lo;
        assert(pos1 < pos2) by (nonlinear_arith)
            requires
                lo < hi,
                0 <= lo,
                hi < nb,
                pos1 == lo * nb + hi,
                pos2 == hi * nb + lo,
        ;
        let h = qv_div(c, (2, 1));
        lemma_pos_mul(w1, 2);
        lemma_reduce_value(c.0 * 1, w1 * 2);
        let hit = |g: int| g == pos1 || g == pos2;
        assert forall|i: int, j: int| 0 <= i < nb && 0 <= j < nb && esum(b[i], b[j], n) == e implies (if hit(i * nb + j) {
            #[trigger] q1[i][j] == qv_add(q0[i][j], h)
        } else {
            q1[i][j] == q0[i][j]
        }) by {
            assert(q1[i][j] == cand_entry(p, b, n, i, j));
            assert(is_slot(b, n, e, i, j));
            if i * nb + j == pos1 {
                lemma_flat_unique(i, j, lo, hi, nb as int);
            } else if i * nb + j == pos2 {
                lemma_flat_unique(i, j, hi, lo, nb as int);
            } else if i == j {
                assert(is_slot(b, n, e, i, i));
            } else {
                let mn = if i < j { i } else { j };
                let mx = if i < j { j } else { i };
                if first_off(b, n, e, mn, mx) {
                    lemma_first_off_unique(b, n, e, mn, mx, lo, hi);
                }
            }
        }
        lemma_track(q0, q1, b, n, e, hit, h, fa);
        lemma_flat_index(pos1, nb as int);
        lemma_flat_index(pos2, nb as int);
        lemma_flat_unique(pos1 / (nb as int), pos1 % (nb as int), lo, hi, nb as int);
        lemma_flat_unique(pos2 / (nb as int), pos2 % (nb as int), hi, lo, nb as int);
        lemma_esum_comm(b[lo], b[hi], n);
        lemma_hits_two(b, n, e, pos1, pos2, fa);
        assert(rep(h, c.0 * 1, w1 * 2));
        lemma_rep_self(qv_zero());
        lemma_rep_add(qv_zero(), 0, 1, h, c.0 * 1, w1 * 2);
        let b1 = bumps(h, 1);
        let b2 = bumps(h, 2);
        assert(bumps(h, 0) == qv_zero());
        assert(b1 == qv_add(qv_zero(), h));
        assert(b2 == qv_add(b1, h));
        lemma_rep_move(b1, 0 * (w1 * 2) + (c.0 * 1) * 1, 1 * (w1 * 2), c.0, w1 * 2);
        lemma_rep_move(h, c.0 * 1, w1 * 2, c.0, w1 * 2);
        lemma_rep_add(b1, c.0, w1 * 2, h, c.0, w1 * 2);
        lemma_halves(c.0, w1);
        lemma_rep_move(b2, c.0 * (w1 * 2) + c.0 * (w1 * 2), (w1 * 2) * (w1 * 2), c.0, w1);
        lemma_close_via(s, b2, c.0, w1, c);
        lemma_close(zqz(q1, b, n, e), s, b2, c);
    }
}

/// The diagonal-placement candidate satisfies `zᵀ Q z = p` exactly on every
/// monomial that has a slot; when every nonzero coefficient has one, on all
/// monomials, so the repair and the identity check leave it as it is.
pub proof fn lemma_candidate_identity(p: SosPoly, b: Seq<Seq<usize>>, n: nat)
    requires
        p.wf(),
    ensures
        forall|e: Seq<usize>| #[trigger] has_slot(b, n, e) ==> qv_eq(zqz(cand_matrix(p, b, n), b, n, e), coef(p, e)),
        fix_ok(p, b, n) ==> identity_holds(cand_matrix(p, b, n), p, b, n),
{
    let q1 = cand_matrix(p, b, n);
    assert forall|e: Seq<usize>| #[trigger] has_slot(b, n, e) implies qv_eq(zqz(q1, b, n, e), coef(p, e)) by {
        lemma_candidate_slot(p, b, n, e);
    }
    if fix_ok(p, b, n) {
        assert forall|e: Seq<usize>| #![trigger zqz(q1, b, n, e)] #![trigger coef(p, e)] qv_eq(zqz(q1, b, n, e), coef(p, e)) by {
            if has_slot(b, n, e) {
                lemma_candidate_slot(p, b, n, e);
            } else {
                lemma_slot_sum_none(q1, b, n, e, b.len() * b.len());
                assert(!(coef(p, e).0 != 0));
            }
        }
    }
}

proof fn lemma_cand_pd(p: SosPoly, b: Seq<Seq<usize>>, n: nat)
    requires
        p.wf(),
    ensures
        mat_pd(cand_matrix(p, b, n), b.len()),
{
    let q1 = cand_matrix(p, b, n);
    assert forall|i: int, j: int| 0 <= i < b.len() && 0 <= j < b.len() implies (#[trigger] q1[i][j]).1 > 0 by {
        let e = esum(b[i], b[j], n);
        let w = coef(p, e);
        lemma_coef_pd(p, e);
        lemma_rep_self(qv_zero());
        lemma_rep_self(w);
        lemma_rep_add(qv_zero(), 0, 1, w, w.0, w.1 as int);
        lemma_pos_mul(w.1 as int, 2);
        lemma_reduce_value(w.0 * 1, (w.1 * 2) as int);
        let h = qv_div(w, (2, 1));
        lemma_rep_self(h);
        lemma_rep_add(qv_zero(), 0, 1, h, h.0, h.1 as int);
        assert(q1[i][j] == cand_entry(p, b, n, i, j));
    }
}

/// The repair leaves the diagonal-placement candidate as it is: every
/// monomial's residual is already zero.
pub proof fn lemma_candidate_needs_no_repair(p: SosPoly, b: Seq<Seq<usize>>, n: nat)
    requires
        p.wf(),
    ensures
        fixed_matrix(cand_matrix(p, b, n), p, b, n) == cand_matrix(p, b, n),
{
    let nb = b.len();
    let q1 = cand_matrix(p, b, n);
    lemma_cand_pd(p, b, n);
    let fm = fixed_matrix(q1, p, b, n);
    assert forall|i: int, j: int| 0 <= i < nb && 0 <= j < nb implies fm[i][j] == q1[i][j] by {
        let e = esum(b[i], b[j], n);
        assert(is_slot(b, n, e, i, j));
        lemma_candidate_slot(p, b, n, e);
        lemma_coef_pd(p, e);
        lemma_slot_sum_pd(q1, b, n, e, nb * nb);
        let c = coef(p, e);
        let z = zqz(q1, b, n, e);
        lemma_pos_mul(c.1 as int, z.1 as int);
        lemma_reduce_value(c.0 * z.1 - z.0 * c.1, (c.1 * z.1) as int);
        assert(fm[i][j] == fixed_entry(q1, p, b, n, i, j));
    }
    assert forall|i: int| 0 <= i < nb implies fm[i] == q1[i] by {
        assert(fm[i] =~= q1[i]);
    }
    assert(fm =~= q1);
}

} // verus!
