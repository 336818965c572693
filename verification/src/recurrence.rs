//! Recurrences with polynomial coefficients: the linear system whose nullspace
//! holds the annihilating operators of a sequence, its determinacy margin, and
//! the exact check of a claimed operator.
//!
//! An operator `sum_{i=0}^{r} p_i(n) a_{n+i} = 0` with `p_i(n) = sum_j c_{i,j} n^j`
//! is a vector of `(r+1)(d+1)` unknowns; row `n` of the system holds
//! `n^j * a_{n+i}` in column `i*(d+1) + j`.

use vstd::prelude::*;
use crate::poly::qv_pow;
use crate::rational::{qv_add, qv_mul, qv_zero, Rat};

verus! {

/// Surplus `N − r − (r+1)(d+1)`: the determinacy margin of fitting an order-`r`,
/// degree-`d` recurrence to `N` samples. An exact exclusion proof needs
/// `surplus ≥ 0`.
pub fn surplus(num_samples: usize, r: usize, d: usize) -> (s: isize)
    requires
        num_samples <= isize::MAX,
        r <= isize::MAX,
        (r + 1) * (d + 1) <= isize::MAX,
        num_samples - r - (r + 1) * (d + 1) >= isize::MIN,
    ensures
        s == num_samples - r - (r + 1) * (d + 1),
{
    assert(d + 1 <= (r + 1) * (d + 1)) by (nonlinear_arith)
        requires
            r >= 0,
            d >= 0,
    ;
    let p = (r + 1) * (d + 1);
    num_samples as isize - r as isize - p as isize
}

/// The entry of row `n`, column `i*(d+1) + j` of the annihilator matrix: `n^j * a_{n+i}`.
pub open spec fn ann_entry(samples: Seq<(int, nat)>, d: nat, n: int, col: int) -> (int, nat) {
    let i = col / ((d + 1) as int);
    let j = col % ((d + 1) as int);
    qv_mul(qv_pow((n, 1nat), j as nat), samples[n + i])
}

/// Row `n` of the annihilator matrix with `cols` columns.
pub open spec fn ann_row(samples: Seq<(int, nat)>, d: nat, cols: nat, n: int) -> Seq<(int, nat)> {
    Seq::new(cols, |c: int| ann_entry(samples, d, n, c))
}

/// The sum of `row[k] * op[k]` over `k < m`, accumulated in order.
pub open spec fn dot(row: Seq<(int, nat)>, op: Seq<(int, nat)>, m: nat) -> (int, nat)
    decreases m,
{
    if m == 0 {
        qv_zero()
    } else {
        qv_add(dot(row, op, (m - 1) as nat), qv_mul(row[m - 1], op[m - 1]))
    }
}

/// The values of a list of rationals.
pub open spec fn values_of(v: Seq<Rat>) -> Seq<(int, nat)> {
    v.map_values(|c: Rat| c@)
}

/// The `(N - r) x (r+1)(d+1)` annihilator matrix (no rows when `N <= r`).
pub fn annihilator_matrix(samples: &Vec<Rat>, r: usize, d: usize) -> (m: Vec<Vec<Rat>>)
    requires
        forall|k: int| 0 <= k < samples@.len() ==> (#[trigger] samples@[k]).wf(),
        (r + 1) * (d + 1) <= usize::MAX,
        samples@.len() <= i64::MAX,
    ensures
        m@.len() == (if samples@.len() <= r { 0 } else { samples@.len() - r }),
        forall|n: int| 0 <= n < m@.len() ==> (#[trigger] m@[n])@.len() == (r + 1) * (d + 1),
        forall|n: int, c: int|
            0 <= n < m@.len() && 0 <= c < (r + 1) * (d + 1) ==> (#[trigger] m@[n]@[c]).wf() && m@[n]@[c]@
                == ann_entry(values_of(samples@), d as nat, n, c),
{
    let big_n = samples.len();
    let mut rows: Vec<Vec<Rat>> = Vec::new();
    if big_n <= r {
        return rows;
    }
    assert(r + 1 <= (r + 1) * (d + 1) && d + 1 <= (r + 1) * (d + 1)) by (nonlinear_arith);
    let cols = (r + 1) * (d + 1);
    let ghost sv = values_of(samples@);
    let mut n: usize = 0;
    while n < big_n - r
        invariant
            forall|k: int| 0 <= k < samples@.len() ==> (#[trigger] samples@[k]).wf(),
            sv == values_of(samples@),
            big_n == samples@.len(),
            big_n > r,
            big_n <= i64::MAX,
            cols == (r + 1) * (d + 1),
            d + 1 <= usize::MAX,
            n <= big_n - r,
            rows@.len() == n,
            forall|q: int| 0 <= q < n ==> (#[trigger] rows@[q])@.len() == cols,
            forall|q: int, c: int|
                0 <= q < n && 0 <= c < cols ==> (#[trigger] rows@[q]@[c]).wf() && rows@[q]@[c]@ == ann_entry(
                    sv,
                    d as nat,
                    q,
                    c,
                ),
        decreases big_n - r - n,
    {
        // powers n^0 .. n^d
        let nr = Rat::from_i64(n as i64);
        let mut npow: Vec<Rat> = Vec::new();
        npow.push(Rat::one());
        let mut j: usize = 1;
        while j <= d
            invariant
                nr.wf(),
                nr@ == (n as int, 1nat),
                d + 1 <= usize::MAX,
                1 <= j <= d + 1,
                npow@.len() == j,
                forall|q: int| 0 <= q < j ==> (#[trigger] npow@[q]).wf() && npow@[q]@ == qv_pow((n as int, 1nat), q as nat),
            decreases d + 1 - j,
        {
            let x = npow[j - 1].mul(&nr);
            npow.push(x);
            j = j + 1;
        }
        let mut row: Vec<Rat> = Vec::new();
        let mut i: usize = 0;
        while i <= r
            invariant
                forall|k: int| 0 <= k < samples@.len() ==> (#[trigger] samples@[k]).wf(),
                sv == values_of(samples@),
                big_n == samples@.len(),
                n < big_n - r,
                cols == (r + 1) * (d + 1),
                d + 1 <= usize::MAX,
                i <= r + 1,
                npow@.len() == d + 1,
                forall|q: int| 0 <= q <= d ==> (#[trigger] npow@[q]).wf() && npow@[q]@ == qv_pow((n as int, 1nat), q as nat),
                row@.len() == i * (d + 1),
                forall|c: int| 0 <= c < i * (d + 1) ==> (#[trigger] row@[c]).wf() && row@[c]@ == ann_entry(sv, d as nat, n as int, c),
            decreases r + 1 - i,
        {
            let a = &samples[n + i];
            let mut jj: usize = 0;
            while jj <= d
                invariant
                    a.wf(),
                    i <= r,
                    n < big_n - r,
                    big_n == samples@.len(),
                    sv == values_of(samples@),
                    a@ == sv[n + i],
                    d + 1 <= usize::MAX,
                    jj <= d + 1,
                    npow@.len() == d + 1,
                    forall|q: int| 0 <= q <= d ==> (#[trigger] npow@[q]).wf() && npow@[q]@ == qv_pow((n as int, 1nat), q as nat),
                    row@.len() == i * (d + 1) + jj,
                    forall|c: int| 0 <= c < i * (d + 1) + jj ==> (#[trigger] row@[c]).wf() && row@[c]@ == ann_entry(sv, d as nat, n as int, c),
                decreases d + 1 - jj,
            {
                let x = npow[jj].mul(a);
                proof {
                    let c = i * (d + 1) + jj;
                    vstd::arithmetic::div_mod::lemma_fundamental_div_mod_converse(c as int, (d + 1) as int, i as int, jj as int);
                }
                row.push(x);
                jj = jj + 1;
            }
            proof {
                assert((i + 1) * (d + 1) == i * (d + 1) + (d + 1)) by (nonlinear_arith);
            }
            i = i + 1;
        }
        rows.push(row);
        n = n + 1;
    }
    rows
}

/// Check a claimed operator exactly: nonzero, of the right length, and every
/// equation row evaluates to zero.
pub fn verify_annihilator(samples: &Vec<Rat>, r: usize, d: usize, op: &Vec<Rat>) -> (b: bool)
    requires
        forall|k: int| 0 <= k < samples@.len() ==> (#[trigger] samples@[k]).wf(),
        forall|k: int| 0 <= k < op@.len() ==> (#[trigger] op@[k]).wf(),
        (r + 1) * (d + 1) <= usize::MAX,
        samples@.len() <= i64::MAX,
    ensures
        b == (samples@.len() > r && op@.len() == (r + 1) * (d + 1) && (exists|k: int|
            0 <= k < op@.len() && (#[trigger] op@[k])@.0 != 0) && forall|n: int|
            0 <= n < samples@.len() - r ==> dot(
                #[trigger] ann_row(values_of(samples@), d as nat, ((r + 1) * (d + 1)) as nat, n),
                values_of(op@),
                ((r + 1) * (d + 1)) as nat,
            ).0 == 0),
{
    let m = annihilator_matrix(samples, r, d);
    assert(r + 1 <= (r + 1) * (d + 1) && d + 1 <= (r + 1) * (d + 1)) by (nonlinear_arith);
    let cols = (r + 1) * (d + 1);
    if m.len() == 0 || op.len() != cols {
        return false;
    }
    let mut all_zero = true;
    let mut k: usize = 0;
    while k < op.len()
        invariant
            forall|q: int| 0 <= q < op@.len() ==> (#[trigger] op@[q]).wf(),
            k <= op@.len(),
            all_zero == (forall|q: int| 0 <= q < k ==> (#[trigger] op@[q])@.0 == 0),
        decreases op.len() - k,
    {
        if !op[k].is_zero() {
            all_zero = false;
        }
        k = k + 1;
    }
    if all_zero {
        return false;
    }
    let ghost sv = values_of(samples@);
    let ghost ov = values_of(op@);
    let mut n: usize = 0;
    while n < m.len()
        invariant
            forall|q: int| 0 <= q < op@.len() ==> (#[trigger] op@[q]).wf(),
            sv == values_of(samples@),
            ov == values_of(op@),
            op@.len() == cols,
            cols == (r + 1) * (d + 1),
            m@.len() == samples@.len() - r,
            forall|q: int| 0 <= q < m@.len() ==> (#[trigger] m@[q])@.len() == cols,
            forall|q: int, c: int|
                0 <= q < m@.len() && 0 <= c < cols ==> (#[trigger] m@[q]@[c]).wf() && m@[q]@[c]@ == ann_entry(sv, d as nat, q, c),
            n <= m@.len(),
            forall|q: int| 0 <= q < n ==> dot(#[trigger] ann_row(sv, d as nat, cols as nat, q), ov, cols as nat).0 == 0,
        decreases m.len() - n,
    {
        let row = &m[n];
        let ghost rv = ann_row(sv, d as nat, cols as nat, n as int);
        let mut acc = Rat::zero();
        let mut c: usize = 0;
        while c < cols
            invariant
                forall|q: int| 0 <= q < op@.len() ==> (#[trigger] op@[q]).wf(),
                ov == values_of(op@),
                op@.len() == cols,
                row@.len() == cols,
                forall|q: int| 0 <= q < cols ==> (#[trigger] row@[q]).wf() && row@[q]@ == rv[q],
                rv.len() == cols,
                c <= cols,
                acc.wf(),
                acc@ == dot(rv, ov, c as nat),
            decreases cols - c,
        {
            let t = row[c].mul(&op[c]);
            acc = acc.add(&t);
            c = c + 1;
        }
        if !acc.is_zero() {
            proof {
                let w = n as int;
                assert(rv == ann_row(values_of(samples@), d as nat, ((r + 1) * (d + 1)) as nat, w));
                assert(dot(
                    ann_row(values_of(samples@), d as nat, ((r + 1) * (d + 1)) as nat, w),
                    values_of(op@),
                    ((r + 1) * (d + 1)) as nat,
                ).0 != 0);
            }
            return false;
        }
        n = n + 1;
    }
    true
}

} // verus!
