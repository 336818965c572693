//! Tensor-network contraction.
//!
//! A closed tensor network contracts to a scalar by summing the product of its
//! tensors over all assignments of the shared indices. The naive contraction
//! enumerates every assignment (exponential in the number of indices) and is the
//! exact oracle; the ordered contraction merges tensors pairwise, summing out an
//! index once no other tensor mentions it, and defers when an intermediate tensor
//! would carry more open indices than a budget allows.

use vstd::prelude::*;
use crate::index_sums::{
    agree_on, ipow, lemma_ipow_increases, lemma_ipow_positive, lemma_overlay_sum, lemma_rsum_ext,
    lemma_sum_set_congr, lemma_sum_set_factor, lemma_sum_set_frame, lemma_sum_set_union, overlay,
    overlay_at, reads_only, rsum, sum_over, sum_set, times, upd, valid_asg, zero_asg,
};

verus! {

/// A tensor over labelled indices, each ranging over `0..dim`. `data` is
/// row-major over `indices` (the first index is most significant).
#[derive(Clone, Debug, PartialEq, Eq)]
pub struct Tensor {
    pub indices: Vec<usize>,
    pub data: Vec<i64>,
}

/// The row-major offset of the entry that assignment `x` selects in a tensor over `idx`.
pub open spec fn offset_under(idx: Seq<usize>, x: spec_fn(usize) -> int, dim: nat) -> int
    decreases idx.len(),
{
    if idx.len() == 0 {
        0
    } else {
        offset_under(idx.drop_last(), x, dim) * dim + x(idx.last())
    }
}

/// The entry of `t` that assignment `x` selects.
pub open spec fn eval(t: Tensor, x: spec_fn(usize) -> int, dim: nat) -> int {
    t.data@[offset_under(t.indices@, x, dim)] as int
}

/// The product of the entries that `x` selects in the first `m` tensors.
pub open spec fn prod_eval(ts: Seq<Tensor>, x: spec_fn(usize) -> int, dim: nat, m: nat) -> int
    decreases m,
{
    if m == 0 {
        1
    } else {
        prod_eval(ts, x, dim, (m - 1) as nat) * eval(ts[m - 1], x, dim)
    }
}

/// The index labels `0..n`.
pub open spec fn index_range(n: nat) -> Seq<usize> {
    Seq::new(n, |i: int| i as usize)
}

/// The assignment that code `c` encodes over the indices `0..n`: index `q` takes
/// the base-`dim` digit `q` of `c`.
pub open spec fn code_asg(n: nat, c: nat, dim: nat) -> spec_fn(usize) -> int {
    overlay(zero_asg(), index_range(n), c, dim)
}

/// The network's product under the assignment with code `c`.
pub open spec fn code_term(ts: Seq<Tensor>, n: nat, dim: nat) -> spec_fn(nat) -> int {
    |c: nat| prod_eval(ts, code_asg(n, c, dim), dim, ts.len())
}

/// The full contraction of a network over the indices `0..n`: the sum over all
/// `dim^n` assignments of the product of the selected entries.
pub open spec fn network_value(ts: Seq<Tensor>, dim: nat, n: nat) -> int {
    rsum(ipow(dim, n), code_term(ts, n, dim))
}

/// The tensor's indices are below `n` and its data covers all `dim^k` entries.
pub open spec fn tensor_wf(t: Tensor, dim: nat, n: nat) -> bool {
    &&& forall|i: int| 0 <= i < t.indices@.len() ==> (#[trigger] t.indices@[i]) < n
    &&& ipow(dim, t.indices@.len()) <= t.data@.len()
}

pub open spec fn fits_i64(x: int) -> bool {
    i64::MIN <= x <= i64::MAX
}

/// Every partial product and partial sum of the naive contraction fits in `i64`.
pub open spec fn naive_fits(ts: Seq<Tensor>, dim: nat, n: nat) -> bool {
    &&& forall|c: nat| c <= ipow(dim, n) ==> fits_i64(#[trigger] rsum(c, code_term(ts, n, dim)))
    &&& forall|c: nat, m: nat|
        c < ipow(dim, n) && m <= ts.len() ==> fits_i64(#[trigger] prod_eval(ts, code_asg(n, c, dim), dim, m))
}

proof fn lemma_prod_zero(ts: Seq<Tensor>, x: spec_fn(usize) -> int, dim: nat, m: nat, m2: nat)
    requires
        m <= m2,
        prod_eval(ts, x, dim, m) == 0,
    ensures
        prod_eval(ts, x, dim, m2) == 0,
    decreases m2 - m,
{
    if m < m2 {
        lemma_prod_zero(ts, x, dim, m, (m2 - 1) as nat);
    }
}

/// The row-major offset of a list of per-index values (most significant first).
pub open spec fn flat_offset(vals: Seq<usize>, dim: nat) -> nat
    decreases vals.len(),
{
    if vals.len() == 0 {
        0
    } else {
        flat_offset(vals.drop_last(), dim) * dim + vals.last() as nat
    }
}

proof fn lemma_flat_offset_matches(vals: Seq<usize>, idx: Seq<usize>, x: spec_fn(usize) -> int, dim: nat)
    requires
        vals.len() == idx.len(),
        forall|q: int| 0 <= q < vals.len() ==> (#[trigger] vals[q]) as int == x(idx[q]),
    ensures
        flat_offset(vals, dim) == offset_under(idx, x, dim),
    decreases vals.len(),
{
    if vals.len() > 0 {
        let v2 = vals.drop_last();
        let i2 = idx.drop_last();
        assert forall|q: int| 0 <= q < v2.len() implies (#[trigger] v2[q]) as int == x(i2[q]) by {
            assert(v2[q] == vals[q]);
        }
        lemma_flat_offset_matches(v2, i2, x, dim);
        assert(vals[vals.len() - 1] as int == x(idx[idx.len() - 1]));
    }
}

/// Decoding proceeds through the index labels `slot..n`.
proof fn lemma_range_step(n: nat, slot: nat)
    requires
        slot < n,
        n <= usize::MAX + 1,
    ensures
        index_range(n).skip(slot as int).len() > 0,
        index_range(n).skip(slot as int)[0] == slot,
        index_range(n).skip(slot as int).drop_first() =~= index_range(n).skip(slot + 1int),
{
}

impl Tensor {
    /// Flat offset of an assignment (values for this tensor's indices, in order).
    fn offset(&self, vals: &Vec<usize>, dim: usize) -> (off: usize)
        requires
            dim > 0,
            ipow(dim as nat, vals@.len()) <= self.data@.len(),
            forall|j: int| 0 <= j < vals@.len() ==> (#[trigger] vals@[j]) < dim,
        ensures
            off < self.data@.len(),
            off == flat_offset(vals@, dim as nat),
    {
        let n = self.data.len();
        let mut off: usize = 0;
        let mut j: usize = 0;
        while j < vals.len()
            invariant
                n == self.data@.len(),
                dim > 0,
                ipow(dim as nat, vals@.len()) <= self.data@.len(),
                forall|q: int| 0 <= q < vals@.len() ==> (#[trigger] vals@[q]) < dim,
                j <= vals@.len(),
                off < ipow(dim as nat, j as nat),
                off == flat_offset(vals@.take(j as int), dim as nat),
            decreases vals.len() - j,
        {
            let v = vals[j];
            let ghost p = ipow(dim as nat, j as nat);
            assert(off * dim + v < dim * p) by (nonlinear_arith)
                requires
                    off < p,
                    v < dim,
            ;
            assert(ipow(dim as nat, (j + 1) as nat) == dim * p);
            proof {
                lemma_ipow_increases(dim as nat, (j + 1) as nat, vals@.len());
                assert(vals@.take(j + 1).drop_last() =~= vals@.take(j as int));
            }
            off = off * dim + v;
            j = j + 1;
        }
        proof {
            lemma_ipow_increases(dim as nat, j as nat, vals@.len());
            assert(vals@.take(vals@.len() as int) =~= vals@);
        }
        off
    }
}

/// `dim^n`, given that it fits in `usize`.
fn pow_usize(dim: usize, n: usize) -> (r: usize)
    requires
        ipow(dim as nat, n as nat) <= usize::MAX,
    ensures
        r == ipow(dim as nat, n as nat),
{
    if dim == 0 {
        return if n == 0 { 1 } else { 0 };
    }
    let mut acc: usize = 1;
    let mut k: usize = 0;
    while k < n
        invariant
            dim > 0,
            k <= n,
            acc == ipow(dim as nat, k as nat),
            ipow(dim as nat, n as nat) <= usize::MAX,
        decreases n - k,
    {
        proof {
            lemma_ipow_increases(dim as nat, (k + 1) as nat, n as nat);
        }
        assert(acc * dim == dim * acc) by (nonlinear_arith);
        acc = acc * dim;
        k = k + 1;
    }
    acc
}

/// Naive full contraction of a closed network to a scalar: the sum over all
/// `dim^n_indices` assignments of the product of the selected entries (the exact
/// oracle).
pub fn contract_naive(tensors: &[Tensor], dim: usize, n_indices: usize) -> (r: i64)
    requires
        n_indices <= u32::MAX,
        ipow(dim as nat, n_indices as nat) <= usize::MAX,
        forall|t: int| 0 <= t < tensors@.len() ==> tensor_wf(#[trigger] tensors@[t], dim as nat, n_indices as nat),
        naive_fits(tensors@, dim as nat, n_indices as nat),
    ensures
        r == network_value(tensors@, dim as nat, n_indices as nat),
{
    let total = pow_usize(dim, n_indices);
    let ghost n = n_indices as nat;
    let ghost d = dim as nat;
    let mut sum: i64 = 0;
    let mut asg: Vec<usize> = Vec::new();
    let mut s: usize = 0;
    while s < n_indices
        invariant
            s <= n_indices,
            asg@.len() == s,
        decreases n_indices - s,
    {
        asg.push(0);
        s = s + 1;
    }
    let mut code: usize = 0;
    while code < total
        invariant
            total == ipow(d, n),
            n == n_indices,
            d == dim,
            forall|t: int| 0 <= t < tensors@.len() ==> tensor_wf(#[trigger] tensors@[t], d, n),
            naive_fits(tensors@, d, n),
            asg@.len() == n_indices,
            code <= total,
            sum == rsum(code as nat, code_term(tensors@, n, d)),
        decreases total - code,
    {
        if n_indices > 0 {
            assert(dim > 0) by {
                if dim == 0 {
                    assert(ipow(0, n) == 0 * ipow(0, (n - 1) as nat));
                }
            }
        }
        let ghost x = code_asg(n, code as nat, d);
        // decode `code` into the assignment vector
        let mut c = code;
        let mut slot: usize = 0;
        assert(index_range(n).skip(0) =~= index_range(n));
        while slot < n_indices
            invariant
                n == n_indices,
                d == dim,
                n_indices > 0 ==> dim > 0,
                asg@.len() == n_indices,
                slot <= n_indices,
                x == code_asg(n, code as nat, d),
                forall|q: int| 0 <= q < slot ==> (#[trigger] asg@[q]) as int == x(q as usize),
                forall|q: int| 0 <= q < slot ==> (#[trigger] asg@[q]) < dim,
                forall|q: usize| slot <= q < n_indices ==> #[trigger] x(q) == overlay_at(
                    zero_asg(),
                    index_range(n).skip(slot as int),
                    c as nat,
                    d,
                    q,
                ),
            decreases n_indices - slot,
        {
            proof {
                lemma_range_step(n, slot as nat);
            }
            asg.set(slot, c % dim);
            c = c / dim;
            slot = slot + 1;
        }
        let mut prod: i64 = 1;
        let mut ti: usize = 0;
        while ti < tensors.len()
            invariant
                total == ipow(d, n),
                n == n_indices,
                d == dim,
                n_indices > 0 ==> dim > 0,
                forall|t: int| 0 <= t < tensors@.len() ==> tensor_wf(#[trigger] tensors@[t], d, n),
                naive_fits(tensors@, d, n),
                asg@.len() == n_indices,
                code < total,
                x == code_asg(n, code as nat, d),
                forall|q: int| 0 <= q < n_indices ==> (#[trigger] asg@[q]) as int == x(q as usize),
                forall|q: int| 0 <= q < n_indices ==> (#[trigger] asg@[q]) < dim,
                ti <= tensors@.len(),
                prod == prod_eval(tensors@, x, d, ti as nat),
            ensures
                prod == prod_eval(tensors@, x, d, tensors@.len()),
            decreases tensors.len() - ti,
        {
            let t = &tensors[ti];
            assert(tensor_wf(tensors@[ti as int], d, n));
            let mut vals: Vec<usize> = Vec::new();
            let mut j: usize = 0;
            while j < t.indices.len()
                invariant
                    tensor_wf(*t, d, n),
                    n == n_indices,
                    asg@.len() == n_indices,
                    forall|q: int| 0 <= q < n_indices ==> (#[trigger] asg@[q]) as int == x(q as usize),
                    forall|q: int| 0 <= q < n_indices ==> (#[trigger] asg@[q]) < dim,
                    j <= t.indices@.len(),
                    vals@.len() == j,
                    forall|q: int| 0 <= q < j ==> (#[trigger] vals@[q]) as int == x(t.indices@[q]),
                    forall|q: int| 0 <= q < j ==> (#[trigger] vals@[q]) < dim,
                decreases t.indices.len() - j,
            {
                let ix = t.indices[j];
                assert(ix < n_indices);
                vals.push(asg[ix]);
                j = j + 1;
            }
            let dim1 = if dim == 0 { 1 } else { dim };
            proof {
                if dim == 0 {
                    assert(t.indices@.len() == 0) by {
                        if t.indices@.len() > 0 {
                            assert(t.indices@[0] < n_indices);
                        }
                    }
                }
            }
            let off = t.offset(&vals, dim1);
            proof {
                lemma_flat_offset_matches(vals@, t.indices@, x, d);
                assert(fits_i64(prod_eval(tensors@, x, d, (ti + 1) as nat)));
            }
            prod = prod * t.data[off];
            ti = ti + 1;
            if prod == 0 {
                proof {
                    lemma_prod_zero(tensors@, x, d, ti as nat, tensors@.len());
                }
                break;
            }
        }
        proof {
            assert(fits_i64(rsum((code + 1) as nat, code_term(tensors@, n, d))));
        }
        sum = sum + prod;
        code = code + 1;
    }
    sum
}

/// `dim^n`, or `None` when it does not fit in `usize`.
fn checked_pow(dim: usize, n: usize) -> (r: Option<usize>)
    requires
        dim > 0,
    ensures
        match r {
            Some(p) => p == ipow(dim as nat, n as nat),
            None => ipow(dim as nat, n as nat) > usize::MAX,
        },
{
    let mut acc: usize = 1;
    let mut k: usize = 0;
    while k < n
        invariant
            dim > 0,
            k <= n,
            acc == ipow(dim as nat, k as nat),
        decreases n - k,
    {
        assert(acc * dim == dim * acc) by (nonlinear_arith);
        match acc.checked_mul(dim) {
            Some(v) => {
                acc = v;
            },
            None => {
                proof {
                    lemma_ipow_increases(dim as nat, (k + 1) as nat, n as nat);
                }
                return None;
            },
        }
        k = k + 1;
    }
    Some(acc)
}

/// The number of tensors in `pool` whose indices mention `ix`.
pub open spec fn count_in(pool: Seq<Tensor>, ix: usize) -> nat
    decreases pool.len(),
{
    if pool.len() == 0 {
        0
    } else {
        count_in(pool.drop_last(), ix) + if pool.last().indices@.contains(ix) {
            1nat
        } else {
            0nat
        }
    }
}

/// The first position of `k` in `s`.
pub open spec fn first_pos(s: Seq<usize>, k: usize) -> int {
    choose|p: int| 0 <= p < s.len() && s[p] == k && forall|q: int| 0 <= q < p ==> s[q] != k
}

proof fn lemma_first_pos_is(s: Seq<usize>, k: usize, p: int)
    requires
        0 <= p < s.len(),
        s[p] == k,
        forall|q: int| 0 <= q < p ==> s[q] != k,
    ensures
        first_pos(s, k) == p,
{
    let c = first_pos(s, k);
    assert(0 <= c < s.len() && s[c] == k && forall|q: int| 0 <= q < c ==> s[q] != k);
    if c < p {
        assert(s[c] != k);
    } else if c > p {
        assert(s[p] != k);
    }
}

proof fn lemma_first_pos_nodup(s: Seq<usize>, p: int)
    requires
        0 <= p < s.len(),
        s.no_duplicates(),
    ensures
        first_pos(s, s[p]) == p,
{
    assert forall|q: int| 0 <= q < p implies s[q] != s[p] by {
    }
    lemma_first_pos_is(s, s[p], p);
}

/// Taking one more element adds exactly that element.
proof fn lemma_take_step(s: Seq<usize>, i: int)
    requires
        0 <= i < s.len(),
    ensures
        forall|k: usize| #[trigger] s.take(i + 1).contains(k) <==> s.take(i).contains(k) || k == s[i],
{
    assert(s.take(i + 1) =~= s.take(i).push(s[i]));
    assert forall|k: usize| #[trigger] s.take(i + 1).contains(k) <==> s.take(i).contains(k) || k == s[i] by {
        if s.take(i).contains(k) {
            let q = choose|q: int| 0 <= q < s.take(i).len() && s.take(i)[q] == k;
            assert(s.take(i + 1)[q] == k);
        }
        if k == s[i] {
            assert(s.take(i + 1)[i] == k);
        }
    }
}

/// What pushing `x` onto `s` holds.
proof fn lemma_push_facts(s: Seq<usize>, x: usize)
    ensures
        forall|k: usize| #[trigger] s.push(x).contains(k) <==> s.contains(k) || k == x,
        s.no_duplicates() && !s.contains(x) ==> s.push(x).no_duplicates(),
{
    assert forall|k: usize| #[trigger] s.push(x).contains(k) <==> s.contains(k) || k == x by {
        if s.contains(k) {
            let q = choose|q: int| 0 <= q < s.len() && s[q] == k;
            assert(s.push(x)[q] == k);
        }
        if k == x {
            assert(s.push(x)[s.len() as int] == k);
        }
        if s.push(x).contains(k) {
            let q = choose|q: int| 0 <= q < s.push(x).len() && s.push(x)[q] == k;
            if q < s.len() {
                assert(s[q] == k);
            }
        }
    }
    if s.no_duplicates() && !s.contains(x) {
        assert forall|p: int, q: int| 0 <= p < s.push(x).len() && 0 <= q < s.push(x).len() && p != q implies s.push(
            x,
        )[p] != s.push(x)[q] by {
            if p < s.len() && q < s.len() {
            } else if p < s.len() {
                assert(s.contains(s[p]));
            } else {
                assert(s.contains(s[q]));
            }
        }
    }
}

/// Does `v` hold `x`?
fn vec_contains(v: &Vec<usize>, x: usize) -> (r: bool)
    ensures
        r == v@.contains(x),
{
    let mut i: usize = 0;
    while i < v.len()
        invariant
            i <= v@.len(),
            forall|q: int| 0 <= q < i ==> v@[q] != x,
        decreases v.len() - i,
    {
        if v[i] == x {
            return true;
        }
        i = i + 1;
    }
    false
}

/// The first position of `x` in `v`.
fn position_of(v: &Vec<usize>, x: usize) -> (r: Option<usize>)
    ensures
        match r {
            Some(p) => p < v@.len() && v@[p as int] == x && p == first_pos(v@, x),
            None => !v@.contains(x),
        },
{
    let mut i: usize = 0;
    while i < v.len()
        invariant
            i <= v@.len(),
            forall|q: int| 0 <= q < i ==> v@[q] != x,
        decreases v.len() - i,
    {
        if v[i] == x {
            proof {
                lemma_first_pos_is(v@, x, i as int);
            }
            return Some(i);
        }
        i = i + 1;
    }
    None
}

/// How many tensors in `pool` mention index `ix`.
fn index_count(pool: &Vec<Tensor>, ix: usize) -> (r: usize)
    ensures
        r == count_in(pool@, ix),
{
    let mut cnt: usize = 0;
    let mut i: usize = 0;
    while i < pool.len()
        invariant
            i <= pool@.len(),
            cnt <= i,
            cnt == count_in(pool@.take(i as int), ix),
        decreases pool.len() - i,
    {
        assert(pool@.take(i + 1).drop_last() =~= pool@.take(i as int));
        if vec_contains(&pool[i].indices, ix) {
            cnt = cnt + 1;
        }
        i = i + 1;
    }
    assert(pool@.take(pool@.len() as int) =~= pool@);
    cnt
}

/// `a` followed by each index of `b`, in order, that is not there yet.
pub open spec fn union_seq(a: Seq<usize>, b: Seq<usize>) -> Seq<usize>
    decreases b.len(),
{
    if b.len() == 0 {
        a
    } else {
        let u = union_seq(a, b.drop_last());
        if u.contains(b.last()) {
            u
        } else {
            u.push(b.last())
        }
    }
}

/// The indices of `all`, in order, that `a` and `b` share and no other tensor
/// of `pool` mentions.
pub open spec fn keep_summed(all: Seq<usize>, a: Tensor, b: Tensor, pool: Seq<Tensor>) -> Seq<usize>
    decreases all.len(),
{
    if all.len() == 0 {
        seq![]
    } else {
        let r = keep_summed(all.drop_last(), a, b, pool);
        let k = all.last();
        if a.indices@.contains(k) && b.indices@.contains(k) && count_in(pool, k) == 2 {
            r.push(k)
        } else {
            r
        }
    }
}

/// The indices of `all`, in order, outside `summed`.
pub open spec fn keep_open(all: Seq<usize>, summed: Seq<usize>) -> Seq<usize>
    decreases all.len(),
{
    if all.len() == 0 {
        seq![]
    } else {
        let r = keep_open(all.drop_last(), summed);
        if summed.contains(all.last()) {
            r
        } else {
            r.push(all.last())
        }
    }
}

/// The indices of `a` followed by those of `b` that `a` lacks.
fn union_indices(a: &Vec<usize>, b: &Vec<usize>) -> (all: Vec<usize>)
    ensures
        all@ == union_seq(a@, b@),
        forall|k: usize| #[trigger] all@.contains(k) <==> a@.contains(k) || b@.contains(k),
        a@.no_duplicates() ==> all@.no_duplicates(),
{
    let mut all: Vec<usize> = Vec::new();
    let mut i: usize = 0;
    while i < a.len()
        invariant
            i <= a@.len(),
            all@ == a@.take(i as int),
        decreases a.len() - i,
    {
        all.push(a[i]);
        i = i + 1;
        assert(all@ =~= a@.take(i as int));
    }
    assert(a@.take(a@.len() as int) =~= a@);
    let mut j: usize = 0;
    while j < b.len()
        invariant
            j <= b@.len(),
            all@ == union_seq(a@, b@.take(j as int)),
            forall|k: usize| #[trigger] all@.contains(k) <==> a@.contains(k) || b@.take(j as int).contains(k),
            a@.no_duplicates() ==> all@.no_duplicates(),
        decreases b.len() - j,
    {
        let ix = b[j];
        let ghost before = all@;
        if !vec_contains(&all, ix) {
            all.push(ix);
            proof {
                lemma_push_facts(before, ix);
            }
        }
        proof {
            lemma_take_step(b@, j as int);
            assert(b@.take(j as int + 1).drop_last() =~= b@.take(j as int));
        }
        j = j + 1;
    }
    assert(b@.take(b@.len() as int) =~= b@);
    all
}

/// The indices of `all` that appear in both `a` and `b` and nowhere else in `pool`.
fn summed_indices(all: &Vec<usize>, a: &Tensor, b: &Tensor, pool: &Vec<Tensor>) -> (summed: Vec<usize>)
    ensures
        summed@ == keep_summed(all@, *a, *b, pool@),
        forall|k: usize| #[trigger] summed@.contains(k) <==> all@.contains(k) && a.indices@.contains(k)
            && b.indices@.contains(k) && count_in(pool@, k) == 2,
        all@.no_duplicates() ==> summed@.no_duplicates(),
{
    let mut summed: Vec<usize> = Vec::new();
    let mut i: usize = 0;
    while i < all.len()
        invariant
            i <= all@.len(),
            summed@ == keep_summed(all@.take(i as int), *a, *b, pool@),
            forall|k: usize| #[trigger] summed@.contains(k) <==> all@.take(i as int).contains(k) && a.indices@.contains(k)
                && b.indices@.contains(k) && count_in(pool@, k) == 2,
            all@.no_duplicates() ==> summed@.no_duplicates(),
        decreases all.len() - i,
    {
        let ix = all[i];
        let in_a = vec_contains(&a.indices, ix);
        let in_b = vec_contains(&b.indices, ix);
        let in_ab: usize = (if in_a { 1 } else { 0 }) + (if in_b { 1 } else { 0 });
        let cnt = index_count(pool, ix);
        proof {
            if all@.no_duplicates() {
                assert(!all@.take(i as int).contains(ix)) by {
                    if all@.take(i as int).contains(ix) {
                        let q = choose|q: int| 0 <= q < i && all@.take(i as int)[q] == ix;
                        assert(all@[q] == all@[i as int]);
                    }
                }
            }
        }
        let ghost before = summed@;
        if cnt == in_ab && in_ab >= 1 && in_a && in_b {
            summed.push(ix);
            proof {
                lemma_push_facts(before, ix);
            }
        }
        proof {
            lemma_take_step(all@, i as int);
            assert(all@.take(i as int + 1).drop_last() =~= all@.take(i as int));
        }
        i = i + 1;
    }
    assert(all@.take(all@.len() as int) =~= all@);
    summed
}

/// The indices of `all` outside `summed`.
fn open_indices(all: &Vec<usize>, summed: &Vec<usize>) -> (open: Vec<usize>)
    ensures
        open@ == keep_open(all@, summed@),
        forall|k: usize| #[trigger] open@.contains(k) <==> all@.contains(k) && !summed@.contains(k),
        all@.no_duplicates() ==> open@.no_duplicates(),
        open@.len() <= all@.len(),
{
    let mut open: Vec<usize> = Vec::new();
    let mut i: usize = 0;
    while i < all.len()
        invariant
            i <= all@.len(),
            open@.len() <= i,
            open@ == keep_open(all@.take(i as int), summed@),
            forall|k: usize| #[trigger] open@.contains(k) <==> all@.take(i as int).contains(k) && !summed@.contains(k),
            all@.no_duplicates() ==> open@.no_duplicates(),
        decreases all.len() - i,
    {
        let ix = all[i];
        proof {
            if all@.no_duplicates() {
                assert(!all@.take(i as int).contains(ix)) by {
                    if all@.take(i as int).contains(ix) {
                        let q = choose|q: int| 0 <= q < i && all@.take(i as int)[q] == ix;
                        assert(all@[q] == all@[i as int]);
                    }
                }
            }
        }
        let ghost before = open@;
        if !vec_contains(summed, ix) {
            open.push(ix);
            proof {
                lemma_push_facts(before, ix);
            }
        }
        proof {
            lemma_take_step(all@, i as int);
            assert(all@.take(i as int + 1).drop_last() =~= all@.take(i as int));
        }
        i = i + 1;
    }
    assert(all@.take(all@.len() as int) =~= all@);
    open
}

/// The last `len` base-`dim` digits of `c`, most significant first.
pub open spec fn digits_msb(len: nat, c: nat, dim: nat) -> Seq<int>
    decreases len,
{
    if len == 0 {
        Seq::empty()
    } else {
        digits_msb((len - 1) as nat, c / dim, dim).push((c % dim) as int)
    }
}

/// The last `len` base-`dim` digits of `c`, least significant first.
pub open spec fn digits_lsb(len: nat, c: nat, dim: nat) -> Seq<int>
    decreases len,
{
    if len == 0 {
        Seq::empty()
    } else {
        seq![(c % dim) as int] + digits_lsb((len - 1) as nat, c / dim, dim)
    }
}

proof fn lemma_digits_range(len: nat, c: nat, dim: nat)
    requires
        dim > 0,
    ensures
        digits_msb(len, c, dim).len() == len,
        digits_lsb(len, c, dim).len() == len,
        forall|p: int| 0 <= p < len ==> 0 <= #[trigger] digits_msb(len, c, dim)[p] < dim,
        forall|p: int| 0 <= p < len ==> 0 <= #[trigger] digits_lsb(len, c, dim)[p] < dim,
    decreases len,
{
    if len > 0 {
        lemma_digits_range((len - 1) as nat, c / dim, dim);
        let m = digits_msb((len - 1) as nat, c / dim, dim);
        assert forall|p: int| 0 <= p < len implies 0 <= #[trigger] digits_msb(len, c, dim)[p] < dim by {
            if p < len - 1 {
                assert(digits_msb(len, c, dim)[p] == m[p]);
            }
        }
        let l = digits_lsb((len - 1) as nat, c / dim, dim);
        assert forall|p: int| 0 <= p < len implies 0 <= #[trigger] digits_lsb(len, c, dim)[p] < dim by {
            if p > 0 {
                assert(digits_lsb(len, c, dim)[p] == l[p - 1]);
            }
        }
    }
}

/// The base-`dim` digits of `c` over `len` places, most significant first.
fn decode_msb(c: usize, len: usize, dim: usize) -> (r: Vec<usize>)
    requires
        dim > 0,
    ensures
        r@.len() == len,
        forall|p: int| 0 <= p < len ==> (#[trigger] r@[p]) < dim && r@[p] as int == digits_msb(
            len as nat,
            c as nat,
            dim as nat,
        )[p],
{
    let mut r: Vec<usize> = Vec::new();
    let mut i: usize = 0;
    while i < len
        invariant
            i <= len,
            r@.len() == i,
        decreases len - i,
    {
        r.push(0);
        i = i + 1;
    }
    let ghost full = digits_msb(len as nat, c as nat, dim as nat);
    proof {
        lemma_digits_range(len as nat, c as nat, dim as nat);
        assert(full.take(len as int) =~= full);
    }
    let mut cc = c;
    let mut m = len;
    while m > 0
        invariant
            dim > 0,
            m <= len,
            r@.len() == len,
            full == digits_msb(len as nat, c as nat, dim as nat),
            full.len() == len,
            forall|p: int| m <= p < len ==> (#[trigger] r@[p]) < dim && r@[p] as int == full[p],
            full.take(m as int) == digits_msb(m as nat, cc as nat, dim as nat),
        decreases m,
    {
        proof {
            lemma_digits_range((m - 1) as nat, (cc / dim) as nat, dim as nat);
            assert(full.take(m as int)[m - 1] == full[m - 1]);
            assert(full.take(m - 1) =~= full.take(m as int).take(m - 1));
            assert(digits_msb(m as nat, cc as nat, dim as nat).take(m - 1) =~= digits_msb((m - 1) as nat, (cc / dim) as nat, dim as nat));
        }
        r.set(m - 1, cc % dim);
        cc = cc / dim;
        m = m - 1;
    }
    r
}

/// The base-`dim` digits of `c` over `len` places, least significant first.
fn decode_lsb(c: usize, len: usize, dim: usize) -> (r: Vec<usize>)
    requires
        dim > 0,
    ensures
        r@.len() == len,
        forall|p: int| 0 <= p < len ==> (#[trigger] r@[p]) < dim && r@[p] as int == digits_lsb(
            len as nat,
            c as nat,
            dim as nat,
        )[p],
{
    let ghost full = digits_lsb(len as nat, c as nat, dim as nat);
    proof {
        lemma_digits_range(len as nat, c as nat, dim as nat);
        assert(full.skip(0) =~= full);
    }
    let mut r: Vec<usize> = Vec::new();
    let mut cc = c;
    let mut slot: usize = 0;
    while slot < len
        invariant
            dim > 0,
            slot <= len,
            r@.len() == slot,
            full == digits_lsb(len as nat, c as nat, dim as nat),
            full.len() == len,
            forall|p: int| 0 <= p < slot ==> (#[trigger] r@[p]) < dim && r@[p] as int == full[p],
            full.skip(slot as int) == digits_lsb((len - slot) as nat, cc as nat, dim as nat),
        decreases len - slot,
    {
        proof {
            lemma_digits_range((len - slot - 1) as nat, (cc / dim) as nat, dim as nat);
            assert(full.skip(slot as int)[0] == full[slot as int]);
            assert(full.skip(slot + 1) =~= full.skip(slot as int).skip(1));
            assert(digits_lsb((len - slot) as nat, cc as nat, dim as nat).skip(1) =~= digits_lsb(
                (len - slot - 1) as nat,
                (cc / dim) as nat,
                dim as nat,
            ));
        }
        r.push(cc % dim);
        cc = cc / dim;
        slot = slot + 1;
    }
    r
}

/// The value an index takes from the open digits or, failing that, the summed digits.
pub open spec fn lookup_spec(open: Seq<usize>, summed: Seq<usize>, oa: Seq<usize>, sa: Seq<usize>, k: usize) -> usize {
    if open.contains(k) {
        oa[first_pos(open, k)]
    } else {
        sa[first_pos(summed, k)]
    }
}

/// The values of the indices `idx`, read from the open and summed digits.
fn lookup_values(
    idx: &Vec<usize>,
    open: &Vec<usize>,
    summed: &Vec<usize>,
    oa: &Vec<usize>,
    sa: &Vec<usize>,
    dim: usize,
) -> (r: Vec<usize>)
    requires
        oa@.len() == open@.len(),
        sa@.len() == summed@.len(),
        forall|p: int| 0 <= p < oa@.len() ==> (#[trigger] oa@[p]) < dim,
        forall|p: int| 0 <= p < sa@.len() ==> (#[trigger] sa@[p]) < dim,
        forall|q: int| 0 <= q < idx@.len() ==> open@.contains(#[trigger] idx@[q]) || summed@.contains(idx@[q]),
    ensures
        r@.len() == idx@.len(),
        forall|q: int| 0 <= q < idx@.len() ==> (#[trigger] r@[q]) < dim && r@[q] == lookup_spec(
            open@,
            summed@,
            oa@,
            sa@,
            idx@[q],
        ),
{
    let mut r: Vec<usize> = Vec::new();
    let mut q: usize = 0;
    while q < idx.len()
        invariant
            q <= idx@.len(),
            r@.len() == q,
            oa@.len() == open@.len(),
            sa@.len() == summed@.len(),
            forall|p: int| 0 <= p < oa@.len() ==> (#[trigger] oa@[p]) < dim,
            forall|p: int| 0 <= p < sa@.len() ==> (#[trigger] sa@[p]) < dim,
            forall|j: int| 0 <= j < idx@.len() ==> open@.contains(#[trigger] idx@[j]) || summed@.contains(idx@[j]),
            forall|j: int| 0 <= j < q ==> (#[trigger] r@[j]) < dim && r@[j] == lookup_spec(
                open@,
                summed@,
                oa@,
                sa@,
                idx@[j],
            ),
        decreases idx.len() - q,
    {
        let ix = idx[q];
        let v = match position_of(open, ix) {
            Some(p) => oa[p],
            None => {
                assert(summed@.contains(ix));
                sa[position_of(summed, ix).unwrap()]
            },
        };
        r.push(v);
        q = q + 1;
    }
    r
}

/// The assignment that gives each open index its digit of `oc` (most
/// significant first) and every other index 0.
pub open spec fn dec(open: Seq<usize>, oc: nat, dim: nat) -> spec_fn(usize) -> int {
    |k: usize| if open.contains(k) { digits_msb(open.len(), oc, dim)[first_pos(open, k)] } else { 0 }
}

/// The assignment for open code `oc` and summed code `sc`.
pub open spec fn pair_asg(open: Seq<usize>, summed: Seq<usize>, oc: nat, sc: nat, dim: nat) -> spec_fn(usize) -> int {
    overlay(dec(open, oc, dim), summed, sc, dim)
}

/// The product of the entries that an assignment selects in `a` and in `b`.
pub open spec fn ab(a: Tensor, b: Tensor, dim: nat) -> spec_fn(spec_fn(usize) -> int) -> int {
    |z: spec_fn(usize) -> int| eval(a, z, dim) * eval(b, z, dim)
}

/// The summand of the merged entry with open code `oc`, as a function of the summed code.
pub open spec fn pair_term(a: Tensor, b: Tensor, open: Seq<usize>, summed: Seq<usize>, oc: nat, dim: nat) -> spec_fn(
    nat,
) -> int {
    |sc: nat| ab(a, b, dim)(pair_asg(open, summed, oc, sc, dim))
}

/// The indices that contracting `a` with `b` sums out: those they share that no
/// other tensor of `pool` mentions.
pub open spec fn pair_summed(a: Tensor, b: Tensor, pool: Seq<Tensor>) -> Set<usize> {
    Set::new(|k: usize| a.indices@.contains(k) && b.indices@.contains(k) && count_in(pool, k) == 2)
}

proof fn lemma_overlay_outside(x: spec_fn(usize) -> int, s: Seq<usize>, c: nat, dim: nat, k: usize)
    requires
        dim > 0,
        !s.contains(k),
    ensures
        overlay_at(x, s, c, dim, k) == x(k),
    decreases s.len(),
{
    if s.len() > 0 {
        assert(s[0] != k) by {
            assert(s.contains(s[0]));
        }
        assert(!s.drop_first().contains(k)) by {
            if s.drop_first().contains(k) {
                let q = choose|q: int| 0 <= q < s.drop_first().len() && s.drop_first()[q] == k;
                assert(s[q + 1] == k);
            }
        }
        lemma_overlay_outside(x, s.drop_first(), c / dim, dim, k);
    }
}

proof fn lemma_overlay_digit(x: spec_fn(usize) -> int, s: Seq<usize>, c: nat, dim: nat, p: int)
    requires
        dim > 0,
        s.no_duplicates(),
        0 <= p < s.len(),
    ensures
        overlay_at(x, s, c, dim, s[p]) == digits_lsb(s.len(), c, dim)[p],
    decreases s.len(),
{
    if p > 0 {
        let t = s.drop_first();
        assert(t.no_duplicates()) by {
            assert forall|i: int, j: int| 0 <= i < t.len() && 0 <= j < t.len() && i != j implies t[i] != t[j] by {
                assert(s[i + 1] != s[j + 1]);
            }
        }
        assert(s[p] != s[0]);
        assert(t[p - 1] == s[p]);
        lemma_overlay_digit(x, t, c / dim, dim, p - 1);
        lemma_digits_range(t.len(), c / dim, dim);
        assert(digits_lsb(s.len(), c, dim)[p] == digits_lsb(t.len(), c / dim, dim)[p - 1]);
    }
}

/// An assignment of values below `dim` selects an in-range offset, whose digits
/// give back the assigned values.
proof fn lemma_offset_digits(idx: Seq<usize>, y: spec_fn(usize) -> int, dim: nat)
    requires
        dim > 0,
        valid_asg(y, dim),
    ensures
        0 <= offset_under(idx, y, dim) < ipow(dim, idx.len()),
        forall|p: int| 0 <= p < idx.len() ==> #[trigger] digits_msb(idx.len(), offset_under(idx, y, dim) as nat, dim)[p]
            == y(idx[p]),
    decreases idx.len(),
{
    if idx.len() > 0 {
        let t = idx.drop_last();
        lemma_offset_digits(t, y, dim);
        let o = offset_under(t, y, dim);
        let v = y(idx.last());
        assert(0 <= v < dim);
        assert(0 <= o * dim + v < ipow(dim, t.len()) * dim) by (nonlinear_arith)
            requires
                0 <= o < ipow(dim, t.len()),
                0 <= v < dim,
        ;
        assert(ipow(dim, idx.len()) == ipow(dim, t.len()) * dim) by (nonlinear_arith)
            requires
                ipow(dim, idx.len()) == dim * ipow(dim, t.len()),
        ;
        vstd::arithmetic::div_mod::lemma_fundamental_div_mod_converse(o * dim + v, dim as int, o, v);
        let full = offset_under(idx, y, dim) as nat;
        assert(full / dim == o);
        assert(full % dim == v);
        lemma_digits_range(t.len(), o as nat, dim);
        assert(digits_msb(idx.len(), full, dim) == digits_msb(t.len(), o as nat, dim).push(v));
        assert forall|p: int| 0 <= p < idx.len() implies #[trigger] digits_msb(idx.len(), full, dim)[p] == y(idx[p]) by {
            if p < idx.len() - 1 {
                assert(t[p] == idx[p]);
            }
        }
    }
}

/// Assignments that agree on the indices select the same offset.
proof fn lemma_offset_agree(idx: Seq<usize>, z1: spec_fn(usize) -> int, z2: spec_fn(usize) -> int, dim: nat)
    requires
        agree_on(z1, z2, idx.to_set()),
    ensures
        offset_under(idx, z1, dim) == offset_under(idx, z2, dim),
    decreases idx.len(),
{
    if idx.len() > 0 {
        let t = idx.drop_last();
        assert(agree_on(z1, z2, t.to_set())) by {
            assert forall|k: usize| t.to_set().contains(k) implies #[trigger] z1(k) == z2(k) by {
                let q = choose|q: int| 0 <= q < t.len() && t[q] == k;
                assert(idx[q] == k);
                assert(idx.to_set().contains(k));
            }
        }
        lemma_offset_agree(t, z1, z2, dim);
        assert(idx.to_set().contains(idx.last())) by {
            assert(idx[idx.len() - 1] == idx.last());
        }
    }
}

/// The product of `a` and `b` reads only their indices.
proof fn lemma_ab_reads(a: Tensor, b: Tensor, dim: nat)
    ensures
        reads_only(ab(a, b, dim), a.indices@.to_set().union(b.indices@.to_set())),
{
    let u = a.indices@.to_set().union(b.indices@.to_set());
    assert forall|y1: spec_fn(usize) -> int, y2: spec_fn(usize) -> int| agree_on(y1, y2, u) implies #[trigger] ab(
        a,
        b,
        dim,
    )(y1) == #[trigger] ab(a, b, dim)(y2) by {
        assert(agree_on(y1, y2, a.indices@.to_set()));
        assert(agree_on(y1, y2, b.indices@.to_set()));
        lemma_offset_agree(a.indices@, y1, y2, dim);
        lemma_offset_agree(b.indices@, y1, y2, dim);
    }
}

/// An index of `a` or `b` reads its value from the digits as the pair assignment gives it.
proof fn lemma_lookup_matches(
    open: Seq<usize>,
    summed: Seq<usize>,
    oa: Seq<usize>,
    sa: Seq<usize>,
    oc: nat,
    sc: nat,
    dim: nat,
    k: usize,
)
    requires
        dim > 0,
        open.no_duplicates(),
        summed.no_duplicates(),
        forall|j: usize| open.contains(j) ==> !summed.contains(j),
        oa.len() == open.len(),
        sa.len() == summed.len(),
        forall|p: int| 0 <= p < open.len() ==> (#[trigger] oa[p]) as int == digits_msb(open.len(), oc, dim)[p],
        forall|p: int| 0 <= p < summed.len() ==> (#[trigger] sa[p]) as int == digits_lsb(summed.len(), sc, dim)[p],
        open.contains(k) || summed.contains(k),
    ensures
        lookup_spec(open, summed, oa, sa, k) as int == pair_asg(open, summed, oc, sc, dim)(k),
{
    if open.contains(k) {
        let j = choose|j: int| 0 <= j < open.len() && open[j] == k;
        lemma_first_pos_nodup(open, j);
        lemma_overlay_outside(dec(open, oc, dim), summed, sc, dim, k);
    } else {
        let j = choose|j: int| 0 <= j < summed.len() && summed[j] == k;
        lemma_first_pos_nodup(summed, j);
        lemma_overlay_digit(dec(open, oc, dim), summed, sc, dim, j);
    }
}

/// The indices of `a` and `b`, in the order the contraction lists them.
pub open spec fn pair_all(a: Tensor, b: Tensor) -> Seq<usize> {
    union_seq(a.indices@, b.indices@)
}

/// The summed indices of the contraction of `a` with `b`, in order.
pub open spec fn pair_summed_seq(a: Tensor, b: Tensor, pool: Seq<Tensor>) -> Seq<usize> {
    keep_summed(pair_all(a, b), a, b, pool)
}

/// The open indices of the contraction of `a` with `b`, in order.
pub open spec fn pair_open_seq(a: Tensor, b: Tensor, pool: Seq<Tensor>) -> Seq<usize> {
    keep_open(pair_all(a, b), pair_summed_seq(a, b, pool))
}

/// Accumulating the merged entry with open code `oc` leaves the `i64` range at
/// summed code `sc`: the product there, or the running sum through it, does
/// not fit.
pub open spec fn pair_step_overflows(a: Tensor, b: Tensor, pool: Seq<Tensor>, dim: nat, oc: nat, sc: nat) -> bool {
    let t = pair_term(a, b, pair_open_seq(a, b, pool), pair_summed_seq(a, b, pool), oc, dim);
    !fits_i64(t(sc)) || !fits_i64(rsum(sc + 1, t))
}

/// Contracting `a` with `b` does not fit the machine: one of the two index
/// spaces cannot be counted in a `usize`, or some entry overflows `i64` while it
/// is summed.
pub open spec fn pair_overflows(a: Tensor, b: Tensor, pool: Seq<Tensor>, dim: nat) -> bool {
    let no = pair_open_seq(a, b, pool).len();
    let ns = pair_summed_seq(a, b, pool).len();
    ||| ipow(dim, no) > usize::MAX
    ||| ipow(dim, ns) > usize::MAX
    ||| exists|oc: nat, sc: nat|
        oc < ipow(dim, no) && sc < ipow(dim, ns) && #[trigger] pair_step_overflows(a, b, pool, dim, oc, sc)
}

/// Contract two tensors, summing out every index they share that no other
/// tensor of `pool` mentions; the other indices stay open. `None` when the
/// merged tensor's size or one of its entries does not fit.
fn contract_pair(a: &Tensor, b: &Tensor, dim: usize, pool: &Vec<Tensor>) -> (r: Option<Tensor>)
    requires
        dim > 0,
        ipow(dim as nat, a.indices@.len()) <= a.data@.len(),
        ipow(dim as nat, b.indices@.len()) <= b.data@.len(),
    ensures
        match r {
            Some(c) => pair_result(*a, *b, pool@, dim as nat, c),
            None => true,
        },
        a.indices@.no_duplicates() ==> (r is None <==> pair_overflows(*a, *b, pool@, dim as nat)),
{
    let ghost d = dim as nat;
    let all = union_indices(&a.indices, &b.indices);
    let summed = summed_indices(&all, a, b, pool);
    let open = open_indices(&all, &summed);
    let ghost nd = a.indices@.no_duplicates();
    let ghost sset = summed@.to_set();
    proof {
        assert forall|k: usize| #[trigger] a.indices@.contains(k) implies open@.contains(k) || summed@.contains(k) by {
            assert(all@.contains(k));
        }
        assert forall|k: usize| #[trigger] b.indices@.contains(k) implies open@.contains(k) || summed@.contains(k) by {
            assert(all@.contains(k));
        }
        assert(sset =~= pair_summed(*a, *b, pool@)) by {
            assert forall|k: usize| #[trigger] sset.contains(k) <==> pair_summed(*a, *b, pool@).contains(k) by {
                if pair_summed(*a, *b, pool@).contains(k) {
                    assert(all@.contains(k));
                }
            }
        }
        vstd::seq_lib::seq_to_set_is_finite(summed@);
        assert(open@ == pair_open_seq(*a, *b, pool@));
        assert(summed@ == pair_summed_seq(*a, *b, pool@));
    }
    let open_total = match checked_pow(dim, open.len()) {
        Some(t) => t,
        None => {
            return None;
        },
    };
    let sum_total = match checked_pow(dim, summed.len()) {
        Some(t) => t,
        None => {
            return None;
        },
    };
    let mut data: Vec<i64> = Vec::new();
    let mut ocode: usize = 0;
    while ocode < open_total
        invariant
            dim > 0,
            d == dim,
            ipow(d, a.indices@.len()) <= a.data@.len(),
            ipow(d, b.indices@.len()) <= b.data@.len(),
            open_total == ipow(d, open@.len()),
            sum_total == ipow(d, summed@.len()),
            ocode <= open_total,
            data@.len() == ocode,
            forall|k: usize| #[trigger] a.indices@.contains(k) ==> open@.contains(k) || summed@.contains(k),
            forall|k: usize| #[trigger] b.indices@.contains(k) ==> open@.contains(k) || summed@.contains(k),
            forall|k: usize| #[trigger] open@.contains(k) <==> all@.contains(k) && !summed@.contains(k),
            nd == a.indices@.no_duplicates(),
            nd ==> all@.no_duplicates() && open@.no_duplicates() && summed@.no_duplicates(),
            sset == summed@.to_set(),
            open@ == pair_open_seq(*a, *b, pool@),
            summed@ == pair_summed_seq(*a, *b, pool@),
            nd ==> forall|oc: nat, sc: nat|
                oc < ocode && sc < sum_total ==> !#[trigger] pair_step_overflows(*a, *b, pool@, d, oc, sc),
            nd ==> forall|oc: int| 0 <= oc < ocode ==> (#[trigger] data@[oc]) as int == sum_set(
                sset,
                dec(open@, oc as nat, d),
                ab(*a, *b, d),
                d,
            ),
        decreases open_total - ocode,
    {
        let oa = decode_msb(ocode, open.len(), dim);
        let mut acc: i64 = 0;
        let mut scode: usize = 0;
        while scode < sum_total
            invariant
                dim > 0,
                d == dim,
                ipow(d, a.indices@.len()) <= a.data@.len(),
                ipow(d, b.indices@.len()) <= b.data@.len(),
                sum_total == ipow(d, summed@.len()),
                scode <= sum_total,
                oa@.len() == open@.len(),
                forall|p: int| 0 <= p < open@.len() ==> (#[trigger] oa@[p]) < dim && oa@[p] as int == digits_msb(
                    open@.len(),
                    ocode as nat,
                    d,
                )[p],
                forall|k: usize| #[trigger] a.indices@.contains(k) ==> open@.contains(k) || summed@.contains(k),
                forall|k: usize| #[trigger] b.indices@.contains(k) ==> open@.contains(k) || summed@.contains(k),
                forall|k: usize| #[trigger] open@.contains(k) <==> all@.contains(k) && !summed@.contains(k),
                nd ==> open@.no_duplicates() && summed@.no_duplicates(),
                nd ==> acc == rsum(scode as nat, pair_term(*a, *b, open@, summed@, ocode as nat, d)),
                nd == a.indices@.no_duplicates(),
                open@ == pair_open_seq(*a, *b, pool@),
                summed@ == pair_summed_seq(*a, *b, pool@),
                ocode < open_total,
                open_total == ipow(d, open@.len()),
                nd ==> forall|oc: nat, sc: nat|
                    oc < ocode && sc < sum_total ==> !#[trigger] pair_step_overflows(*a, *b, pool@, d, oc, sc),
                nd ==> forall|sc: nat|
                    sc < scode ==> !#[trigger] pair_step_overflows(*a, *b, pool@, d, ocode as nat, sc),
            decreases sum_total - scode,
        {
            let sa = decode_lsb(scode, summed.len(), dim);
            proof {
                assert forall|q: int| 0 <= q < a.indices@.len() implies open@.contains(#[trigger] a.indices@[q])
                    || summed@.contains(a.indices@[q]) by {
                    assert(a.indices@.contains(a.indices@[q]));
                }
                assert forall|q: int| 0 <= q < b.indices@.len() implies open@.contains(#[trigger] b.indices@[q])
                    || summed@.contains(b.indices@[q]) by {
                    assert(b.indices@.contains(b.indices@[q]));
                }
            }
            let av = lookup_values(&a.indices, &open, &summed, &oa, &sa, dim);
            let bv = lookup_values(&b.indices, &open, &summed, &oa, &sa, dim);
            let ia = a.offset(&av, dim);
            let ib = b.offset(&bv, dim);
            let xa = a.data[ia];
            let xb = b.data[ib];
            let ghost t = pair_term(*a, *b, open@, summed@, ocode as nat, d);
            proof {
                if nd {
                    let y = pair_asg(open@, summed@, ocode as nat, scode as nat, d);
                    assert forall|j: usize| open@.contains(j) implies !summed@.contains(j) by {
                    }
                    assert forall|q: int| 0 <= q < av@.len() implies (#[trigger] av@[q]) as int == y(a.indices@[q]) by {
                        lemma_lookup_matches(open@, summed@, oa@, sa@, ocode as nat, scode as nat, d, a.indices@[q]);
                    }
                    assert forall|q: int| 0 <= q < bv@.len() implies (#[trigger] bv@[q]) as int == y(b.indices@[q]) by {
                        lemma_lookup_matches(open@, summed@, oa@, sa@, ocode as nat, scode as nat, d, b.indices@[q]);
                    }
                    lemma_flat_offset_matches(av@, a.indices@, y, d);
                    lemma_flat_offset_matches(bv@, b.indices@, y, d);
                    assert(pair_term(*a, *b, open@, summed@, ocode as nat, d)(scode as nat) == xa * xb);
                }
            }
            proof {
                assert(rsum(scode as nat + 1, t) == rsum(scode as nat, t) + t(scode as nat));
            }
            let prod = match xa.checked_mul(xb) {
                Some(v) => v,
                None => {
                    proof {
                        if nd {
                            assert(pair_step_overflows(*a, *b, pool@, d, ocode as nat, scode as nat));
                        }
                    }
                    return None;
                },
            };
            acc = match acc.checked_add(prod) {
                Some(v) => v,
                None => {
                    proof {
                        if nd {
                            assert(pair_step_overflows(*a, *b, pool@, d, ocode as nat, scode as nat));
                        }
                    }
                    return None;
                },
            };
            proof {
                if nd {
                    assert(!pair_step_overflows(*a, *b, pool@, d, ocode as nat, scode as nat));
                }
            }
            scode = scode + 1;
        }
        proof {
            if nd {
                let x = dec(open@, ocode as nat, d);
                lemma_overlay_sum(summed@, x, ab(*a, *b, d), d);
                lemma_rsum_ext(
                    sum_total as nat,
                    pair_term(*a, *b, open@, summed@, ocode as nat, d),
                    |c: nat| ab(*a, *b, d)(overlay(x, summed@, c, d)),
                );
            }
        }
        data.push(acc);
        ocode = ocode + 1;
    }
    let c = Tensor { indices: open, data };
    proof {
        if nd {
            let u = a.indices@.to_set().union(b.indices@.to_set());
            lemma_ab_reads(*a, *b, d);
            assert forall|y: spec_fn(usize) -> int| valid_asg(y, d) implies #[trigger] eval(c, y, d) == sum_set(
                sset,
                y,
                ab(*a, *b, d),
                d,
            ) by {
                lemma_offset_digits(c.indices@, y, d);
                let oc = offset_under(c.indices@, y, d);
                let x = dec(c.indices@, oc as nat, d);
                assert(agree_on(x, y, u.difference(sset))) by {
                    assert forall|k: usize| u.difference(sset).contains(k) implies #[trigger] x(k) == y(k) by {
                        assert(all@.contains(k));
                        assert(c.indices@.contains(k));
                        let j = choose|j: int| 0 <= j < c.indices@.len() && c.indices@[j] == k;
                        lemma_first_pos_nodup(c.indices@, j);
                    }
                }
                lemma_sum_set_frame(sset, x, y, ab(*a, *b, d), u, d);
            }
        }
    }
    Some(c)
}

/// The product of the entries that `x` selects in every tensor of `s`.
pub open spec fn seq_prod(s: Seq<Tensor>, x: spec_fn(usize) -> int, dim: nat) -> int
    decreases s.len(),
{
    if s.len() == 0 {
        1
    } else {
        seq_prod(s.drop_last(), x, dim) * eval(s.last(), x, dim)
    }
}

/// The network's product, as a function of the assignment.
pub open spec fn pool_prod(s: Seq<Tensor>, dim: nat) -> spec_fn(spec_fn(usize) -> int) -> int {
    |x: spec_fn(usize) -> int| seq_prod(s, x, dim)
}

/// Every index that some tensor of `s` mentions.
pub open spec fn indices_of(s: Seq<Tensor>) -> Set<usize>
    decreases s.len(),
{
    if s.len() == 0 {
        Set::empty()
    } else {
        indices_of(s.drop_last()).union(s.last().indices@.to_set())
    }
}

/// The indices that at least two tensors of `s` mention: those a contraction sums out.
pub open spec fn closed_set(s: Seq<Tensor>) -> Set<usize> {
    indices_of(s).filter(|k: usize| count_in(s, k) >= 2)
}

/// The value of a network: the sum, over every assignment of values below `dim`
/// to the indices that two or more tensors share, of the product of the
/// selected entries; an index that only one tensor mentions stays at 0.
pub open spec fn pool_value(s: Seq<Tensor>, dim: nat) -> int {
    sum_set(closed_set(s), zero_asg(), pool_prod(s, dim), dim)
}

/// No tensor of `s` repeats an index.
pub open spec fn all_nodup(s: Seq<Tensor>) -> bool {
    forall|t: int| 0 <= t < s.len() ==> (#[trigger] s[t]).indices@.no_duplicates()
}

/// What `contract_pair` promises of a merged tensor `c` of `a` and `b` within `pool`.
pub open spec fn pair_result(a: Tensor, b: Tensor, pool: Seq<Tensor>, dim: nat, c: Tensor) -> bool {
    &&& c.data@.len() == ipow(dim, c.indices@.len())
    &&& forall|k: usize| #[trigger] c.indices@.contains(k) <==> (a.indices@.contains(k) || b.indices@.contains(k))
        && !pair_summed(a, b, pool).contains(k)
    &&& a.indices@.no_duplicates() ==> {
        &&& c.indices@.no_duplicates()
        &&& pair_summed(a, b, pool).finite()
        &&& forall|y: spec_fn(usize) -> int| valid_asg(y, dim) ==> #[trigger] eval(c, y, dim) == sum_set(
            pair_summed(a, b, pool),
            y,
            ab(a, b, dim),
            dim,
        )
    }
}

proof fn lemma_indices_of(s: Seq<Tensor>)
    ensures
        indices_of(s).finite(),
        forall|k: usize| #[trigger] indices_of(s).contains(k) <==> count_in(s, k) >= 1,
    decreases s.len(),
{
    if s.len() > 0 {
        lemma_indices_of(s.drop_last());
        vstd::seq_lib::seq_to_set_is_finite(s.last().indices@);
        assert forall|k: usize| #[trigger] indices_of(s).contains(k) <==> count_in(s, k) >= 1 by {
            assert(s.last().indices@.to_set().contains(k) <==> s.last().indices@.contains(k));
        }
    }
}

proof fn lemma_count_push(s: Seq<Tensor>, t: Tensor, k: usize)
    ensures
        count_in(s.push(t), k) == count_in(s, k) + if t.indices@.contains(k) { 1nat } else { 0nat },
{
    assert(s.push(t).drop_last() =~= s);
}

proof fn lemma_count_remove(s: Seq<Tensor>, j: int, k: usize)
    requires
        0 <= j < s.len(),
    ensures
        count_in(s, k) == count_in(s.remove(j), k) + if s[j].indices@.contains(k) { 1nat } else { 0nat },
    decreases s.len(),
{
    if j == s.len() - 1 {
        assert(s.remove(j) =~= s.drop_last());
    } else {
        let d = s.drop_last();
        lemma_count_remove(d, j, k);
        assert(s.remove(j).drop_last() =~= d.remove(j));
        assert(s.remove(j).last() == s.last());
    }
}

proof fn lemma_prod_remove(s: Seq<Tensor>, j: int, x: spec_fn(usize) -> int, dim: nat)
    requires
        0 <= j < s.len(),
    ensures
        seq_prod(s, x, dim) == seq_prod(s.remove(j), x, dim) * eval(s[j], x, dim),
    decreases s.len(),
{
    if j == s.len() - 1 {
        assert(s.remove(j) =~= s.drop_last());
    } else {
        let d = s.drop_last();
        lemma_prod_remove(d, j, x, dim);
        assert(s.remove(j).drop_last() =~= d.remove(j));
        assert(s.remove(j).last() == s.last());
        let p = seq_prod(d.remove(j), x, dim);
        let ej = eval(s[j], x, dim);
        let el = eval(s.last(), x, dim);
        assert((p * ej) * el == (p * el) * ej) by (nonlinear_arith);
    }
}

/// Changing an index that no tensor of `s` mentions leaves the product alone.
proof fn lemma_prod_frame(s: Seq<Tensor>, y: spec_fn(usize) -> int, k: usize, v: nat, dim: nat)
    requires
        count_in(s, k) == 0,
    ensures
        seq_prod(s, upd(y, k, v), dim) == seq_prod(s, y, dim),
    decreases s.len(),
{
    if s.len() > 0 {
        lemma_prod_frame(s.drop_last(), y, k, v, dim);
        let t = s.last();
        assert(agree_on(upd(y, k, v), y, t.indices@.to_set())) by {
            assert forall|q: usize| t.indices@.to_set().contains(q) implies #[trigger] upd(y, k, v)(q) == y(q) by {
                assert(q != k);
            }
        }
        lemma_offset_agree(t.indices@, upd(y, k, v), y, dim);
    }
}

proof fn lemma_prod_prefix(s: Seq<Tensor>, x: spec_fn(usize) -> int, dim: nat, m: nat)
    requires
        m <= s.len(),
    ensures
        prod_eval(s, x, dim, m) == seq_prod(s.take(m as int), x, dim),
    decreases m,
{
    if m > 0 {
        lemma_prod_prefix(s, x, dim, (m - 1) as nat);
        assert(s.take(m as int).drop_last() =~= s.take(m - 1));
    }
}

/// The value of a pool of one tensor is its first entry.
proof fn lemma_single_value(s: Seq<Tensor>, dim: nat)
    requires
        s.len() == 1,
        s[0].data@.len() >= 1,
    ensures
        pool_value(s, dim) == s[0].data@[0] as int,
{
    assert forall|k: usize| !closed_set(s).contains(k) by {
        assert(count_in(s.drop_last(), k) == 0);
    }
    assert(closed_set(s) =~= Set::empty());
    lemma_offset_zero(s[0].indices@, dim);
    assert(seq_prod(s.drop_last(), zero_asg(), dim) == 1);
    assert(s.last() == s[0]);
    assert(pool_value(s, dim) == pool_prod(s, dim)(zero_asg()));
}

proof fn lemma_offset_zero(idx: Seq<usize>, dim: nat)
    ensures
        offset_under(idx, zero_asg(), dim) == 0,
    decreases idx.len(),
{
    if idx.len() > 0 {
        lemma_offset_zero(idx.drop_last(), dim);
    }
}

/// Replacing two tensors of a pool by their contraction keeps the pool's value.
proof fn lemma_merge_step(pool: Seq<Tensor>, i: int, j: int, c: Tensor, dim: nat)
    requires
        dim > 0,
        0 <= i < j < pool.len(),
        all_nodup(pool),
        pair_result(pool[i], pool[j], pool, dim, c),
    ensures
        all_nodup(pool.remove(j).remove(i).push(c)),
        pool_value(pool.remove(j).remove(i).push(c), dim) == pool_value(pool, dim),
{
    let a = pool[i];
    let b = pool[j];
    let rest = pool.remove(j).remove(i);
    let np = rest.push(c);
    let ss = pair_summed(a, b, pool);
    assert(pool.remove(j)[i] == a);
    assert(a.indices@.no_duplicates());
    assert forall|k: usize| #[trigger] count_in(pool, k) == count_in(rest, k) + (if a.indices@.contains(k) {
        1nat
    } else {
        0nat
    }) + (if b.indices@.contains(k) {
        1nat
    } else {
        0nat
    }) by {
        lemma_count_remove(pool, j, k);
        lemma_count_remove(pool.remove(j), i, k);
    }
    assert forall|k: usize| #[trigger] count_in(np, k) == count_in(rest, k) + if c.indices@.contains(k) {
        1nat
    } else {
        0nat
    } by {
        lemma_count_push(rest, c, k);
    }
    lemma_indices_of(pool);
    lemma_indices_of(np);
    let cs = closed_set(pool);
    let cs2 = closed_set(np);
    assert(cs =~= cs2.union(ss)) by {
        assert forall|k: usize| #[trigger] cs.contains(k) <==> cs2.contains(k) || ss.contains(k) by {
            assert(count_in(pool, k) == count_in(rest, k) + (if a.indices@.contains(k) {
                1nat
            } else {
                0nat
            }) + (if b.indices@.contains(k) {
                1nat
            } else {
                0nat
            }));
            assert(count_in(np, k) == count_in(rest, k) + if c.indices@.contains(k) {
                1nat
            } else {
                0nat
            });
            assert(indices_of(pool).contains(k) <==> count_in(pool, k) >= 1);
            assert(indices_of(np).contains(k) <==> count_in(np, k) >= 1);
        }
    }
    assert(cs2.disjoint(ss)) by {
        assert forall|k: usize| cs2.contains(k) implies !ss.contains(k) by {
            assert(count_in(pool, k) == count_in(rest, k) + (if a.indices@.contains(k) {
                1nat
            } else {
                0nat
            }) + (if b.indices@.contains(k) {
                1nat
            } else {
                0nat
            }));
            assert(count_in(np, k) == count_in(rest, k) + if c.indices@.contains(k) {
                1nat
            } else {
                0nat
            });
        }
    }
    assert(all_nodup(np)) by {
        assert forall|t: int| 0 <= t < np.len() implies (#[trigger] np[t]).indices@.no_duplicates() by {
            if t < rest.len() {
                let t1 = if t < i { t } else { t + 1 };
                let t2 = if t1 < j { t1 } else { t1 + 1 };
                assert(rest[t] == pool.remove(j)[t1]);
                assert(pool.remove(j)[t1] == pool[t2]);
            }
        }
    }
    // the summand splits into the rest of the pool times the pair
    let pp = pool_prod(pool, dim);
    let rp = pool_prod(rest, dim);
    let abf = ab(a, b, dim);
    assert(pp =~= times(rp, abf)) by {
        assert forall|y: spec_fn(usize) -> int| #[trigger] pp(y) == times(rp, abf)(y) by {
            lemma_prod_remove(pool, j, y, dim);
            lemma_prod_remove(pool.remove(j), i, y, dim);
            let r = seq_prod(rest, y, dim);
            let ea = eval(a, y, dim);
            let eb = eval(b, y, dim);
            assert((r * ea) * eb == r * (ea * eb)) by (nonlinear_arith);
        }
    }
    assert forall|y: spec_fn(usize) -> int, k: usize, v: nat| ss.contains(k) implies #[trigger] rp(upd(y, k, v)) == rp(y) by {
        assert(count_in(rest, k) == 0);
        lemma_prod_frame(rest, y, k, v, dim);
    }
    lemma_sum_set_union(cs2, ss, zero_asg(), pp, dim);
    assert forall|x: spec_fn(usize) -> int| valid_asg(x, dim) implies #[trigger] sum_over(ss, pp, dim)(x) == pool_prod(
        np,
        dim,
    )(x) by {
        lemma_sum_set_factor(ss, x, rp, abf, dim);
        assert(np.drop_last() =~= rest);
    }
    assert(valid_asg(zero_asg(), dim));
    lemma_sum_set_congr(cs2, zero_asg(), sum_over(ss, pp, dim), pool_prod(np, dim), dim);
}

/// The largest number of indices of a tensor of `s`.
pub open spec fn max_width(s: Seq<Tensor>) -> nat
    decreases s.len(),
{
    if s.len() == 0 {
        0
    } else if s.last().indices@.len() > max_width(s.drop_last()) {
        s.last().indices@.len()
    } else {
        max_width(s.drop_last())
    }
}

/// `p1` and `p2` hold tensors with the same indices and data, position by position.
pub open spec fn same_tensors(p1: Seq<Tensor>, p2: Seq<Tensor>) -> bool {
    &&& p1.len() == p2.len()
    &&& forall|t: int| 0 <= t < p1.len() ==> (#[trigger] p1[t]).indices@ == p2[t].indices@ && p1[t].data@ == p2[t].data@
}

proof fn lemma_same_tensors(p1: Seq<Tensor>, p2: Seq<Tensor>, dim: nat)
    requires
        same_tensors(p1, p2),
    ensures
        pool_value(p1, dim) == pool_value(p2, dim),
        all_nodup(p1) == all_nodup(p2),
        max_width(p1) == max_width(p2),
        forall|k: usize| #[trigger] count_in(p1, k) == count_in(p2, k),
        indices_of(p1) == indices_of(p2),
        forall|x: spec_fn(usize) -> int| #[trigger] seq_prod(p1, x, dim) == seq_prod(p2, x, dim),
    decreases p1.len(),
{
    if p1.len() > 0 {
        let d1 = p1.drop_last();
        let d2 = p2.drop_last();
        assert(same_tensors(d1, d2)) by {
            assert forall|t: int| 0 <= t < d1.len() implies (#[trigger] d1[t]).indices@ == d2[t].indices@ && d1[t].data@
                == d2[t].data@ by {
                assert(d1[t] == p1[t]);
                assert(d2[t] == p2[t]);
            }
        }
        lemma_same_tensors(d1, d2, dim);
        assert(p1.last().indices@ == p2.last().indices@ && p1.last().data@ == p2.last().data@) by {
            assert(p1[p1.len() - 1] == p1.last());
        }
        assert forall|k: usize| #[trigger] count_in(p1, k) == count_in(p2, k) by {
            assert(count_in(d1, k) == count_in(d2, k));
        }
        assert forall|x: spec_fn(usize) -> int| #[trigger] seq_prod(p1, x, dim) == seq_prod(p2, x, dim) by {
            assert(seq_prod(d1, x, dim) == seq_prod(d2, x, dim));
        }
        assert(indices_of(p1) =~= indices_of(p2));
        assert(closed_set(p1) =~= closed_set(p2));
        assert(pool_prod(p1, dim) =~= pool_prod(p2, dim));
        assert(all_nodup(p1) == all_nodup(p2)) by {
            if all_nodup(p1) {
                assert forall|t: int| 0 <= t < p2.len() implies (#[trigger] p2[t]).indices@.no_duplicates() by {
                    assert(p1[t].indices@.no_duplicates());
                }
            }
            if all_nodup(p2) {
                assert forall|t: int| 0 <= t < p1.len() implies (#[trigger] p1[t]).indices@.no_duplicates() by {
                    assert(p2[t].indices@.no_duplicates());
                }
            }
        }
    } else {
        assert(indices_of(p1) =~= indices_of(p2));
        assert(closed_set(p1) =~= closed_set(p2));
        assert(pool_prod(p1, dim) =~= pool_prod(p2, dim));
    }
}

/// A copy of a tensor.
fn copy_tensor(t: &Tensor) -> (r: Tensor)
    ensures
        r.indices@ == t.indices@,
        r.data@ == t.data@,
{
    let mut indices: Vec<usize> = Vec::new();
    let mut i: usize = 0;
    while i < t.indices.len()
        invariant
            i <= t.indices@.len(),
            indices@ == t.indices@.take(i as int),
        decreases t.indices.len() - i,
    {
        indices.push(t.indices[i]);
        i = i + 1;
        assert(indices@ =~= t.indices@.take(i as int));
    }
    let mut data: Vec<i64> = Vec::new();
    let mut j: usize = 0;
    while j < t.data.len()
        invariant
            j <= t.data@.len(),
            data@ == t.data@.take(j as int),
        decreases t.data.len() - j,
    {
        data.push(t.data[j]);
        j = j + 1;
        assert(data@ =~= t.data@.take(j as int));
    }
    assert(indices@ =~= t.indices@);
    assert(data@ =~= t.data@);
    Tensor { indices, data }
}

/// Does some index of `a` occur in `b`?
fn shares_index(a: &Tensor, b: &Tensor) -> (r: bool)
    ensures
        r == exists|k: usize| a.indices@.contains(k) && b.indices@.contains(k),
{
    let mut i: usize = 0;
    while i < a.indices.len()
        invariant
            i <= a.indices@.len(),
            forall|q: int| 0 <= q < i ==> !b.indices@.contains(#[trigger] a.indices@[q]),
        decreases a.indices.len() - i,
    {
        if vec_contains(&b.indices, a.indices[i]) {
            assert(a.indices@.contains(a.indices@[i as int]));
            return true;
        }
        i = i + 1;
    }
    assert forall|k: usize| a.indices@.contains(k) implies !b.indices@.contains(k) by {
        let q = choose|q: int| 0 <= q < a.indices@.len() && a.indices@[q] == k;
    }
    false
}

/// Contract a closed network by a greedy min-width order. Returns
/// `(scalar, max_width)`, where `max_width` is the largest index count of any
/// tensor met along the way (about the treewidth), or `None` when that would
/// exceed `budget` (treewidth blow-up: defer), or when an intermediate tensor's
/// size or entry does not fit.
pub fn contract_ordered(tensors: &[Tensor], dim: usize, budget: usize) -> (r: Option<(i64, usize)>)
    requires
        dim > 0,
        tensors@.len() > 0,
        forall|t: int| 0 <= t < tensors@.len() ==> ipow(dim as nat, (#[trigger] tensors@[t]).indices@.len())
            <= tensors@[t].data@.len(),
    ensures
        match r {
            Some((v, w)) => {
                &&& w >= max_width(tensors@)
                &&& tensors@.len() > 1 ==> w <= budget
                &&& tensors@.len() == 1 ==> w == max_width(tensors@) && v == tensors@[0].data@[0]
                &&& all_nodup(tensors@) ==> v == pool_value(tensors@, dim as nat)
            },
            None => tensors@.len() > 1,
        },
        tensors@.len() > 1 && max_width(tensors@) > budget ==> r is None,
{
    let ghost d = dim as nat;
    let ghost nd = all_nodup(tensors@);
    let mut pool: Vec<Tensor> = Vec::new();
    let mut max_w: usize = 0;
    let mut k: usize = 0;
    while k < tensors.len()
        invariant
            k <= tensors@.len(),
            same_tensors(pool@, tensors@.take(k as int)),
            max_w == max_width(tensors@.take(k as int)),
        decreases tensors.len() - k,
    {
        let t = copy_tensor(&tensors[k]);
        let w = t.indices.len();
        assert(tensors@.take(k + 1).drop_last() =~= tensors@.take(k as int));
        if w > max_w {
            max_w = w;
        }
        pool.push(t);
        k = k + 1;
        assert(same_tensors(pool@, tensors@.take(k as int))) by {
            assert forall|q: int| 0 <= q < pool@.len() implies (#[trigger] pool@[q]).indices@ == tensors@.take(
                k as int,
            )[q].indices@ && pool@[q].data@ == tensors@.take(k as int)[q].data@ by {
                if q < k - 1 {
                    assert(tensors@.take(k as int)[q] == tensors@.take(k - 1)[q]);
                }
            }
        }
    }
    proof {
        assert(tensors@.take(tensors@.len() as int) =~= tensors@);
        lemma_same_tensors(pool@, tensors@, d);
    }
    while pool.len() > 1
        invariant
            dim > 0,
            d == dim,
            1 <= pool@.len() <= tensors@.len(),
            forall|t: int| 0 <= t < pool@.len() ==> ipow(d, (#[trigger] pool@[t]).indices@.len()) <= pool@[t].data@.len(),
            max_w >= max_width(tensors@),
            pool@.len() < tensors@.len() ==> max_w <= budget,
            pool@.len() == tensors@.len() ==> max_w == max_width(tensors@) && same_tensors(pool@, tensors@),
            nd == all_nodup(tensors@),
            nd ==> all_nodup(pool@) && pool_value(pool@, d) == pool_value(tensors@, d),
        decreases pool.len(),
    {
        // pick the pair whose contraction leaves the fewest open indices
        let mut best: Option<(usize, usize, Tensor)> = None;
        let mut best_w: usize = usize::MAX;
        let mut i: usize = 0;
        while i < pool.len()
            invariant
                dim > 0,
                d == dim,
                2 <= pool@.len(),
                2 <= tensors@.len(),
                forall|t: int| 0 <= t < pool@.len() ==> ipow(d, (#[trigger] pool@[t]).indices@.len()) <= pool@[t].data@.len(),
                match best {
                    Some((bi, bj, m)) => bi < bj < pool@.len() && pair_result(pool@[bi as int], pool@[bj as int], pool@, d, m),
                    None => true,
                },
            decreases pool.len() - i,
        {
            let mut j: usize = i + 1;
            while j < pool.len()
                invariant
                    dim > 0,
                    d == dim,
                    2 <= pool@.len(),
                    2 <= tensors@.len(),
                    i < pool@.len(),
                    i < j,
                    forall|t: int| 0 <= t < pool@.len() ==> ipow(d, (#[trigger] pool@[t]).indices@.len()) <= pool@[t].data@.len(),
                    match best {
                        Some((bi, bj, m)) => bi < bj < pool@.len() && pair_result(pool@[bi as int], pool@[bj as int], pool@, d, m),
                        None => true,
                    },
                decreases pool.len() - j,
            {
                if shares_index(&pool[i], &pool[j]) {
                    let merged = match contract_pair(&pool[i], &pool[j], dim, &pool) {
                        Some(m) => m,
                        None => {
                            return None;
                        },
                    };
                    let w = merged.indices.len();
                    if w < best_w {
                        best_w = w;
                        best = Some((i, j, merged));
                    }
                }
                j = j + 1;
            }
            i = i + 1;
        }
        let (i, j, merged) = match best {
            Some(t) => t,
            None => {
                // disconnected network: contract the first two
                match contract_pair(&pool[0], &pool[1], dim, &pool) {
                    Some(m) => (0, 1, m),
                    None => {
                        return None;
                    },
                }
            },
        };
        if merged.indices.len() > max_w {
            max_w = merged.indices.len();
        }
        if max_w > budget {
            return None;
        }
        let ghost old_pool = pool@;
        proof {
            if nd {
                lemma_merge_step(old_pool, i as int, j as int, merged, d);
            }
        }
        let _ = pool.remove(j);
        let _ = pool.remove(i);
        pool.push(merged);
        proof {
            assert forall|t: int| 0 <= t < pool@.len() implies ipow(d, (#[trigger] pool@[t]).indices@.len())
                <= pool@[t].data@.len() by {
                if t < pool@.len() - 1 {
                    let t1 = if t < i { t } else { t + 1 };
                    let t2 = if t1 < j { t1 } else { t1 + 1 };
                    assert(pool@[t] == old_pool.remove(j as int)[t1]);
                    assert(old_pool.remove(j as int)[t1] == old_pool[t2]);
                }
            }
        }
    }
    proof {
        lemma_ipow_positive(d, pool@[0].indices@.len());
        if nd {
            lemma_single_value(pool@, d);
        }
        if tensors@.len() == 1 {
            assert(pool@[0].data@ == tensors@[0].data@);
        }
    }
    let v = pool[0].data[0];
    Some((v, max_w))
}

proof fn lemma_count_witness(s: Seq<Tensor>, k: usize)
    requires
        count_in(s, k) >= 1,
    ensures
        exists|t: int| 0 <= t < s.len() && (#[trigger] s[t]).indices@.contains(k),
    decreases s.len(),
{
    if s.last().indices@.contains(k) {
        assert(s[s.len() - 1].indices@.contains(k));
    } else {
        lemma_count_witness(s.drop_last(), k);
        let t = choose|t: int| 0 <= t < s.drop_last().len() && (#[trigger] s.drop_last()[t]).indices@.contains(k);
        assert(s[t] == s.drop_last()[t]);
    }
}

/// On a closed network over the indices `0..n` (every index below `n` shared by
/// at least two tensors, no tensor mentioning another index or repeating one),
/// the naive contraction over `0..n` is the network's value, which is what the
/// ordered contraction returns: the two contractions agree.
pub proof fn lemma_ordered_equals_naive(ts: Seq<Tensor>, dim: nat, n: nat)
    requires
        dim > 0,
        n <= usize::MAX,
        all_nodup(ts),
        forall|t: int, q: int| 0 <= t < ts.len() && 0 <= q < ts[t].indices@.len() ==> (#[trigger] ts[t].indices@[q]) < n,
        forall|k: usize| k < n ==> #[trigger] count_in(ts, k) >= 2,
    ensures
        network_value(ts, dim, n) == pool_value(ts, dim),
{
    let r = index_range(n);
    assert(r.no_duplicates());
    lemma_indices_of(ts);
    assert(r.to_set() =~= closed_set(ts)) by {
        assert forall|k: usize| #[trigger] closed_set(ts).contains(k) implies r.to_set().contains(k) by {
            lemma_count_witness(ts, k);
            let t = choose|t: int| 0 <= t < ts.len() && (#[trigger] ts[t]).indices@.contains(k);
            let q = choose|q: int| 0 <= q < ts[t].indices@.len() && ts[t].indices@[q] == k;
            assert(ts[t].indices@[q] < n);
            assert(r[k as int] == k);
        }
        assert forall|k: usize| #[trigger] r.to_set().contains(k) implies closed_set(ts).contains(k) by {
            let p = choose|p: int| 0 <= p < r.len() && r[p] == k;
            assert(count_in(ts, k) >= 2);
        }
    }
    lemma_overlay_sum(r, zero_asg(), pool_prod(ts, dim), dim);
    assert forall|c: nat| c < ipow(dim, n) implies #[trigger] code_term(ts, n, dim)(c) == pool_prod(ts, dim)(
        overlay(zero_asg(), r, c, dim),
    ) by {
        lemma_prod_prefix(ts, code_asg(n, c, dim), dim, ts.len());
        assert(ts.take(ts.len() as int) =~= ts);
    }
    lemma_rsum_ext(ipow(dim, n), code_term(ts, n, dim), |c: nat| pool_prod(ts, dim)(overlay(zero_asg(), r, c, dim)));
}

} // verus!
