//! The tropical `(min, +)` semiring on `w×w` integer matrices (row-major), with `INF`
//! as the saturating infinity: products, identity, fast powers, layered DP and Viterbi
//! shortest paths with traceback.

use vstd::prelude::*;
use crate::text::ix;

verus! {

/// Saturating infinity `i64::MAX / 4`.
pub const INF: i64 = 0x1fff_ffff_ffff_ffffi64;

/// Row-major entry `(i, j)` of a `w×w` matrix.
pub open spec fn at(a: Seq<i64>, w: int, i: int, j: int) -> int {
    a[i * w + j] as int
}

/// `min(INF, min_{k<kk, a[i][k] < INF} a[i][k] + b[k][j])`: the min-plus product entry
/// over the first `kk` middle indices (left entries at or above `INF` are skipped).
pub open spec fn mp_entry(a: Seq<i64>, b: Seq<i64>, w: int, i: int, j: int, kk: int) -> int
    decreases kk,
{
    if kk <= 0 {
        INF as int
    } else {
        let prev = mp_entry(a, b, w, i, j, kk - 1);
        let k = kk - 1;
        if at(a, w, i, k) >= INF {
            prev
        } else {
            let v = at(a, w, i, k) + at(b, w, k, j);
            if v < prev { v } else { prev }
        }
    }
}

/// `c` is the min-plus product of `a` and `b`.
pub open spec fn is_product(c: Seq<i64>, a: Seq<i64>, b: Seq<i64>, w: int) -> bool {
    &&& c.len() == w * w
    &&& forall|i: int, j: int| 0 <= i < w && 0 <= j < w ==> #[trigger] at(c, w, i, j) == mp_entry(a, b, w, i, j, w)
}

/// Matrices of size `w×w` whose product cannot overflow: every finite left entry plus any
/// right entry fits in `i64`.
pub open spec fn product_fits(a: Seq<i64>, b: Seq<i64>, w: int) -> bool {
    &&& w * w <= usize::MAX
    &&& a.len() >= w * w
    &&& b.len() >= w * w
    &&& forall|i: int, k: int, j: int| 0 <= i < w && 0 <= k < w && 0 <= j < w && #[trigger] at(a, w, i, k) < INF
        ==> i64::MIN <= at(a, w, i, k) + #[trigger] at(b, w, k, j) <= i64::MAX
}

/// Matrices with every entry in `[0, INF]`: closed under the product, which never overflows.
pub open spec fn nonneg_capped(a: Seq<i64>, w: int) -> bool {
    &&& a.len() == w * w
    &&& forall|t: int| 0 <= t < w * w ==> 0 <= #[trigger] a[t] <= INF
}

proof fn lemma_index_bounds(w: int, i: int, j: int)
    requires
        0 <= i < w,
        0 <= j < w,
    ensures
        0 <= i * w + j < w * w,
{
    assert(0 <= i * w + j < w * w) by (nonlinear_arith) requires 0 <= i < w, 0 <= j < w;
}

/// `(min,+)` matrix product `C[i][j] = min_k A[i][k] + B[k][j]`, `w×w`: every entry is
/// accumulated over `k` in increasing order, starting from `INF`, skipping `A[i][k] ≥ INF`.
pub fn min_plus_matmul(a: &[i64], b: &[i64], w: usize) -> (c: Vec<i64>)
    requires
        product_fits(a@, b@, w as int),
    ensures
        is_product(c@, a@, b@, w as int),
{
    let mut c: Vec<i64> = Vec::new();
    let mut i: usize = 0;
    while i < w
        invariant
            product_fits(a@, b@, w as int),
            i <= w,
            c@.len() == i * w,
            forall|r: int, j: int| 0 <= r < i && 0 <= j < w ==> #[trigger] at(c@, w as int, r, j) == mp_entry(a@, b@, w as int, r, j, w as int),
        decreases w - i,
    {
        let mut j: usize = 0;
        while j < w
            invariant
                product_fits(a@, b@, w as int),
                i < w,
                j <= w,
                c@.len() == i * w + j,
                forall|r: int, jj: int| 0 <= r < i && 0 <= jj < w ==> #[trigger] at(c@, w as int, r, jj) == mp_entry(a@, b@, w as int, r, jj, w as int),
                forall|jj: int| 0 <= jj < j ==> #[trigger] at(c@, w as int, ix(i), jj) == mp_entry(a@, b@, w as int, ix(i), jj, w as int),
            decreases w - j,
        {
            let mut best: i64 = INF;
            let mut k: usize = 0;
            while k < w
                invariant
                    product_fits(a@, b@, w as int),
                    i < w,
                    j < w,
                    k <= w,
                    best == mp_entry(a@, b@, w as int, ix(i), ix(j), ix(k)),
                decreases w - k,
            {
                proof {
                    lemma_index_bounds(w as int, i as int, k as int);
                    lemma_index_bounds(w as int, k as int, j as int);
                }
                let aik = a[i * w + k];
                if aik < INF {
                    proof {
                        assert(aik == at(a@, w as int, ix(i), ix(k)));
                        assert(i64::MIN <= at(a@, w as int, ix(i), ix(k)) + at(b@, w as int, ix(k), ix(j)) <= i64::MAX);
                    }
                    let v = aik + b[k * w + j];
                    if v < best {
                        best = v;
                    }
                }
                k = k + 1;
            }
            let ghost before = c@;
            c.push(best);
            proof {
                lemma_index_bounds(w as int, i as int, j as int);
                assert(ix(i) * w + ix(j) == before.len()) by (nonlinear_arith)
                    requires before.len() == i * w + j;
                assert forall|r: int, jj: int| 0 <= r < i && 0 <= jj < w implies
                    #[trigger] at(c@, w as int, r, jj) == mp_entry(a@, b@, w as int, r, jj, w as int) by {
                    assert(r * w + jj < i * w) by (nonlinear_arith) requires 0 <= r < i, 0 <= jj < w;
                    assert(at(c@, w as int, r, jj) == at(before, w as int, r, jj));
                }
                assert forall|jj: int| 0 <= jj < j + 1 implies
                    #[trigger] at(c@, w as int, ix(i), jj) == mp_entry(a@, b@, w as int, ix(i), jj, w as int) by {
                    if jj < j {
                        assert(at(c@, w as int, ix(i), jj) == at(before, w as int, ix(i), jj));
                    }
                }
            }
            j = j + 1;
        }
        assert(c@.len() == (i + 1) * w) by (nonlinear_arith) requires c@.len() == i * w + w;
        assert forall|r: int, jj: int| 0 <= r < i + 1 && 0 <= jj < w implies
            #[trigger] at(c@, w as int, r, jj) == mp_entry(a@, b@, w as int, r, jj, w as int) by {
            if r == i {
                assert(at(c@, w as int, ix(i), jj) == mp_entry(a@, b@, w as int, ix(i), jj, w as int));
            }
        }
        i = i + 1;
    }
    c
}

/// The min-plus product as a row-major sequence.
pub open spec fn matmul_spec(a: Seq<i64>, b: Seq<i64>, w: int) -> Seq<i64> {
    Seq::new((w * w) as nat, |t: int| mp_entry(a, b, w, t / w, t % w, w) as i64)
}

/// The min-plus identity: `0` on the diagonal, `INF` elsewhere.
pub open spec fn identity_spec(w: int) -> Seq<i64> {
    Seq::new((w * w) as nat, |t: int| if t / w == t % w { 0i64 } else { INF })
}

proof fn lemma_div_mod(w: int, t: int)
    requires
        0 <= t < w * w,
        w > 0,
    ensures
        0 <= t / w < w,
        0 <= t % w < w,
        (t / w) * w + t % w == t,
{
    vstd::arithmetic::div_mod::lemma_fundamental_div_mod(t, w);
    vstd::arithmetic::div_mod::lemma_mod_pos_bound(t, w);
    assert(0 <= t / w < w) by (nonlinear_arith) requires 0 <= t < w * w, w > 0, t == w * (t / w) + t % w, 0 <= t % w < w;
    assert((t / w) * w == w * (t / w)) by (nonlinear_arith);
}

proof fn lemma_rowcol(w: int, i: int, j: int)
    requires
        0 <= i < w,
        0 <= j < w,
    ensures
        (i * w + j) / w == i,
        (i * w + j) % w == j,
{
    vstd::arithmetic::div_mod::lemma_fundamental_div_mod_converse(i * w + j, w, i, j);
}

/// A product computed by [`min_plus_matmul`] is the spec product.
proof fn lemma_product_is_spec(c: Seq<i64>, a: Seq<i64>, b: Seq<i64>, w: int)
    requires
        is_product(c, a, b, w),
        w >= 0,
    ensures
        c == matmul_spec(a, b, w),
{
    assert forall|t: int| 0 <= t < w * w implies c[t] == matmul_spec(a, b, w)[t] by {
        assert(w > 0) by (nonlinear_arith) requires 0 <= t < w * w, w >= 0;
        lemma_div_mod(w, t);
        assert(at(c, w, t / w, t % w) == mp_entry(a, b, w, t / w, t % w, w));
    }
    assert(c =~= matmul_spec(a, b, w));
}

/// Min-plus identity (`0` on the diagonal, `+∞` off).
pub fn min_plus_identity(w: usize) -> (m: Vec<i64>)
    requires
        w * w <= usize::MAX,
    ensures
        m@ == identity_spec(w as int),
{
    let mut m: Vec<i64> = Vec::new();
    let mut i: usize = 0;
    while i < w
        invariant
            w * w <= usize::MAX,
            i <= w,
            m@.len() == i * w,
            forall|t: int| 0 <= t < i * w ==> #[trigger] m@[t] == identity_spec(w as int)[t],
        decreases w - i,
    {
        let mut j: usize = 0;
        while j < w
            invariant
                w * w <= usize::MAX,
                i < w,
                j <= w,
                m@.len() == i * w + j,
                forall|t: int| 0 <= t < i * w + j ==> #[trigger] m@[t] == identity_spec(w as int)[t],
            decreases w - j,
        {
            proof {
                lemma_index_bounds(w as int, i as int, j as int);
                lemma_rowcol(w as int, i as int, j as int);
            }
            let ghost t = m@.len() as int;
            if i == j {
                m.push(0);
            } else {
                m.push(INF);
            }
            assert(m@[t] == identity_spec(w as int)[t]);
            j = j + 1;
        }
        assert(m@.len() == (i + 1) * w) by (nonlinear_arith) requires m@.len() == i * w + w;
        i = i + 1;
    }
    assert(m@ =~= identity_spec(w as int));
    m
}

/// `M^{⊗n}` by repeated left multiplication: `I ⊗ M ⊗ … ⊗ M`.
pub open spec fn naive_pow(m: Seq<i64>, n: nat, w: int) -> Seq<i64>
    decreases n,
{
    if n == 0 { identity_spec(w) } else { matmul_spec(naive_pow(m, (n - 1) as nat, w), m, w) }
}

/// Every step of the repeated multiplication stays within `i64`.
pub open spec fn naive_fits(m: Seq<i64>, n: nat, w: int) -> bool {
    forall|k: nat| k < n ==> #[trigger] product_fits(naive_pow(m, k, w), m, w)
}

/// Square-and-multiply: with accumulator `acc`, current square `base` and exponent `e`.
pub open spec fn pow_bin(acc: Seq<i64>, base: Seq<i64>, e: nat, w: int) -> Seq<i64>
    decreases e,
{
    if e == 0 {
        acc
    } else {
        let acc2 = if e % 2 == 1 { matmul_spec(acc, base, w) } else { acc };
        pow_bin(acc2, matmul_spec(base, base, w), e / 2, w)
    }
}

/// Every product of square-and-multiply stays within `i64`.
pub open spec fn pow_bin_fits(acc: Seq<i64>, base: Seq<i64>, e: nat, w: int) -> bool
    decreases e,
{
    if e == 0 {
        true
    } else {
        &&& (e % 2 == 1 ==> product_fits(acc, base, w))
        &&& product_fits(base, base, w)
        &&& pow_bin_fits(if e % 2 == 1 { matmul_spec(acc, base, w) } else { acc }, matmul_spec(base, base, w), e / 2, w)
    }
}

/// `M^{⊗n}` in the min-plus semiring via fast exponentiation, `O(w³ log n)`.
pub fn min_plus_matpow(m: &[i64], n: u64, w: usize) -> (r: Vec<i64>)
    requires
        w * w <= usize::MAX,
        m@.len() == w * w,
        pow_bin_fits(identity_spec(w as int), m@, n as nat, w as int),
    ensures
        r@ == pow_bin(identity_spec(w as int), m@, n as nat, w as int),
        nonneg_capped(m@, w as int) ==> r@ == naive_pow(m@, n as nat, w as int),
        n == 0 ==> r@ == identity_spec(w as int),
        n == 1 && (forall|t: int| 0 <= t < m@.len() ==> #[trigger] m@[t] <= INF) ==> r@ == m@,
{
    proof {
        if n == 1 && (forall|t: int| 0 <= t < m@.len() ==> #[trigger] m@[t] <= INF) {
            lemma_left_identity(m@, w as int);
            assert(pow_bin(identity_spec(w as int), m@, 1, w as int) == pow_bin(
                matmul_spec(identity_spec(w as int), m@, w as int), matmul_spec(m@, m@, w as int), 0, w as int));
        }
        if nonneg_capped(m@, w as int) {
            lemma_matpow_is_power(m@, n as nat, w as int);
        }
    }
    let mut acc = min_plus_identity(w);
    let mut base = vstd::slice::slice_to_vec(m);
    let mut e = n;
    while e > 0
        invariant
            w * w <= usize::MAX,
            pow_bin(acc@, base@, e as nat, w as int) == pow_bin(identity_spec(w as int), m@, n as nat, w as int),
            pow_bin_fits(acc@, base@, e as nat, w as int),
        decreases e,
    {
        if e % 2 == 1 {
            let prod = min_plus_matmul(acc.as_slice(), base.as_slice(), w);
            proof { lemma_product_is_spec(prod@, acc@, base@, w as int); }
            acc = prod;
        }
        let sq = min_plus_matmul(base.as_slice(), base.as_slice(), w);
        proof { lemma_product_is_spec(sq@, base@, base@, w as int); }
        base = sq;
        e = e / 2;
    }
    acc
}

/// Repeated left-multiplication by the layer `m`, `n` times: the oracle.
pub fn repeated_layer_naive(m: &[i64], n: u64, w: usize) -> (r: Vec<i64>)
    requires
        w * w <= usize::MAX,
        m@.len() == w * w,
        naive_fits(m@, n as nat, w as int),
    ensures
        r@ == naive_pow(m@, n as nat, w as int),
{
    let mut acc = min_plus_identity(w);
    let mut k: u64 = 0;
    while k < n
        invariant
            w * w <= usize::MAX,
            m@.len() == w * w,
            naive_fits(m@, n as nat, w as int),
            k <= n,
            acc@ == naive_pow(m@, k as nat, w as int),
        decreases n - k,
    {
        assert(product_fits(naive_pow(m@, k as nat, w as int), m@, w as int));
        let prod = min_plus_matmul(acc.as_slice(), m, w);
        proof { lemma_product_is_spec(prod@, acc@, m@, w as int); }
        acc = prod;
        k = k + 1;
    }
    acc
}

/// The product `I ⊗ L_0 ⊗ … ⊗ L_{k-1}` over the first `k` layers.
pub open spec fn layers_product(layers: Seq<Vec<i64>>, k: nat, w: int) -> Seq<i64>
    decreases k,
{
    if k == 0 { identity_spec(w) } else { matmul_spec(layers_product(layers, (k - 1) as nat, w), layers[k - 1]@, w) }
}

/// Every step of the layered product stays within `i64`.
pub open spec fn layers_fit(layers: Seq<Vec<i64>>, w: int) -> bool {
    forall|k: nat| k < layers.len() ==> #[trigger] product_fits(layers_product(layers, k, w), layers[k as int]@, w)
}

/// DP over a list of distinct layer matrices (no repeated structure, no collapse).
pub fn layered_dag_naive(layers: &[Vec<i64>], w: usize) -> (r: Vec<i64>)
    requires
        w * w <= usize::MAX,
        layers_fit(layers@, w as int),
    ensures
        r@ == layers_product(layers@, layers@.len(), w as int),
{
    let mut acc = min_plus_identity(w);
    let mut k: usize = 0;
    while k < layers.len()
        invariant
            w * w <= usize::MAX,
            layers_fit(layers@, w as int),
            k <= layers@.len(),
            acc@ == layers_product(layers@, k as nat, w as int),
        decreases layers@.len() - k,
    {
        assert(product_fits(layers_product(layers@, k as nat, w as int), layers@[k as int]@, w as int));
        let prod = min_plus_matmul(acc.as_slice(), layers[k].as_slice(), w);
        proof { lemma_product_is_spec(prod@, acc@, layers@[k as int]@, w as int); }
        acc = prod;
        k = k + 1;
    }
    acc
}

// ---- weights in [0, INF] are closed under the product ----

proof fn lemma_mp_entry_capped(a: Seq<i64>, b: Seq<i64>, w: int, i: int, j: int, kk: int)
    requires
        nonneg_capped(a, w),
        nonneg_capped(b, w),
        0 <= i < w,
        0 <= j < w,
        kk <= w,
    ensures
        0 <= mp_entry(a, b, w, i, j, kk) <= INF,
    decreases kk,
{
    if kk > 0 {
        lemma_mp_entry_capped(a, b, w, i, j, kk - 1);
        lemma_index_bounds(w, i, kk - 1);
        lemma_index_bounds(w, kk - 1, j);
    }
}

/// Nonnegative capped weights never overflow the product, and their product is again
/// nonnegative and capped.
pub proof fn lemma_capped_closed(a: Seq<i64>, b: Seq<i64>, w: int)
    requires
        w >= 0,
        w * w <= usize::MAX,
        nonneg_capped(a, w),
        nonneg_capped(b, w),
    ensures
        product_fits(a, b, w),
        nonneg_capped(matmul_spec(a, b, w), w),
{
    assert forall|i: int, k: int, j: int| 0 <= i < w && 0 <= k < w && 0 <= j < w && #[trigger] at(a, w, i, k) < INF
        implies i64::MIN <= at(a, w, i, k) + #[trigger] at(b, w, k, j) <= i64::MAX by {
        lemma_index_bounds(w, i, k);
        lemma_index_bounds(w, k, j);
    }
    assert forall|t: int| 0 <= t < w * w implies 0 <= #[trigger] matmul_spec(a, b, w)[t] <= INF by {
        assert(w > 0) by (nonlinear_arith) requires 0 <= t < w * w, w >= 0;
        lemma_div_mod(w, t);
        lemma_mp_entry_capped(a, b, w, t / w, t % w, w);
    }
}

proof fn lemma_identity_capped(w: int)
    requires
        w >= 0,
    ensures
        nonneg_capped(identity_spec(w), w),
{
}

/// With weights in `[0, INF]`, every power by repeated multiplication stays capped and
/// within `i64`.
pub proof fn lemma_naive_fits(m: Seq<i64>, n: nat, w: int)
    requires
        w >= 0,
        w * w <= usize::MAX,
        nonneg_capped(m, w),
    ensures
        naive_fits(m, n, w),
        nonneg_capped(naive_pow(m, n, w), w),
    decreases n,
{
    if n == 0 {
        lemma_identity_capped(w);
    } else {
        lemma_naive_fits(m, (n - 1) as nat, w);
        lemma_capped_closed(naive_pow(m, (n - 1) as nat, w), m, w);
        assert forall|k: nat| k < n implies #[trigger] product_fits(naive_pow(m, k, w), m, w) by {
            if k < n - 1 {
                assert(naive_fits(m, (n - 1) as nat, w));
            }
        }
    }
}

/// With weights in `[0, INF]`, square-and-multiply stays capped and within `i64`.
pub proof fn lemma_pow_bin_fits(acc: Seq<i64>, base: Seq<i64>, e: nat, w: int)
    requires
        w >= 0,
        w * w <= usize::MAX,
        nonneg_capped(acc, w),
        nonneg_capped(base, w),
    ensures
        pow_bin_fits(acc, base, e, w),
        nonneg_capped(pow_bin(acc, base, e, w), w),
    decreases e,
{
    if e > 0 {
        lemma_capped_closed(acc, base, w);
        lemma_capped_closed(base, base, w);
        let acc2 = if e % 2 == 1 { matmul_spec(acc, base, w) } else { acc };
        lemma_pow_bin_fits(acc2, matmul_spec(base, base, w), e / 2, w);
    }
}

/// With capped nonnegative layers, the layered product stays within `i64`.
pub proof fn lemma_layers_fit(layers: Seq<Vec<i64>>, w: int)
    requires
        w >= 0,
        w * w <= usize::MAX,
        forall|k: int| 0 <= k < layers.len() ==> nonneg_capped(#[trigger] layers[k]@, w),
    ensures
        layers_fit(layers, w),
{
    assert forall|k: nat| k < layers.len() implies #[trigger] product_fits(layers_product(layers, k, w), layers[k as int]@, w) by {
        lemma_layers_capped(layers, k, w);
        lemma_capped_closed(layers_product(layers, k, w), layers[k as int]@, w);
    }
}

proof fn lemma_layers_capped(layers: Seq<Vec<i64>>, k: nat, w: int)
    requires
        w >= 0,
        w * w <= usize::MAX,
        k <= layers.len(),
        forall|q: int| 0 <= q < layers.len() ==> nonneg_capped(#[trigger] layers[q]@, w),
    ensures
        nonneg_capped(layers_product(layers, k, w), w),
    decreases k,
{
    if k == 0 {
        lemma_identity_capped(w);
    } else {
        lemma_layers_capped(layers, (k - 1) as nat, w);
        assert(nonneg_capped(layers[k - 1]@, w));
        lemma_capped_closed(layers_product(layers, (k - 1) as nat, w), layers[k - 1]@, w);
    }
}

// ---- Viterbi ----

/// The best `(cost, predecessor)` for node `v` over predecessors `u < uu`: reachable
/// predecessors (`dist[u] < INF`) in increasing order, keeping the first strict minimum;
/// `(INF, usize::MAX)` when none improves on `INF`.
pub open spec fn relax(dist: Seq<i64>, m: Seq<i64>, w: int, uu: int, v: int) -> (i64, usize)
    decreases uu,
{
    if uu <= 0 {
        (INF, usize::MAX)
    } else {
        let prev = relax(dist, m, w, uu - 1, v);
        let u = uu - 1;
        if dist[u] >= INF {
            prev
        } else {
            let c = dist[u] + at(m, w, u, v);
            if c < prev.0 { (c as i64, u as usize) } else { prev }
        }
    }
}

/// Distances after `k` layers from `src`.
pub open spec fn vdist(m: Seq<i64>, w: int, src: int, k: nat) -> Seq<i64>
    decreases k,
{
    if k == 0 {
        Seq::new(w as nat, |v: int| if v == src { 0i64 } else { INF })
    } else {
        let d = vdist(m, w, src, (k - 1) as nat);
        Seq::new(w as nat, |v: int| relax(d, m, w, w, v).0)
    }
}

/// Back pointers of layer step `k` (from distances after `k` layers to `k + 1`).
pub open spec fn vback(m: Seq<i64>, w: int, src: int, k: nat, v: int) -> usize {
    relax(vdist(m, w, src, k), m, w, w, v).1
}

/// No relaxation of the first `n` steps overflows `i64`.
pub open spec fn viterbi_fits(m: Seq<i64>, w: int, src: int, n: nat) -> bool {
    forall|k: nat, u: int, v: int| k < n && 0 <= u < w && 0 <= v < w && #[trigger] vdist(m, w, src, k)[u] < INF
        ==> i64::MIN <= vdist(m, w, src, k)[u] + #[trigger] at(m, w, u, v) <= i64::MAX
}

proof fn lemma_relax_props(dist: Seq<i64>, m: Seq<i64>, w: int, uu: int, v: int)
    requires
        0 <= uu <= w <= usize::MAX,
        dist.len() == w,
        forall|u: int| 0 <= u < w && dist[u] < INF ==> i64::MIN <= dist[u] + #[trigger] at(m, w, u, v) <= i64::MAX,
    ensures
        relax(dist, m, w, uu, v).0 <= INF,
        relax(dist, m, w, uu, v).0 < INF ==> {
            let u = relax(dist, m, w, uu, v).1 as int;
            &&& 0 <= u < uu
            &&& dist[u] < INF
            &&& relax(dist, m, w, uu, v).0 == dist[u] + at(m, w, u, v)
        },
        relax(dist, m, w, uu, v).0 >= INF ==> relax(dist, m, w, uu, v).1 == usize::MAX,
    decreases uu,
{
    if uu > 0 {
        lemma_relax_props(dist, m, w, uu - 1, v);
    }
}

proof fn lemma_vdist_len(m: Seq<i64>, w: int, src: int, k: nat)
    requires
        w >= 0,
    ensures
        vdist(m, w, src, k).len() == w,
    decreases k,
{
    if k > 0 {
        lemma_vdist_len(m, w, src, (k - 1) as nat);
    }
}

/// The traceback from `dst` after `n` layers: node at step `s` (`s = n` is `dst`).
pub open spec fn trace_node(m: Seq<i64>, w: int, src: int, n: nat, dst: int, s: nat) -> int
    decreases n - s,
{
    if s >= n { dst } else { vback(m, w, src, s, trace_node(m, w, src, n, dst, s + 1)) as int }
}

/// A finite distance traces back through finite distances to `src`.
proof fn lemma_trace_finite(m: Seq<i64>, w: int, src: int, n: nat, dst: int, s: nat)
    requires
        w > 0,
        w * w <= usize::MAX,
        viterbi_fits(m, w, src, n),
        0 <= src < w,
        0 <= dst < w,
        s <= n,
        vdist(m, w, src, n)[dst] < INF,
    ensures
        0 <= trace_node(m, w, src, n, dst, s) < w,
        vdist(m, w, src, s)[trace_node(m, w, src, n, dst, s)] < INF,
        s == 0 ==> trace_node(m, w, src, n, dst, s) == src,
    decreases n - s,
{
    lemma_vdist_len(m, w, src, s);
    if s < n {
        lemma_trace_finite(m, w, src, n, dst, s + 1);
        let v = trace_node(m, w, src, n, dst, s + 1);
        lemma_vdist_len(m, w, src, (s + 1) as nat);
        assert(vdist(m, w, src, (s + 1) as nat)[v] == relax(vdist(m, w, src, s), m, w, w, v).0);
        assert(w <= w * w) by (nonlinear_arith) requires w > 0;
        assert forall|u: int| 0 <= u < w && vdist(m, w, src, s)[u] < INF implies
            i64::MIN <= vdist(m, w, src, s)[u] + #[trigger] at(m, w, u, v) <= i64::MAX by {
        }
        lemma_relax_props(vdist(m, w, src, s), m, w, w, v);
    }
}

/// Viterbi (min-plus) shortest path with traceback over `n` copies of layer `m`:
/// `(cost, path)` from `src` to `dst`; `(INF, [])` when `dst` is unreachable in `n > 0`
/// layers. The path has `n + 1` nodes, starts at `src`, ends at `dst`, and follows the
/// recorded predecessors.
pub fn viterbi_path(m: &[i64], n: usize, w: usize, src: usize, dst: usize) -> (r: (i64, Vec<usize>))
    requires
        w * w <= usize::MAX,
        m@.len() >= w * w,
        src < w,
        dst < w,
        viterbi_fits(m@, w as int, src as int, n as nat),
    ensures
        n > 0 && vdist(m@, w as int, src as int, n as nat)[dst as int] >= INF ==> r.0 == INF && r.1@.len() == 0,
        !(n > 0 && vdist(m@, w as int, src as int, n as nat)[dst as int] >= INF) ==> {
            &&& r.0 == vdist(m@, w as int, src as int, n as nat)[dst as int]
            &&& r.1@.len() == n + 1
            &&& r.1@[n as int] == dst
            &&& forall|s: int| 0 <= s <= n ==> r.1@[s] == trace_node(m@, w as int, src as int, n as nat, dst as int, s as nat)
            &&& (n > 0 ==> r.1@[0] == src)
        },
{
    let mut dist: Vec<i64> = Vec::new();
    let mut t: usize = 0;
    while t < w
        invariant
            t <= w,
            src < w,
            dist@.len() == t,
            forall|v: int| 0 <= v < t ==> dist@[v] == vdist(m@, w as int, src as int, 0)[v],
        decreases w - t,
    {
        if t == src { dist.push(0); } else { dist.push(INF); }
        t = t + 1;
    }
    assert(dist@ =~= vdist(m@, w as int, src as int, 0));
    let mut back: Vec<Vec<usize>> = Vec::new();
    let mut step: usize = 0;
    while step < n
        invariant
            w * w <= usize::MAX,
            m@.len() >= w * w,
            src < w,
            step <= n,
            viterbi_fits(m@, w as int, src as int, n as nat),
            dist@ == vdist(m@, w as int, src as int, step as nat),
            back@.len() == step,
            forall|k: int, v: int| 0 <= k < step && 0 <= v < w ==> #[trigger] back@[k]@[v] == vback(m@, w as int, src as int, k as nat, v),
            forall|k: int| 0 <= k < step ==> #[trigger] back@[k]@.len() == w,
        decreases n - step,
    {
        proof { lemma_vdist_len(m@, w as int, src as int, step as nat); }
        let mut nd: Vec<i64> = Vec::new();
        let mut bs: Vec<usize> = Vec::new();
        let mut v: usize = 0;
        while v < w
            invariant
                w * w <= usize::MAX,
                m@.len() >= w * w,
                step < n,
                v <= w,
                viterbi_fits(m@, w as int, src as int, n as nat),
                dist@ == vdist(m@, w as int, src as int, step as nat),
                dist@.len() == w,
                nd@.len() == v,
                bs@.len() == v,
                forall|x: int| 0 <= x < v ==> #[trigger] nd@[x] == relax(dist@, m@, w as int, w as int, x).0,
                forall|x: int| 0 <= x < v ==> #[trigger] bs@[x] == relax(dist@, m@, w as int, w as int, x).1,
            decreases w - v,
        {
            let mut best: i64 = INF;
            let mut arg: usize = usize::MAX;
            let mut u: usize = 0;
            while u < w
                invariant
                    w * w <= usize::MAX,
                    m@.len() >= w * w,
                    step < n,
                    u <= w,
                    v < w,
                    viterbi_fits(m@, w as int, src as int, n as nat),
                    dist@ == vdist(m@, w as int, src as int, step as nat),
                    dist@.len() == w,
                    (best, arg) == relax(dist@, m@, w as int, u as int, v as int),
                decreases w - u,
            {
                if dist[u] < INF {
                    proof {
                        lemma_index_bounds(w as int, u as int, v as int);
                        assert(i64::MIN <= vdist(m@, w as int, src as int, step as nat)[u as int] + at(m@, w as int, u as int, v as int) <= i64::MAX);
                    }
                    let c = dist[u] + m[u * w + v];
                    if c < best {
                        best = c;
                        arg = u;
                    }
                }
                u = u + 1;
            }
            nd.push(best);
            bs.push(arg);
            v = v + 1;
        }
        let ghost old_back = back@;
        back.push(bs);
        proof {
            assert forall|k: int, x: int| 0 <= k < step + 1 && 0 <= x < w implies #[trigger] back@[k]@[x] == vback(m@, w as int, src as int, k as nat, x) by {
                if k < step {
                    assert(back@[k] == old_back[k]);
                }
            }
            assert forall|k: int| 0 <= k < step + 1 implies #[trigger] back@[k]@.len() == w by {
                if k < step {
                    assert(back@[k] == old_back[k]);
                }
            }
        }
        dist = nd;
        assert(dist@ =~= vdist(m@, w as int, src as int, (step + 1) as nat));
        step = step + 1;
    }
    proof { lemma_vdist_len(m@, w as int, src as int, n as nat); }
    let mut rev: Vec<usize> = Vec::new();
    rev.push(dst);
    let mut cur = dst;
    let mut s: usize = n;
    while s > 0
        invariant
            s <= n,
            back@.len() == n,
            forall|k: int, v: int| 0 <= k < n && 0 <= v < w ==> #[trigger] back@[k]@[v] == vback(m@, w as int, src as int, k as nat, v),
            forall|k: int| 0 <= k < n ==> #[trigger] back@[k]@.len() == w,
            dist@ == vdist(m@, w as int, src as int, n as nat),
            w > 0,
            src < w,
            dst < w,
            cur < w,
            cur == trace_node(m@, w as int, src as int, n as nat, dst as int, s as nat),
            rev@.len() == n - s + 1,
            forall|q: int| 0 <= q < rev@.len() ==> #[trigger] rev@[q] == trace_node(m@, w as int, src as int, n as nat, dst as int, (n - q) as nat),
            s == n || vdist(m@, w as int, src as int, n as nat)[dst as int] < INF,
            w * w <= usize::MAX,
            viterbi_fits(m@, w as int, src as int, n as nat),
        decreases s,
    {
        proof {
            if s == n {
                lemma_vdist_len(m@, w as int, src as int, (n - 1) as nat);
                assert(w <= w * w) by (nonlinear_arith) requires w > 0;
                assert forall|u: int| 0 <= u < w && vdist(m@, w as int, src as int, (n - 1) as nat)[u] < INF implies
                    i64::MIN <= vdist(m@, w as int, src as int, (n - 1) as nat)[u] + #[trigger] at(m@, w as int, u, dst as int) <= i64::MAX by {
                }
                lemma_relax_props(vdist(m@, w as int, src as int, (n - 1) as nat), m@, w as int, w as int, dst as int);
                assert(vdist(m@, w as int, src as int, n as nat)[dst as int]
                    == relax(vdist(m@, w as int, src as int, (n - 1) as nat), m@, w as int, w as int, dst as int).0);
            }
            if vdist(m@, w as int, src as int, n as nat)[dst as int] < INF {
                lemma_trace_finite(m@, w as int, src as int, n as nat, dst as int, (s - 1) as nat);
            }
        }
        cur = back[s - 1][cur];
        if cur == usize::MAX {
            return (INF, Vec::new());
        }
        let ghost old_rev = rev@;
        rev.push(cur);
        s = s - 1;
        assert forall|q: int| 0 <= q < rev@.len() implies #[trigger] rev@[q] == trace_node(m@, w as int, src as int, n as nat, dst as int, (n - q) as nat) by {
            if q < old_rev.len() {
                assert(rev@[q] == old_rev[q]);
            }
        }
    }
    let cost = dist[dst];
    let mut path: Vec<usize> = Vec::new();
    let mut q: usize = rev.len();
    while q > 0
        invariant
            q <= rev@.len(),
            path@.len() == rev@.len() - q,
            forall|x: int| 0 <= x < path@.len() ==> #[trigger] path@[x] == rev@[rev@.len() - 1 - x],
        decreases q,
    {
        q = q - 1;
        path.push(rev[q]);
    }
    proof {
        assert forall|x: int| 0 <= x <= n implies path@[x] == trace_node(m@, w as int, src as int, n as nat, dst as int, x as nat) by {
            assert(path@[x] == rev@[n - x]);
            assert((n - (n - x)) as nat == x as nat);
        }
        if n > 0 {
            lemma_trace_finite(m@, w as int, src as int, n as nat, dst as int, 0);
        }
    }
    (cost, path)
}


// ---- the product on weights in [0, INF] is associative ----

/// With weights in `[0, INF]`, a product entry is the least of `INF` and the path
/// sums `a[i][k] + b[k][j]` over the middle indices `k < kk`: at most each of them,
/// and `INF` or one of them.
proof fn lemma_mp_char(a: Seq<i64>, b: Seq<i64>, w: int, i: int, j: int, kk: int)
    requires
        nonneg_capped(a, w),
        nonneg_capped(b, w),
        0 <= i < w,
        0 <= j < w,
        0 <= kk <= w,
    ensures
        0 <= mp_entry(a, b, w, i, j, kk) <= INF,
        forall|k: int| 0 <= k < kk ==> mp_entry(a, b, w, i, j, kk) <= at(a, w, i, k) + #[trigger] at(b, w, k, j),
        mp_entry(a, b, w, i, j, kk) == INF || exists|k: int|
            0 <= k < kk && mp_entry(a, b, w, i, j, kk) == at(a, w, i, k) + #[trigger] at(b, w, k, j),
    decreases kk,
{
    lemma_mp_entry_capped(a, b, w, i, j, kk);
    if kk > 0 {
        lemma_mp_char(a, b, w, i, j, kk - 1);
        lemma_index_bounds(w, i, kk - 1);
        lemma_index_bounds(w, kk - 1, j);
        let prev = mp_entry(a, b, w, i, j, kk - 1);
        let cur = mp_entry(a, b, w, i, j, kk);
        if cur != INF && cur != prev {
            assert(cur == at(a, w, i, kk - 1) + at(b, w, kk - 1, j));
        }
        if cur == prev && prev != INF {
            let k0 = choose|k: int| 0 <= k < kk - 1 && prev == at(a, w, i, k) + #[trigger] at(b, w, k, j);
            assert(0 <= k0 < kk && cur == at(a, w, i, k0) + at(b, w, k0, j));
        }
    }
}

/// Entry `(i, j)` of the spec product.
proof fn lemma_at_matmul(a: Seq<i64>, b: Seq<i64>, w: int, i: int, j: int)
    requires
        nonneg_capped(a, w),
        nonneg_capped(b, w),
        0 <= i < w,
        0 <= j < w,
    ensures
        at(matmul_spec(a, b, w), w, i, j) == mp_entry(a, b, w, i, j, w),
{
    lemma_index_bounds(w, i, j);
    lemma_rowcol(w, i, j);
    lemma_mp_entry_capped(a, b, w, i, j, w);
}

/// Products of weights in `[0, INF]` stay in `[0, INF]`.
proof fn lemma_matmul_capped(a: Seq<i64>, b: Seq<i64>, w: int)
    requires
        w >= 0,
        nonneg_capped(a, w),
        nonneg_capped(b, w),
    ensures
        nonneg_capped(matmul_spec(a, b, w), w),
{
    assert forall|t: int| 0 <= t < w * w implies 0 <= #[trigger] matmul_spec(a, b, w)[t] <= INF by {
        assert(w > 0) by (nonlinear_arith) requires 0 <= t < w * w, w >= 0;
        lemma_div_mod(w, t);
        lemma_mp_entry_capped(a, b, w, t / w, t % w, w);
    }
}

/// Two `w×w` matrices with the same entries are equal.
proof fn lemma_matrix_ext(x: Seq<i64>, y: Seq<i64>, w: int)
    requires
        w >= 0,
        x.len() == w * w,
        y.len() == w * w,
        forall|i: int, j: int| 0 <= i < w && 0 <= j < w ==> #[trigger] at(x, w, i, j) == at(y, w, i, j),
    ensures
        x == y,
{
    assert forall|t: int| 0 <= t < w * w implies x[t] == y[t] by {
        assert(w > 0) by (nonlinear_arith) requires 0 <= t < w * w, w >= 0;
        lemma_div_mod(w, t);
        assert(at(x, w, t / w, t % w) == at(y, w, t / w, t % w));
    }
    assert(x =~= y);
}

/// On weights in `[0, INF]` the min-plus product is associative.
pub proof fn lemma_matmul_assoc(a: Seq<i64>, b: Seq<i64>, c: Seq<i64>, w: int)
    requires
        w >= 0,
        nonneg_capped(a, w),
        nonneg_capped(b, w),
        nonneg_capped(c, w),
    ensures
        matmul_spec(matmul_spec(a, b, w), c, w) == matmul_spec(a, matmul_spec(b, c, w), w),
{
    let ab = matmul_spec(a, b, w);
    let bc = matmul_spec(b, c, w);
    lemma_matmul_capped(a, b, w);
    lemma_matmul_capped(b, c, w);
    lemma_matmul_capped(ab, c, w);
    lemma_matmul_capped(a, bc, w);
    assert forall|i: int, l: int| 0 <= i < w && 0 <= l < w implies #[trigger] at(
        matmul_spec(ab, c, w),
        w,
        i,
        l,
    ) == at(matmul_spec(a, bc, w), w, i, l) by {
        lemma_at_matmul(ab, c, w, i, l);
        lemma_at_matmul(a, bc, w, i, l);
        let x = mp_entry(ab, c, w, i, l, w);
        let y = mp_entry(a, bc, w, i, l, w);
        lemma_mp_char(ab, c, w, i, l, w);
        lemma_mp_char(a, bc, w, i, l, w);
        // x <= y
        if y != INF {
            let k = choose|k: int| 0 <= k < w && y == at(a, w, i, k) + #[trigger] at(bc, w, k, l);
            lemma_at_matmul(b, c, w, k, l);
            lemma_mp_char(b, c, w, k, l, w);
            lemma_index_bounds(w, i, k);
            if at(bc, w, k, l) != INF {
                let j = choose|j: int| 0 <= j < w && at(bc, w, k, l) == at(b, w, k, j) + #[trigger] at(c, w, j, l);
                lemma_at_matmul(a, b, w, i, j);
                lemma_mp_char(a, b, w, i, j, w);
                assert(at(ab, w, i, j) <= at(a, w, i, k) + at(b, w, k, j));
                assert(x <= at(ab, w, i, j) + at(c, w, j, l));
            }
        }
        // y <= x
        if x != INF {
            let j = choose|j: int| 0 <= j < w && x == at(ab, w, i, j) + #[trigger] at(c, w, j, l);
            lemma_at_matmul(a, b, w, i, j);
            lemma_mp_char(a, b, w, i, j, w);
            lemma_index_bounds(w, j, l);
            if at(ab, w, i, j) != INF {
                let k = choose|k: int| 0 <= k < w && at(ab, w, i, j) == at(a, w, i, k) + #[trigger] at(b, w, k, j);
                lemma_at_matmul(b, c, w, k, l);
                lemma_mp_char(b, c, w, k, l, w);
                assert(at(bc, w, k, l) <= at(b, w, k, j) + at(c, w, j, l));
                assert(y <= at(a, w, i, k) + at(bc, w, k, l));
            }
        }
    }
    lemma_matrix_ext(matmul_spec(ab, c, w), matmul_spec(a, bc, w), w);
}

proof fn lemma_at_identity(w: int, i: int, j: int)
    requires
        0 <= i < w,
        0 <= j < w,
    ensures
        at(identity_spec(w), w, i, j) == (if i == j { 0int } else { INF as int }),
{
    lemma_index_bounds(w, i, j);
    lemma_rowcol(w, i, j);
}

/// A row of the identity picks out one entry: accumulating over the first `kk` middle
/// indices gives `a[i][j]` once the diagonal index `i` is passed, `INF` before.
proof fn lemma_identity_row(a: Seq<i64>, w: int, i: int, j: int, kk: int)
    requires
        0 <= i < w,
        0 <= j < w,
        0 <= kk <= w,
        a.len() == w * w,
        at(a, w, i, j) <= INF,
    ensures
        mp_entry(identity_spec(w), a, w, i, j, kk) == (if kk > i { at(a, w, i, j) } else { INF as int }),
    decreases kk,
{
    if kk > 0 {
        lemma_identity_row(a, w, i, j, kk - 1);
        lemma_at_identity(w, i, kk - 1);
    }
}

/// The identity is neutral on the left for every matrix whose entries are at most `INF`
/// (negative weights included).
pub proof fn lemma_left_identity(a: Seq<i64>, w: int)
    requires
        w >= 0,
        a.len() == w * w,
        forall|t: int| 0 <= t < a.len() ==> #[trigger] a[t] <= INF,
    ensures
        matmul_spec(identity_spec(w), a, w) == a,
{
    let id = identity_spec(w);
    assert forall|t: int| 0 <= t < w * w implies #[trigger] matmul_spec(id, a, w)[t] == a[t] by {
        assert(w > 0) by (nonlinear_arith) requires 0 <= t < w * w, w >= 0;
        lemma_div_mod(w, t);
        let i = t / w;
        let j = t % w;
        assert(i * w + j == t);
        assert(at(a, w, i, j) == a[t] as int);
        lemma_identity_row(a, w, i, j, w);
    }
    assert(matmul_spec(id, a, w) =~= a);
}

/// The identity is neutral on both sides of the product on weights in `[0, INF]`.
pub proof fn lemma_matmul_identity(a: Seq<i64>, w: int)
    requires
        w >= 0,
        nonneg_capped(a, w),
    ensures
        matmul_spec(identity_spec(w), a, w) == a,
        matmul_spec(a, identity_spec(w), w) == a,
{
    let id = identity_spec(w);
    lemma_identity_capped(w);
    lemma_matmul_capped(id, a, w);
    lemma_matmul_capped(a, id, w);
    assert forall|i: int, j: int| 0 <= i < w && 0 <= j < w implies #[trigger] at(matmul_spec(id, a, w), w, i, j)
        == at(a, w, i, j) by {
        lemma_at_matmul(id, a, w, i, j);
        lemma_mp_char(id, a, w, i, j, w);
        lemma_at_identity(w, i, i);
        lemma_index_bounds(w, i, j);
        let x = mp_entry(id, a, w, i, j, w);
        if x != INF {
            let k = choose|k: int| 0 <= k < w && x == at(id, w, i, k) + #[trigger] at(a, w, k, j);
            lemma_at_identity(w, i, k);
            lemma_index_bounds(w, k, j);
        }
    }
    assert forall|i: int, j: int| 0 <= i < w && 0 <= j < w implies #[trigger] at(matmul_spec(a, id, w), w, i, j)
        == at(a, w, i, j) by {
        lemma_at_matmul(a, id, w, i, j);
        lemma_mp_char(a, id, w, i, j, w);
        lemma_at_identity(w, j, j);
        lemma_index_bounds(w, i, j);
        let x = mp_entry(a, id, w, i, j, w);
        if x != INF {
            let k = choose|k: int| 0 <= k < w && x == at(a, w, i, k) + #[trigger] at(id, w, k, j);
            lemma_at_identity(w, k, j);
            lemma_index_bounds(w, i, k);
        }
    }
    lemma_matrix_ext(matmul_spec(id, a, w), a, w);
    lemma_matrix_ext(matmul_spec(a, id, w), a, w);
}

/// Powers of weights in `[0, INF]` stay in `[0, INF]`.
proof fn lemma_pow_capped(m: Seq<i64>, n: nat, w: int)
    requires
        w >= 0,
        nonneg_capped(m, w),
    ensures
        nonneg_capped(naive_pow(m, n, w), w),
    decreases n,
{
    if n == 0 {
        lemma_identity_capped(w);
    } else {
        lemma_pow_capped(m, (n - 1) as nat, w);
        lemma_matmul_capped(naive_pow(m, (n - 1) as nat, w), m, w);
    }
}

/// Multiplying a power by `m` on the left gives the next power.
proof fn lemma_pow_left(m: Seq<i64>, n: nat, w: int)
    requires
        w >= 0,
        nonneg_capped(m, w),
    ensures
        matmul_spec(m, naive_pow(m, n, w), w) == naive_pow(m, n + 1, w),
    decreases n,
{
    lemma_identity_capped(w);
    lemma_matmul_identity(m, w);
    if n > 0 {
        let p = naive_pow(m, (n - 1) as nat, w);
        lemma_pow_capped(m, (n - 1) as nat, w);
        lemma_matmul_assoc(m, p, m, w);
        lemma_pow_left(m, (n - 1) as nat, w);
    }
}

/// Powers of the square are the even powers.
proof fn lemma_pow_square(m: Seq<i64>, q: nat, w: int)
    requires
        w >= 0,
        nonneg_capped(m, w),
    ensures
        naive_pow(matmul_spec(m, m, w), q, w) == naive_pow(m, 2 * q, w),
    decreases q,
{
    if q > 0 {
        lemma_pow_square(m, (q - 1) as nat, w);
        let p = naive_pow(m, (2 * q - 2) as nat, w);
        lemma_pow_capped(m, (2 * q - 2) as nat, w);
        lemma_matmul_assoc(p, m, m, w);
        assert(naive_pow(m, (2 * q - 1) as nat, w) == matmul_spec(p, m, w));
        assert(naive_pow(m, 2 * q, w) == matmul_spec(naive_pow(m, (2 * q - 1) as nat, w), m, w));
    }
}

/// Square-and-multiply from accumulator `acc` and square `base` with exponent `e`
/// gives `acc` times `base` to the `e`.
proof fn lemma_pow_bin_value(acc: Seq<i64>, base: Seq<i64>, e: nat, w: int)
    requires
        w >= 0,
        nonneg_capped(acc, w),
        nonneg_capped(base, w),
    ensures
        pow_bin(acc, base, e, w) == matmul_spec(acc, naive_pow(base, e, w), w),
    decreases e,
{
    if e == 0 {
        lemma_matmul_identity(acc, w);
    } else {
        let q = e / 2;
        let sq = matmul_spec(base, base, w);
        lemma_matmul_capped(base, base, w);
        lemma_matmul_capped(acc, base, w);
        let acc2 = if e % 2 == 1 { matmul_spec(acc, base, w) } else { acc };
        lemma_pow_bin_value(acc2, sq, q, w);
        lemma_pow_square(base, q, w);
        lemma_pow_capped(base, 2 * q, w);
        if e % 2 == 1 {
            lemma_matmul_assoc(acc, base, naive_pow(base, 2 * q, w), w);
            lemma_pow_left(base, 2 * q, w);
            assert(2 * q + 1 == e);
        } else {
            assert(2 * q == e);
        }
    }
}

/// Fast exponentiation computes the power: on weights in `[0, INF]`, square-and-multiply
/// from the identity equals repeated multiplication, for every exponent (`M^0` is the
/// identity and `M^1` is `M`).
pub proof fn lemma_matpow_is_power(m: Seq<i64>, n: nat, w: int)
    requires
        w >= 0,
        nonneg_capped(m, w),
    ensures
        pow_bin(identity_spec(w), m, n, w) == naive_pow(m, n, w),
        naive_pow(m, 0, w) == identity_spec(w),
        naive_pow(m, 1, w) == m,
{
    lemma_identity_capped(w);
    lemma_pow_bin_value(identity_spec(w), m, n, w);
    lemma_pow_capped(m, n, w);
    lemma_matmul_identity(naive_pow(m, n, w), w);
    lemma_matmul_identity(m, w);
}

} // verus!
