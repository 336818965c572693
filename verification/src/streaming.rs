//! Streaming / sublinear sketches and their exact oracles.
//!
//! The sketches trade space for an approximate estimate; each estimate is checked
//! against the exact oracle computed from the data. The exact answer still costs
//! a full pass over the stream.

use std::collections::{HashMap, HashSet};
use vstd::prelude::*;
use vstd::wrapping::u64_specs;
use vstd::relations::{sorted_by, total_ordering};
use vstd::std_specs::bits::u64_leading_zeros;

verus! {

/// The hash behind the sketches: splitmix64 of `x` salted by `seed`.
pub open spec fn mix_spec(x: u64, seed: u64) -> u64 {
    let z0 = u64_specs::wrapping_add(u64_specs::wrapping_add(x, seed), 0x9E3779B97F4A7C15u64);
    let z1 = u64_specs::wrapping_mul(z0 ^ (z0 >> 30u64), 0xBF58476D1CE4E5B9u64);
    let z2 = u64_specs::wrapping_mul(z1 ^ (z1 >> 27u64), 0x94D049BB133111EBu64);
    z2 ^ (z2 >> 31u64)
}

fn mix(x: u64, seed: u64) -> (h: u64)
    ensures
        h == mix_spec(x, seed),
{
    let mut z = x.wrapping_add(seed).wrapping_add(0x9E3779B97F4A7C15);
    z = (z ^ (z >> 30)).wrapping_mul(0xBF58476D1CE4E5B9);
    z = (z ^ (z >> 27)).wrapping_mul(0x94D049BB133111EB);
    z ^ (z >> 31)
}

/// How often `v` occurs in `s`.
pub open spec fn count_of(s: Seq<u64>, v: u64) -> nat
    decreases s.len(),
{
    if s.len() == 0 {
        0
    } else {
        count_of(s.drop_last(), v) + (if s.last() == v {
            1nat
        } else {
            0nat
        })
    }
}

/// The second frequency moment `F₂ = Σ_v f_v²`, built one item at a time: an item
/// seen `c` times before raises it by `(c + 1)² − c² = 2c + 1`.
pub open spec fn f2_spec(s: Seq<u64>) -> nat
    decreases s.len(),
{
    if s.len() == 0 {
        0
    } else {
        f2_spec(s.drop_last()) + 2 * count_of(s.drop_last(), s.last()) + 1
    }
}

proof fn lemma_count_le_len(s: Seq<u64>, v: u64)
    ensures
        count_of(s, v) <= s.len(),
    decreases s.len(),
{
    if s.len() > 0 {
        lemma_count_le_len(s.drop_last(), v);
    }
}

proof fn lemma_f2_le_square(s: Seq<u64>)
    ensures
        f2_spec(s) <= s.len() * s.len(),
    decreases s.len(),
{
    if s.len() > 0 {
        let t = s.drop_last();
        lemma_f2_le_square(t);
        lemma_count_le_len(t, s.last());
        assert(f2_spec(s) <= t.len() * t.len() + 2 * t.len() + 1);
        assert((t.len() + 1) * (t.len() + 1) == t.len() * t.len() + 2 * t.len() + 1)
            by (nonlinear_arith);
    }
}

/// The position of `x` among `keys`, if it is there.
fn find_key(keys: &Vec<u64>, x: u64) -> (r: Option<usize>)
    ensures
        match r {
            Some(j) => j < keys@.len() && keys@[j as int] == x,
            None => !keys@.contains(x),
        },
{
    let mut j: usize = 0;
    while j < keys.len()
        invariant
            j <= keys@.len(),
            forall|i: int| 0 <= i < j ==> keys@[i] != x,
        decreases keys.len() - j,
    {
        if keys[j] == x {
            return Some(j);
        }
        j = j + 1;
    }
    None
}

/// Exact second frequency moment `F₂ = Σ_v f_v²` (the oracle).
pub fn exact_f2(items: &[u64]) -> (r: u64)
    requires
        items@.len() < 0x1_0000_0000,
    ensures
        r == f2_spec(items@),
{
    broadcast use vstd::std_specs::hash::group_hash_axioms;

    let mut freq: HashMap<u64, u64> = HashMap::new();
    let mut f2: u64 = 0;
    let mut i: usize = 0;
    while i < items.len()
        invariant
            items@.len() < 0x1_0000_0000,
            i <= items@.len(),
            forall|v: u64| #[trigger] freq@.contains_key(v) ==> freq@[v] == count_of(
                items@.take(i as int),
                v,
            ),
            forall|v: u64| !#[trigger] freq@.contains_key(v) ==> count_of(items@.take(i as int), v)
                == 0,
            f2 == f2_spec(items@.take(i as int)),
        decreases items.len() - i,
    {
        let x = items[i];
        let ghost pre = items@.take(i as int);
        let ghost post = items@.take(i + 1);
        assert(post.drop_last() =~= pre);
        assert(post.last() == x);
        proof {
            lemma_f2_le_square(post);
            lemma_count_le_len(pre, x);
            assert((i + 1) * (i + 1) < 0x1_0000_0000_0000_0000) by (nonlinear_arith)
                requires
                    i + 1 < 0x1_0000_0000,
            ;
        }
        let c: u64 = match freq.insert(x, 1) {
            Some(c) => c,
            None => 0,
        };
        assert(c == count_of(pre, x));
        f2 = f2 + 2 * c + 1;
        freq.insert(x, c + 1);
        i = i + 1;
    }
    assert(items@.take(items@.len() as int) =~= items@);
    f2
}

/// Exact frequency of `key` (the oracle).
pub fn exact_freq(items: &[u64], key: u64) -> (r: u64)
    ensures
        r == count_of(items@, key),
{
    let mut c: u64 = 0;
    let mut i: usize = 0;
    while i < items.len()
        invariant
            i <= items@.len(),
            c == count_of(items@.take(i as int), key),
        decreases items.len() - i,
    {
        assert(items@.take(i + 1).drop_last() =~= items@.take(i as int));
        proof {
            lemma_count_le_len(items@.take(i + 1), key);
        }
        if items[i] == key {
            c = c + 1;
        }
        i = i + 1;
    }
    assert(items@.take(items@.len() as int) =~= items@);
    c
}

/// The Count-Min bucket of `x` in row `row` of a sketch `w` wide.
pub open spec fn cm_bucket(x: u64, row: int, w: usize) -> int {
    (mix_spec(x, (0xC114 + row) as u64) % (w as u64)) as int
}

/// How many items of `s` share `key`'s bucket in row `row`.
pub open spec fn cm_row(s: Seq<u64>, key: u64, row: int, w: usize) -> nat
    decreases s.len(),
{
    if s.len() == 0 {
        0
    } else {
        cm_row(s.drop_last(), key, row, w) + (if cm_bucket(s.last(), row, w) == cm_bucket(key, row, w) {
            1nat
        } else {
            0nat
        })
    }
}

/// How many items of `s` fall in bucket `b` of row `row`.
spec fn cm_cell(s: Seq<u64>, row: int, b: int, w: usize) -> nat
    decreases s.len(),
{
    if s.len() == 0 {
        0
    } else {
        cm_cell(s.drop_last(), row, b, w) + (if cm_bucket(s.last(), row, w) == b {
            1nat
        } else {
            0nat
        })
    }
}

proof fn lemma_cm_cell_row(s: Seq<u64>, key: u64, row: int, w: usize)
    ensures
        cm_cell(s, row, cm_bucket(key, row, w), w) == cm_row(s, key, row, w),
    decreases s.len(),
{
    if s.len() > 0 {
        lemma_cm_cell_row(s.drop_last(), key, row, w);
    }
}

/// The Count-Min estimate: the least of `key`'s bucket counts over rows `0..d`
/// (`0` when there are no rows).
pub open spec fn cm_estimate(s: Seq<u64>, key: u64, w: usize, d: int) -> nat
    decreases d,
{
    if d <= 0 {
        0
    } else if d == 1 {
        cm_row(s, key, 0, w)
    } else {
        let rest = cm_estimate(s, key, w, d - 1);
        let last = cm_row(s, key, d - 1, w);
        if last < rest {
            last
        } else {
            rest
        }
    }
}

/// The Count-Min estimate over `d >= 1` rows is the least of the row counts of
/// `key`'s buckets: at most every row's count, and equal to one of them.
pub proof fn lemma_cm_estimate_least(s: Seq<u64>, key: u64, w: usize, d: int)
    requires
        d >= 1,
    ensures
        forall|r: int| 0 <= r < d ==> cm_estimate(s, key, w, d) <= #[trigger] cm_row(s, key, r, w),
        exists|r0: int| 0 <= r0 < d && cm_estimate(s, key, w, d) == #[trigger] cm_row(s, key, r0, w),
    decreases d,
{
    if d == 1 {
        assert(cm_estimate(s, key, w, d) == cm_row(s, key, 0, w));
    } else {
        lemma_cm_estimate_least(s, key, w, d - 1);
        let r1 = choose|r0: int| 0 <= r0 < d - 1 && cm_estimate(s, key, w, d - 1) == #[trigger] cm_row(
            s,
            key,
            r0,
            w,
        );
        if cm_row(s, key, d - 1, w) < cm_estimate(s, key, w, d - 1) {
            assert(cm_estimate(s, key, w, d) == cm_row(s, key, d - 1, w));
        } else {
            assert(cm_estimate(s, key, w, d) == cm_row(s, key, r1, w));
        }
    }
}

proof fn lemma_cm_row_ge_count(s: Seq<u64>, key: u64, row: int, w: usize)
    ensures
        cm_row(s, key, row, w) >= count_of(s, key),
    decreases s.len(),
{
    if s.len() > 0 {
        lemma_cm_row_ge_count(s.drop_last(), key, row, w);
    }
}

/// Count-Min never underestimates: with at least one row, the estimate is at
/// least the exact frequency (equal items always share a bucket).
pub proof fn lemma_count_min_never_underestimates(s: Seq<u64>, key: u64, w: usize, d: int)
    requires
        d >= 1,
    ensures
        cm_estimate(s, key, w, d) >= count_of(s, key),
    decreases d,
{
    lemma_cm_row_ge_count(s, key, d - 1, w);
    if d > 1 {
        lemma_count_min_never_underestimates(s, key, w, d - 1);
    }
}

proof fn lemma_cm_cell_le_len(s: Seq<u64>, row: int, b: int, w: usize)
    ensures
        cm_cell(s, row, b, w) <= s.len(),
    decreases s.len(),
{
    if s.len() > 0 {
        lemma_cm_cell_le_len(s.drop_last(), row, b, w);
    }
}

/// Count-Min point estimate of `key`'s frequency with width `w` and depth `d`:
/// each row of the sketch counts every item in one of `w` buckets, and the
/// estimate is the least of `key`'s buckets over the rows (`0` with no rows).
pub fn count_min(items: &[u64], key: u64, w: usize, d: usize) -> (r: u64)
    requires
        w > 0,
        d + 0xC114 <= u64::MAX,
    ensures
        r == cm_estimate(items@, key, w, d as int),
        forall|row: int| 0 <= row < d ==> r <= #[trigger] cm_row(items@, key, row, w),
        d >= 1 ==> exists|row: int| 0 <= row < d && r == #[trigger] cm_row(items@, key, row, w),
{
    let mut est: u64 = 0;
    let mut row: usize = 0;
    while row < d
        invariant
            w > 0,
            d + 0xC114 <= u64::MAX,
            row <= d,
            est == cm_estimate(items@, key, w, row as int),
        decreases d - row,
    {
        // one row of the sketch: a count per bucket
        let mut counts: Vec<u64> = Vec::new();
        let mut b: usize = 0;
        while b < w
            invariant
                b <= w,
                counts@.len() == b,
                forall|q: int| 0 <= q < b ==> counts@[q] == 0,
            decreases w - b,
        {
            counts.push(0);
            b = b + 1;
        }
        let mut i: usize = 0;
        while i < items.len()
            invariant
                w > 0,
                d + 0xC114 <= u64::MAX,
                row < d,
                i <= items@.len(),
                counts@.len() == w,
                forall|q: int| 0 <= q < w ==> #[trigger] counts@[q] == cm_cell(
                    items@.take(i as int),
                    row as int,
                    q,
                    w,
                ),
            decreases items.len() - i,
        {
            let x = items[i];
            assert(items@.take(i + 1).drop_last() =~= items@.take(i as int));
            let h = (mix(x, 0xC114 + row as u64) % w as u64) as usize;
            assert(h == cm_bucket(x, row as int, w));
            proof {
                lemma_cm_cell_le_len(items@.take(i as int), row as int, h as int, w);
            }
            let c = counts[h];
            counts.set(h, c + 1);
            i = i + 1;
        }
        assert(items@.take(items@.len() as int) =~= items@);
        let h = (mix(key, 0xC114 + row as u64) % w as u64) as usize;
        let v = counts[h];
        proof {
            lemma_cm_cell_row(items@, key, row as int, w);
        }
        if row == 0 || v < est {
            est = v;
        }
        row = row + 1;
    }
    proof {
        if d >= 1 {
            lemma_cm_estimate_least(items@, key, w, d as int);
        }
    }
    est
}

/// Exact number of distinct elements (the oracle).
pub fn exact_distinct(items: &[u64]) -> (r: u64)
    ensures
        r == items@.to_set().len(),
{
    broadcast use vstd::std_specs::hash::group_hash_axioms;

    let mut seen: HashSet<u64> = HashSet::new();
    let mut i: usize = 0;
    while i < items.len()
        invariant
            i <= items@.len(),
            seen@ == items@.take(i as int).to_set(),
        decreases items.len() - i,
    {
        let x = items[i];
        assert(items@.take(i + 1) =~= items@.take(i as int).push(x));
        proof {
            items@.take(i as int).lemma_push_to_set_commute(x);
        }
        seen.insert(x);
        i = i + 1;
    }
    assert(items@.take(items@.len() as int) =~= items@);
    seen.len() as u64
}

// ---- Misra–Gries heavy hitters ----

/// Where key `x` sits among the counters, or −1 when it has none.
pub open spec fn mg_pos(st: Seq<(u64, int)>, x: u64) -> int
    decreases st.len(),
{
    if st.len() == 0 {
        -1
    } else if st.last().0 == x {
        st.len() - 1
    } else {
        mg_pos(st.drop_last(), x)
    }
}

/// Every counter lowered by one; those that reach zero are dropped, the others
/// keep their order.
pub open spec fn mg_decrement(st: Seq<(u64, int)>) -> Seq<(u64, int)>
    decreases st.len(),
{
    if st.len() == 0 {
        seq![]
    } else {
        let rest = mg_decrement(st.drop_last());
        if st.last().1 > 1 {
            rest.push((st.last().0, st.last().1 - 1))
        } else {
            rest
        }
    }
}

/// One Misra–Gries step with at most `k` counters: a counted item is counted
/// again; a new item gets a counter while fewer than `k` are in use; otherwise
/// every counter is lowered by one and the item is dropped.
pub open spec fn mg_step(st: Seq<(u64, int)>, x: u64, k: nat) -> Seq<(u64, int)> {
    let p = mg_pos(st, x);
    if p >= 0 {
        st.update(p, (x, st[p].1 + 1))
    } else if st.len() < k {
        st.push((x, 1))
    } else {
        mg_decrement(st)
    }
}

/// The counters after the whole stream.
pub open spec fn mg_state(s: Seq<u64>, k: nat) -> Seq<(u64, int)>
    decreases s.len(),
{
    if s.len() == 0 {
        seq![]
    } else {
        mg_step(mg_state(s.drop_last(), k), s.last(), k)
    }
}

/// The counted keys.
pub open spec fn mg_keys(st: Seq<(u64, int)>) -> Seq<u64> {
    st.map_values(|e: (u64, int)| e.0)
}

/// How many times the stream took the decrement branch.
pub open spec fn mg_decrements(s: Seq<u64>, k: nat) -> nat
    decreases s.len(),
{
    if s.len() == 0 {
        0
    } else {
        let st = mg_state(s.drop_last(), k);
        mg_decrements(s.drop_last(), k) + (if mg_pos(st, s.last()) < 0 && st.len() >= k {
            1nat
        } else {
            0nat
        })
    }
}

/// The counter of `v` (0 when it has none).
pub open spec fn mg_val(st: Seq<(u64, int)>, v: u64) -> int
    decreases st.len(),
{
    if st.len() == 0 {
        0
    } else if st.last().0 == v {
        st.last().1
    } else {
        mg_val(st.drop_last(), v)
    }
}

pub open spec fn mg_sum(st: Seq<(u64, int)>) -> int
    decreases st.len(),
{
    if st.len() == 0 {
        0
    } else {
        mg_sum(st.drop_last()) + st.last().1
    }
}

/// Keys are distinct and every counter is positive.
pub open spec fn mg_wf(st: Seq<(u64, int)>) -> bool {
    &&& mg_keys(st).no_duplicates()
    &&& forall|j: int| 0 <= j < st.len() ==> #[trigger] st[j].1 >= 1
}

proof fn lemma_mg_pos(st: Seq<(u64, int)>, x: u64)
    requires
        mg_wf(st),
    ensures
        mg_pos(st, x) >= 0 ==> mg_pos(st, x) < st.len() && st[mg_pos(st, x)].0 == x,
        mg_pos(st, x) < 0 <==> !mg_keys(st).contains(x),
        forall|j: int| 0 <= j < st.len() && st[j].0 == x ==> mg_pos(st, x) == j,
        mg_val(st, x) == (if mg_pos(st, x) >= 0 { st[mg_pos(st, x)].1 } else { 0 }),
    decreases st.len(),
{
    if st.len() > 0 {
        let t = st.drop_last();
        assert(mg_keys(t) =~= mg_keys(st).drop_last());
        assert(mg_wf(t)) by {
            assert forall|p: int, q: int| 0 <= p < mg_keys(t).len() && 0 <= q < mg_keys(t).len() && p != q
                implies mg_keys(t)[p] != mg_keys(t)[q] by {
                assert(mg_keys(st)[p] != mg_keys(st)[q]);
            }
            assert forall|j: int| 0 <= j < t.len() implies #[trigger] t[j].1 >= 1 by {
                assert(st[j].1 >= 1);
            }
        }
        lemma_mg_pos(t, x);
        if st.last().0 == x {
            assert(mg_keys(st)[st.len() - 1] == x);
            assert forall|j: int| 0 <= j < st.len() && st[j].0 == x implies mg_pos(st, x) == j by {
                if j != st.len() - 1 {
                    assert(mg_keys(st)[j] == mg_keys(st)[st.len() - 1]);
                }
            }
        } else {
            assert forall|j: int| 0 <= j < st.len() && st[j].0 == x implies mg_pos(st, x) == j by {
                assert(j != st.len() - 1);
                assert(t[j] == st[j]);
            }
            if mg_keys(st).contains(x) {
                let w = choose|w: int| 0 <= w < mg_keys(st).len() && mg_keys(st)[w] == x;
                assert(mg_keys(t)[w] == x);
            }
            if mg_keys(t).contains(x) {
                let w = choose|w: int| 0 <= w < mg_keys(t).len() && mg_keys(t)[w] == x;
                assert(mg_keys(st)[w] == x);
            }
        }
    }
}

proof fn lemma_mg_wf_prefix(st: Seq<(u64, int)>)
    requires
        mg_wf(st),
        st.len() > 0,
    ensures
        mg_wf(st.drop_last()),
        !mg_keys(st.drop_last()).contains(st.last().0),
        mg_keys(st.drop_last()) == mg_keys(st).drop_last(),
{
    let t = st.drop_last();
    assert(mg_keys(t) =~= mg_keys(st).drop_last());
    assert forall|p: int, q: int| 0 <= p < mg_keys(t).len() && 0 <= q < mg_keys(t).len() && p != q
        implies mg_keys(t)[p] != mg_keys(t)[q] by {
        assert(mg_keys(st)[p] != mg_keys(st)[q]);
    }
    assert forall|j: int| 0 <= j < t.len() implies #[trigger] t[j].1 >= 1 by {
        assert(st[j].1 >= 1);
    }
    if mg_keys(t).contains(st.last().0) {
        let w = choose|w: int| 0 <= w < mg_keys(t).len() && mg_keys(t)[w] == st.last().0;
        assert(mg_keys(st)[w] == mg_keys(st)[st.len() - 1]);
    }
}

proof fn lemma_mg_val_nonneg(st: Seq<(u64, int)>, v: u64)
    requires
        mg_wf(st),
    ensures
        mg_val(st, v) >= 0,
{
    lemma_mg_pos(st, v);
}

proof fn lemma_mg_decrement(st: Seq<(u64, int)>)
    requires
        mg_wf(st),
    ensures
        mg_wf(mg_decrement(st)),
        mg_sum(mg_decrement(st)) == mg_sum(st) - st.len(),
        mg_decrement(st).len() <= st.len(),
        forall|v: u64| #[trigger] mg_val(mg_decrement(st), v) >= mg_val(st, v) - 1,
        forall|v: u64| mg_keys(mg_decrement(st)).contains(v) ==> mg_keys(st).contains(v),
    decreases st.len(),
{
    if st.len() > 0 {
        let t = st.drop_last();
        let e = st.last();
        lemma_mg_wf_prefix(st);
        lemma_mg_decrement(t);
        let rest = mg_decrement(t);
        assert(e.1 >= 1);
        if e.1 > 1 {
            let d = rest.push((e.0, e.1 - 1));
            assert(d.drop_last() =~= rest);
            assert(mg_keys(d) =~= mg_keys(rest).push(e.0));
            assert(!mg_keys(rest).contains(e.0));
            assert(mg_wf(d)) by {
                assert forall|p: int, q: int| 0 <= p < mg_keys(d).len() && 0 <= q < mg_keys(d).len() && p != q
                    implies mg_keys(d)[p] != mg_keys(d)[q] by {
                    if p < rest.len() && q < rest.len() {
                        assert(mg_keys(rest)[p] != mg_keys(rest)[q]);
                    } else if p < rest.len() {
                        assert(mg_keys(rest).contains(mg_keys(rest)[p]));
                    } else if q < rest.len() {
                        assert(mg_keys(rest).contains(mg_keys(rest)[q]));
                    }
                }
                assert forall|j: int| 0 <= j < d.len() implies #[trigger] d[j].1 >= 1 by {
                    if j < rest.len() {
                        assert(d[j] == rest[j]);
                    }
                }
            }
            assert forall|v: u64| #[trigger] mg_val(d, v) >= mg_val(st, v) - 1 by {
                assert(mg_val(rest, v) >= mg_val(t, v) - 1);
            }
            assert forall|v: u64| mg_keys(d).contains(v) implies mg_keys(st).contains(v) by {
                if v == e.0 {
                    assert(mg_keys(st)[st.len() - 1] == v);
                } else {
                    let w = choose|w: int| 0 <= w < mg_keys(d).len() && mg_keys(d)[w] == v;
                    assert(mg_keys(rest)[w] == v);
                    assert(mg_keys(rest).contains(v));
                    assert(mg_keys(t).contains(v));
                    let w2 = choose|w2: int| 0 <= w2 < mg_keys(t).len() && mg_keys(t)[w2] == v;
                    assert(mg_keys(st).drop_last()[w2] == v);
                }
            }
        } else {
            assert forall|v: u64| #[trigger] mg_val(rest, v) >= mg_val(st, v) - 1 by {
                assert(mg_val(rest, v) >= mg_val(t, v) - 1);
                lemma_mg_val_nonneg(rest, v);
            }
            assert forall|v: u64| mg_keys(rest).contains(v) implies mg_keys(st).contains(v) by {
                assert(mg_keys(t).contains(v));
                let w2 = choose|w2: int| 0 <= w2 < mg_keys(t).len() && mg_keys(t)[w2] == v;
                assert(mg_keys(st).drop_last()[w2] == v);
            }
        }
    }
}

proof fn lemma_mg_update(st: Seq<(u64, int)>, p: int, x: u64)
    requires
        mg_wf(st),
        0 <= p < st.len(),
        st[p].0 == x,
    ensures
        mg_wf(st.update(p, (x, st[p].1 + 1))),
        mg_sum(st.update(p, (x, st[p].1 + 1))) == mg_sum(st) + 1,
        mg_keys(st.update(p, (x, st[p].1 + 1))) == mg_keys(st),
        forall|v: u64| #[trigger] mg_val(st.update(p, (x, st[p].1 + 1)), v) == mg_val(st, v) + (if v == x {
            1int
        } else {
            0int
        }),
    decreases st.len(),
{
    let u = st.update(p, (x, st[p].1 + 1));
    assert(mg_keys(u) =~= mg_keys(st));
    assert forall|j: int| 0 <= j < u.len() implies #[trigger] u[j].1 >= 1 by {
        assert(st[j].1 >= 1);
    }
    let t = st.drop_last();
    lemma_mg_wf_prefix(st);
    if p == st.len() - 1 {
        assert(u.drop_last() =~= t);
        assert forall|v: u64| #[trigger] mg_val(u, v) == mg_val(st, v) + (if v == x {
            1int
        } else {
            0int
        }) by {
            assert(u.last() == (x, st[p].1 + 1));
            assert(st.last() == st[p]);
        }
    } else {
        lemma_mg_update(t, p, x);
        assert(u.drop_last() =~= t.update(p, (x, t[p].1 + 1)));
        assert(st.last().0 != x) by {
            assert(mg_keys(st)[p] != mg_keys(st)[st.len() - 1]);
        }
        assert forall|v: u64| #[trigger] mg_val(u, v) == mg_val(st, v) + (if v == x {
            1int
        } else {
            0int
        }) by {
            assert(u.last() == st.last());
            assert(mg_val(t.update(p, (x, t[p].1 + 1)), v) == mg_val(t, v) + (if v == x {
                1int
            } else {
                0int
            }));
        }
    }
}

proof fn lemma_mg_push(st: Seq<(u64, int)>, x: u64)
    requires
        mg_wf(st),
        !mg_keys(st).contains(x),
    ensures
        mg_wf(st.push((x, 1))),
        mg_sum(st.push((x, 1))) == mg_sum(st) + 1,
        forall|v: u64| #[trigger] mg_val(st.push((x, 1)), v) == (if v == x {
            1
        } else {
            mg_val(st, v)
        }),
{
    let u = st.push((x, 1));
    assert(u.drop_last() =~= st);
    assert(mg_keys(u) =~= mg_keys(st).push(x));
    assert forall|p: int, q: int| 0 <= p < mg_keys(u).len() && 0 <= q < mg_keys(u).len() && p != q
        implies mg_keys(u)[p] != mg_keys(u)[q] by {
        if p < st.len() && q < st.len() {
            assert(mg_keys(st)[p] != mg_keys(st)[q]);
        } else if p < st.len() {
            assert(mg_keys(st).contains(mg_keys(st)[p]));
        } else if q < st.len() {
            assert(mg_keys(st).contains(mg_keys(st)[q]));
        }
    }
    assert forall|j: int| 0 <= j < u.len() implies #[trigger] u[j].1 >= 1 by {
        if j < st.len() {
            assert(u[j] == st[j]);
        }
    }
}

/// What the counters keep at every point of the stream: well-formed, at most `k`
/// of them, their sum plus `k + 1` per decrement is the stream length, and each
/// item's counter has lost at most one per decrement.
proof fn lemma_mg_invariants(s: Seq<u64>, k: nat)
    ensures
        mg_wf(mg_state(s, k)),
        mg_state(s, k).len() <= k,
        mg_sum(mg_state(s, k)) + mg_decrements(s, k) * (k + 1) == s.len(),
        forall|v: u64| #[trigger] mg_val(mg_state(s, k), v) >= count_of(s, v) - mg_decrements(s, k),
    decreases s.len(),
{
    if s.len() == 0 {
        assert(mg_keys(mg_state(s, k)) =~= Seq::<u64>::empty());
        assert(mg_decrements(s, k) == 0);
        assert(mg_decrements(s, k) * (k + 1) == 0) by (nonlinear_arith)
            requires
                mg_decrements(s, k) == 0,
        ;
    } else {
        let t = s.drop_last();
        let x = s.last();
        lemma_mg_invariants(t, k);
        let st = mg_state(t, k);
        let dd = mg_decrements(t, k);
        lemma_mg_pos(st, x);
        let p = mg_pos(st, x);
        assert(mg_state(s, k) == mg_step(st, x, k));
        if p >= 0 {
            lemma_mg_update(st, p, x);
            assert(mg_decrements(s, k) == dd);
            assert(count_of(s, x) == count_of(t, x) + 1);
            assert(mg_sum(mg_state(s, k)) == mg_sum(st) + 1);
            assert(s.len() == t.len() + 1);
        } else if st.len() < k {
            lemma_mg_push(st, x);
            assert(mg_decrements(s, k) == dd);
            assert(mg_state(s, k).len() == st.len() + 1);
            assert(mg_sum(mg_state(s, k)) == mg_sum(st) + 1);
        } else {
            assert(mg_decrements(s, k) == dd + 1);
            lemma_mg_decrement(st);
            assert(st.len() == k);
            assert(mg_val(st, x) == 0);
            assert((dd + 1) * (k + 1) == dd * (k + 1) + k + 1) by (nonlinear_arith);
            assert(mg_sum(mg_state(s, k)) == mg_sum(st) - k);
            assert forall|v: u64| #[trigger] mg_val(mg_state(s, k), v) >= count_of(s, v) - mg_decrements(s, k) by {
                assert(mg_val(mg_decrement(st), v) >= mg_val(st, v) - 1);
                lemma_mg_val_nonneg(mg_decrement(st), v);
            }
        }
    }
}

/// Misra–Gries keeps every heavy hitter: an item occurring more than
/// `n / (k + 1)` times in a stream of `n` items still has a counter at the end.
pub proof fn lemma_misra_gries_keeps_heavy_hitters(s: Seq<u64>, k: nat, v: u64)
    requires
        count_of(s, v) * (k + 1) > s.len(),
    ensures
        mg_keys(mg_state(s, k)).contains(v),
{
    lemma_mg_invariants(s, k);
    let st = mg_state(s, k);
    let dd = mg_decrements(s, k);
    lemma_mg_pos(st, v);
    assert(mg_sum(st) >= 0) by {
        lemma_mg_sum_nonneg(st);
    }
    assert(dd * (k + 1) <= s.len());
    assert(dd < count_of(s, v)) by (nonlinear_arith)
        requires
            dd * (k + 1) <= s.len(),
            count_of(s, v) * (k + 1) > s.len(),
    ;
}

proof fn lemma_mg_sum_nonneg(st: Seq<(u64, int)>)
    requires
        forall|j: int| 0 <= j < st.len() ==> #[trigger] st[j].1 >= 1,
    ensures
        mg_sum(st) >= st.len(),
    decreases st.len(),
{
    if st.len() > 0 {
        let t = st.drop_last();
        assert forall|j: int| 0 <= j < t.len() implies #[trigger] t[j].1 >= 1 by {
            assert(st[j].1 >= 1);
        }
        lemma_mg_sum_nonneg(t);
        assert(st[st.len() - 1].1 >= 1);
    }
}

proof fn lemma_mg_entry_le_sum(st: Seq<(u64, int)>, j: int)
    requires
        forall|q: int| 0 <= q < st.len() ==> #[trigger] st[q].1 >= 1,
        0 <= j < st.len(),
    ensures
        st[j].1 <= mg_sum(st),
    decreases st.len(),
{
    let t = st.drop_last();
    assert forall|q: int| 0 <= q < t.len() implies #[trigger] t[q].1 >= 1 by {
        assert(st[q].1 >= 1);
    }
    lemma_mg_sum_nonneg(t);
    if j < st.len() - 1 {
        lemma_mg_entry_le_sum(t, j);
        assert(st[st.len() - 1].1 >= 1);
    }
}

/// The counters held in two parallel vectors.
spec fn mg_view(keys: Seq<u64>, cnts: Seq<i64>) -> Seq<(u64, int)> {
    Seq::new(keys.len(), |j: int| (keys[j], cnts[j] as int))
}

/// Sorts ascending (insertion sort).
fn sort_ascending(v: &Vec<u64>) -> (r: Vec<u64>)
    ensures
        r@.len() == v@.len(),
        r@.to_set() == v@.to_set(),
        forall|i: int, j: int| 0 <= i <= j < r@.len() ==> r@[i] <= r@[j],
{
    let mut r: Vec<u64> = Vec::new();
    let mut i: usize = 0;
    while i < v.len()
        invariant
            i <= v@.len(),
            r@.len() == i,
            r@.to_set() == v@.take(i as int).to_set(),
            forall|a: int, b: int| 0 <= a <= b < r@.len() ==> r@[a] <= r@[b],
        decreases v.len() - i,
    {
        let x = v[i];
        let mut p: usize = 0;
        while p < r.len() && r[p] <= x
            invariant
                p <= r@.len(),
                forall|a: int| 0 <= a < p ==> r@[a] <= x,
            decreases r.len() - p,
        {
            p = p + 1;
        }
        let ghost before = r@;
        r.insert(p, x);
        proof {
            assert(v@.take(i + 1) =~= v@.take(i as int).push(x));
            v@.take(i as int).lemma_push_to_set_commute(x);
            assert forall|y: u64| r@.to_set().contains(y) <==> before.to_set().insert(x).contains(y) by {
                if r@.contains(y) {
                    let w = choose|w: int| 0 <= w < r@.len() && r@[w] == y;
                    if w < p {
                        assert(before[w] == y);
                    } else if w > p {
                        assert(before[w - 1] == y);
                    }
                }
                if before.contains(y) {
                    let w = choose|w: int| 0 <= w < before.len() && before[w] == y;
                    if w < p {
                        assert(r@[w] == y);
                    } else {
                        assert(r@[w + 1] == y);
                    }
                }
                if y == x {
                    assert(r@[p as int] == x);
                }
            }
            assert(r@.to_set() =~= before.to_set().insert(x));
            assert forall|a: int, b: int| 0 <= a <= b < r@.len() implies r@[a] <= r@[b] by {
                if b < p {
                } else if a > p {
                    assert(r@[a] == before[a - 1] && r@[b] == before[b - 1]);
                } else if a == p && b == p {
                } else if a == p {
                    assert(r@[b] == before[b - 1]);
                    assert(before[p as int] > x);
                } else if b == p {
                    assert(r@[a] == before[a]);
                } else {
                    assert(r@[a] == before[a] && r@[b] == before[b - 1]);
                    assert(before[a] <= x);
                    assert(before[p as int] > x);
                }
            }
        }
        i = i + 1;
    }
    assert(v@.take(v@.len() as int) =~= v@);
    r
}

/// Misra–Gries candidate heavy hitters with at most `k` counters: the keys that
/// still have a counter after the stream, in ascending order. Every item
/// occurring more than `n / (k + 1)` times among `n` is among them
/// ([`lemma_misra_gries_keeps_heavy_hitters`]).
pub fn misra_gries(items: &[u64], k: usize) -> (r: Vec<u64>)
    requires
        items@.len() < i64::MAX,
    ensures
        r@.to_set() == mg_keys(mg_state(items@, k as nat)).to_set(),
        forall|i: int, j: int| 0 <= i < j < r@.len() ==> r@[i] < r@[j],
        r@.len() <= k,
        forall|i: int| 0 <= i < r@.len() ==> items@.contains(#[trigger] r@[i]),
{
    let ghost kk = k as nat;
    let mut keys: Vec<u64> = Vec::new();
    let mut cnts: Vec<i64> = Vec::new();
    assert(mg_view(keys@, cnts@) =~= mg_state(items@.take(0), kk));
    let mut i: usize = 0;
    while i < items.len()
        invariant
            items@.len() < i64::MAX,
            kk == k as nat,
            i <= items@.len(),
            keys@.len() == cnts@.len(),
            mg_view(keys@, cnts@) == mg_state(items@.take(i as int), kk),
        decreases items.len() - i,
    {
        let x = items[i];
        let ghost pre = items@.take(i as int);
        let ghost post = items@.take(i + 1);
        let ghost st = mg_state(pre, kk);
        assert(post.drop_last() =~= pre);
        assert(post.last() == x);
        assert(mg_state(post, kk) == mg_step(st, x, kk));
        proof {
            lemma_mg_invariants(pre, kk);
            lemma_mg_pos(st, x);
            assert(mg_keys(st) =~= keys@);
        }
        match find_key(&keys, x) {
            Some(j) => {
                proof {
                    lemma_mg_entry_le_sum(st, j as int);
                    lemma_mg_sum_nonneg(st);
                    assert(mg_decrements(pre, kk) * (kk + 1) >= 0) by (nonlinear_arith);
                    assert(st[j as int].0 == x);
                }
                let c = cnts[j];
                cnts.set(j, c + 1);
                assert(mg_view(keys@, cnts@) =~= st.update(j as int, (x, st[j as int].1 + 1)));
            },
            None => {
                if keys.len() < k {
                    keys.push(x);
                    cnts.push(1);
                    assert(mg_view(keys@, cnts@) =~= st.push((x, 1)));
                } else {
                    // every counter loses one; those reaching zero are dropped
                    let mut keys2: Vec<u64> = Vec::new();
                    let mut cnts2: Vec<i64> = Vec::new();
                    let mut j: usize = 0;
                    assert(mg_view(keys2@, cnts2@) =~= mg_decrement(st.take(0)));
                    while j < keys.len()
                        invariant
                            keys@.len() == cnts@.len(),
                            mg_view(keys@, cnts@) == st,
                            j <= keys@.len(),
                            keys2@.len() == cnts2@.len(),
                            mg_view(keys2@, cnts2@) == mg_decrement(st.take(j as int)),
                        decreases keys.len() - j,
                    {
                        assert(st.take(j + 1).drop_last() =~= st.take(j as int));
                        assert(st.take(j + 1).last() == st[j as int]);
                        let c = cnts[j];
                        if c > 1 {
                            keys2.push(keys[j]);
                            cnts2.push(c - 1);
                            assert(mg_view(keys2@, cnts2@) =~= mg_decrement(st.take(j as int)).push(
                                (keys@[j as int], c - 1),
                            ));
                        }
                        j = j + 1;
                    }
                    assert(st.take(st.len() as int) =~= st);
                    keys = keys2;
                    cnts = cnts2;
                }
            },
        }
        i = i + 1;
    }
    assert(items@.take(items@.len() as int) =~= items@);
    let ghost st = mg_state(items@, kk);
    proof {
        lemma_mg_invariants(items@, kk);
        assert(mg_keys(st) =~= keys@);
    }
    let out = sort_ascending(&keys);
    proof {
        keys@.unique_seq_to_set();
        out@.lemma_no_dup_set_cardinality();
        assert forall|i: int, j: int| 0 <= i < j < out@.len() implies out@[i] < out@[j] by {
            assert(out@[i] <= out@[j]);
            assert(out@[i] != out@[j]);
        }
        lemma_misra_gries_keys(items@, kk);
        assert forall|i: int| 0 <= i < out@.len() implies items@.contains(#[trigger] out@[i]) by {
            assert(out@.to_set().contains(out@[i]));
            assert(keys@.to_set().contains(out@[i]));
        }
    }
    out
}

/// Every key dropped by a decrement step was a key before it.
proof fn lemma_mg_decrement_keys(st: Seq<(u64, int)>, v: u64)
    requires
        mg_keys(mg_decrement(st)).contains(v),
    ensures
        mg_keys(st).contains(v),
    decreases st.len(),
{
    let rest = mg_decrement(st.drop_last());
    let w = choose|w: int| 0 <= w < mg_keys(mg_decrement(st)).len() && mg_keys(mg_decrement(st))[w] == v;
    if w < rest.len() {
        assert(mg_keys(rest)[w] == v);
        lemma_mg_decrement_keys(st.drop_last(), v);
        let u = choose|u: int| 0 <= u < mg_keys(st.drop_last()).len() && mg_keys(st.drop_last())[u] == v;
        assert(mg_keys(st)[u] == v);
    } else {
        assert(mg_keys(st)[st.len() - 1] == v);
    }
}

/// Misra–Gries keeps at most `k` counters, each for an item of the stream.
pub proof fn lemma_misra_gries_keys(s: Seq<u64>, k: nat)
    ensures
        mg_state(s, k).len() <= k,
        forall|v: u64| #[trigger] mg_keys(mg_state(s, k)).contains(v) ==> s.contains(v),
    decreases s.len(),
{
    lemma_mg_invariants(s, k);
    if s.len() > 0 {
        let t = s.drop_last();
        let x = s.last();
        let st = mg_state(t, k);
        lemma_misra_gries_keys(t, k);
        lemma_mg_invariants(t, k);
        lemma_mg_pos(st, x);
        assert forall|v: u64| #[trigger] mg_keys(mg_state(s, k)).contains(v) implies s.contains(v) by {
            let nst = mg_state(s, k);
            let w = choose|w: int| 0 <= w < mg_keys(nst).len() && mg_keys(nst)[w] == v;
            if v == x {
                assert(s[s.len() - 1] == x);
            } else {
                let p = mg_pos(st, x);
                if p >= 0 {
                    assert(nst[w] == st[w]);
                    assert(mg_keys(st)[w] == v);
                } else if st.len() < k {
                    assert(w < st.len());
                    assert(mg_keys(st)[w] == v);
                } else {
                    lemma_mg_decrement_keys(st, v);
                }
                assert(mg_keys(st).contains(v));
                assert(t.contains(v));
                let u = choose|u: int| 0 <= u < t.len() && t[u] == v;
                assert(s[u] == v);
            }
        }
    }
}


// ---- AMS F2: the integer part of the sketch ----

/// The ±1 sign of item `x` in repetition `r`.
pub open spec fn ams_sign(x: u64, r: int) -> int {
    if mix_spec(x, (0xA115 + r) as u64) & 1 == 0 {
        1
    } else {
        -1
    }
}

/// The signed sum `z_r` of repetition `r` over the stream.
pub open spec fn ams_z(s: Seq<u64>, r: int) -> int
    decreases s.len(),
{
    if s.len() == 0 {
        0
    } else {
        ams_z(s.drop_last(), r) + ams_sign(s.last(), r)
    }
}

/// The per-repetition estimates `z_r²`.
pub open spec fn ams_squares(s: Seq<u64>, reps: nat) -> Seq<u64> {
    Seq::new(reps, |r: int| (ams_z(s, r) * ams_z(s, r)) as u64)
}

/// `<=` on `u64`, the order the estimates are sorted by.
pub open spec fn u64_le() -> spec_fn(u64, u64) -> bool {
    |a: u64, b: u64| a <= b
}

proof fn lemma_u64_le_total()
    ensures
        total_ordering(u64_le()),
{
}

proof fn lemma_ams_z_bound(s: Seq<u64>, r: int)
    ensures
        -(s.len() as int) <= ams_z(s, r) <= s.len(),
    decreases s.len(),
{
    if s.len() > 0 {
        lemma_ams_z_bound(s.drop_last(), r);
    }
}

/// The values of `v` in ascending order.
fn sort_u64(v: &Vec<u64>) -> (out: Vec<u64>)
    ensures
        out@.len() == v@.len(),
        out@.to_multiset() == v@.to_multiset(),
        sorted_by(out@, u64_le()),
{
    broadcast use vstd::seq_lib::group_to_multiset_ensures;

    let mut out: Vec<u64> = Vec::new();
    let mut i: usize = 0;
    while i < v.len()
        invariant
            i <= v@.len(),
            out@.len() == i,
            out@.to_multiset() == v@.take(i as int).to_multiset(),
            sorted_by(out@, u64_le()),
        decreases v.len() - i,
    {
        let x = v[i];
        let mut pos: usize = 0;
        while pos < out.len() && out[pos] <= x
            invariant
                pos <= out@.len(),
                forall|q: int| 0 <= q < pos ==> out@[q] <= x,
            decreases out.len() - pos,
        {
            pos = pos + 1;
        }
        let ghost before = out@;
        out.insert(pos, x);
        proof {
            assert(out@ == before.insert(pos as int, x));
            assert(v@.take(i + 1) == v@.take(i as int).push(x));
            vstd::seq_lib::to_multiset_insert(before, pos as int, x);
            vstd::seq_lib::to_multiset_build(v@.take(i as int), x);
            assert forall|a: int, c: int| 0 <= a < c < out@.len() implies #[trigger] (u64_le())(out@[a], out@[c]) by {
                assert(sorted_by(before, u64_le()));
                if a < pos && c < pos {
                    assert((u64_le())(before[a], before[c]));
                } else if a < pos && c == pos {
                } else if a < pos {
                    assert((u64_le())(before[a], before[c - 1]));
                } else if a == pos {
                    assert(before[pos as int] > x);
                    if c - 1 > pos {
                        assert((u64_le())(before[pos as int], before[c - 1]));
                    }
                } else {
                    assert((u64_le())(before[a - 1], before[c - 1]));
                }
            }
        }
        i = i + 1;
    }
    assert(v@.take(i as int) =~= v@);
    out
}

/// The median (upper middle) of the AMS estimates `z_r²`, `r < reps`: the
/// element at position `reps / 2` of the estimates sorted ascending.
pub fn ams_f2_median(items: &[u64], reps: usize) -> (m: u64)
    requires
        reps > 0,
        reps + 0xA115 <= u64::MAX,
        items@.len() <= i64::MAX,
        forall|r: int| 0 <= r < reps ==> -3_037_000_499 <= #[trigger] ams_z(items@, r) <= 3_037_000_499,
    ensures
        m == ams_squares(items@, reps as nat).sort_by(u64_le())[(reps / 2) as int],
{
    let ghost sq = ams_squares(items@, reps as nat);
    let mut ests: Vec<u64> = Vec::new();
    let mut r: usize = 0;
    while r < reps
        invariant
            reps + 0xA115 <= u64::MAX,
            items@.len() <= i64::MAX,
            forall|r: int| 0 <= r < reps ==> -3_037_000_499 <= #[trigger] ams_z(items@, r) <= 3_037_000_499,
            r <= reps,
            sq == ams_squares(items@, reps as nat),
            ests@.len() == r,
            forall|q: int| 0 <= q < r ==> ests@[q] == sq[q],
        decreases reps - r,
    {
        let salt = 0xA115 + r as u64;
        let mut z: i64 = 0;
        let mut t: usize = 0;
        while t < items.len()
            invariant
                t <= items@.len(),
                items@.len() <= i64::MAX,
                salt == 0xA115 + r,
                z == ams_z(items@.take(t as int), r as int),
                -(t as int) <= z <= t,
            decreases items.len() - t,
        {
            assert(items@.take(t + 1).drop_last() == items@.take(t as int));
            if mix(items[t], salt) & 1 == 0 {
                z = z + 1;
            } else {
                z = z - 1;
            }
            t = t + 1;
        }
        assert(items@.take(t as int) =~= items@);
        assert(-3_037_000_499 <= ams_z(items@, r as int) <= 3_037_000_499);
        assert(0 <= z * z <= 9_223_372_030_926_249_001) by (nonlinear_arith)
            requires
                -3_037_000_499 <= z <= 3_037_000_499,
        ;
        ests.push((z * z) as u64);
        r = r + 1;
    }
    assert(ests@ =~= sq);
    let sorted = sort_u64(&ests);
    proof {
        lemma_u64_le_total();
        sq.lemma_sort_by_ensures(u64_le());
        vstd::seq_lib::lemma_sorted_unique(sorted@, sq.sort_by(u64_le()), u64_le());
    }
    sorted[reps / 2]
}

// ---- HyperLogLog: the registers ----

/// The register index of item `x` for `2^b` registers: the top `b` hash bits.
pub open spec fn hll_idx(x: u64, b: u32) -> int {
    (mix_spec(x, 0x4717) >> ((64 - b) as u64)) as int
}

/// The rank of item `x`: one more than the leading zeros of the remaining hash
/// bits, with a guard bit that keeps it at most `b`.
pub open spec fn hll_rho(x: u64, b: u32) -> int {
    u64_leading_zeros((mix_spec(x, 0x4717) << (b as u64)) | (1u64 << ((b - 1) as u64))) + 1
}

/// Register `i` after the stream: the largest rank of an item mapped to it, or 0.
pub open spec fn hll_reg(s: Seq<u64>, b: u32, i: int) -> int
    decreases s.len(),
{
    if s.len() == 0 {
        0
    } else {
        let prev = hll_reg(s.drop_last(), b, i);
        if hll_idx(s.last(), b) == i && hll_rho(s.last(), b) > prev {
            hll_rho(s.last(), b)
        } else {
            prev
        }
    }
}

proof fn lemma_hll_idx_bound(h: u64, b: u32)
    requires
        1 <= b <= 63,
    ensures
        (h >> ((64 - b) as u64)) < (1u64 << (b as u64)),
{
    assert((h >> ((64 - b) as u64)) < (1u64 << (b as u64))) by (bit_vector)
        requires
            1 <= b <= 63,
    ;
}

proof fn lemma_hll_reg_bound(s: Seq<u64>, b: u32, i: int)
    ensures
        0 <= hll_reg(s, b, i) <= 65,
    decreases s.len(),
{
    if s.len() > 0 {
        lemma_hll_reg_bound(s.drop_last(), b, i);
        let v = (mix_spec(s.last(), 0x4717) << (b as u64)) | (1u64 << ((b - 1) as u64));
        vstd::std_specs::bits::axiom_u64_leading_zeros(v);
    }
}

/// The `2^b` HyperLogLog registers of a stream.
pub fn hll_registers(items: &[u64], b: u32) -> (reg: Vec<u32>)
    requires
        1 <= b <= 63,
        b < usize::BITS,
    ensures
        reg@.len() == (1u64 << (b as u64)),
        forall|i: int| 0 <= i < reg@.len() ==> (#[trigger] reg@[i]) as int == hll_reg(items@, b, i),
{
    let m: usize = 1usize << b;
    assert((1usize << b) as int == (1u64 << (b as u64)) as int) by (bit_vector)
        requires
            b < usize::BITS,
            b <= 63,
    ;
    let mut reg: Vec<u32> = Vec::new();
    while reg.len() < m
        invariant
            reg@.len() <= m,
            forall|i: int| 0 <= i < reg@.len() ==> reg@[i] == 0,
        decreases m - reg.len(),
    {
        reg.push(0);
    }
    let mut t: usize = 0;
    while t < items.len()
        invariant
            1 <= b <= 63,
            m as int == (1u64 << (b as u64)) as int,
            t <= items@.len(),
            reg@.len() == m,
            forall|i: int| 0 <= i < m ==> (#[trigger] reg@[i]) as int == hll_reg(items@.take(t as int), b, i),
        decreases items.len() - t,
    {
        let h = mix(items[t], 0x4717);
        proof {
            lemma_hll_idx_bound(h, b);
        }
        let idx = (h >> (64 - b)) as usize;
        let rest = (h << b) | (1u64 << (b - 1));
        let rho = rest.leading_zeros() + 1;
        proof {
            vstd::std_specs::bits::axiom_u64_leading_zeros(rest);
            assert(items@.take(t + 1).drop_last() == items@.take(t as int));
            assert forall|i: int| 0 <= i < m implies 0 <= #[trigger] hll_reg(items@.take(t as int), b, i) <= 65 by {
                lemma_hll_reg_bound(items@.take(t as int), b, i);
            }
        }
        if rho > reg[idx] {
            reg.set(idx, rho);
        }
        t = t + 1;
    }
    assert(items@.take(t as int) =~= items@);
    reg
}

// ---- Sublinear mean: the sample ----

/// The indices sampled by the sublinear mean: `mix(r, seed) mod n` for `r < s`.
pub fn sample_indices(n: usize, s: usize, seed: u64) -> (idx: Vec<usize>)
    requires
        n > 0,
    ensures
        idx@.len() == s,
        forall|r: int| 0 <= r < s ==> (#[trigger] idx@[r]) as int == mix_spec(r as u64, seed) % (n as u64),
{
    let mut idx: Vec<usize> = Vec::new();
    let mut r: usize = 0;
    while r < s
        invariant
            n > 0,
            r <= s,
            idx@.len() == r,
            forall|q: int| 0 <= q < r ==> (#[trigger] idx@[q]) as int == mix_spec(q as u64, seed) % (n as u64),
        decreases s - r,
    {
        let h = mix(r as u64, seed);
        let k = h % (n as u64);
        idx.push(k as usize);
        r = r + 1;
    }
    idx
}

} // verus!
