//! Sums over assignments of values to labelled indices.
//!
//! An assignment maps every index label to a value. `sum_set(s, x, f, dim)` sums
//! `f` over every way of giving the indices in `s` values below `dim`, the other
//! indices keeping their values from `x`. The lemmas here are the algebra that a
//! tensor contraction needs: picking any index first, splitting a sum over a
//! disjoint union, pulling out a factor that does not depend on the summed
//! indices, and reading a sum over the codes `0..dim^k` as a sum over assignments.

use vstd::prelude::*;
use vstd::arithmetic::div_mod::lemma_fundamental_div_mod_converse;

verus! {

/// `b^e` over the naturals.
pub open spec fn ipow(b: nat, e: nat) -> nat
    decreases e,
{
    if e == 0 {
        1
    } else {
        b * ipow(b, (e - 1) as nat)
    }
}

pub proof fn lemma_ipow_positive(b: nat, e: nat)
    requires
        b > 0,
    ensures
        ipow(b, e) > 0,
    decreases e,
{
    if e > 0 {
        lemma_ipow_positive(b, (e - 1) as nat);
        assert(b * ipow(b, (e - 1) as nat) > 0) by (nonlinear_arith)
            requires
                b > 0,
                ipow(b, (e - 1) as nat) > 0,
        ;
    }
}

pub proof fn lemma_ipow_increases(b: nat, e1: nat, e2: nat)
    requires
        b > 0,
        e1 <= e2,
    ensures
        ipow(b, e1) <= ipow(b, e2),
    decreases e2,
{
    if e1 < e2 {
        lemma_ipow_increases(b, e1, (e2 - 1) as nat);
        lemma_ipow_positive(b, (e2 - 1) as nat);
        assert(ipow(b, (e2 - 1) as nat) <= b * ipow(b, (e2 - 1) as nat)) by (nonlinear_arith)
            requires
                b > 0,
        ;
    }
}

/// The assignment `x` with index `i` set to `v`.
pub open spec fn upd(x: spec_fn(usize) -> int, i: usize, v: nat) -> spec_fn(usize) -> int {
    |k: usize| if k == i { v as int } else { x(k) }
}

/// The assignment that gives every index the value 0.
pub open spec fn zero_asg() -> spec_fn(usize) -> int {
    |k: usize| 0int
}

/// Every index takes a value below `dim`.
pub open spec fn valid_asg(x: spec_fn(usize) -> int, dim: nat) -> bool {
    forall|k: usize| 0 <= #[trigger] x(k) < dim
}

/// `x` and `y` agree on every index in `a`.
pub open spec fn agree_on(x: spec_fn(usize) -> int, y: spec_fn(usize) -> int, a: Set<usize>) -> bool {
    forall|k: usize| a.contains(k) ==> #[trigger] x(k) == y(k)
}

/// The sum of `g(v)` for `v < k`.
pub open spec fn rsum(k: nat, g: spec_fn(nat) -> int) -> int
    decreases k,
{
    if k == 0 {
        0
    } else {
        rsum((k - 1) as nat, g) + g((k - 1) as nat)
    }
}

/// The sum of `f` over every way of giving the indices of the finite set `s`
/// values below `dim`, the other indices keeping their values from `x`.
pub open spec fn sum_set(
    s: Set<usize>,
    x: spec_fn(usize) -> int,
    f: spec_fn(spec_fn(usize) -> int) -> int,
    dim: nat,
) -> int
    decreases s.len(), 0nat,
{
    if s.finite() && s.len() > 0 {
        let i = s.choose();
        sum_vals(s.remove(i), i, x, f, dim, dim)
    } else {
        f(x)
    }
}

/// The part of `sum_set` that gives the picked index `i` the values below `k`.
pub open spec fn sum_vals(
    s: Set<usize>,
    i: usize,
    x: spec_fn(usize) -> int,
    f: spec_fn(spec_fn(usize) -> int) -> int,
    dim: nat,
    k: nat,
) -> int
    decreases s.len(), k,
{
    if k == 0 {
        0
    } else {
        sum_vals(s, i, x, f, dim, (k - 1) as nat) + sum_set(s, upd(x, i, (k - 1) as nat), f, dim)
    }
}

/// The summand of `sum_set` once index `i` is given value `v`.
pub open spec fn after_pick(
    s: Set<usize>,
    i: usize,
    x: spec_fn(usize) -> int,
    f: spec_fn(spec_fn(usize) -> int) -> int,
    dim: nat,
) -> spec_fn(nat) -> int {
    |v: nat| sum_set(s, upd(x, i, v), f, dim)
}

/// The value of index `k` once the indices of `s` are overwritten by the
/// base-`dim` digits of `c`, least significant digit first.
pub open spec fn overlay_at(x: spec_fn(usize) -> int, s: Seq<usize>, c: nat, dim: nat, k: usize) -> int
    decreases s.len(),
{
    if s.len() == 0 {
        x(k)
    } else if k == s[0] {
        (c % dim) as int
    } else {
        overlay_at(x, s.drop_first(), c / dim, dim, k)
    }
}

/// `x` with the indices of `s` overwritten by the base-`dim` digits of `c`.
pub open spec fn overlay(x: spec_fn(usize) -> int, s: Seq<usize>, c: nat, dim: nat) -> spec_fn(usize) -> int {
    |k: usize| overlay_at(x, s, c, dim, k)
}

pub proof fn lemma_rsum_ext(k: nat, g1: spec_fn(nat) -> int, g2: spec_fn(nat) -> int)
    requires
        forall|v: nat| v < k ==> #[trigger] g1(v) == g2(v),
    ensures
        rsum(k, g1) == rsum(k, g2),
    decreases k,
{
    if k > 0 {
        lemma_rsum_ext((k - 1) as nat, g1, g2);
    }
}

pub proof fn lemma_rsum_add(k: nat, g1: spec_fn(nat) -> int, g2: spec_fn(nat) -> int)
    ensures
        rsum(k, |v: nat| g1(v) + g2(v)) == rsum(k, g1) + rsum(k, g2),
    decreases k,
{
    if k > 0 {
        lemma_rsum_add((k - 1) as nat, g1, g2);
    }
}

pub proof fn lemma_rsum_scale(k: nat, c: int, g: spec_fn(nat) -> int)
    ensures
        rsum(k, |v: nat| c * g(v)) == c * rsum(k, g),
    decreases k,
{
    if k > 0 {
        lemma_rsum_scale((k - 1) as nat, c, g);
        let a = rsum((k - 1) as nat, g);
        let b = g((k - 1) as nat);
        assert(c * a + c * b == c * (a + b)) by (nonlinear_arith);
    }
}

/// `rsum(n + m, g)` splits into the first `n` terms and the next `m`.
pub proof fn lemma_rsum_concat(n: nat, m: nat, g: spec_fn(nat) -> int)
    ensures
        rsum(n + m, g) == rsum(n, g) + rsum(m, |v: nat| g(n + v)),
    decreases m,
{
    if m > 0 {
        lemma_rsum_concat(n, (m - 1) as nat, g);
        assert((n + m - 1) as nat == (n + (m - 1)) as nat);
    }
}

/// A sum over `a * b` codes is a sum over a high part below `a` and a low part below `b`.
pub proof fn lemma_rsum_split(a: nat, b: nat, g: spec_fn(nat) -> int)
    ensures
        rsum(a * b, g) == rsum(a, |c: nat| rsum(b, |v: nat| g(c * b + v))),
    decreases a,
{
    if a > 0 {
        let a1 = (a - 1) as nat;
        lemma_rsum_split(a1, b, g);
        assert(a * b == a1 * b + b) by (nonlinear_arith)
            requires
                a1 == a - 1,
        ;
        lemma_rsum_concat(a1 * b, b, g);
        assert(rsum(a * b, g) == rsum(a1 * b, g) + rsum(b, |v: nat| g(a1 * b + v)));
        assert(rsum(a, |c: nat| rsum(b, |v: nat| g(c * b + v))) == rsum(a1, |c: nat| rsum(b, |v: nat| g(c * b + v))) + rsum(b, |v: nat| g(a1 * b + v)));
    } else {
        assert(a * b == 0) by (nonlinear_arith)
            requires
                a == 0,
        ;
    }
}

/// For fixed `w`, the sum of `g(v, w)` over `v < a`.
pub open spec fn col_at(a: nat, g: spec_fn(nat, nat) -> int, w: nat) -> int {
    rsum(a, |v: nat| g(v, w))
}

/// For fixed `v`, the sum of `g(v, w)` over `w < b`.
pub open spec fn row_at(b: nat, g: spec_fn(nat, nat) -> int, v: nat) -> int {
    rsum(b, |w: nat| g(v, w))
}

/// Finite double sums may be taken in either order.
pub proof fn lemma_rsum_swap(a: nat, b: nat, g: spec_fn(nat, nat) -> int)
    ensures
        rsum(a, |v: nat| row_at(b, g, v)) == rsum(b, |w: nat| col_at(a, g, w)),
    decreases a,
{
    if a > 0 {
        let a1 = (a - 1) as nat;
        lemma_rsum_swap(a1, b, g);
        let f1 = |w: nat| col_at(a1, g, w);
        let f2 = |w: nat| g(a1, w);
        lemma_rsum_add(b, f1, f2);
        assert forall|w: nat| w < b implies #[trigger] col_at(a, g, w) == f1(w) + f2(w) by {
        }
        lemma_rsum_ext(b, |w: nat| col_at(a, g, w), |w: nat| f1(w) + f2(w));
        assert(rsum(b, f2) == row_at(b, g, a1));
        assert(rsum(a1, |v: nat| row_at(b, g, v)) == rsum(b, |w: nat| col_at(a1, g, w)));
        assert(rsum(b, f1) == rsum(b, |w: nat| col_at(a1, g, w)));
        assert(rsum(b, |w: nat| col_at(a, g, w)) == rsum(b, f1) + rsum(b, f2));
        assert(rsum(a, |v: nat| row_at(b, g, v)) == rsum(a1, |v: nat| row_at(b, g, v)) + row_at(b, g, a1));
    } else {
        let z = |w: nat| 0int;
        lemma_rsum_scale(b, 0, z);
        lemma_rsum_ext(b, |w: nat| col_at(a, g, w), |w: nat| 0 * z(w));
    }
}

pub proof fn lemma_sum_vals_is_rsum(
    s: Set<usize>,
    i: usize,
    x: spec_fn(usize) -> int,
    f: spec_fn(spec_fn(usize) -> int) -> int,
    dim: nat,
    k: nat,
)
    ensures
        sum_vals(s, i, x, f, dim, k) == rsum(k, after_pick(s, i, x, f, dim)),
    decreases k,
{
    if k > 0 {
        lemma_sum_vals_is_rsum(s, i, x, f, dim, (k - 1) as nat);
    }
}

proof fn lemma_finite_nonempty(s: Set<usize>, i: usize)
    requires
        s.finite(),
        s.contains(i),
    ensures
        s.len() > 0,
        s.remove(i).len() == s.len() - 1,
        s.remove(i).finite(),
{
    if s.len() == 0 {
        assert(s =~= Set::empty());
    }
}

/// Any index of `s` may be summed first.
pub proof fn lemma_sum_set_pick(
    s: Set<usize>,
    i: usize,
    x: spec_fn(usize) -> int,
    f: spec_fn(spec_fn(usize) -> int) -> int,
    dim: nat,
)
    requires
        s.finite(),
        s.contains(i),
    ensures
        sum_set(s, x, f, dim) == rsum(dim, after_pick(s.remove(i), i, x, f, dim)),
    decreases s.len(),
{
    lemma_finite_nonempty(s, i);
    let j = s.choose();
    lemma_sum_vals_is_rsum(s.remove(j), j, x, f, dim, dim);
    if j != i {
        lemma_finite_nonempty(s, j);
        let r = s.remove(j).remove(i);
        assert(r =~= s.remove(i).remove(j));
        let g = |w: nat, v: nat| sum_set(r, upd(upd(x, j, w), i, v), f, dim);
        assert forall|w: nat| #[trigger] row_at(dim, g, w) == rsum(dim, |v: nat| g(w, v)) by {
        }
        assert forall|v: nat| #[trigger] col_at(dim, g, v) == rsum(dim, |w: nat| g(w, v)) by {
        }
        assert forall|w: nat| w < dim implies #[trigger] after_pick(s.remove(j), j, x, f, dim)(w) == rsum(
            dim,
            |v: nat| g(w, v),
        ) by {
            lemma_sum_set_pick(s.remove(j), i, upd(x, j, w), f, dim);
            lemma_rsum_ext(dim, after_pick(r, i, upd(x, j, w), f, dim), |v: nat| g(w, v));
        }
        lemma_rsum_ext(dim, after_pick(s.remove(j), j, x, f, dim), |w: nat| row_at(dim, g, w));
        assert forall|v: nat| v < dim implies #[trigger] after_pick(s.remove(i), i, x, f, dim)(v) == rsum(
            dim,
            |w: nat| g(w, v),
        ) by {
            lemma_finite_nonempty(s.remove(i), j);
            lemma_sum_set_pick(s.remove(i), j, upd(x, i, v), f, dim);
            assert forall|w: nat| w < dim implies #[trigger] after_pick(r, j, upd(x, i, v), f, dim)(w) == g(
                w,
                v,
            ) by {
                assert(upd(upd(x, i, v), j, w) =~= upd(upd(x, j, w), i, v));
            }
            lemma_rsum_ext(dim, after_pick(s.remove(i).remove(j), j, upd(x, i, v), f, dim), |w: nat| g(w, v));
        }
        lemma_rsum_ext(dim, after_pick(s.remove(i), i, x, f, dim), |v: nat| col_at(dim, g, v));
        lemma_rsum_swap(dim, dim, g);
    }
}

/// Overwriting an index outside `t` commutes with overlaying `t`.
pub proof fn lemma_overlay_upd(x: spec_fn(usize) -> int, t: Seq<usize>, c: nat, dim: nat, i: usize, v: nat)
    requires
        dim > 0,
        !t.contains(i),
    ensures
        upd(overlay(x, t, c, dim), i, v) == overlay(upd(x, i, v), t, c, dim),
{
    assert forall|k: usize| #[trigger] upd(overlay(x, t, c, dim), i, v)(k) == overlay(upd(x, i, v), t, c, dim)(k) by {
        lemma_overlay_at_upd(x, t, c, dim, i, v, k);
    }
    assert(upd(overlay(x, t, c, dim), i, v) =~= overlay(upd(x, i, v), t, c, dim));
}

proof fn lemma_overlay_at_upd(x: spec_fn(usize) -> int, t: Seq<usize>, c: nat, dim: nat, i: usize, v: nat, k: usize)
    requires
        dim > 0,
        !t.contains(i),
    ensures
        (if k == i { v as int } else { overlay_at(x, t, c, dim, k) }) == overlay_at(upd(x, i, v), t, c, dim, k),
    decreases t.len(),
{
    if t.len() > 0 {
        let t1 = t.drop_first();
        assert(!t1.contains(i)) by {
            if t1.contains(i) {
                let p = choose|p: int| 0 <= p < t1.len() && t1[p] == i;
                assert(t[p + 1] == i);
            }
        }
        assert(t[0] != i) by {
            assert(t.contains(t[0]));
        }
        lemma_overlay_at_upd(x, t1, c / dim, dim, i, v, k);
    }
}

/// Overlaying the first index of `s` and then the rest.
proof fn lemma_overlay_step(x: spec_fn(usize) -> int, s: Seq<usize>, c: nat, dim: nat, v: nat)
    requires
        s.len() > 0,
        dim > 0,
        v < dim,
    ensures
        overlay(x, s, c * dim + v, dim) == upd(overlay(x, s.drop_first(), c, dim), s[0], v),
{
    lemma_fundamental_div_mod_converse((c * dim + v) as int, dim as int, c as int, v as int);
    assert(overlay(x, s, c * dim + v, dim) =~= upd(overlay(x, s.drop_first(), c, dim), s[0], v));
}

/// A sum over the codes `0..dim^k` of the overlaid assignments is the sum over
/// all assignments of the `k` distinct indices of `s`.
pub proof fn lemma_overlay_sum(s: Seq<usize>, x: spec_fn(usize) -> int, f: spec_fn(spec_fn(usize) -> int) -> int, dim: nat)
    requires
        dim > 0,
        s.no_duplicates(),
    ensures
        rsum(ipow(dim, s.len()), |c: nat| f(overlay(x, s, c, dim))) == sum_set(s.to_set(), x, f, dim),
    decreases s.len(),
{
    vstd::seq_lib::seq_to_set_is_finite(s);
    if s.len() == 0 {
        assert(s.to_set() =~= Set::empty());
        assert(overlay(x, s, 0, dim) =~= x);
        reveal_with_fuel(rsum, 2);
    } else {
        let i = s[0];
        let t = s.drop_first();
        let d = ipow(dim, t.len());
        assert(!t.contains(i)) by {
            if t.contains(i) {
                let k = choose|k: int| 0 <= k < t.len() && t[k] == i;
                assert(s[k + 1] == s[0]);
            }
        }
        assert(t.no_duplicates()) by {
            assert forall|p: int, q: int| 0 <= p < t.len() && 0 <= q < t.len() && p != q implies t[p] != t[q] by {
                assert(s[p + 1] != s[q + 1]);
            }
        }
        assert(ipow(dim, s.len()) == d * dim) by (nonlinear_arith)
            requires
                ipow(dim, s.len()) == dim * d,
        ;
        let g = |c: nat| f(overlay(x, s, c, dim));
        lemma_rsum_split(d, dim, g);
        // each term of the split: overlay of s at c * dim + v is overlay of t at c after fixing i to v
        let h = |c: nat, v: nat| f(overlay(upd(x, i, v), t, c, dim));
        assert forall|c: nat| c < d implies rsum(dim, |v: nat| g(c * dim + v)) == #[trigger] row_at(dim, h, c) by {
            assert forall|v: nat| v < dim implies #[trigger] g(c * dim + v) == h(c, v) by {
                lemma_overlay_step(x, s, c, dim, v);
                lemma_overlay_upd(x, t, c, dim, i, v);
            }
            lemma_rsum_ext(dim, |v: nat| g(c * dim + v), |v: nat| h(c, v));
        }
        lemma_rsum_ext(d, |c: nat| rsum(dim, |v: nat| g(c * dim + v)), |c: nat| row_at(dim, h, c));
        lemma_rsum_swap(d, dim, h);
        // each column is a sum over the assignments of t
        assert(s.to_set().remove(i) =~= t.to_set()) by {
            assert forall|k: usize| #[trigger] t.to_set().contains(k) implies s.to_set().contains(k) && k != i by {
                let p = choose|p: int| 0 <= p < t.len() && t[p] == k;
                assert(s[p + 1] == k);
            }
            assert forall|k: usize| #[trigger] s.to_set().contains(k) && k != i implies t.to_set().contains(k) by {
                let p = choose|p: int| 0 <= p < s.len() && s[p] == k;
                assert(t[p - 1] == k);
            }
        }
        assert forall|v: nat| v < dim implies #[trigger] col_at(d, h, v) == after_pick(t.to_set(), i, x, f, dim)(v) by {
            lemma_overlay_sum(t, upd(x, i, v), f, dim);
            lemma_rsum_ext(d, |c: nat| h(c, v), |c: nat| f(overlay(upd(x, i, v), t, c, dim)));
        }
        lemma_rsum_ext(dim, |v: nat| col_at(d, h, v), after_pick(t.to_set(), i, x, f, dim));
        assert(s.to_set().contains(i)) by {
            assert(s[0] == i);
        }
        lemma_sum_set_pick(s.to_set(), i, x, f, dim);
        assert(rsum(ipow(dim, s.len()), g) == rsum(d, |c: nat| rsum(dim, |v: nat| g(c * dim + v))));
        assert(rsum(d, |c: nat| row_at(dim, h, c)) == rsum(dim, |v: nat| col_at(d, h, v)));
        assert(sum_set(s.to_set(), x, f, dim) == rsum(dim, after_pick(t.to_set(), i, x, f, dim)));
        assert(rsum(d, |c: nat| rsum(dim, |v: nat| g(c * dim + v))) == rsum(d, |c: nat| row_at(dim, h, c)));
        assert(rsum(dim, |v: nat| col_at(d, h, v)) == rsum(dim, after_pick(t.to_set(), i, x, f, dim)));
    }
}

/// The inner sum over `b`, as a function of the outer assignment.
pub open spec fn sum_over(b: Set<usize>, f: spec_fn(spec_fn(usize) -> int) -> int, dim: nat) -> spec_fn(
    spec_fn(usize) -> int,
) -> int {
    |y: spec_fn(usize) -> int| sum_set(b, y, f, dim)
}

/// A sum over a disjoint union is a sum over one part of sums over the other.
pub proof fn lemma_sum_set_union(
    a: Set<usize>,
    b: Set<usize>,
    x: spec_fn(usize) -> int,
    f: spec_fn(spec_fn(usize) -> int) -> int,
    dim: nat,
)
    requires
        a.finite(),
        b.finite(),
        a.disjoint(b),
    ensures
        sum_set(a.union(b), x, f, dim) == sum_set(a, x, sum_over(b, f, dim), dim),
    decreases a.len(),
{
    if a.len() == 0 {
        assert(a =~= Set::empty());
        assert(a.union(b) =~= b);
    } else {
        let i = a.choose();
        assert(a.contains(i));
        lemma_finite_nonempty(a, i);
        assert(a.union(b).remove(i) =~= a.remove(i).union(b));
        lemma_sum_set_pick(a.union(b), i, x, f, dim);
        lemma_sum_set_pick(a, i, x, sum_over(b, f, dim), dim);
        assert forall|v: nat| v < dim implies #[trigger] after_pick(a.union(b).remove(i), i, x, f, dim)(v)
            == after_pick(a.remove(i), i, x, sum_over(b, f, dim), dim)(v) by {
            lemma_sum_set_union(a.remove(i), b, upd(x, i, v), f, dim);
        }
        lemma_rsum_ext(dim, after_pick(a.union(b).remove(i), i, x, f, dim), after_pick(a.remove(i), i, x, sum_over(b, f, dim), dim));
    }
}

/// The product of a factor and a summand.
pub open spec fn times(c: spec_fn(spec_fn(usize) -> int) -> int, h: spec_fn(spec_fn(usize) -> int) -> int) -> spec_fn(
    spec_fn(usize) -> int,
) -> int {
    |y: spec_fn(usize) -> int| c(y) * h(y)
}

/// A factor that does not depend on the summed indices comes out of the sum.
pub proof fn lemma_sum_set_factor(
    s: Set<usize>,
    x: spec_fn(usize) -> int,
    c: spec_fn(spec_fn(usize) -> int) -> int,
    h: spec_fn(spec_fn(usize) -> int) -> int,
    dim: nat,
)
    requires
        s.finite(),
        forall|y: spec_fn(usize) -> int, k: usize, v: nat| s.contains(k) ==> #[trigger] c(upd(y, k, v)) == c(y),
    ensures
        sum_set(s, x, times(c, h), dim) == c(x) * sum_set(s, x, h, dim),
    decreases s.len(),
{
    if s.len() > 0 {
        let i = s.choose();
        assert(s.contains(i));
        lemma_finite_nonempty(s, i);
        lemma_sum_set_pick(s, i, x, times(c, h), dim);
        lemma_sum_set_pick(s, i, x, h, dim);
        let g = after_pick(s.remove(i), i, x, h, dim);
        assert forall|v: nat| v < dim implies #[trigger] after_pick(s.remove(i), i, x, times(c, h), dim)(v) == c(x) * g(v) by {
            lemma_sum_set_factor(s.remove(i), upd(x, i, v), c, h, dim);
            assert(c(upd(x, i, v)) == c(x));
        }
        lemma_rsum_ext(dim, after_pick(s.remove(i), i, x, times(c, h), dim), |v: nat| c(x) * g(v));
        lemma_rsum_scale(dim, c(x), g);
    } else {
        assert(times(c, h)(x) == c(x) * h(x));
    }
}

/// Summands that agree on every assignment of values below `dim` have equal sums.
pub proof fn lemma_sum_set_congr(
    s: Set<usize>,
    x: spec_fn(usize) -> int,
    f: spec_fn(spec_fn(usize) -> int) -> int,
    g: spec_fn(spec_fn(usize) -> int) -> int,
    dim: nat,
)
    requires
        s.finite(),
        valid_asg(x, dim),
        forall|y: spec_fn(usize) -> int| valid_asg(y, dim) ==> #[trigger] f(y) == g(y),
    ensures
        sum_set(s, x, f, dim) == sum_set(s, x, g, dim),
    decreases s.len(),
{
    if s.len() > 0 {
        let i = s.choose();
        assert(s.contains(i));
        lemma_finite_nonempty(s, i);
        lemma_sum_set_pick(s, i, x, f, dim);
        lemma_sum_set_pick(s, i, x, g, dim);
        assert forall|v: nat| v < dim implies #[trigger] after_pick(s.remove(i), i, x, f, dim)(v)
            == after_pick(s.remove(i), i, x, g, dim)(v) by {
            assert(valid_asg(upd(x, i, v), dim)) by {
                assert forall|k: usize| 0 <= #[trigger] upd(x, i, v)(k) < dim by {
                    assert(0 <= x(k) < dim);
                }
            }
            lemma_sum_set_congr(s.remove(i), upd(x, i, v), f, g, dim);
        }
        lemma_rsum_ext(dim, after_pick(s.remove(i), i, x, f, dim), after_pick(s.remove(i), i, x, g, dim));
    }
}

/// `f` only reads the indices in `a`.
pub open spec fn reads_only(f: spec_fn(spec_fn(usize) -> int) -> int, a: Set<usize>) -> bool {
    forall|y1: spec_fn(usize) -> int, y2: spec_fn(usize) -> int| agree_on(y1, y2, a) ==> #[trigger] f(y1) == #[trigger] f(y2)
}

/// A sum whose summand reads only `a` depends only on the starting values of `a` outside `s`.
pub proof fn lemma_sum_set_frame(
    s: Set<usize>,
    x1: spec_fn(usize) -> int,
    x2: spec_fn(usize) -> int,
    f: spec_fn(spec_fn(usize) -> int) -> int,
    a: Set<usize>,
    dim: nat,
)
    requires
        s.finite(),
        reads_only(f, a),
        agree_on(x1, x2, a.difference(s)),
    ensures
        sum_set(s, x1, f, dim) == sum_set(s, x2, f, dim),
    decreases s.len(),
{
    if s.len() > 0 {
        let i = s.choose();
        assert(s.contains(i));
        lemma_finite_nonempty(s, i);
        lemma_sum_set_pick(s, i, x1, f, dim);
        lemma_sum_set_pick(s, i, x2, f, dim);
        assert forall|v: nat| v < dim implies #[trigger] after_pick(s.remove(i), i, x1, f, dim)(v)
            == after_pick(s.remove(i), i, x2, f, dim)(v) by {
            assert(agree_on(upd(x1, i, v), upd(x2, i, v), a.difference(s.remove(i)))) by {
                assert forall|k: usize| a.difference(s.remove(i)).contains(k) implies #[trigger] upd(x1, i, v)(k)
                    == upd(x2, i, v)(k) by {
                    if k != i {
                        assert(a.difference(s).contains(k));
                    }
                }
            }
            lemma_sum_set_frame(s.remove(i), upd(x1, i, v), upd(x2, i, v), f, a, dim);
        }
        lemma_rsum_ext(dim, after_pick(s.remove(i), i, x1, f, dim), after_pick(s.remove(i), i, x2, f, dim));
    } else {
        assert(agree_on(x1, x2, a)) by {
            assert forall|k: usize| a.contains(k) implies #[trigger] x1(k) == x2(k) by {
                if s.contains(k) {
                    assert(s.len() > 0) by {
                        lemma_finite_nonempty(s, k);
                    }
                }
                assert(a.difference(s).contains(k));
            }
        }
    }
}

} // verus!
