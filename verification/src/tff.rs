//! Verified abstract interpretation over the interval domain: lattice order, join,
//! widening, narrowing, an ordinal termination measure, and the analysis of the loop
//! `i := 0; while i < n { i++ }`.

use vstd::prelude::*;
use crate::ordinal::is_nat;

verus! {

/// `−∞` sentinel.
pub const NEG_INF: i64 = -0x8000_0000_0000_0000i64;
/// `+∞` sentinel.
pub const POS_INF: i64 = 0x7fff_ffff_ffff_ffffi64;

/// An interval `[lo, hi]` with `±∞` sentinels; `lo > hi` is `⊥`.
#[derive(Clone, Copy, Debug, PartialEq, Eq, Structural)]
pub struct Interval {
    pub lo: i64,
    pub hi: i64,
}

pub open spec fn bottom_spec() -> Interval {
    Interval { lo: POS_INF, hi: NEG_INF }
}

pub open spec fn is_bottom_spec(x: Interval) -> bool {
    x.lo > x.hi
}

/// `x ⊑ y`.
pub open spec fn leq_spec(x: Interval, y: Interval) -> bool {
    is_bottom_spec(x) || (y.lo <= x.lo && x.hi <= y.hi)
}

pub open spec fn min64(a: i64, b: i64) -> i64 {
    if a <= b { a } else { b }
}

pub open spec fn max64(a: i64, b: i64) -> i64 {
    if a >= b { a } else { b }
}

/// `x ⊔ y`.
pub open spec fn join_spec(x: Interval, y: Interval) -> Interval {
    if is_bottom_spec(x) {
        y
    } else if is_bottom_spec(y) {
        x
    } else {
        Interval { lo: min64(x.lo, y.lo), hi: max64(x.hi, y.hi) }
    }
}

/// `x ∇ y`: a bound of `x` that `y` exceeds jumps to `±∞`.
pub open spec fn widen_spec(x: Interval, y: Interval) -> Interval {
    if is_bottom_spec(x) {
        y
    } else if is_bottom_spec(y) {
        x
    } else {
        Interval {
            lo: if y.lo < x.lo { NEG_INF } else { x.lo },
            hi: if y.hi > x.hi { POS_INF } else { x.hi },
        }
    }
}

/// `x △ y`: an infinite bound of `x` is replaced by `y`'s.
pub open spec fn narrow_spec(x: Interval, y: Interval) -> Interval {
    if is_bottom_spec(x) || is_bottom_spec(y) {
        bottom_spec()
    } else {
        Interval {
            lo: if x.lo == NEG_INF { y.lo } else { x.lo },
            hi: if x.hi == POS_INF { y.hi } else { x.hi },
        }
    }
}

/// The number of finite bounds.
pub open spec fn finite_count(x: Interval) -> u64 {
    ((if x.lo != NEG_INF { 1int } else { 0int }) + (if x.hi != POS_INF { 1int } else { 0int })) as u64
}

impl Interval {
    pub fn bottom() -> (r: Interval)
        ensures
            r == bottom_spec(),
    {
        Interval { lo: POS_INF, hi: NEG_INF }
    }

    pub fn new(lo: i64, hi: i64) -> (r: Interval)
        ensures
            r == (Interval { lo, hi }),
    {
        Interval { lo, hi }
    }

    pub fn is_bottom(&self) -> (b: bool)
        ensures
            b == is_bottom_spec(*self),
    {
        self.lo > self.hi
    }

    /// `self ⊑ o`.
    pub fn leq(&self, o: &Interval) -> (b: bool)
        ensures
            b == leq_spec(*self, *o),
    {
        self.is_bottom() || (o.lo <= self.lo && self.hi <= o.hi)
    }

    /// `self ⊔ o`.
    pub fn join(&self, o: &Interval) -> (r: Interval)
        ensures
            r == join_spec(*self, *o),
    {
        if self.is_bottom() {
            return *o;
        }
        if o.is_bottom() {
            return *self;
        }
        Interval {
            lo: if self.lo <= o.lo { self.lo } else { o.lo },
            hi: if self.hi >= o.hi { self.hi } else { o.hi },
        }
    }

    /// Widening `self ∇ o`.
    pub fn widen(&self, o: &Interval) -> (r: Interval)
        ensures
            r == widen_spec(*self, *o),
    {
        if self.is_bottom() {
            return *o;
        }
        if o.is_bottom() {
            return *self;
        }
        Interval {
            lo: if o.lo < self.lo { NEG_INF } else { self.lo },
            hi: if o.hi > self.hi { POS_INF } else { self.hi },
        }
    }

    /// Narrowing `self △ o`.
    pub fn narrow(&self, o: &Interval) -> (r: Interval)
        ensures
            r == narrow_spec(*self, *o),
    {
        if self.is_bottom() || o.is_bottom() {
            return Interval::bottom();
        }
        Interval {
            lo: if self.lo == NEG_INF { o.lo } else { self.lo },
            hi: if self.hi == POS_INF { o.hi } else { self.hi },
        }
    }

    /// Termination measure: the finite ordinal counting the finite bounds.
    pub fn measure(&self) -> (o: crate::ordinal::Ord)
        ensures
            is_nat(o, finite_count(*self)),
    {
        let a: u64 = if self.lo != NEG_INF { 1 } else { 0 };
        let b: u64 = if self.hi != POS_INF { 1 } else { 0 };
        crate::ordinal::Ord::nat_of(a + b)
    }
}

/// The loop functional of `i := 0; while i < n { i++ }` at the loop head:
/// `F(X) = {0} ⊔ ((X ∩ [−∞, n−1]) + 1)`.
pub open spec fn loop_step_spec(x: Interval, n: i64) -> Interval {
    let init = Interval { lo: 0, hi: 0 };
    if is_bottom_spec(x) {
        init
    } else {
        let guarded_hi = min64(x.hi, (n - 1) as i64);
        if x.lo > guarded_hi {
            init
        } else {
            join_spec(init, Interval { lo: (x.lo + 1) as i64, hi: (guarded_hi + 1) as i64 })
        }
    }
}

pub fn loop_step(x: &Interval, n: i64) -> (r: Interval)
    requires
        n > NEG_INF,
    ensures
        r == loop_step_spec(*x, n),
{
    let init = Interval::new(0, 0);
    if x.is_bottom() {
        return init;
    }
    let guarded_hi = if x.hi <= n - 1 { x.hi } else { n - 1 };
    if x.lo > guarded_hi {
        return init;
    }
    let advanced = Interval::new(x.lo + 1, guarded_hi + 1);
    init.join(&advanced)
}

/// The widening limit of the analysis: `[0, +∞]` when the loop runs (`n ≥ 1`), else `[0, 0]`.
pub open spec fn post_spec(n: i64) -> Interval {
    if n >= 1 { Interval { lo: 0, hi: POS_INF } } else { Interval { lo: 0, hi: 0 } }
}

/// The narrowed invariant: `[0, n]` when the loop runs, else `[0, 0]`.
pub open spec fn narrowed_spec(n: i64) -> Interval {
    if n >= 1 { Interval { lo: 0, hi: n } } else { Interval { lo: 0, hi: 0 } }
}

/// Widening iteration to a post-fixpoint (at most 64 rounds), then narrowing (at most
/// 64 rounds). Returns `(post_fixpoint, narrowed_invariant)`.
pub fn analyze_loop(n: i64) -> (r: (Interval, Interval))
    requires
        n > NEG_INF,
    ensures
        r.0 == post_spec(n),
        r.1 == narrowed_spec(n),
{
    let mut x = Interval::bottom();
    let mut i: u32 = 0;
    while i < 64
        invariant_except_break
            n > NEG_INF,
            i <= 64,
            (i == 0 && x == bottom_spec()) || (i == 1 && x == (Interval { lo: 0, hi: 0 }))
                || (i >= 2 && x == post_spec(n)),
        ensures
            x == post_spec(n),
        decreases 64 - i,
    {
        let next = x.widen(&loop_step(&x, n));
        if next == x {
            break;
        }
        x = next;
        i = i + 1;
    }
    let post = x;
    let mut y = post;
    let mut i: u32 = 0;
    while i < 64
        invariant_except_break
            n > NEG_INF,
            i <= 64,
            post == post_spec(n),
            (i == 0 && y == post_spec(n)) || (i >= 1 && y == narrowed_spec(n)),
        ensures
            y == narrowed_spec(n),
        decreases 64 - i,
    {
        let next = y.narrow(&loop_step(&y, n));
        if next == y {
            break;
        }
        y = next;
        i = i + 1;
    }
    (post, y)
}

/// Post-fixpoint check `F(inv) ⊑ inv`.
pub fn is_post_fixpoint(inv: &Interval, n: i64) -> (b: bool)
    requires
        n > NEG_INF,
    ensures
        b == leq_spec(loop_step_spec(*inv, n), *inv),
{
    loop_step(inv, n).leq(inv)
}

// ---- lattice laws ----

/// `⊥` is least, `⊑` is reflexive and transitive.
pub proof fn lemma_order(a: Interval, b: Interval, c: Interval)
    ensures
        leq_spec(bottom_spec(), a),
        leq_spec(a, a),
        leq_spec(a, b) && leq_spec(b, c) ==> leq_spec(a, c),
{
}

/// The join is the least upper bound.
pub proof fn lemma_join_lub(a: Interval, b: Interval, c: Interval)
    ensures
        leq_spec(a, join_spec(a, b)),
        leq_spec(b, join_spec(a, b)),
        leq_spec(a, c) && leq_spec(b, c) ==> leq_spec(join_spec(a, b), c),
{
}

/// Widening over-approximates the join.
pub proof fn lemma_widen_upper(a: Interval, b: Interval)
    ensures
        leq_spec(a, widen_spec(a, b)),
        leq_spec(b, widen_spec(a, b)),
{
}

/// Narrowing of `a` by a smaller `b` stays between them.
pub proof fn lemma_narrow_between(a: Interval, b: Interval)
    requires
        leq_spec(b, a),
    ensures
        leq_spec(b, narrow_spec(a, b)),
        leq_spec(narrow_spec(a, b), a),
{
}

/// Every strict widening step loses a finite bound: the ordinal measure strictly decreases,
/// so widening sequences terminate.
pub proof fn lemma_widen_decreases(a: Interval, b: Interval)
    requires
        !is_bottom_spec(a),
        !leq_spec(b, a),
    ensures
        finite_count(widen_spec(a, b)) < finite_count(a),
{
}

/// The loop functional is monotone.
pub proof fn lemma_loop_step_monotone(x: Interval, y: Interval, n: i64)
    requires
        n > NEG_INF,
        leq_spec(x, y),
    ensures
        leq_spec(loop_step_spec(x, n), loop_step_spec(y, n)),
{
}

/// Both results of the analysis are post-fixpoints, and the narrowed one bounds every
/// reachable value `0 ≤ i ≤ max(n, 0)`.
pub proof fn lemma_analysis_sound(n: i64, i: i64)
    requires
        n > NEG_INF,
    ensures
        leq_spec(loop_step_spec(post_spec(n), n), post_spec(n)),
        leq_spec(loop_step_spec(narrowed_spec(n), n), narrowed_spec(n)),
        0 <= i <= n ==> narrowed_spec(n).lo <= i <= narrowed_spec(n).hi,
{
}

} // verus!
