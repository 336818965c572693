//! Polynomials over the rationals.
//!
//! [`UniPoly`] is a univariate polynomial, its coefficients indexed by degree
//! with trailing zeros trimmed, so that the zero polynomial has no coefficients
//! and every other polynomial has a nonzero leading coefficient. Its model is
//! the sequence of coefficient values.
//!
//! [`Poly`] is a multivariate polynomial kept in canonical form: a list of
//! terms ordered by monomial, each monomial a list of `(variable, exponent)`
//! ordered by variable name with positive exponents, and no zero coefficient.
//! Its model is the list of `(monomial, coefficient value)` pairs.

use vstd::prelude::*;
use crate::text::{decimal, push_char, push_str, str_to_string, string_chars, string_eq, string_eq_str, u64_to_string};
use crate::rational::{
    rat_text, lemma_add_congr, lemma_add_zero_value, lemma_bump_cancel, lemma_bump_hit_rep, lemma_bump_step, lemma_div_mul_cancel,
    lemma_pos_mul, lemma_qv_eq_trans, lemma_reduce_value, lemma_reduce_zero, lemma_rep_add, lemma_rep_eq, lemma_rep_move,
    lemma_rep_of_eq, lemma_rep_self, lemma_sub_congr, lemma_zero_ops, qv_add, qv_div, qv_eq, qv_mul, qv_neg, qv_one, qv_sub, qv_zero, reduce, rep, Rat,
};

verus! {

/// The values of a list of rationals.
pub open spec fn rat_values(cs: Seq<Rat>) -> Seq<(int, nat)> {
    cs.map_values(|c: Rat| c@)
}

/// Every rational of the list is canonical.
pub open spec fn all_wf(cs: Seq<Rat>) -> bool {
    forall|i: int| 0 <= i < cs.len() ==> (#[trigger] cs[i]).wf()
}

/// A coefficient list with its trailing zeros dropped.
pub open spec fn trim(s: Seq<(int, nat)>) -> Seq<(int, nat)>
    decreases s.len(),
{
    if s.len() > 0 && s.last().0 == 0 {
        trim(s.drop_last())
    } else {
        s
    }
}

/// The coefficient of `x^i` (zero past the end).
pub open spec fn coef(s: Seq<(int, nat)>, i: int) -> (int, nat) {
    if 0 <= i < s.len() {
        s[i]
    } else {
        qv_zero()
    }
}

/// Coefficient-wise sum.
pub open spec fn uni_add(a: Seq<(int, nat)>, b: Seq<(int, nat)>) -> Seq<(int, nat)> {
    let n = if a.len() >= b.len() { a.len() } else { b.len() };
    trim(Seq::new(n, |i: int| qv_add(coef(a, i), coef(b, i))))
}

/// Coefficient-wise difference.
pub open spec fn uni_sub(a: Seq<(int, nat)>, b: Seq<(int, nat)>) -> Seq<(int, nat)> {
    let n = if a.len() >= b.len() { a.len() } else { b.len() };
    trim(Seq::new(n, |i: int| qv_sub(coef(a, i), coef(b, i))))
}

/// Coefficient-wise negation.
pub open spec fn uni_neg(a: Seq<(int, nat)>) -> Seq<(int, nat)> {
    trim(a.map_values(|c: (int, nat)| qv_neg(c)))
}

/// Every coefficient times `k`.
pub open spec fn uni_scale(a: Seq<(int, nat)>, k: (int, nat)) -> Seq<(int, nat)> {
    if k.0 == 0 {
        Seq::empty()
    } else {
        trim(a.map_values(|c: (int, nat)| qv_mul(c, k)))
    }
}

/// The coefficient of `x^k` of `a * b`, summed over the first `m` coefficients of
/// `a` in order: `sum_{i < m} a_i * b_{k-i}`.
pub open spec fn conv(a: Seq<(int, nat)>, b: Seq<(int, nat)>, k: int, m: nat) -> (int, nat)
    decreases m,
{
    if m == 0 {
        qv_zero()
    } else {
        let prev = conv(a, b, k, (m - 1) as nat);
        let i = m - 1;
        if 0 <= k - i < b.len() {
            qv_add(prev, qv_mul(a[i], b[k - i]))
        } else {
            prev
        }
    }
}

/// The product.
pub open spec fn uni_mul(a: Seq<(int, nat)>, b: Seq<(int, nat)>) -> Seq<(int, nat)> {
    if a.len() == 0 || b.len() == 0 {
        Seq::empty()
    } else {
        trim(Seq::new((a.len() + b.len() - 1) as nat, |k: int| conv(a, b, k, a.len())))
    }
}

/// `a^e`, as repeated multiplication.
pub open spec fn uni_pow(a: Seq<(int, nat)>, e: nat) -> Seq<(int, nat)>
    decreases e,
{
    if e == 0 {
        seq![qv_one()]
    } else {
        uni_mul(uni_pow(a, (e - 1) as nat), a)
    }
}

/// The value at `x` in Horner form: `c_0 + x * (c_1 + x * (...))`.
pub open spec fn horner(cs: Seq<(int, nat)>, x: (int, nat)) -> (int, nat)
    decreases cs.len(),
{
    if cs.len() == 0 {
        qv_zero()
    } else {
        qv_add(qv_mul(horner(cs.drop_first(), x), x), cs[0])
    }
}

/// A trimmed coefficient list: empty, or with a nonzero last entry.
pub open spec fn is_trimmed(s: Seq<(int, nat)>) -> bool {
    s.len() == 0 || s.last().0 != 0
}

proof fn lemma_trim(s: Seq<(int, nat)>)
    ensures
        is_trimmed(trim(s)),
        trim(s).len() <= s.len(),
        trim(s) == s.take(trim(s).len() as int),
        forall|i: int| trim(s).len() <= i < s.len() ==> (#[trigger] s[i]).0 == 0,
    decreases s.len(),
{
    if s.len() > 0 && s.last().0 == 0 {
        lemma_trim(s.drop_last());
        let t = trim(s.drop_last());
        assert(s.drop_last().take(t.len() as int) =~= s.take(t.len() as int));
        assert forall|i: int| t.len() <= i < s.len() implies (#[trigger] s[i]).0 == 0 by {
            if i < s.len() - 1 {
                assert(s.drop_last()[i] == s[i]);
            }
        }
    } else {
        assert(s.take(s.len() as int) =~= s);
    }
}

/// Every coefficient has a positive denominator.
pub open spec fn valid_coeffs(s: Seq<(int, nat)>) -> bool {
    forall|i: int| 0 <= i < s.len() ==> (#[trigger] s[i]).1 > 0
}

/// The linear polynomial `x + s`.
pub open spec fn x_plus(s: int) -> Seq<(int, nat)> {
    trim(seq![(s, 1nat), qv_one()])
}

/// `sum_{i < k} c_i (x + s)^i`, accumulated in order of `i`.
pub open spec fn shift_acc(p: Seq<(int, nat)>, s: int, k: nat) -> Seq<(int, nat)>
    decreases k,
{
    if k == 0 {
        Seq::empty()
    } else {
        uni_add(shift_acc(p, s, (k - 1) as nat), uni_scale(uni_pow(x_plus(s), (k - 1) as nat), p[k - 1]))
    }
}

/// `factor * x^shift * d`.
pub open spec fn div_sub(d: Seq<(int, nat)>, shift: nat, factor: (int, nat)) -> Seq<(int, nat)> {
    trim(Seq::new(shift + d.len(), |k: int| if k >= shift { qv_mul(d[k - shift], factor) } else { qv_zero() }))
}

/// Long division of `rem` by `d`, entering each quotient coefficient into
/// `quot`: while `rem` has at least the degree of `d`, subtract
/// `(lc(rem) / lc(d)) * x^(deg rem - deg d) * d`. Returns `(quot, rem)`.
pub open spec fn div_loop(rem: Seq<(int, nat)>, quot: Seq<(int, nat)>, d: Seq<(int, nat)>) -> (Seq<(int, nat)>, Seq<(int, nat)>)
    decreases rem.len(),
{
    if d.len() == 0 || rem.len() == 0 || rem.len() < d.len() {
        (quot, rem)
    } else {
        let shift = (rem.len() - d.len()) as nat;
        let factor = qv_div(rem.last(), d.last());
        let nr = uni_sub(rem, div_sub(d, shift, factor));
        if nr.len() < rem.len() {
            div_loop(nr, quot.update(shift as int, factor), d)
        } else {
            (quot, rem)
        }
    }
}

/// The length of the quotient buffer: `deg p - deg d + 1` (at least 1).
pub open spec fn quot_len(p: Seq<(int, nat)>, d: Seq<(int, nat)>) -> nat {
    (if p.len() >= d.len() - 1 { p.len() - (d.len() - 1) } else { 0 }) as nat + 1
}

/// Zero coefficients.
pub open spec fn zeros(n: nat) -> Seq<(int, nat)> {
    Seq::new(n, |i: int| qv_zero())
}

/// The quotient and remainder of `p` by a nonzero `d`.
pub open spec fn uni_divmod(p: Seq<(int, nat)>, d: Seq<(int, nat)>) -> (Seq<(int, nat)>, Seq<(int, nat)>) {
    let r = div_loop(p, zeros(quot_len(p, d)), d);
    (trim(r.0), r.1)
}

/// Euclid's algorithm on remainders.
pub open spec fn gcd_loop(a: Seq<(int, nat)>, b: Seq<(int, nat)>) -> Seq<(int, nat)>
    decreases b.len(),
{
    if b.len() == 0 {
        a
    } else {
        let r = uni_divmod(a, b).1;
        if r.len() < b.len() {
            gcd_loop(b, r)
        } else {
            a
        }
    }
}

/// Long division by a nonzero constant leaves no remainder: each step cancels
/// the leading coefficient.
proof fn lemma_div_by_const(rem: Seq<(int, nat)>, quot: Seq<(int, nat)>, c: Seq<(int, nat)>)
    requires
        c.len() == 1,
        c[0].0 != 0,
        c[0].1 > 0,
        is_trimmed(rem),
        valid_coeffs(rem),
    ensures
        div_loop(rem, quot, c).1.len() == 0,
    decreases rem.len(),
{
    if rem.len() > 0 {
        let n = rem.len();
        let shift = (n - 1) as nat;
        let factor = qv_div(rem.last(), c.last());
        let raw = Seq::new(shift + c.len(), |k: int| if k >= shift { qv_mul(c[k - shift], factor) } else { qv_zero() });
        lemma_div_mul_cancel(rem.last(), c[0]);
        let top = qv_mul(c[0], factor);
        assert(rem.last().1 * c[0].0 != 0) by (nonlinear_arith)
            requires rem.last().1 > 0, c[0].0 != 0;
        assert(rem.last().0 * c[0].1 != 0) by (nonlinear_arith)
            requires rem.last().0 != 0, c[0].1 > 0;
        lemma_reduce_value(rem.last().0 * c[0].1, rem.last().1 * c[0].0);
        assert(factor.0 != 0);
        assert(factor.1 > 0);
        assert(c[0].1 * factor.1 > 0) by (nonlinear_arith)
            requires c[0].1 > 0, factor.1 > 0;
        assert(c[0].0 * factor.0 != 0) by (nonlinear_arith)
            requires c[0].0 != 0, factor.0 != 0;
        lemma_reduce_value(c[0].0 * factor.0, (c[0].1 * factor.1) as int);
        assert(top.0 != 0);
        assert(raw[n - 1] == top);
        let ds = div_sub(c, shift, factor);
        assert(ds == raw);
        assert forall|i: int| 0 <= i < n implies (#[trigger] coef(ds, i)).1 > 0 by {
            if i < n - 1 {
                assert(coef(ds, i) == qv_zero());
            }
        }
        let t = Seq::new(n, |i: int| qv_sub(coef(rem, i), coef(ds, i)));
        let nr = uni_sub(rem, ds);
        assert(nr == trim(t));
        assert(t.last() == qv_sub(rem.last(), top));
        assert(t.last().0 == 0);
        lemma_trim(t.drop_last());
        assert(trim(t) == trim(t.drop_last()));
        lemma_trim(t);
        assert forall|i: int| 0 <= i < nr.len() implies (#[trigger] nr[i]).1 > 0 by {
            assert(nr[i] == t[i]);
            let a = coef(rem, i);
            let b = coef(ds, i);
            assert(a.1 > 0);
            assert(b.1 > 0);
            assert(a.1 * b.1 > 0) by (nonlinear_arith) requires a.1 > 0, b.1 > 0;
            lemma_reduce_value(a.0 * b.1 - b.0 * a.1, (a.1 * b.1) as int);
        }
        assert(nr.len() < rem.len());
        lemma_div_by_const(nr, quot.update(shift as int, factor), c);
    }
}

/// The gcd with the zero polynomial, on either side, is the other polynomial
/// (made monic by the caller).
pub proof fn lemma_gcd_with_zero(a: Seq<(int, nat)>)
    ensures
        gcd_loop(a, Seq::empty()) == a,
        gcd_loop(Seq::empty(), a) == a,
{
    if a.len() > 0 {
        let e = Seq::<(int, nat)>::empty();
        assert(uni_divmod(e, a).1 == e);
        assert(gcd_loop(a, e) == a);
    }
}

/// The gcd of any polynomial and a nonzero constant is the constant `1`: the
/// constant divides everything, so Euclid's first remainder is zero and the
/// constant, made monic, is `1`.
pub proof fn lemma_gcd_with_constant(a: Seq<(int, nat)>, q: (int, nat))
    requires
        is_trimmed(a),
        valid_coeffs(a),
        q.0 != 0,
        q.1 > 0,
    ensures
        uni_monic(gcd_loop(a, seq![q])).len() == 1,
        uni_monic(gcd_loop(a, seq![q]))[0].0 == uni_monic(gcd_loop(a, seq![q]))[0].1,
        uni_monic(gcd_loop(a, seq![q]))[0].1 > 0,
{
    let c = seq![q];
    lemma_div_by_const(a, zeros(quot_len(a, c)), c);
    assert(uni_divmod(a, c).1.len() == 0);
    assert(gcd_loop(c, uni_divmod(a, c).1) == c);
    assert(gcd_loop(a, c) == c);
    let k = qv_div(qv_one(), q);
    lemma_div_mul_cancel(qv_one(), q);
    lemma_reduce_value((1 * q.1) as int, 1 * q.0);
    assert(k.0 != 0);
    let y = qv_mul(q, k);
    lemma_reduce_value(1 * y.1 - y.0 * 1, (1 * y.1) as int);
    assert(y.0 == y.1);
    let m = c.map_values(|x: (int, nat)| qv_mul(x, k));
    assert(m[0] == y);
    assert(m.len() == 1);
    assert(trim(m.drop_last()) == m.drop_last());
    assert(trim(m) == m);
}

/// The gcd of a nonzero constant and any polynomial is the constant `1`.
pub proof fn lemma_gcd_of_constant(q: (int, nat), b: Seq<(int, nat)>)
    requires
        is_trimmed(b),
        valid_coeffs(b),
        q.0 != 0,
        q.1 > 0,
    ensures
        uni_monic(gcd_loop(seq![q], b)).len() == 1,
        uni_monic(gcd_loop(seq![q], b))[0].0 == uni_monic(gcd_loop(seq![q], b))[0].1,
{
    let c = seq![q];
    if b.len() == 0 {
        lemma_gcd_with_zero(c);
        lemma_gcd_with_constant(Seq::empty(), q);
        lemma_gcd_with_zero(Seq::<(int, nat)>::empty());
        assert(gcd_loop(Seq::<(int, nat)>::empty(), c) == c);
    } else if b.len() == 1 {
        lemma_gcd_with_constant(c, b[0]);
        assert(b == seq![b[0]]);
        assert(valid_coeffs(c));
        lemma_div_by_const(c, zeros(quot_len(c, b)), b);
        assert(gcd_loop(c, b) == gcd_loop(b, uni_divmod(c, b).1));
        assert(uni_divmod(c, b).1.len() == 0);
        lemma_gcd_with_zero(b);
        lemma_gcd_with_constant(Seq::empty(), b[0]);
        lemma_gcd_with_zero(Seq::<(int, nat)>::empty());
        assert(gcd_loop(Seq::<(int, nat)>::empty(), b) == b);
        assert(gcd_loop(c, b) == b);
    } else {
        assert(uni_divmod(c, b).1 == c);
        assert(gcd_loop(c, b) == gcd_loop(b, c));
        lemma_gcd_with_constant(b, q);
    }
}

/// The monic associate (zero stays zero).
pub open spec fn uni_monic(a: Seq<(int, nat)>) -> Seq<(int, nat)> {
    if a.len() == 0 {
        a
    } else {
        uni_scale(a, qv_div(qv_one(), a.last()))
    }
}

/// The `x` values of interpolation points.
pub open spec fn point_xs(points: Seq<(Rat, Rat)>) -> Seq<(int, nat)> {
    Seq::new(points.len(), |j: int| points[j].0@)
}

/// The `y` values of interpolation points.
pub open spec fn point_ys(points: Seq<(Rat, Rat)>) -> Seq<(int, nat)> {
    Seq::new(points.len(), |j: int| points[j].1@)
}

/// The Lagrange basis factor `(x - x_m) / (x_j - x_m)`.
pub open spec fn lagrange_factor(xj: (int, nat), xm: (int, nat)) -> Seq<(int, nat)> {
    uni_scale(trim(seq![qv_neg(xm), qv_one()]), qv_div(qv_one(), qv_sub(xj, xm)))
}

/// `y_j * prod_{m < k, m != j} (x - x_m) / (x_j - x_m)`.
pub open spec fn lagrange_term(xs: Seq<(int, nat)>, ys: Seq<(int, nat)>, j: int, k: nat) -> Seq<(int, nat)>
    decreases k,
{
    if k == 0 {
        trim(seq![ys[j]])
    } else {
        let prev = lagrange_term(xs, ys, j, (k - 1) as nat);
        let m = k - 1;
        if m == j {
            prev
        } else {
            uni_mul(prev, lagrange_factor(xs[j], xs[m]))
        }
    }
}

/// The sum of the first `k` Lagrange terms.
pub open spec fn lagrange_sum(xs: Seq<(int, nat)>, ys: Seq<(int, nat)>, k: nat) -> Seq<(int, nat)>
    decreases k,
{
    if k == 0 {
        Seq::empty()
    } else {
        uni_add(lagrange_sum(xs, ys, (k - 1) as nat), lagrange_term(xs, ys, (k - 1) as int, xs.len()))
    }
}

proof fn lemma_trim_len_shrinks(s: Seq<(int, nat)>)
    requires
        s.len() > 0,
        s.last().0 == 0,
    ensures
        trim(s).len() < s.len(),
{
    lemma_trim(s.drop_last());
}

proof fn lemma_uni_lens(a: Seq<(int, nat)>, b: Seq<(int, nat)>, k: (int, nat))
    ensures
        uni_add(a, b).len() <= if a.len() >= b.len() { a.len() } else { b.len() },
        uni_sub(a, b).len() <= if a.len() >= b.len() { a.len() } else { b.len() },
        uni_mul(a, b).len() <= a.len() + b.len(),
        uni_scale(a, k).len() <= a.len(),
{
    let n = if a.len() >= b.len() { a.len() } else { b.len() };
    lemma_trim(Seq::new(n, |i: int| qv_add(coef(a, i), coef(b, i))));
    lemma_trim(Seq::new(n, |i: int| qv_sub(coef(a, i), coef(b, i))));
    if a.len() > 0 && b.len() > 0 {
        lemma_trim(Seq::new((a.len() + b.len() - 1) as nat, |q: int| conv(a, b, q, a.len())));
    }
    lemma_trim(a.map_values(|c: (int, nat)| qv_mul(c, k)));
}

proof fn lemma_uni_pow_len(a: Seq<(int, nat)>, e: nat)
    ensures
        uni_pow(a, e).len() <= 1 + e * a.len(),
    decreases e,
{
    if e > 0 {
        lemma_uni_pow_len(a, (e - 1) as nat);
        lemma_uni_lens(uni_pow(a, (e - 1) as nat), a, qv_zero());
        assert(1 + (e - 1) * a.len() + a.len() == 1 + e * a.len()) by (nonlinear_arith);
    }
}

/// One step of long division shortens the remainder.
proof fn lemma_div_step(rem: Seq<(int, nat)>, d: Seq<(int, nat)>)
    requires
        rem.len() > 0,
        d.len() > 0,
        rem.len() >= d.len(),
        valid_coeffs(rem),
        valid_coeffs(d),
        d.last().0 != 0,
    ensures
        ({
            let shift = (rem.len() - d.len()) as nat;
            let factor = qv_div(rem.last(), d.last());
            let nr = uni_sub(rem, div_sub(d, shift, factor));
            nr.len() < rem.len() && valid_coeffs(nr)
        }),
{
    let shift = (rem.len() - d.len()) as nat;
    let factor = qv_div(rem.last(), d.last());
    lemma_div_mul_cancel(rem.last(), d.last());
    assert(rem.last().1 * d.last().0 != 0) by (nonlinear_arith)
        requires
            rem.last().1 > 0,
            d.last().0 != 0,
    ;
    lemma_reduce_value(rem.last().0 * d.last().1, rem.last().1 * d.last().0);
    let raw = Seq::new(shift + d.len(), |k: int| if k >= shift { qv_mul(d[k - shift], factor) } else { qv_zero() });
    assert(valid_coeffs(raw)) by {
        assert forall|k: int| 0 <= k < raw.len() implies (#[trigger] raw[k]).1 > 0 by {
            if k >= shift {
                assert(d[k - shift].1 > 0);
                assert(d[k - shift].1 * factor.1 > 0) by (nonlinear_arith)
                    requires
                        d[k - shift].1 > 0,
                        factor.1 > 0,
                ;
                lemma_reduce_value(d[k - shift].0 * factor.0, (d[k - shift].1 * factor.1) as int);
            }
        }
    }
    let sub = div_sub(d, shift, factor);
    lemma_trim(raw);
    let l = rem.len();
    assert(raw.len() == l);
    // the top coefficient of the subtrahend is lc(d) * factor, or zero if it was trimmed
    assert(coef(sub, l - 1) == qv_mul(d.last(), factor)) by {
        assert(raw[l - 1] == qv_mul(d.last(), factor));
        if sub.len() < l {
            assert(raw[l - 1].0 == 0);
            assert(d.last().1 * factor.1 > 0) by (nonlinear_arith)
                requires
                    d.last().1 > 0,
                    factor.1 > 0,
            ;
            lemma_reduce_value(d.last().0 * factor.0, (d.last().1 * factor.1) as int);
            lemma_reduce_zero((d.last().1 * factor.1) as int);
        }
    }
    let full = Seq::new(l, |i: int| qv_sub(coef(rem, i), coef(sub, i)));
    assert(full.last() == qv_sub(rem.last(), qv_mul(d.last(), factor)));
    lemma_trim_len_shrinks(full);
    lemma_trim(full);
    assert(valid_coeffs(uni_sub(rem, sub))) by {
        assert forall|i: int| 0 <= i < uni_sub(rem, sub).len() implies (#[trigger] uni_sub(rem, sub)[i]).1 > 0 by {
            assert(uni_sub(rem, sub)[i] == full[i]);
            let x = coef(rem, i);
            let y = coef(sub, i);
            assert(x.1 > 0);
            assert(y.1 > 0) by {
                if 0 <= i < sub.len() {
                    assert(sub[i] == raw[i]);
                }
            }
            assert(x.1 * y.1 > 0) by (nonlinear_arith)
                requires
                    x.1 > 0,
                    y.1 > 0,
            ;
            lemma_reduce_value(x.0 * y.1 - y.0 * x.1, (x.1 * y.1) as int);
        }
    }
}

/// Long division stops with a remainder shorter than the divisor.
proof fn lemma_div_loop(rem: Seq<(int, nat)>, quot: Seq<(int, nat)>, d: Seq<(int, nat)>)
    requires
        d.len() > 0,
        valid_coeffs(rem),
        valid_coeffs(d),
        d.last().0 != 0,
    ensures
        div_loop(rem, quot, d).1.len() < d.len(),
        div_loop(rem, quot, d).1.len() <= rem.len(),
        valid_coeffs(div_loop(rem, quot, d).1),
    decreases rem.len(),
{
    if rem.len() > 0 && rem.len() >= d.len() {
        lemma_div_step(rem, d);
        let shift = (rem.len() - d.len()) as nat;
        let factor = qv_div(rem.last(), d.last());
        let nr = uni_sub(rem, div_sub(d, shift, factor));
        lemma_div_loop(nr, quot.update(shift as int, factor), d);
    }
}

/// A univariate polynomial over the rationals: `coeffs[i]` is the coefficient
/// of `x^i`, with no trailing zero.
#[derive(Clone, Debug, PartialEq, Eq)]
pub struct UniPoly {
    pub coeffs: Vec<Rat>,
}

impl View for UniPoly {
    type V = Seq<(int, nat)>;

    open spec fn view(&self) -> Seq<(int, nat)> {
        rat_values(self.coeffs@)
    }
}

/// A copy of a list of rationals.
fn copy_rats(v: &Vec<Rat>) -> (r: Vec<Rat>)
    ensures
        rat_values(r@) == rat_values(v@),
        all_wf(v@) ==> all_wf(r@),
{
    let mut r: Vec<Rat> = Vec::new();
    let mut i: usize = 0;
    while i < v.len()
        invariant
            i <= v@.len(),
            r@.len() == i,
            forall|q: int| 0 <= q < i ==> (#[trigger] r@[q]).neg == v@[q].neg && r@[q].num@ == v@[q].num@ && r@[q].den@
                == v@[q].den@,
        decreases v.len() - i,
    {
        r.push(v[i].copy());
        i = i + 1;
    }
    assert(rat_values(r@) =~= rat_values(v@));
    r
}

impl UniPoly {
    /// Canonical: every coefficient canonical and no trailing zero.
    pub open spec fn wf(self) -> bool {
        &&& all_wf(self.coeffs@)
        &&& is_trimmed(self@)
    }

    /// The zero polynomial.
    pub fn zero() -> (p: UniPoly)
        ensures
            p.wf(),
            p@ == Seq::<(int, nat)>::empty(),
    {
        let p = UniPoly { coeffs: Vec::new() };
        assert(p@ =~= Seq::<(int, nat)>::empty());
        p
    }

    /// The polynomial with these coefficients, trailing zeros dropped.
    pub fn from_coeffs(coeffs: Vec<Rat>) -> (p: UniPoly)
        requires
            all_wf(coeffs@),
        ensures
            p.wf(),
            p@ == trim(rat_values(coeffs@)),
    {
        let mut coeffs = coeffs;
        let ghost orig = rat_values(coeffs@);
        proof {
            lemma_trim(orig);
        }
        while coeffs.len() > 0 && coeffs[coeffs.len() - 1].is_zero()
            invariant
                all_wf(coeffs@),
                rat_values(coeffs@) == orig.take(coeffs@.len() as int),
                trim(orig).len() <= coeffs@.len() <= orig.len(),
                is_trimmed(trim(orig)),
                trim(orig) == orig.take(trim(orig).len() as int),
                forall|i: int| trim(orig).len() <= i < orig.len() ==> (#[trigger] orig[i]).0 == 0,
            decreases coeffs.len(),
        {
            let ghost before = coeffs@;
            coeffs.pop();
            proof {
                assert(rat_values(coeffs@) =~= orig.take(coeffs@.len() as int));
                if coeffs@.len() < trim(orig).len() {
                    assert(orig[coeffs@.len() as int] == rat_values(before)[coeffs@.len() as int]);
                    assert(trim(orig).last() == orig[trim(orig).len() - 1]);
                }
            }
        }
        proof {
            if coeffs@.len() > trim(orig).len() {
                assert(orig[coeffs@.len() - 1] == rat_values(coeffs@)[coeffs@.len() - 1]);
            }
            assert(rat_values(coeffs@) =~= trim(orig));
        }
        UniPoly { coeffs }
    }

    /// The constant polynomial `c`.
    pub fn constant(c: Rat) -> (p: UniPoly)
        requires
            c.wf(),
        ensures
            p.wf(),
            p@ == trim(seq![c@]),
    {
        let mut v: Vec<Rat> = Vec::new();
        v.push(c);
        proof {
            assert(rat_values(v@) =~= seq![c@]);
        }
        UniPoly::from_coeffs(v)
    }

    /// The constant polynomial `c`.
    pub fn from_i64(c: i64) -> (p: UniPoly)
        ensures
            p.wf(),
            p@ == trim(seq![(c as int, 1nat)]),
    {
        UniPoly::constant(Rat::from_i64(c))
    }

    /// The monomial `x`.
    pub fn x() -> (p: UniPoly)
        ensures
            p.wf(),
            p@ == seq![qv_zero(), qv_one()],
    {
        let mut v: Vec<Rat> = Vec::new();
        v.push(Rat::zero());
        v.push(Rat::one());
        proof {
            assert(rat_values(v@) =~= seq![qv_zero(), qv_one()]);
        }
        UniPoly::from_coeffs(v)
    }

    pub fn is_zero(&self) -> (b: bool)
        ensures
            b == (self@.len() == 0),
    {
        self.coeffs.len() == 0
    }

    /// The degree, or `None` for the zero polynomial.
    pub fn degree(&self) -> (d: Option<usize>)
        ensures
            d == (if self@.len() == 0 { None } else { Some((self@.len() - 1) as usize) }),
    {
        if self.coeffs.len() == 0 {
            None
        } else {
            Some(self.coeffs.len() - 1)
        }
    }

    /// The leading coefficient (zero for the zero polynomial).
    pub fn leading(&self) -> (c: Rat)
        requires
            self.wf(),
        ensures
            c.wf(),
            c@ == coef(self@, self@.len() - 1),
    {
        if self.coeffs.len() == 0 {
            Rat::zero()
        } else {
            self.coeffs[self.coeffs.len() - 1].copy()
        }
    }

    /// The coefficient of `x^i` (zero past the degree).
    pub fn coeff(&self, i: usize) -> (c: Rat)
        requires
            self.wf(),
        ensures
            c.wf(),
            c@ == coef(self@, i as int),
    {
        if i < self.coeffs.len() {
            self.coeffs[i].copy()
        } else {
            Rat::zero()
        }
    }

    pub fn add(&self, other: &UniPoly) -> (p: UniPoly)
        requires
            self.wf(),
            other.wf(),
        ensures
            p.wf(),
            p@ == uni_add(self@, other@),
    {
        let n = if self.coeffs.len() >= other.coeffs.len() { self.coeffs.len() } else { other.coeffs.len() };
        let mut c: Vec<Rat> = Vec::new();
        let mut i: usize = 0;
        while i < n
            invariant
                self.wf(),
                other.wf(),
                n == (if self@.len() >= other@.len() { self@.len() } else { other@.len() }),
                i <= n,
                c@.len() == i,
                all_wf(c@),
                forall|q: int| 0 <= q < i ==> (#[trigger] c@[q])@ == qv_add(coef(self@, q), coef(other@, q)),
            decreases n - i,
        {
            let x = self.coeff(i);
            let y = other.coeff(i);
            c.push(x.add(&y));
            i = i + 1;
        }
        proof {
            assert(rat_values(c@) =~= Seq::new(n as nat, |q: int| qv_add(coef(self@, q), coef(other@, q))));
        }
        UniPoly::from_coeffs(c)
    }

    pub fn sub(&self, other: &UniPoly) -> (p: UniPoly)
        requires
            self.wf(),
            other.wf(),
        ensures
            p.wf(),
            p@ == uni_sub(self@, other@),
    {
        let n = if self.coeffs.len() >= other.coeffs.len() { self.coeffs.len() } else { other.coeffs.len() };
        let mut c: Vec<Rat> = Vec::new();
        let mut i: usize = 0;
        while i < n
            invariant
                self.wf(),
                other.wf(),
                n == (if self@.len() >= other@.len() { self@.len() } else { other@.len() }),
                i <= n,
                c@.len() == i,
                all_wf(c@),
                forall|q: int| 0 <= q < i ==> (#[trigger] c@[q])@ == qv_sub(coef(self@, q), coef(other@, q)),
            decreases n - i,
        {
            let x = self.coeff(i);
            let y = other.coeff(i);
            c.push(x.sub(&y));
            i = i + 1;
        }
        proof {
            assert(rat_values(c@) =~= Seq::new(n as nat, |q: int| qv_sub(coef(self@, q), coef(other@, q))));
        }
        UniPoly::from_coeffs(c)
    }

    pub fn neg(&self) -> (p: UniPoly)
        requires
            self.wf(),
        ensures
            p.wf(),
            p@ == uni_neg(self@),
    {
        let mut c: Vec<Rat> = Vec::new();
        let mut i: usize = 0;
        while i < self.coeffs.len()
            invariant
                self.wf(),
                i <= self@.len(),
                c@.len() == i,
                all_wf(c@),
                forall|q: int| 0 <= q < i ==> (#[trigger] c@[q])@ == qv_neg(self@[q]),
            decreases self.coeffs.len() - i,
        {
            c.push(self.coeffs[i].neg());
            i = i + 1;
        }
        proof {
            assert(rat_values(c@) =~= self@.map_values(|x: (int, nat)| qv_neg(x)));
        }
        UniPoly::from_coeffs(c)
    }

    pub fn scale(&self, k: &Rat) -> (p: UniPoly)
        requires
            self.wf(),
            k.wf(),
        ensures
            p.wf(),
            p@ == uni_scale(self@, k@),
    {
        if k.is_zero() {
            return UniPoly::zero();
        }
        let mut c: Vec<Rat> = Vec::new();
        let mut i: usize = 0;
        while i < self.coeffs.len()
            invariant
                self.wf(),
                k.wf(),
                i <= self@.len(),
                c@.len() == i,
                all_wf(c@),
                forall|q: int| 0 <= q < i ==> (#[trigger] c@[q])@ == qv_mul(self@[q], k@),
            decreases self.coeffs.len() - i,
        {
            c.push(self.coeffs[i].mul(k));
            i = i + 1;
        }
        proof {
            assert(rat_values(c@) =~= self@.map_values(|x: (int, nat)| qv_mul(x, k@)));
        }
        UniPoly::from_coeffs(c)
    }

    pub fn mul(&self, other: &UniPoly) -> (p: UniPoly)
        requires
            self.wf(),
            other.wf(),
            self@.len() + other@.len() <= usize::MAX,
        ensures
            p.wf(),
            p@ == uni_mul(self@, other@),
    {
        if self.coeffs.len() == 0 || other.coeffs.len() == 0 {
            return UniPoly::zero();
        }
        let la = self.coeffs.len();
        let lb = other.coeffs.len();
        let n = la + lb - 1;
        let mut c: Vec<Rat> = Vec::new();
        let mut k: usize = 0;
        while k < n
            invariant
                k <= n,
                c@.len() == k,
                all_wf(c@),
                forall|q: int| 0 <= q < k ==> (#[trigger] c@[q])@ == qv_zero(),
            decreases n - k,
        {
            c.push(Rat::zero());
            k = k + 1;
        }
        let ghost a = self@;
        let ghost b = other@;
        let mut i: usize = 0;
        while i < la
            invariant
                self.wf(),
                other.wf(),
                a == self@,
                b == other@,
                la == a.len(),
                lb == b.len(),
                n == la + lb - 1,
                la > 0,
                lb > 0,
                i <= la,
                c@.len() == n,
                all_wf(c@),
                forall|q: int| 0 <= q < n ==> (#[trigger] c@[q])@ == conv(a, b, q, i as nat),
            decreases la - i,
        {
            let mut j: usize = 0;
            while j < lb
                invariant
                    self.wf(),
                    other.wf(),
                    a == self@,
                    b == other@,
                    la == a.len(),
                    lb == b.len(),
                    n == la + lb - 1,
                    i < la,
                    j <= lb,
                    c@.len() == n,
                    all_wf(c@),
                    forall|q: int| 0 <= q < n ==> (#[trigger] c@[q])@ == (if i <= q < i + j {
                        conv(a, b, q, (i + 1) as nat)
                    } else {
                        conv(a, b, q, i as nat)
                    }),
                decreases lb - j,
            {
                let t = self.coeffs[i].mul(&other.coeffs[j]);
                let s = c[i + j].add(&t);
                c.set(i + j, s);
                proof {
                    assert forall|q: int| 0 <= q < n implies (#[trigger] c@[q])@ == (if i <= q < i + j + 1 {
                        conv(a, b, q, (i + 1) as nat)
                    } else {
                        conv(a, b, q, i as nat)
                    }) by {
                        if q == i + j {
                            assert(q - i == j);
                        }
                    }
                }
                j = j + 1;
            }
            proof {
                assert forall|q: int| 0 <= q < n implies (#[trigger] c@[q])@ == conv(a, b, q, (i + 1) as nat) by {
                    if !(i <= q < i + lb) {
                        assert(!(0 <= q - i < b.len()));
                    }
                }
            }
            i = i + 1;
        }
        proof {
            assert(rat_values(c@) =~= Seq::new(n as nat, |q: int| conv(a, b, q, a.len())));
        }
        UniPoly::from_coeffs(c)
    }

    /// `self^e`, by repeated multiplication.
    pub fn pow(&self, e: u32) -> (p: UniPoly)
        requires
            self.wf(),
            (e as int + 1) * (self@.len() + 1) <= usize::MAX,
        ensures
            p.wf(),
            p@ == uni_pow(self@, e as nat),
    {
        let mut acc = UniPoly::constant(Rat::one());
        assert(acc@ == seq![qv_one()]);
        let mut k: u32 = 0;
        while k < e
            invariant
                self.wf(),
                (e as int + 1) * (self@.len() + 1) <= usize::MAX,
                k <= e,
                acc.wf(),
                acc@ == uni_pow(self@, k as nat),
            decreases e - k,
        {
            proof {
                lemma_uni_pow_len(self@, k as nat);
                assert(1 + k * self@.len() + self@.len() <= (e as int + 1) * (self@.len() + 1)) by (nonlinear_arith)
                    requires
                        k < e,
                ;
            }
            acc = acc.mul(self);
            k = k + 1;
        }
        acc
    }

    /// The shifted polynomial `p(x + s)`.
    pub fn shift(&self, s: i64) -> (p: UniPoly)
        requires
            self.wf(),
            2 * self@.len() + 4 <= usize::MAX,
        ensures
            p.wf(),
            p@ == shift_acc(self@, s as int, self@.len()),
    {
        let mut v: Vec<Rat> = Vec::new();
        v.push(Rat::from_i64(s));
        v.push(Rat::one());
        proof {
            assert(rat_values(v@) =~= seq![(s as int, 1nat), qv_one()]);
        }
        let xs = UniPoly::from_coeffs(v);
        let mut acc = UniPoly::zero();
        let mut pw = UniPoly::constant(Rat::one());
        assert(pw@ == seq![qv_one()]);
        let mut i: usize = 0;
        while i < self.coeffs.len()
            invariant
                self.wf(),
                2 * self@.len() + 4 <= usize::MAX,
                i <= self@.len(),
                xs.wf(),
                xs@ == x_plus(s as int),
                acc.wf(),
                pw.wf(),
                acc@ == shift_acc(self@, s as int, i as nat),
                pw@ == uni_pow(x_plus(s as int), i as nat),
            decreases self.coeffs.len() - i,
        {
            proof {
                lemma_trim(seq![(s as int, 1nat), qv_one()]);
                lemma_uni_pow_len(x_plus(s as int), i as nat);
                assert(i * x_plus(s as int).len() <= 2 * i) by (nonlinear_arith)
                    requires
                        x_plus(s as int).len() <= 2,
                ;
                lemma_uni_lens(pw@, self@, self@[i as int]);
            }
            let t = pw.scale(&self.coeffs[i]);
            acc = acc.add(&t);
            pw = pw.mul(&xs);
            i = i + 1;
        }
        acc
    }

    /// Long division: `(quotient, remainder)` with the remainder of lower
    /// degree than the divisor; `None` for a zero divisor.
    pub fn divmod(&self, divisor: &UniPoly) -> (r: Option<(UniPoly, UniPoly)>)
        requires
            self.wf(),
            divisor.wf(),
            self@.len() < usize::MAX,
        ensures
            (r is None) == (divisor@.len() == 0),
            r matches Some((q, rm)) ==> q.wf() && rm.wf() && q@ == uni_divmod(self@, divisor@).0 && rm@ == uni_divmod(
                self@,
                divisor@,
            ).1 && rm@.len() < divisor@.len(),
            r matches Some((q, rm)) ==> same_poly(self@, uni_add(uni_mul(q@, divisor@), rm@)),
    {
        if divisor.coeffs.len() == 0 {
            return None;
        }
        let ghost d = divisor@;
        let dlc = divisor.leading();
        let ddeg = divisor.coeffs.len() - 1;
        let qlen = (if self.coeffs.len() >= ddeg { self.coeffs.len() - ddeg } else { 0 }) + 1;
        let mut quot: Vec<Rat> = Vec::new();
        let mut k: usize = 0;
        while k < qlen
            invariant
                k <= qlen,
                quot@.len() == k,
                all_wf(quot@),
                forall|q: int| 0 <= q < k ==> (#[trigger] quot@[q])@ == qv_zero(),
            decreases qlen - k,
        {
            quot.push(Rat::zero());
            k = k + 1;
        }
        let mut rem = UniPoly { coeffs: copy_rats(&self.coeffs) };
        proof {
            assert(rat_values(quot@) =~= zeros(qlen as nat));
            assert(valid_coeffs(self@)) by {
                assert forall|i: int| 0 <= i < self@.len() implies (#[trigger] self@[i]).1 > 0 by {
                    assert(self.coeffs@[i].wf());
                }
            }
            assert(valid_coeffs(d)) by {
                assert forall|i: int| 0 <= i < d.len() implies (#[trigger] d[i]).1 > 0 by {
                    assert(divisor.coeffs@[i].wf());
                }
            }
        }
        while rem.coeffs.len() > 0 && rem.coeffs.len() - 1 >= ddeg
            invariant
                self.wf(),
                divisor.wf(),
                d == divisor@,
                d.len() > 0,
                ddeg == d.len() - 1,
                dlc.wf(),
                dlc@ == d.last(),
                d.last().0 != 0,
                valid_coeffs(d),
                rem.wf(),
                valid_coeffs(rem@),
                rem@.len() <= self@.len(),
                qlen == quot_len(self@, d),
                quot@.len() == qlen,
                all_wf(quot@),
                div_loop(self@, zeros(qlen as nat), d) == div_loop(rem@, rat_values(quot@), d),
            decreases rem.coeffs.len(),
        {
            let rdeg = rem.coeffs.len() - 1;
            let shift = rdeg - ddeg;
            let rlc = rem.leading();
            let factor = rlc.div(&dlc);
            let ghost old_rem = rem@;
            let ghost old_quot = rat_values(quot@);
            quot.set(shift, factor.copy());
            let mut sub: Vec<Rat> = Vec::new();
            let mut t: usize = 0;
            while t < shift
                invariant
                    t <= shift,
                    sub@.len() == t,
                    all_wf(sub@),
                    forall|q: int| 0 <= q < t ==> (#[trigger] sub@[q])@ == qv_zero(),
                decreases shift - t,
            {
                sub.push(Rat::zero());
                t = t + 1;
            }
            let mut j: usize = 0;
            while j < divisor.coeffs.len()
                invariant
                    divisor.wf(),
                    d == divisor@,
                    factor.wf(),
                    j <= d.len(),
                    sub@.len() == shift + j,
                    all_wf(sub@),
                    forall|q: int| 0 <= q < shift ==> (#[trigger] sub@[q])@ == qv_zero(),
                    forall|q: int| shift <= q < shift + j ==> (#[trigger] sub@[q])@ == qv_mul(d[q - shift], factor@),
                decreases divisor.coeffs.len() - j,
            {
                sub.push(divisor.coeffs[j].mul(&factor));
                j = j + 1;
            }
            proof {
                assert(rat_values(sub@) =~= Seq::new(
                    (shift + d.len()) as nat,
                    |q: int| if q >= shift { qv_mul(d[q - shift], factor@) } else { qv_zero() },
                ));
                lemma_div_step(old_rem, d);
                assert(rat_values(quot@) =~= old_quot.update(shift as int, factor@));
            }
            let subp = UniPoly::from_coeffs(sub);
            rem = rem.sub(&subp);
        }
        proof {
            lemma_div_loop(self@, zeros(qlen as nat), d);
            assert(valid_coeffs(self@)) by {
                assert forall|i: int| 0 <= i < self@.len() implies (#[trigger] self@[i]).1 > 0 by {
                    assert(self.coeffs@[i].wf());
                }
            }
            assert(valid_coeffs(d)) by {
                assert forall|i: int| 0 <= i < d.len() implies (#[trigger] d[i]).1 > 0 by {
                    assert(divisor.coeffs@[i].wf());
                }
            }
            lemma_divmod_identity(self@, d);
        }
        Some((UniPoly::from_coeffs(quot), rem))
    }

    /// Does `self` divide `dividend` exactly?
    pub fn divides(&self, dividend: &UniPoly) -> (b: bool)
        requires
            self.wf(),
            dividend.wf(),
            dividend@.len() < usize::MAX,
        ensures
            b == (self@.len() > 0 && uni_divmod(dividend@, self@).1.len() == 0),
    {
        match dividend.divmod(self) {
            Some((_, r)) => r.is_zero(),
            None => false,
        }
    }

    /// The monic gcd, by Euclid's algorithm over the rationals.
    pub fn gcd(&self, other: &UniPoly) -> (g: UniPoly)
        requires
            self.wf(),
            other.wf(),
            self@.len() < usize::MAX,
            other@.len() < usize::MAX,
        ensures
            g.wf(),
            g@ == uni_monic(gcd_loop(self@, other@)),
            other@.len() == 1 ==> g@.len() == 1 && g@[0].0 == g@[0].1,
            self@.len() == 1 ==> g@.len() == 1 && g@[0].0 == g@[0].1,
            other@.len() == 0 ==> g@ == uni_monic(self@),
            self@.len() == 0 ==> g@ == uni_monic(other@),
    {
        proof {
            lemma_gcd_with_zero(self@);
            lemma_gcd_with_zero(other@);
            if other@.len() == 1 {
                assert(other.coeffs@[0].wf());
                assert(valid_coeffs(self@)) by {
                    assert forall|i: int| 0 <= i < self@.len() implies (#[trigger] self@[i]).1 > 0 by {
                        assert(self.coeffs@[i].wf());
                    }
                }
                assert(other@ == seq![other@[0]]);
                lemma_gcd_with_constant(self@, other@[0]);
            }
            if self@.len() == 1 {
                assert(self.coeffs@[0].wf());
                assert(valid_coeffs(other@)) by {
                    assert forall|i: int| 0 <= i < other@.len() implies (#[trigger] other@[i]).1 > 0 by {
                        assert(other.coeffs@[i].wf());
                    }
                }
                assert(self@ == seq![self@[0]]);
                lemma_gcd_of_constant(self@[0], other@);
            }
        }
        let mut a = UniPoly { coeffs: copy_rats(&self.coeffs) };
        let mut b = UniPoly { coeffs: copy_rats(&other.coeffs) };
        while !b.is_zero()
            invariant
                a.wf(),
                b.wf(),
                a@.len() < usize::MAX,
                b@.len() < usize::MAX,
                gcd_loop(self@, other@) == gcd_loop(a@, b@),
            decreases b.coeffs.len(),
        {
            let (_, r) = a.divmod(&b).expect("divisor nonzero in gcd loop");
            a = b;
            b = r;
        }
        if a.coeffs.len() > 0 {
            let lc = a.leading();
            let inv = Rat::one().div(&lc);
            a = a.scale(&inv);
        }
        a
    }

    /// Lagrange interpolation through points with pairwise distinct `x` values:
    /// `sum_j y_j * prod_{m != j} (x - x_m) / (x_j - x_m)`.
    pub fn interpolate(points: &Vec<(Rat, Rat)>) -> (p: UniPoly)
        requires
            forall|j: int| 0 <= j < points@.len() ==> (#[trigger] points@[j]).0.wf() && points@[j].1.wf(),
            forall|j: int, m: int|
                0 <= j < points@.len() && 0 <= m < points@.len() && j != m ==> (#[trigger] points@[j]).0@.0
                    * (#[trigger] points@[m]).0@.1 != points@[m].0@.0 * points@[j].0@.1,
            2 * points@.len() + 4 <= usize::MAX,
        ensures
            p.wf(),
            p@ == lagrange_sum(point_xs(points@), point_ys(points@), points@.len()),
    {
        let ghost xs = point_xs(points@);
        let ghost ys = point_ys(points@);
        let n = points.len();
        let mut result = UniPoly::zero();
        let mut j: usize = 0;
        while j < n
            invariant
                n == points@.len(),
                xs == point_xs(points@),
                ys == point_ys(points@),
                forall|q: int| 0 <= q < points@.len() ==> (#[trigger] points@[q]).0.wf() && points@[q].1.wf(),
                forall|a: int, b: int|
                    0 <= a < points@.len() && 0 <= b < points@.len() && a != b ==> (#[trigger] points@[a]).0@.0
                        * (#[trigger] points@[b]).0@.1 != points@[b].0@.0 * points@[a].0@.1,
                2 * n + 4 <= usize::MAX,
                j <= n,
                result.wf(),
                result@ == lagrange_sum(xs, ys, j as nat),
                result@.len() <= 1 + 2 * n,
            decreases n - j,
        {
            let mut term = UniPoly::constant(points[j].1.copy());
            proof {
                lemma_trim(seq![points@[j as int].1@]);
            }
            let mut m: usize = 0;
            while m < n
                invariant
                    n == points@.len(),
                    xs == point_xs(points@),
                    ys == point_ys(points@),
                    forall|q: int| 0 <= q < points@.len() ==> (#[trigger] points@[q]).0.wf() && points@[q].1.wf(),
                    forall|a: int, b: int|
                        0 <= a < points@.len() && 0 <= b < points@.len() && a != b ==> (#[trigger] points@[a]).0@.0
                            * (#[trigger] points@[b]).0@.1 != points@[b].0@.0 * points@[a].0@.1,
                    2 * n + 4 <= usize::MAX,
                    j < n,
                    m <= n,
                    term.wf(),
                    term@ == lagrange_term(xs, ys, j as int, m as nat),
                    term@.len() <= 1 + 2 * m,
                decreases n - m,
            {
                if m != j {
                    let xj = &points[j].0;
                    let xm = &points[m].0;
                    let denom = xj.sub(xm);
                    proof {
                        assert(xj@.1 * xm@.1 != 0) by (nonlinear_arith)
                            requires
                                xj@.1 > 0,
                                xm@.1 > 0,
                        ;
                        lemma_reduce_value(xj@.0 * xm@.1 - xm@.0 * xj@.1, (xj@.1 * xm@.1) as int);
                    }
                    let inv = Rat::one().div(&denom);
                    let mut v: Vec<Rat> = Vec::new();
                    v.push(xm.neg());
                    v.push(Rat::one());
                    proof {
                        assert(rat_values(v@) =~= seq![qv_neg(xm@), qv_one()]);
                        lemma_trim(seq![qv_neg(xm@), qv_one()]);
                    }
                    let lin = UniPoly::from_coeffs(v);
                    let factor = lin.scale(&inv);
                    proof {
                        lemma_uni_lens(lin@, lin@, inv@);
                        lemma_uni_lens(term@, factor@, inv@);
                    }
                    term = term.mul(&factor);
                }
                m = m + 1;
            }
            proof {
                lemma_uni_lens(result@, term@, qv_zero());
            }
            result = result.add(&term);
            j = j + 1;
        }
        result
    }

    /// The same polynomial as a multivariate one in the variable `var`.
    pub fn to_multivar(&self, var: &str) -> (p: Poly)
        requires
            self.wf(),
            self@.len() <= u32::MAX + 1,
        ensures
            p.wf(),
            p@ == prune(multivar_terms(self@, var@, self@.len())),
    {
        let mut out = Poly::zero();
        let mut i: usize = 0;
        while i < self.coeffs.len()
            invariant
                self.wf(),
                self@.len() <= u32::MAX + 1,
                out.wf(),
                i <= self@.len(),
                out@ == multivar_terms(self@, var@, i as nat),
            decreases self.coeffs.len() - i,
        {
            let mut mono: Vec<(String, u32)> = Vec::new();
            if i > 0 {
                mono.push((str_to_string(var), i as u32));
            }
            proof {
                if i > 0 {
                    assert(mono_view(mono@) =~= seq![(var@, i as nat)]);
                    assert(exp_total(seq![(var@, i as nat)].drop_last(), var@) == 0);
                    assert forall|v: Seq<char>| #[trigger] exp_total(mono_view(mono@), v) <= u32::MAX by {
                        assert(exp_total(seq![(var@, i as nat)].drop_last(), v) == 0);
                    }
                } else {
                    assert(mono_view(mono@) =~= Seq::<(Seq<char>, nat)>::empty());
                }
            }
            out.add_term(&mono, self.coeffs[i].copy());
            i = i + 1;
        }
        out.prune();
        out
    }

    /// The value at `x`, by Horner's rule.
    pub fn eval(&self, x: &Rat) -> (r: Rat)
        requires
            self.wf(),
            x.wf(),
        ensures
            r.wf(),
            r@ == horner(self@, x@),
    {
        let mut acc = Rat::zero();
        let mut k: usize = self.coeffs.len();
        assert(self@.skip(k as int) =~= Seq::<(int, nat)>::empty());
        while k > 0
            invariant
                self.wf(),
                x.wf(),
                k <= self@.len(),
                acc.wf(),
                acc@ == horner(self@.skip(k as int), x@),
            decreases k,
        {
            k = k - 1;
            let t = acc.mul(x);
            acc = t.add(&self.coeffs[k]);
            assert(self@.skip(k as int).drop_first() =~= self@.skip(k + 1));
        }
        assert(self@.skip(0) =~= self@);
        acc
    }
}

// ---- names, monomials and their order ----

/// Character order on names (by code point).
pub open spec fn str_lt(a: Seq<char>, b: Seq<char>) -> bool
    decreases a.len(),
{
    if a.len() == 0 {
        b.len() > 0
    } else if b.len() == 0 {
        false
    } else if a[0] != b[0] {
        (a[0] as int) < (b[0] as int)
    } else {
        str_lt(a.drop_first(), b.drop_first())
    }
}

proof fn lemma_str_lt_irrefl(a: Seq<char>)
    ensures
        !str_lt(a, a),
    decreases a.len(),
{
    if a.len() > 0 {
        lemma_str_lt_irrefl(a.drop_first());
    }
}

proof fn lemma_str_lt_trans(a: Seq<char>, b: Seq<char>, c: Seq<char>)
    requires
        str_lt(a, b),
        str_lt(b, c),
    ensures
        str_lt(a, c),
    decreases a.len(),
{
    if a.len() > 0 && b.len() > 0 && c.len() > 0 {
        if a[0] == b[0] && b[0] == c[0] {
            lemma_str_lt_trans(a.drop_first(), b.drop_first(), c.drop_first());
        }
    }
}

proof fn lemma_str_lt_total(a: Seq<char>, b: Seq<char>)
    ensures
        a == b || str_lt(a, b) || str_lt(b, a),
    decreases a.len(),
{
    if a.len() > 0 && b.len() > 0 {
        if a[0] == b[0] {
            lemma_str_lt_total(a.drop_first(), b.drop_first());
            if a.drop_first() == b.drop_first() {
                assert(a.drop_first().len() == b.drop_first().len());
                assert(a.len() == b.len());
                assert forall|i: int| 0 <= i < a.len() implies a[i] == b[i] by {
                    if i > 0 {
                        assert(a[i] == a.drop_first()[i - 1]);
                        assert(b[i] == b.drop_first()[i - 1]);
                    }
                }
                assert(a =~= b);
            }
        } else {
            assert((a[0] as int) != (b[0] as int));
        }
    } else if a.len() == 0 && b.len() == 0 {
        assert(a =~= b);
    }
}

proof fn lemma_str_lt_asym(a: Seq<char>, b: Seq<char>)
    requires
        str_lt(a, b),
    ensures
        !str_lt(b, a),
        a != b,
{
    lemma_str_lt_irrefl(a);
    if str_lt(b, a) {
        lemma_str_lt_trans(a, b, a);
    }
}

/// Compare two strings by character order: negative, zero or positive.
fn order_names(a: &String, b: &String) -> (r: i8)
    ensures
        (r < 0) == str_lt(a@, b@),
        (r == 0) == (a@ == b@),
        (r > 0) == str_lt(b@, a@),
{
    let x = string_chars(a);
    let y = string_chars(b);
    let mut i: usize = 0;
    proof {
        lemma_str_lt_total(a@, b@);
        lemma_str_lt_irrefl(a@);
        if str_lt(a@, b@) {
            lemma_str_lt_asym(a@, b@);
        }
        if str_lt(b@, a@) {
            lemma_str_lt_asym(b@, a@);
        }
        assert(x@.skip(0) =~= x@);
        assert(y@.skip(0) =~= y@);
    }
    while i < x.len() && i < y.len()
        invariant
            x@ == a@,
            y@ == b@,
            i <= x@.len(),
            i <= y@.len(),
            x@.take(i as int) == y@.take(i as int),
            str_lt(a@, b@) == str_lt(x@.skip(i as int), y@.skip(i as int)),
            str_lt(b@, a@) == str_lt(y@.skip(i as int), x@.skip(i as int)),
        decreases x.len() - i,
    {
        assert(x@.skip(i as int)[0] == x@[i as int]);
        assert(y@.skip(i as int)[0] == y@[i as int]);
        if x[i] != y[i] {
            if x[i] < y[i] {
                return -1;
            } else {
                return 1;
            }
        }
        assert(x@.skip(i as int).drop_first() =~= x@.skip(i + 1));
        assert(y@.skip(i as int).drop_first() =~= y@.skip(i + 1));
        assert(x@.take(i + 1) =~= x@.take(i as int).push(x@[i as int]));
        assert(y@.take(i + 1) =~= y@.take(i as int).push(y@[i as int]));
        i = i + 1;
    }
    if x.len() == y.len() {
        assert(x@ =~= x@.take(i as int));
        assert(y@ =~= y@.take(i as int));
        0
    } else if x.len() < y.len() {
        proof {
            if a@ == b@ {
                assert(x@.len() == y@.len());
            }
        }
        -1
    } else {
        proof {
            if a@ == b@ {
                assert(x@.len() == y@.len());
            }
        }
        1
    }
}

/// A monomial's model: `(variable name, exponent)` pairs.
pub open spec fn mono_view(m: Seq<(String, u32)>) -> Seq<(Seq<char>, nat)> {
    m.map_values(|p: (String, u32)| (p.0@, p.1 as nat))
}

/// Variable names strictly increase.
pub open spec fn names_sorted(m: Seq<(Seq<char>, nat)>) -> bool {
    forall|i: int, j: int| 0 <= i < j < m.len() ==> str_lt(#[trigger] m[i].0, #[trigger] m[j].0)
}

/// A normalized monomial: names strictly increasing, exponents positive.
pub open spec fn mono_normal(m: Seq<(Seq<char>, nat)>) -> bool {
    &&& names_sorted(m)
    &&& forall|i: int| 0 <= i < m.len() ==> (#[trigger] m[i]).1 > 0
}

/// The number of leading entries whose name comes before `v`.
pub open spec fn name_lb(m: Seq<(Seq<char>, nat)>, v: Seq<char>) -> nat
    decreases m.len(),
{
    if m.len() == 0 {
        0
    } else if str_lt(m[0].0, v) {
        1 + name_lb(m.drop_first(), v)
    } else {
        0
    }
}

/// Add exponent `e` of variable `v` into a normalized monomial.
pub open spec fn mono_insert(acc: Seq<(Seq<char>, nat)>, v: Seq<char>, e: nat) -> Seq<(Seq<char>, nat)> {
    if e == 0 {
        acc
    } else {
        let k = name_lb(acc, v) as int;
        if k < acc.len() && acc[k].0 == v {
            acc.update(k, (v, acc[k].1 + e))
        } else {
            acc.insert(k, (v, e))
        }
    }
}

/// The normal form of a monomial: zero exponents dropped, one entry per
/// variable holding its total exponent, ordered by name.
pub open spec fn norm(m: Seq<(Seq<char>, nat)>) -> Seq<(Seq<char>, nat)>
    decreases m.len(),
{
    if m.len() == 0 {
        Seq::empty()
    } else {
        mono_insert(norm(m.drop_last()), m.last().0, m.last().1)
    }
}

/// The total exponent of variable `v` in `m`.
pub open spec fn exp_total(m: Seq<(Seq<char>, nat)>, v: Seq<char>) -> nat
    decreases m.len(),
{
    if m.len() == 0 {
        0
    } else {
        exp_total(m.drop_last(), v) + if m.last().0 == v {
            m.last().1
        } else {
            0
        }
    }
}

/// Every variable's total exponent fits in `u32`.
pub open spec fn mono_fits(m: Seq<(Seq<char>, nat)>) -> bool {
    forall|v: Seq<char>| #[trigger] exp_total(m, v) <= u32::MAX
}

proof fn lemma_name_lb(m: Seq<(Seq<char>, nat)>, v: Seq<char>)
    requires
        names_sorted(m),
    ensures
        name_lb(m, v) <= m.len(),
        forall|i: int| 0 <= i < name_lb(m, v) ==> str_lt(#[trigger] m[i].0, v),
        forall|i: int| name_lb(m, v) <= i < m.len() ==> !str_lt(#[trigger] m[i].0, v),
    decreases m.len(),
{
    if m.len() > 0 {
        let t = m.drop_first();
        assert(names_sorted(t)) by {
            assert forall|i: int, j: int| 0 <= i < j < t.len() implies str_lt(#[trigger] t[i].0, #[trigger] t[j].0) by {
                assert(str_lt(m[i + 1].0, m[j + 1].0));
            }
        }
        lemma_name_lb(t, v);
        if str_lt(m[0].0, v) {
            assert forall|i: int| 0 <= i < name_lb(m, v) implies str_lt(#[trigger] m[i].0, v) by {
                if i > 0 {
                    assert(m[i] == t[i - 1]);
                }
            }
            assert forall|i: int| name_lb(m, v) <= i < m.len() implies !str_lt(#[trigger] m[i].0, v) by {
                assert(m[i] == t[i - 1]);
            }
        } else {
            assert forall|i: int| 0 <= i < m.len() implies !str_lt(#[trigger] m[i].0, v) by {
                if i > 0 {
                    assert(str_lt(m[0].0, m[i].0));
                    lemma_str_lt_total(m[i].0, v);
                    if str_lt(m[i].0, v) {
                        lemma_str_lt_trans(m[0].0, m[i].0, v);
                    }
                }
            }
        }
    }
}

proof fn lemma_exp_total_update(s: Seq<(Seq<char>, nat)>, k: int, x: (Seq<char>, nat), w: Seq<char>)
    requires
        0 <= k < s.len(),
    ensures
        exp_total(s.update(k, x), w) + (if s[k].0 == w { s[k].1 } else { 0 }) == exp_total(s, w) + (if x.0 == w {
            x.1
        } else {
            0
        }),
    decreases s.len(),
{
    if k < s.len() - 1 {
        lemma_exp_total_update(s.drop_last(), k, x, w);
        assert(s.update(k, x).drop_last() =~= s.drop_last().update(k, x));
    } else {
        assert(s.update(k, x).drop_last() =~= s.drop_last());
    }
}

proof fn lemma_exp_total_insert(s: Seq<(Seq<char>, nat)>, k: int, x: (Seq<char>, nat), w: Seq<char>)
    requires
        0 <= k <= s.len(),
    ensures
        exp_total(s.insert(k, x), w) == exp_total(s, w) + (if x.0 == w { x.1 } else { 0 }),
    decreases s.len(),
{
    if k < s.len() {
        lemma_exp_total_insert(s.drop_last(), k, x, w);
        assert(s.insert(k, x).drop_last() =~= s.drop_last().insert(k, x));
        assert(s.insert(k, x).last() == s.last());
    } else {
        assert(s.insert(k, x).drop_last() =~= s);
    }
}

proof fn lemma_exp_total_entry(s: Seq<(Seq<char>, nat)>, k: int)
    requires
        0 <= k < s.len(),
    ensures
        exp_total(s, s[k].0) >= s[k].1,
    decreases s.len(),
{
    if k < s.len() - 1 {
        lemma_exp_total_entry(s.drop_last(), k);
    }
}

proof fn lemma_exp_total_prefix(s: Seq<(Seq<char>, nat)>, i: int, w: Seq<char>)
    requires
        0 <= i <= s.len(),
    ensures
        exp_total(s.take(i), w) <= exp_total(s, w),
    decreases s.len(),
{
    if i < s.len() {
        lemma_exp_total_prefix(s.drop_last(), i, w);
        assert(s.drop_last().take(i) =~= s.take(i));
    } else {
        assert(s.take(i) =~= s);
    }
}

/// Inserting into a normalized monomial keeps it normalized and adds `e` to the
/// total of `v`.
proof fn lemma_mono_insert(acc: Seq<(Seq<char>, nat)>, v: Seq<char>, e: nat)
    requires
        mono_normal(acc),
    ensures
        mono_normal(mono_insert(acc, v, e)),
        forall|w: Seq<char>| #[trigger] exp_total(mono_insert(acc, v, e), w) == exp_total(acc, w) + if w == v {
            e
        } else {
            0
        },
{
    if e > 0 {
        lemma_name_lb(acc, v);
        let k = name_lb(acc, v) as int;
        let r = mono_insert(acc, v, e);
        if k < acc.len() && acc[k].0 == v {
            assert(mono_normal(r)) by {
                assert forall|i: int, j: int| 0 <= i < j < r.len() implies str_lt(#[trigger] r[i].0, #[trigger] r[j].0) by {
                    assert(r[i].0 == acc[i].0);
                    assert(r[j].0 == acc[j].0);
                }
            }
            assert forall|w: Seq<char>| #[trigger] exp_total(r, w) == exp_total(acc, w) + if w == v {
                e
            } else {
                0
            } by {
                lemma_exp_total_update(acc, k, (v, acc[k].1 + e), w);
            }
        } else {
            assert(mono_normal(r)) by {
                assert forall|i: int, j: int| 0 <= i < j < r.len() implies str_lt(#[trigger] r[i].0, #[trigger] r[j].0) by {
                    if j == k {
                        assert(r[i] == acc[i]);
                    } else if i == k {
                        assert(r[j] == acc[j - 1]);
                        lemma_str_lt_total(acc[j - 1].0, v);
                        if j - 1 > k {
                            assert(str_lt(acc[k].0, acc[j - 1].0));
                            lemma_str_lt_total(acc[k].0, v);
                            if acc[j - 1].0 == v {
                            } else if str_lt(acc[j - 1].0, v) {
                                lemma_str_lt_trans(acc[k].0, acc[j - 1].0, v);
                            }
                        }
                    } else if i > k {
                        assert(r[i] == acc[i - 1]);
                        assert(r[j] == acc[j - 1]);
                    } else if j > k {
                        assert(r[i] == acc[i]);
                        assert(r[j] == acc[j - 1]);
                    } else {
                        assert(r[i] == acc[i]);
                        assert(r[j] == acc[j]);
                    }
                }
                assert forall|i: int| 0 <= i < r.len() implies (#[trigger] r[i]).1 > 0 by {
                    if i < k {
                        assert(r[i] == acc[i]);
                    } else if i > k {
                        assert(r[i] == acc[i - 1]);
                    }
                }
            }
            assert forall|w: Seq<char>| #[trigger] exp_total(r, w) == exp_total(acc, w) + if w == v {
                e
            } else {
                0
            } by {
                lemma_exp_total_insert(acc, k, (v, e), w);
            }
        }
    }
}

/// The normal form is normalized and keeps every variable's total exponent.
proof fn lemma_norm(m: Seq<(Seq<char>, nat)>)
    ensures
        mono_normal(norm(m)),
        forall|w: Seq<char>| #[trigger] exp_total(norm(m), w) == exp_total(m, w),
    decreases m.len(),
{
    if m.len() > 0 {
        lemma_norm(m.drop_last());
        lemma_mono_insert(norm(m.drop_last()), m.last().0, m.last().1);
    }
}

/// Order on monomial entries: by name, then by exponent.
pub open spec fn entry_lt(x: (Seq<char>, nat), y: (Seq<char>, nat)) -> bool {
    str_lt(x.0, y.0) || (x.0 == y.0 && x.1 < y.1)
}

/// Lexicographic order on monomials (the order of their terms).
pub open spec fn mono_lt(a: Seq<(Seq<char>, nat)>, b: Seq<(Seq<char>, nat)>) -> bool
    decreases a.len(),
{
    if a.len() == 0 {
        b.len() > 0
    } else if b.len() == 0 {
        false
    } else if a[0] != b[0] {
        entry_lt(a[0], b[0])
    } else {
        mono_lt(a.drop_first(), b.drop_first())
    }
}

proof fn lemma_entry_lt(x: (Seq<char>, nat), y: (Seq<char>, nat))
    ensures
        x == y || entry_lt(x, y) || entry_lt(y, x),
        !(entry_lt(x, y) && entry_lt(y, x)),
        !entry_lt(x, x),
{
    lemma_str_lt_total(x.0, y.0);
    lemma_str_lt_irrefl(x.0);
    if str_lt(x.0, y.0) {
        lemma_str_lt_asym(x.0, y.0);
    }
    if str_lt(y.0, x.0) {
        lemma_str_lt_asym(y.0, x.0);
    }
}

proof fn lemma_mono_lt_irrefl(a: Seq<(Seq<char>, nat)>)
    ensures
        !mono_lt(a, a),
    decreases a.len(),
{
    if a.len() > 0 {
        lemma_mono_lt_irrefl(a.drop_first());
    }
}

proof fn lemma_mono_lt(a: Seq<(Seq<char>, nat)>, b: Seq<(Seq<char>, nat)>)
    ensures
        a == b || mono_lt(a, b) || mono_lt(b, a),
        !(mono_lt(a, b) && mono_lt(b, a)),
        !mono_lt(a, a),
    decreases a.len(),
{
    lemma_mono_lt_irrefl(a);
    if a.len() > 0 && b.len() > 0 {
        lemma_entry_lt(a[0], b[0]);
        lemma_mono_lt(a.drop_first(), b.drop_first());
        if a[0] == b[0] && a.drop_first() == b.drop_first() {
            assert(a.len() == b.len());
            assert forall|i: int| 0 <= i < a.len() implies a[i] == b[i] by {
                if i > 0 {
                    assert(a[i] == a.drop_first()[i - 1]);
                    assert(b[i] == b.drop_first()[i - 1]);
                }
            }
            assert(a =~= b);
        }
    } else if a.len() == 0 && b.len() == 0 {
        assert(a =~= b);
    }
}

/// Compare two monomials: negative, zero or positive.
fn order_monos(a: &Vec<(String, u32)>, b: &Vec<(String, u32)>) -> (r: i8)
    ensures
        (r < 0) == mono_lt(mono_view(a@), mono_view(b@)),
        (r == 0) == (mono_view(a@) == mono_view(b@)),
        (r > 0) == mono_lt(mono_view(b@), mono_view(a@)),
{
    let ghost va = mono_view(a@);
    let ghost vb = mono_view(b@);
    proof {
        lemma_mono_lt(va, vb);
        assert(va.skip(0) =~= va);
        assert(vb.skip(0) =~= vb);
    }
    let mut i: usize = 0;
    while i < a.len() && i < b.len()
        invariant
            va == mono_view(a@),
            vb == mono_view(b@),
            i <= a@.len(),
            i <= b@.len(),
            va.take(i as int) == vb.take(i as int),
            mono_lt(va, vb) == mono_lt(va.skip(i as int), vb.skip(i as int)),
            mono_lt(vb, va) == mono_lt(vb.skip(i as int), va.skip(i as int)),
            !(mono_lt(va, vb) && mono_lt(vb, va)),
            va == vb || mono_lt(va, vb) || mono_lt(vb, va),
        decreases a.len() - i,
    {
        assert(va.skip(i as int)[0] == va[i as int]);
        assert(vb.skip(i as int)[0] == vb[i as int]);
        let c = order_names(&a[i].0, &b[i].0);
        proof {
            lemma_entry_lt(va[i as int], vb[i as int]);
        }
        if c != 0 {
            proof {
                assert(va[i as int] != vb[i as int]);
            }
            return if c < 0 { -1 } else { 1 };
        }
        if a[i].1 != b[i].1 {
            proof {
                assert(va[i as int] != vb[i as int]);
            }
            return if a[i].1 < b[i].1 { -1 } else { 1 };
        }
        proof {
            assert(va[i as int] == vb[i as int]);
            assert(va.skip(i as int).drop_first() =~= va.skip(i + 1));
            assert(vb.skip(i as int).drop_first() =~= vb.skip(i + 1));
            assert(va.take(i + 1) =~= va.take(i as int).push(va[i as int]));
            assert(vb.take(i + 1) =~= vb.take(i as int).push(vb[i as int]));
        }
        i = i + 1;
    }
    if a.len() == b.len() {
        assert(va =~= va.take(i as int));
        assert(vb =~= vb.take(i as int));
        0
    } else if a.len() < b.len() {
        proof {
            if va == vb {
                assert(va.len() == vb.len());
            }
        }
        -1
    } else {
        proof {
            if va == vb {
                assert(va.len() == vb.len());
            }
        }
        1
    }
}

/// A copy of a monomial.
fn copy_mono(m: &Vec<(String, u32)>) -> (r: Vec<(String, u32)>)
    ensures
        r@ == m@,
{
    let mut r: Vec<(String, u32)> = Vec::new();
    let mut i: usize = 0;
    while i < m.len()
        invariant
            i <= m@.len(),
            r@ == m@.take(i as int),
        decreases m.len() - i,
    {
        r.push((m[i].0.clone(), m[i].1));
        i = i + 1;
        assert(r@ =~= m@.take(i as int));
    }
    assert(m@.take(m@.len() as int) =~= m@);
    r
}

/// The normal form of a monomial (zero exponents dropped, one entry per
/// variable with its summed exponent, ordered by name).
fn norm_monomial(m: &Vec<(String, u32)>) -> (r: Vec<(String, u32)>)
    requires
        mono_fits(mono_view(m@)),
    ensures
        mono_view(r@) == norm(mono_view(m@)),
{
    let ghost vm = mono_view(m@);
    let mut acc: Vec<(String, u32)> = Vec::new();
    let mut i: usize = 0;
    proof {
        assert(vm.take(0) =~= Seq::<(Seq<char>, nat)>::empty());
        assert(mono_view(acc@) =~= Seq::<(Seq<char>, nat)>::empty());
    }
    while i < m.len()
        invariant
            vm == mono_view(m@),
            mono_fits(vm),
            i <= m@.len(),
            mono_view(acc@) == norm(vm.take(i as int)),
        decreases m.len() - i,
    {
        let ghost va = mono_view(acc@);
        proof {
            lemma_norm(vm.take(i as int));
            assert(vm.take(i + 1).drop_last() =~= vm.take(i as int));
            assert(vm.take(i + 1).last() == vm[i as int]);
        }
        let e = m[i].1;
        if e > 0 {
            let v = &m[i].0;
            let mut k: usize = 0;
            proof {
                lemma_name_lb(va, v@);
            }
            while k < acc.len() && order_names(&acc[k].0, v) < 0
                invariant
                    va == mono_view(acc@),
                    mono_normal(va),
                    k <= acc@.len(),
                    k <= name_lb(va, v@),
                    forall|q: int| 0 <= q < name_lb(va, v@) ==> str_lt(#[trigger] va[q].0, v@),
                    forall|q: int| name_lb(va, v@) <= q < va.len() ==> !str_lt(#[trigger] va[q].0, v@),
                decreases acc.len() - k,
            {
                assert(va[k as int].0 == acc@[k as int].0@);
                k = k + 1;
            }
            proof {
                if k < acc@.len() {
                    assert(va[k as int].0 == acc@[k as int].0@);
                }
                assert(k == name_lb(va, v@));
            }
            if k < acc.len() && order_names(&acc[k].0, v) == 0 {
                proof {
                    assert(va[k as int].0 == acc@[k as int].0@);
                    lemma_exp_total_entry(va, k as int);
                    lemma_exp_total_prefix(vm, i + 1, v@);
                    assert(exp_total(vm.take(i + 1), v@) == exp_total(vm.take(i as int), v@) + e);
                    assert(exp_total(vm, v@) <= u32::MAX);
                }
                let ne = acc[k].1 + e;
                let name = acc[k].0.clone();
                acc.set(k, (name, ne));
                proof {
                    assert(mono_view(acc@) =~= va.update(k as int, (v@, (va[k as int].1 + e) as nat)));
                }
            } else {
                acc.insert(k, (v.clone(), e));
                proof {
                    assert(mono_view(acc@) =~= va.insert(k as int, (v@, e as nat)));
                }
            }
        }
        i = i + 1;
    }
    proof {
        assert(vm.take(m@.len() as int) =~= vm);
    }
    acc
}

// ---- multivariate polynomials ----

/// A monomial: `(variable, exponent)` pairs.
pub type Monomial = Vec<(String, u32)>;

/// The number of leading terms whose monomial comes before `m`.
pub open spec fn term_lb(s: Seq<(Seq<(Seq<char>, nat)>, (int, nat))>, m: Seq<(Seq<char>, nat)>) -> nat
    decreases s.len(),
{
    if s.len() == 0 {
        0
    } else if mono_lt(s[0].0, m) {
        1 + term_lb(s.drop_first(), m)
    } else {
        0
    }
}

/// Add the term `c * m` into a term list: `m` is normalized, then merged into
/// the term with the same monomial (dropped if the sum cancels), or inserted in
/// monomial order.
pub open spec fn poly_add_term(
    s: Seq<(Seq<(Seq<char>, nat)>, (int, nat))>,
    m: Seq<(Seq<char>, nat)>,
    c: (int, nat),
) -> Seq<(Seq<(Seq<char>, nat)>, (int, nat))> {
    if c.0 == 0 {
        s
    } else {
        let m2 = norm(m);
        let k = term_lb(s, m2) as int;
        if k < s.len() && s[k].0 == m2 {
            let v = qv_add(s[k].1, c);
            if v.0 == 0 {
                s.remove(k)
            } else {
                s.update(k, (m2, v))
            }
        } else {
            let v = qv_add(qv_zero(), c);
            if v.0 == 0 {
                s
            } else {
                s.insert(k, (m2, v))
            }
        }
    }
}

/// The terms with a nonzero coefficient.
pub open spec fn prune(s: Seq<(Seq<(Seq<char>, nat)>, (int, nat))>) -> Seq<(Seq<(Seq<char>, nat)>, (int, nat))> {
    s.filter(|t: (Seq<(Seq<char>, nat)>, (int, nat))| t.1.0 != 0)
}

/// Add the terms of `t`, in order, into `s`.
pub open spec fn add_terms(
    s: Seq<(Seq<(Seq<char>, nat)>, (int, nat))>,
    t: Seq<(Seq<(Seq<char>, nat)>, (int, nat))>,
) -> Seq<(Seq<(Seq<char>, nat)>, (int, nat))>
    decreases t.len(),
{
    if t.len() == 0 {
        s
    } else {
        poly_add_term(add_terms(s, t.drop_last()), t.last().0, t.last().1)
    }
}

pub open spec fn poly_add(
    a: Seq<(Seq<(Seq<char>, nat)>, (int, nat))>,
    b: Seq<(Seq<(Seq<char>, nat)>, (int, nat))>,
) -> Seq<(Seq<(Seq<char>, nat)>, (int, nat))> {
    prune(add_terms(a, b))
}

pub open spec fn poly_neg(a: Seq<(Seq<(Seq<char>, nat)>, (int, nat))>) -> Seq<(Seq<(Seq<char>, nat)>, (int, nat))> {
    prune(a.map_values(|t: (Seq<(Seq<char>, nat)>, (int, nat))| (t.0, qv_neg(t.1))))
}

pub open spec fn poly_scale(a: Seq<(Seq<(Seq<char>, nat)>, (int, nat))>, k: (int, nat)) -> Seq<
    (Seq<(Seq<char>, nat)>, (int, nat)),
> {
    if k.0 == 0 {
        Seq::empty()
    } else {
        a.map_values(|t: (Seq<(Seq<char>, nat)>, (int, nat))| (t.0, qv_mul(t.1, k)))
    }
}

/// Add the products of term `x` with the first `j` terms of `b`.
pub open spec fn mul_row(
    acc: Seq<(Seq<(Seq<char>, nat)>, (int, nat))>,
    x: (Seq<(Seq<char>, nat)>, (int, nat)),
    b: Seq<(Seq<(Seq<char>, nat)>, (int, nat))>,
    j: nat,
) -> Seq<(Seq<(Seq<char>, nat)>, (int, nat))>
    decreases j,
{
    if j == 0 {
        acc
    } else {
        poly_add_term(mul_row(acc, x, b, (j - 1) as nat), x.0 + b[j - 1].0, qv_mul(x.1, b[j - 1].1))
    }
}

/// The products of the first `i` terms of `a` with all terms of `b`.
pub open spec fn mul_rows(
    a: Seq<(Seq<(Seq<char>, nat)>, (int, nat))>,
    b: Seq<(Seq<(Seq<char>, nat)>, (int, nat))>,
    i: nat,
) -> Seq<(Seq<(Seq<char>, nat)>, (int, nat))>
    decreases i,
{
    if i == 0 {
        Seq::empty()
    } else {
        mul_row(mul_rows(a, b, (i - 1) as nat), a[i - 1], b, b.len())
    }
}

pub open spec fn poly_mul(
    a: Seq<(Seq<(Seq<char>, nat)>, (int, nat))>,
    b: Seq<(Seq<(Seq<char>, nat)>, (int, nat))>,
) -> Seq<(Seq<(Seq<char>, nat)>, (int, nat))> {
    prune(mul_rows(a, b, a.len()))
}

/// Every product of a monomial of `a` with one of `b` has exponents that fit.
pub open spec fn mul_fits(a: Seq<(Seq<(Seq<char>, nat)>, (int, nat))>, b: Seq<(Seq<(Seq<char>, nat)>, (int, nat))>) -> bool {
    forall|i: int, j: int| 0 <= i < a.len() && 0 <= j < b.len() ==> #[trigger] mono_fits(a[i].0 + b[j].0)
}

/// A term's model.
pub open spec fn term_view(t: (Vec<(String, u32)>, Rat)) -> (Seq<(Seq<char>, nat)>, (int, nat)) {
    (mono_view(t.0@), t.1@)
}

/// A multivariate polynomial over the rationals, as an ordered list of terms.
#[derive(Clone, Debug, PartialEq, Eq)]
pub struct Poly {
    terms: Vec<(Vec<(String, u32)>, Rat)>,
}

impl View for Poly {
    type V = Seq<(Seq<(Seq<char>, nat)>, (int, nat))>;

    closed spec fn view(&self) -> Seq<(Seq<(Seq<char>, nat)>, (int, nat))> {
        self.terms@.map_values(|t: (Vec<(String, u32)>, Rat)| term_view(t))
    }
}

/// The canonical term list: every monomial normalized, no zero coefficient,
/// and the monomials strictly increasing (so each occurs once).
pub open spec fn terms_ok(s: Seq<(Seq<(Seq<char>, nat)>, (int, nat))>) -> bool {
    &&& forall|i: int| 0 <= i < s.len() ==> mono_normal(#[trigger] s[i].0)
    &&& forall|i: int| 0 <= i < s.len() ==> (#[trigger] s[i]).1.0 != 0
    &&& forall|i: int, j: int| 0 <= i < j < s.len() ==> mono_lt(#[trigger] s[i].0, #[trigger] s[j].0)
}

proof fn lemma_entry_lt_trans(x: (Seq<char>, nat), y: (Seq<char>, nat), z: (Seq<char>, nat))
    requires
        entry_lt(x, y),
        entry_lt(y, z),
    ensures
        entry_lt(x, z),
{
    if str_lt(x.0, y.0) && str_lt(y.0, z.0) {
        lemma_str_lt_trans(x.0, y.0, z.0);
    }
}

proof fn lemma_mono_lt_trans(a: Seq<(Seq<char>, nat)>, b: Seq<(Seq<char>, nat)>, c: Seq<(Seq<char>, nat)>)
    requires
        mono_lt(a, b),
        mono_lt(b, c),
    ensures
        mono_lt(a, c),
    decreases a.len(),
{
    if a.len() > 0 {
        lemma_entry_lt(a[0], c[0]);
        if a[0] != b[0] && b[0] != c[0] {
            lemma_entry_lt_trans(a[0], b[0], c[0]);
            lemma_entry_lt(a[0], c[0]);
        } else if a[0] == b[0] && b[0] == c[0] {
            lemma_mono_lt_trans(a.drop_first(), b.drop_first(), c.drop_first());
        }
    }
}

/// Coefficient changes that keep every monomial and leave no zero coefficient
/// keep a canonical term list canonical.
proof fn lemma_same_keys_ok(s: Seq<(Seq<(Seq<char>, nat)>, (int, nat))>, t: Seq<(Seq<(Seq<char>, nat)>, (int, nat))>)
    requires
        terms_ok(s),
        t.len() == s.len(),
        forall|i: int| 0 <= i < t.len() ==> (#[trigger] t[i]).0 == s[i].0 && t[i].1.0 != 0,
    ensures
        terms_ok(t),
{
    assert forall|i: int, j: int| 0 <= i < j < t.len() implies mono_lt(#[trigger] t[i].0, #[trigger] t[j].0) by {
        assert(t[i].0 == s[i].0);
        assert(t[j].0 == s[j].0);
        assert(mono_lt(s[i].0, s[j].0));
    }
    assert forall|i: int| 0 <= i < t.len() implies mono_normal(#[trigger] t[i].0) by {
        assert(t[i].0 == s[i].0);
    }
}

/// Dropping the zero terms keeps a term list canonical.
proof fn lemma_prune_ok(s: Seq<(Seq<(Seq<char>, nat)>, (int, nat))>)
    requires
        forall|i: int| 0 <= i < s.len() ==> mono_normal(#[trigger] s[i].0),
        forall|i: int, j: int| 0 <= i < j < s.len() ==> mono_lt(#[trigger] s[i].0, #[trigger] s[j].0),
    ensures
        terms_ok(prune(s)),
        forall|a: int| 0 <= a < prune(s).len() ==> exists|q: int| 0 <= q < s.len() && #[trigger] prune(s)[a] == s[q],
    decreases s.len(),
{
    reveal(Seq::filter);
    if s.len() > 0 {
        let d = s.drop_last();
        assert forall|i: int| 0 <= i < d.len() implies mono_normal(#[trigger] d[i].0) by {
            assert(d[i] == s[i]);
        }
        assert forall|i: int, j: int| 0 <= i < j < d.len() implies mono_lt(#[trigger] d[i].0, #[trigger] d[j].0) by {
            assert(d[i] == s[i]);
            assert(d[j] == s[j]);
        }
        lemma_prune_ok(d);
        let sub = prune(d);
        let out = prune(s);
        assert forall|a: int| 0 <= a < sub.len() implies mono_lt(#[trigger] sub[a].0, s.last().0) by {
            let q = choose|q: int| 0 <= q < d.len() && #[trigger] sub[a] == d[q];
            assert(d[q] == s[q]);
            assert(mono_lt(s[q].0, s[s.len() - 1].0));
        }
        if s.last().1.0 != 0 {
            assert(out == sub.push(s.last()));
            assert forall|a: int| 0 <= a < out.len() implies exists|q: int| 0 <= q < s.len() && #[trigger] out[a] == s[q] by {
                if a < sub.len() {
                    let q = choose|q: int| 0 <= q < d.len() && #[trigger] sub[a] == d[q];
                    assert(out[a] == sub[a]);
                    assert(s[q] == d[q]);
                } else {
                    assert(out[a] == s[s.len() - 1]);
                }
            }
            assert forall|i: int, j: int| 0 <= i < j < out.len() implies mono_lt(#[trigger] out[i].0, #[trigger] out[j].0) by {
                assert(out[i] == sub[i]);
                if j < sub.len() {
                    assert(out[j] == sub[j]);
                }
            }
            assert forall|i: int| 0 <= i < out.len() implies mono_normal(#[trigger] out[i].0) by {
                if i < sub.len() {
                    assert(out[i] == sub[i]);
                }
            }
            assert forall|i: int| 0 <= i < out.len() implies (#[trigger] out[i]).1.0 != 0 by {
                if i < sub.len() {
                    assert(out[i] == sub[i]);
                }
            }
        } else {
            assert(out == sub);
            assert forall|a: int| 0 <= a < out.len() implies exists|q: int| 0 <= q < s.len() && #[trigger] out[a] == s[q] by {
                let q = choose|q: int| 0 <= q < d.len() && #[trigger] sub[a] == d[q];
                assert(s[q] == d[q]);
            }
        }
    }
}

proof fn lemma_normal_fits(m: Seq<(Seq<char>, nat)>)
    requires
        mono_normal(m),
        forall|i: int| 0 <= i < m.len() ==> (#[trigger] m[i]).1 <= u32::MAX,
    ensures
        mono_fits(m),
{
    assert forall|v: Seq<char>| #[trigger] exp_total(m, v) <= u32::MAX by {
        lemma_normal_total(m, v);
    }
}

proof fn lemma_normal_total(m: Seq<(Seq<char>, nat)>, v: Seq<char>)
    requires
        names_sorted(m),
        forall|i: int| 0 <= i < m.len() ==> (#[trigger] m[i]).1 <= u32::MAX,
    ensures
        exp_total(m, v) <= u32::MAX,
        (forall|i: int| 0 <= i < m.len() ==> (#[trigger] m[i]).0 != v) ==> exp_total(m, v) == 0,
    decreases m.len(),
{
    if m.len() > 0 {
        let d = m.drop_last();
        assert(names_sorted(d)) by {
            assert forall|i: int, j: int| 0 <= i < j < d.len() implies str_lt(#[trigger] d[i].0, #[trigger] d[j].0) by {
                assert(str_lt(m[i].0, m[j].0));
            }
        }
        assert forall|i: int| 0 <= i < d.len() implies (#[trigger] d[i]).1 <= u32::MAX by {
            assert(d[i] == m[i]);
        }
        lemma_normal_total(d, v);
        if m.last().0 == v {
            assert forall|i: int| 0 <= i < d.len() implies (#[trigger] d[i]).0 != v by {
                assert(str_lt(m[i].0, m[m.len() - 1].0));
                lemma_str_lt_asym(m[i].0, m[m.len() - 1].0);
            }
            assert(m[m.len() - 1].1 <= u32::MAX);
        }
        if forall|i: int| 0 <= i < m.len() ==> (#[trigger] m[i]).0 != v {
            assert forall|i: int| 0 <= i < d.len() implies (#[trigger] d[i]).0 != v by {
                assert(d[i] == m[i]);
            }
            assert(m[m.len() - 1].0 != v);
        }
    }
}

impl Poly {
    /// Every coefficient a canonical rational, and the term list canonical.
    pub closed spec fn wf(self) -> bool {
        &&& forall|i: int| 0 <= i < self.terms@.len() ==> (#[trigger] self.terms@[i]).1.wf()
        &&& terms_ok(self@)
    }

    /// A polynomial holds each monomial once, in increasing monomial order,
    /// with no zero coefficient.
    pub proof fn lemma_canonical(self)
        requires
            self.wf(),
        ensures
            terms_ok(self@),
    {
    }

    proof fn lemma_view(self)
        ensures
            self@.len() == self.terms@.len(),
            forall|i: int| 0 <= i < self.terms@.len() ==> #[trigger] self@[i] == term_view(self.terms@[i]),
    {
    }

    /// The terms are normalized monomials with exponents that fit in `u32`.
    proof fn lemma_terms_fit(self)
        requires
            self.wf(),
        ensures
            forall|i: int| 0 <= i < self@.len() ==> #[trigger] mono_fits(self@[i].0),
    {
        assert forall|i: int| 0 <= i < self@.len() implies #[trigger] mono_fits(self@[i].0) by {
            let m = self.terms@[i].0@;
            assert(self@[i].0 == mono_view(m));
            assert forall|q: int| 0 <= q < mono_view(m).len() implies (#[trigger] mono_view(m)[q]).1 <= u32::MAX by {
                assert(mono_view(m)[q].1 == m[q].1 as nat);
            }
            lemma_normal_fits(mono_view(m));
        }
    }

    /// The zero polynomial.
    pub fn zero() -> (p: Poly)
        ensures
            p.wf(),
            p@ == Seq::<(Seq<(Seq<char>, nat)>, (int, nat))>::empty(),
    {
        let p = Poly { terms: Vec::new() };
        assert(p@ =~= Seq::<(Seq<(Seq<char>, nat)>, (int, nat))>::empty());
        p
    }

    /// A constant.
    pub fn constant(c: Rat) -> (p: Poly)
        requires
            c.wf(),
        ensures
            p.wf(),
            p@ == (if c@.0 == 0 {
                Seq::<(Seq<(Seq<char>, nat)>, (int, nat))>::empty()
            } else {
                seq![(Seq::<(Seq<char>, nat)>::empty(), c@)]
            }),
    {
        let mut p = Poly::zero();
        if !c.is_zero() {
            p.terms.push((Vec::new(), c));
            proof {
                assert(mono_view(Seq::<(String, u32)>::empty()) =~= Seq::<(Seq<char>, nat)>::empty());
                assert(p@ =~= seq![(Seq::<(Seq<char>, nat)>::empty(), c@)]);
            }
        }
        p
    }

    /// The terms of the integer constant `c`.
    pub open spec fn from_i64_view(c: i64) -> Seq<(Seq<(Seq<char>, nat)>, (int, nat))> {
        if c == 0 {
            Seq::empty()
        } else {
            seq![(Seq::<(Seq<char>, nat)>::empty(), (c as int, 1nat))]
        }
    }

    /// The integer constant `c`.
    pub fn from_i64(c: i64) -> (p: Poly)
        ensures
            p.wf(),
            p@ == Poly::from_i64_view(c),
    {
        Poly::constant(Rat::from_i64(c))
    }

    /// The polynomial `name`.
    pub fn var(name: &str) -> (p: Poly)
        ensures
            p.wf(),
            p@ == seq![(seq![(name@, 1nat)], qv_one())],
    {
        let mut mono: Vec<(String, u32)> = Vec::new();
        mono.push((str_to_string(name), 1));
        let mut p = Poly::zero();
        p.terms.push((mono, Rat::one()));
        proof {
            assert(mono_view(mono@) =~= seq![(name@, 1nat)]);
            assert(p@ =~= seq![(seq![(name@, 1nat)], qv_one())]);
            assert(mono_normal(mono_view(mono@)));
        }
        p
    }

    /// A copy.
    pub(crate) fn copy(&self) -> (p: Poly)
        requires
            self.wf(),
        ensures
            p.wf(),
            p@ == self@,
    {
        let mut terms: Vec<(Vec<(String, u32)>, Rat)> = Vec::new();
        let mut i: usize = 0;
        while i < self.terms.len()
            invariant
                self.wf(),
                i <= self.terms@.len(),
                terms@.len() == i,
                forall|q: int| 0 <= q < i ==> (#[trigger] terms@[q]).1.wf() && term_view(terms@[q]) == term_view(
                    self.terms@[q],
                ),
            decreases self.terms.len() - i,
        {
            let m = copy_mono(&self.terms[i].0);
            let c = self.terms[i].1.copy();
            terms.push((m, c));
            i = i + 1;
        }
        let p = Poly { terms };
        proof {
            assert(p@ =~= self@);
        }
        p
    }

    /// Add `coeff * mono`, keeping canonical form.
    fn add_term(&mut self, mono: &Vec<(String, u32)>, coeff: Rat)
        requires
            old(self).wf(),
            coeff.wf(),
            mono_fits(mono_view(mono@)),
        ensures
            final(self).wf(),
            final(self)@ == poly_add_term(old(self)@, mono_view(mono@), coeff@),
    {
        if coeff.is_zero() {
            return;
        }
        let nm = norm_monomial(mono);
        proof {
            lemma_norm(mono_view(mono@));
        }
        let ghost s = self@;
        let ghost m2 = mono_view(nm@);
        let mut k: usize = 0;
        proof {
            self.lemma_view();
        }
        while k < self.terms.len() && order_monos(&self.terms[k].0, &nm) < 0
            invariant
                s == self@,
                m2 == mono_view(nm@),
                k <= self.terms@.len(),
                s.len() == self.terms@.len(),
                forall|q: int| 0 <= q < self.terms@.len() ==> #[trigger] s[q] == term_view(self.terms@[q]),
                forall|q: int| 0 <= q < k ==> mono_lt(#[trigger] s[q].0, m2),
            decreases self.terms.len() - k,
        {
            assert(s[k as int] == term_view(self.terms@[k as int]));
            k = k + 1;
        }
        proof {
            if k < self.terms@.len() {
                assert(s[k as int] == term_view(self.terms@[k as int]));
            }
            lemma_term_lb_at(s, m2, k as int);
            if k < self.terms@.len() {
                lemma_mono_lt(s[k as int].0, m2);
            }
            lemma_terms_ok_ops(s, k as int, (m2, coeff@));
        }
        if k < self.terms.len() && order_monos(&self.terms[k].0, &nm) == 0 {
            let v = self.terms[k].1.add(&coeff);
            proof {
                lemma_terms_ok_ops(s, k as int, (m2, v@));
            }
            if v.is_zero() {
                let _ = self.terms.remove(k);
                proof {
                    assert(self@ =~= s.remove(k as int));
                }
            } else {
                self.terms.set(k, (nm, v));
                proof {
                    assert(self@ =~= s.update(k as int, (m2, v@)));
                }
            }
        } else {
            let v = Rat::zero().add(&coeff);
            proof {
                lemma_terms_ok_ops(s, k as int, (m2, v@));
            }
            if !v.is_zero() {
                self.terms.insert(k, (nm, v));
                proof {
                    assert(self@ =~= s.insert(k as int, (m2, v@)));
                }
            }
        }
    }

    /// Drop the terms whose coefficient is zero.
    fn prune(&mut self)
        requires
            old(self).wf(),
        ensures
            final(self).wf(),
            final(self)@ == prune(old(self)@),
    {
        let ghost s = self@;
        let mut kept: Vec<(Vec<(String, u32)>, Rat)> = Vec::new();
        let mut i: usize = 0;
        proof {
            self.lemma_view();
        }
        while i < self.terms.len()
            invariant
                s == self@,
                self.wf(),
                i <= self.terms@.len(),
                s.len() == self.terms@.len(),
                forall|q: int| 0 <= q < self.terms@.len() ==> #[trigger] s[q] == term_view(self.terms@[q]),
                forall|q: int| 0 <= q < kept@.len() ==> (#[trigger] kept@[q]).1.wf() && mono_normal(term_view(kept@[q]).0),
                kept@.map_values(|t: (Vec<(String, u32)>, Rat)| term_view(t)) == prune(s.take(i as int)),
            decreases self.terms.len() - i,
        {
            proof {
                reveal(Seq::filter);
                assert(s.take(i + 1).drop_last() =~= s.take(i as int));
                assert(s.take(i + 1).last() == s[i as int]);
                assert(s[i as int] == term_view(self.terms@[i as int]));
            }
            if !self.terms[i].1.is_zero() {
                let m = copy_mono(&self.terms[i].0);
                let c = self.terms[i].1.copy();
                let ghost before = kept@;
                kept.push((m, c));
                proof {
                    assert(kept@.map_values(|t: (Vec<(String, u32)>, Rat)| term_view(t)) =~= before.map_values(
                        |t: (Vec<(String, u32)>, Rat)| term_view(t),
                    ).push(s[i as int]));
                }
            }
            i = i + 1;
        }
        proof {
            assert(s.take(s.len() as int) =~= s);
        }
        self.terms = kept;
        proof {
            assert(self@ =~= prune(s));
            lemma_prune_ok(s);
        }
    }

    /// The negation.
    pub fn neg(&self) -> (p: Poly)
        requires
            self.wf(),
        ensures
            p.wf(),
            p@ == poly_neg(self@),
    {
        let mut terms: Vec<(Vec<(String, u32)>, Rat)> = Vec::new();
        let mut i: usize = 0;
        proof {
            self.lemma_view();
        }
        while i < self.terms.len()
            invariant
                self.wf(),
                i <= self.terms@.len(),
                self@.len() == self.terms@.len(),
                forall|q: int| 0 <= q < self.terms@.len() ==> #[trigger] self@[q] == term_view(self.terms@[q]),
                terms@.len() == i,
                forall|q: int| 0 <= q < i ==> (#[trigger] terms@[q]).1.wf() && term_view(terms@[q]) == (
                    self@[q].0,
                    qv_neg(self@[q].1),
                ),
            decreases self.terms.len() - i,
        {
            let m = copy_mono(&self.terms[i].0);
            let c = self.terms[i].1.neg();
            terms.push((m, c));
            i = i + 1;
        }
        let mut p = Poly { terms };
        proof {
            assert(p@ =~= self@.map_values(|t: (Seq<(Seq<char>, nat)>, (int, nat))| (t.0, qv_neg(t.1))));
            assert forall|q: int| 0 <= q < p@.len() implies mono_normal(#[trigger] p@[q].0) by {
                assert(p@[q].0 == self@[q].0);
            }
        }
        p.prune();
        p
    }

    /// The sum.
    pub fn add(&self, other: &Poly) -> (p: Poly)
        requires
            self.wf(),
            other.wf(),
        ensures
            p.wf(),
            p@ == poly_add(self@, other@),
    {
        let mut out = self.copy();
        let mut j: usize = 0;
        proof {
            other.lemma_view();
            other.lemma_terms_fit();
            assert(other@.take(0) =~= Seq::<(Seq<(Seq<char>, nat)>, (int, nat))>::empty());
        }
        while j < other.terms.len()
            invariant
                other.wf(),
                out.wf(),
                j <= other.terms@.len(),
                other@.len() == other.terms@.len(),
                forall|q: int| 0 <= q < other.terms@.len() ==> #[trigger] other@[q] == term_view(other.terms@[q]),
                forall|q: int| 0 <= q < other@.len() ==> #[trigger] mono_fits(other@[q].0),
                out@ == add_terms(self@, other@.take(j as int)),
            decreases other.terms.len() - j,
        {
            proof {
                assert(other@.take(j + 1).drop_last() =~= other@.take(j as int));
                assert(other@.take(j + 1).last() == other@[j as int]);
                assert(mono_fits(other@[j as int].0));
            }
            out.add_term(&other.terms[j].0, other.terms[j].1.copy());
            j = j + 1;
        }
        proof {
            assert(other@.take(other@.len() as int) =~= other@);
        }
        out.prune();
        out
    }

    /// The difference.
    pub fn sub(&self, other: &Poly) -> (p: Poly)
        requires
            self.wf(),
            other.wf(),
        ensures
            p.wf(),
            p@ == poly_add(self@, poly_neg(other@)),
            self@ == other@ ==> p@.len() == 0,
    {
        proof {
            self.lemma_view();
            if self@ == other@ {
                assert forall|q: int| 0 <= q < self@.len() implies (#[trigger] self@[q]).1.1 > 0 by {
                    assert(self.terms@[q].1.wf());
                }
                lemma_sub_self(self@);
            }
        }
        self.add(&other.neg())
    }

    /// Every coefficient times `k`.
    pub fn scale(&self, k: &Rat) -> (p: Poly)
        requires
            self.wf(),
            k.wf(),
        ensures
            p.wf(),
            p@ == poly_scale(self@, k@),
    {
        if k.is_zero() {
            return Poly::zero();
        }
        let mut terms: Vec<(Vec<(String, u32)>, Rat)> = Vec::new();
        let mut i: usize = 0;
        proof {
            self.lemma_view();
        }
        while i < self.terms.len()
            invariant
                self.wf(),
                k.wf(),
                i <= self.terms@.len(),
                self@.len() == self.terms@.len(),
                forall|q: int| 0 <= q < self.terms@.len() ==> #[trigger] self@[q] == term_view(self.terms@[q]),
                terms@.len() == i,
                forall|q: int| 0 <= q < i ==> (#[trigger] terms@[q]).1.wf() && term_view(terms@[q]) == (
                    self@[q].0,
                    qv_mul(self@[q].1, k@),
                ),
            decreases self.terms.len() - i,
        {
            let m = copy_mono(&self.terms[i].0);
            let c = self.terms[i].1.mul(k);
            terms.push((m, c));
            i = i + 1;
        }
        let p = Poly { terms };
        proof {
            assert(p@ =~= self@.map_values(|t: (Seq<(Seq<char>, nat)>, (int, nat))| (t.0, qv_mul(t.1, k@))));
            assert forall|q: int| 0 <= q < p@.len() implies (#[trigger] p@[q]).0 == self@[q].0 && p@[q].1.0 != 0 by {
                let c = self@[q].1;
                assert(c.0 != 0);
                assert(c.0 * k@.0 != 0) by (nonlinear_arith)
                    requires
                        c.0 != 0,
                        k@.0 != 0,
                ;
                assert(c.1 * k@.1 != 0) by (nonlinear_arith)
                    requires
                        c.1 >= 1,
                        k@.1 >= 1,
                ;
                lemma_reduce_value(c.0 * k@.0, (c.1 * k@.1) as int);
            }
            lemma_same_keys_ok(self@, p@);
        }
        p
    }

    /// The product.
    pub fn mul(&self, other: &Poly) -> (p: Poly)
        requires
            self.wf(),
            other.wf(),
            mul_fits(self@, other@),
        ensures
            p.wf(),
            p@ == poly_mul(self@, other@),
    {
        let mut out = Poly::zero();
        proof {
            self.lemma_view();
            other.lemma_view();
        }
        let mut i: usize = 0;
        while i < self.terms.len()
            invariant
                self.wf(),
                other.wf(),
                mul_fits(self@, other@),
                out.wf(),
                i <= self.terms@.len(),
                self@.len() == self.terms@.len(),
                other@.len() == other.terms@.len(),
                forall|q: int| 0 <= q < self.terms@.len() ==> #[trigger] self@[q] == term_view(self.terms@[q]),
                forall|q: int| 0 <= q < other.terms@.len() ==> #[trigger] other@[q] == term_view(other.terms@[q]),
                out@ == mul_rows(self@, other@, i as nat),
            decreases self.terms.len() - i,
        {
            let mut j: usize = 0;
            while j < other.terms.len()
                invariant
                    self.wf(),
                    other.wf(),
                    mul_fits(self@, other@),
                    out.wf(),
                    i < self.terms@.len(),
                    j <= other.terms@.len(),
                    self@.len() == self.terms@.len(),
                    other@.len() == other.terms@.len(),
                    forall|q: int| 0 <= q < self.terms@.len() ==> #[trigger] self@[q] == term_view(self.terms@[q]),
                    forall|q: int| 0 <= q < other.terms@.len() ==> #[trigger] other@[q] == term_view(other.terms@[q]),
                    out@ == mul_row(mul_rows(self@, other@, i as nat), self@[i as int], other@, j as nat),
                decreases other.terms.len() - j,
            {
                let mut mono = copy_mono(&self.terms[i].0);
                let m2 = &other.terms[j].0;
                let mut t: usize = 0;
                let ghost base = mono@;
                while t < m2.len()
                    invariant
                        mono@ == base + m2@.take(t as int),
                        t <= m2@.len(),
                    decreases m2.len() - t,
                {
                    mono.push((m2[t].0.clone(), m2[t].1));
                    t = t + 1;
                    assert(mono@ =~= base + m2@.take(t as int));
                }
                proof {
                    assert(m2@.take(m2@.len() as int) =~= m2@);
                    assert(mono_view(mono@) =~= self@[i as int].0 + other@[j as int].0);
                    assert(mono_fits(self@[i as int].0 + other@[j as int].0));
                }
                let c = self.terms[i].1.mul(&other.terms[j].1);
                out.add_term(&mono, c);
                j = j + 1;
            }
            i = i + 1;
        }
        out.prune();
        out
    }

    /// `self^e`, by repeated multiplication starting from 1.
    pub fn pow(&self, e: u32) -> (p: Poly)
        requires
            self.wf(),
            pow_fits(self@, e as nat),
        ensures
            p.wf(),
            p@ == poly_pow(self@, e as nat),
    {
        let mut out = Poly::constant(Rat::one());
        let mut k: u32 = 0;
        while k < e
            invariant
                self.wf(),
                pow_fits(self@, e as nat),
                k <= e,
                out.wf(),
                out@ == poly_pow(self@, k as nat),
            decreases e - k,
        {
            assert(mul_fits(poly_pow(self@, k as nat), self@));
            out = out.mul(self);
            k = k + 1;
        }
        out
    }

    /// The terms, in order.
    pub fn monomials(&self) -> (r: Vec<(Vec<(String, u32)>, Rat)>)
        requires
            self.wf(),
        ensures
            r@.map_values(|t: (Vec<(String, u32)>, Rat)| term_view(t)) == self@,
            forall|i: int| 0 <= i < r@.len() ==> (#[trigger] r@[i]).1.wf(),
    {
        let c = self.copy();
        proof {
            c.lemma_view();
            assert(c.terms@.map_values(|t: (Vec<(String, u32)>, Rat)| term_view(t)) =~= c@);
        }
        c.terms
    }

    /// The variable names present, in name order without repeats.
    pub fn vars(&self) -> (r: Vec<String>)
        requires
            self.wf(),
        ensures
            r@.map_values(|x: String| x@) == vars_terms(self@, self@.len()),
    {
        proof {
            self.lemma_view();
        }
        let mut acc: Vec<String> = Vec::new();
        assert(acc@.map_values(|x: String| x@) =~= Seq::<Seq<char>>::empty());
        let mut i: usize = 0;
        while i < self.terms.len()
            invariant
                self.wf(),
                i <= self.terms@.len(),
                self@.len() == self.terms@.len(),
                forall|q: int| 0 <= q < self.terms@.len() ==> #[trigger] self@[q] == term_view(self.terms@[q]),
                acc@.map_values(|x: String| x@) == vars_terms(self@, i as nat),
            decreases self.terms.len() - i,
        {
            let m = &self.terms[i].0;
            let mut j: usize = 0;
            proof {
                assert(self@[i as int].0 == mono_view(m@));
            }
            while j < m.len()
                invariant
                    i < self@.len(),
                    self@[i as int].0 == mono_view(m@),
                    j <= m@.len(),
                    acc@.map_values(|x: String| x@) == vars_mono(vars_terms(self@, i as nat), self@[i as int].0, j as nat),
                decreases m.len() - j,
            {
                let v = &m[j].0;
                let ghost va = acc@.map_values(|x: String| x@);
                let mut k: usize = 0;
                while k < acc.len() && order_names(&acc[k], v) < 0
                    invariant
                        va == acc@.map_values(|x: String| x@),
                        k <= acc@.len(),
                        forall|q: int| 0 <= q < k ==> str_lt(#[trigger] va[q], v@),
                    decreases acc.len() - k,
                {
                    k = k + 1;
                }
                proof {
                    lemma_set_lb_at(va, v@, k as int);
                    assert(mono_view(m@)[j as int].0 == v@);
                }
                if k < acc.len() && order_names(&acc[k], v) == 0 {
                } else {
                    acc.insert(k, v.clone());
                    proof {
                        assert(acc@.map_values(|x: String| x@) =~= va.insert(k as int, v@));
                    }
                }
                j = j + 1;
            }
            i = i + 1;
        }
        acc
    }

    /// The canonical text: `"0"`, or the terms joined by `" + "`, each the
    /// coefficient followed by `*v` or `*v^e` for each variable.
    pub fn to_canonical_string(&self) -> (r: String)
        requires
            self.wf(),
        ensures
            r@ == poly_text(self@),
    {
        if self.is_zero() {
            let mut z = String::new();
            push_str(&mut z, "0");
            proof {
                reveal_strlit("0");
            }
            return z;
        }
        proof {
            self.lemma_view();
        }
        let mut out = String::new();
        let mut i: usize = 0;
        while i < self.terms.len()
            invariant
                self.wf(),
                i <= self.terms@.len(),
                self@.len() == self.terms@.len(),
                forall|q: int| 0 <= q < self.terms@.len() ==> #[trigger] self@[q] == term_view(self.terms@[q]),
                out@ == terms_text(self@, i as nat),
            decreases self.terms.len() - i,
        {
            if i > 0 {
                push_str(&mut out, " + ");
                proof {
                    reveal_strlit(" + ");
                }
            }
            let ghost before = out@;
            let ct = self.terms[i].1.to_text();
            push_str(&mut out, ct.as_str());
            let m = &self.terms[i].0;
            let mut j: usize = 0;
            proof {
                assert(self@[i as int].0 == mono_view(m@));
                assert(self@[i as int].1 == self.terms@[i as int].1@);
            }
            while j < m.len()
                invariant
                    i < self@.len(),
                    self@[i as int].0 == mono_view(m@),
                    j <= m@.len(),
                    out@ == before + rat_text(self@[i as int].1) + mono_text(self@[i as int].0, j as nat),
                decreases m.len() - j,
            {
                push_char(&mut out, '*');
                push_str(&mut out, m[j].0.as_str());
                if m[j].1 != 1 {
                    push_char(&mut out, '^');
                    let es = u64_to_string(m[j].1 as u64);
                    push_str(&mut out, es.as_str());
                }
                proof {
                    assert(mono_view(m@)[j as int] == (m@[j as int].0@, m@[j as int].1 as nat));
                    assert(out@ =~= before + rat_text(self@[i as int].1) + mono_text(self@[i as int].0, (j + 1) as nat));
                }
                j = j + 1;
            }
            proof {
                if i == 0 {
                    assert(out@ =~= terms_text(self@, 1));
                } else {
                    assert(out@ =~= terms_text(self@, (i + 1) as nat));
                }
            }
            i = i + 1;
        }
        out
    }

    /// The univariate polynomial in `var`, or `None` if another variable occurs.
    pub fn to_unipoly(&self, var: &str) -> (r: Option<UniPoly>)
        requires
            self.wf(),
        ensures
            match r {
                Some(u) => u.wf() && to_uni_terms(self@, var@, self@.len()) is Some && u@ == trim(
                    to_uni_terms(self@, var@, self@.len())->0,
                ),
                None => to_uni_terms(self@, var@, self@.len()) is None,
            },
    {
        proof {
            self.lemma_view();
        }
        let mut coeffs: Vec<Rat> = Vec::new();
        assert(rat_values(coeffs@) =~= Seq::<(int, nat)>::empty());
        let mut i: usize = 0;
        while i < self.terms.len()
            invariant
                self.wf(),
                i <= self.terms@.len(),
                self@.len() == self.terms@.len(),
                forall|q: int| 0 <= q < self.terms@.len() ==> #[trigger] self@[q] == term_view(self.terms@[q]),
                forall|q: int| 0 <= q < self.terms@.len() ==> (#[trigger] self.terms@[q]).1.wf(),
                all_wf(coeffs@),
                to_uni_terms(self@, var@, i as nat) == Some(rat_values(coeffs@)),
            decreases self.terms.len() - i,
        {
            let m = &self.terms[i].0;
            let mut deg: u32 = 0;
            let mut j: usize = 0;
            proof {
                assert(self@[i as int].0 == mono_view(m@));
            }
            while j < m.len()
                invariant
                    i < self@.len(),
                    self@[i as int].0 == mono_view(m@),
                    j <= m@.len(),
                    uni_degree(self@[i as int].0, var@, j as nat) == Some(deg as nat),
                decreases m.len() - j,
            {
                proof {
                    assert(mono_view(m@)[j as int] == (m@[j as int].0@, m@[j as int].1 as nat));
                }
                if string_eq_str(&m[j].0, var) {
                    deg = m[j].1;
                } else {
                    proof {
                        lemma_uni_degree_none(self@[i as int].0, var@, (j + 1) as nat, self@[i as int].0.len());
                        assert(to_uni_terms(self@, var@, (i + 1) as nat) is None);
                        lemma_to_uni_none(self@, var@, (i + 1) as nat, self@.len());
                    }
                    return None;
                }
                j = j + 1;
            }
            let d = deg as usize;
            let ghost cs = rat_values(coeffs@);
            if coeffs.len() <= d {
                while coeffs.len() <= d
                    invariant
                        all_wf(coeffs@),
                        cs.len() <= coeffs@.len(),
                        rat_values(coeffs@) == cs + zeros((coeffs@.len() - cs.len()) as nat),
                        coeffs@.len() <= d + 1,
                    decreases d + 1 - coeffs.len(),
                {
                    let ghost before = coeffs@;
                    coeffs.push(Rat::zero());
                    proof {
                        let k = (before.len() - cs.len()) as nat;
                        assert(rat_values(coeffs@) =~= rat_values(before).push(qv_zero()));
                        assert((cs + zeros(k)).push(qv_zero()) =~= cs + zeros(k + 1));
                    }
                }
            }
            proof {
                if cs.len() > d {
                    assert(rat_values(coeffs@) =~= cs);
                }
            }
            let s = coeffs[d].add(&self.terms[i].1);
            coeffs.set(d, s);
            proof {
                assert(rat_values(coeffs@) =~= coeff_add_at(cs, d as nat, self@[i as int].1));
            }
            i = i + 1;
        }
        Some(UniPoly::from_coeffs(coeffs))
    }

    /// The monomials' exponents fit in `u32` and the monomials are normalized.
    proof fn lemma_mono_bounds(self, i: int)
        requires
            self.wf(),
            0 <= i < self@.len(),
        ensures
            mono_normal(self@[i].0),
            forall|q: int| 0 <= q < self@[i].0.len() ==> (#[trigger] self@[i].0[q]).1 <= u32::MAX,
            mono_fits(self@[i].0),
    {
        self.lemma_view();
        self.lemma_terms_fit();
        let m = self.terms@[i].0@;
        assert(self@[i].0 == mono_view(m));
        assert forall|q: int| 0 <= q < self@[i].0.len() implies (#[trigger] self@[i].0[q]).1 <= u32::MAX by {
            assert(mono_view(m)[q].1 == m[q].1 as nat);
        }
    }

    /// Substitute the value `value` for the variable `name`.
    pub fn subst_var(&self, name: &str, value: &Rat) -> (p: Poly)
        requires
            self.wf(),
            value.wf(),
        ensures
            p.wf(),
            p@ == prune(subst_terms(self@, name@, value@, self@.len())),
    {
        proof {
            self.lemma_view();
        }
        let mut out = Poly::zero();
        let mut i: usize = 0;
        while i < self.terms.len()
            invariant
                self.wf(),
                value.wf(),
                out.wf(),
                i <= self.terms@.len(),
                self@.len() == self.terms@.len(),
                forall|q: int| 0 <= q < self.terms@.len() ==> #[trigger] self@[q] == term_view(self.terms@[q]),
                out@ == subst_terms(self@, name@, value@, i as nat),
            decreases self.terms.len() - i,
        {
            let m = &self.terms[i].0;
            let ghost mv = self@[i as int].0;
            proof {
                self.lemma_mono_bounds(i as int);
                assert(mv == mono_view(m@));
                assert(mv.take(0) =~= Seq::<(Seq<char>, nat)>::empty());
                reveal(Seq::filter);
            }
            let mut newmono: Vec<(String, u32)> = Vec::new();
            let mut factor = self.terms[i].1.copy();
            let mut j: usize = 0;
            while j < m.len()
                invariant
                    value.wf(),
                    factor.wf(),
                    mv == mono_view(m@),
                    i < self@.len(),
                    mv == self@[i as int].0,
                    j <= m@.len(),
                    mono_view(newmono@) == mono_without(mv.take(j as int), name@),
                    factor@ == subst_factor(mv, name@, value@, self@[i as int].1, j as nat),
                decreases m.len() - j,
            {
                proof {
                    lemma_without_step(mv, name@, j as int);
                    assert(mv[j as int] == (m@[j as int].0@, m@[j as int].1 as nat));
                }
                if string_eq_str(&m[j].0, name) {
                    let mut acc = Rat::one();
                    let e = m[j].1;
                    let mut k: u32 = 0;
                    while k < e
                        invariant
                            value.wf(),
                            acc.wf(),
                            k <= e,
                            acc@ == qv_pow(value@, k as nat),
                        decreases e - k,
                    {
                        acc = acc.mul(value);
                        k = k + 1;
                    }
                    factor = factor.mul(&acc);
                } else {
                    newmono.push((m[j].0.clone(), m[j].1));
                    proof {
                        assert(mono_view(newmono@) =~= mono_without(mv.take(j as int), name@).push(mv[j as int]));
                    }
                }
                j = j + 1;
            }
            proof {
                assert(mv.take(mv.len() as int) =~= mv);
                lemma_without_fits(mv, name@);
            }
            out.add_term(&newmono, factor);
            i = i + 1;
        }
        out.prune();
        out
    }

    /// Evaluate with the values bound in `env` (first binding wins); `None` if a
    /// variable of a term is unbound.
    pub fn eval(&self, env: &Vec<(String, Rat)>) -> (r: Option<Rat>)
        requires
            self.wf(),
            forall|q: int| 0 <= q < env@.len() ==> (#[trigger] env@[q]).1.wf(),
        ensures
            match r {
                Some(x) => x.wf() && eval_terms(self@, env_view(env@), self@.len()) == Some(x@),
                None => eval_terms(self@, env_view(env@), self@.len()) is None,
            },
    {
        proof {
            self.lemma_view();
        }
        let ghost ev = env_view(env@);
        let mut acc = Rat::zero();
        let mut i: usize = 0;
        while i < self.terms.len()
            invariant
                self.wf(),
                ev == env_view(env@),
                forall|q: int| 0 <= q < env@.len() ==> (#[trigger] env@[q]).1.wf(),
                acc.wf(),
                i <= self.terms@.len(),
                self@.len() == self.terms@.len(),
                forall|q: int| 0 <= q < self.terms@.len() ==> #[trigger] self@[q] == term_view(self.terms@[q]),
                forall|q: int| 0 <= q < self.terms@.len() ==> (#[trigger] self.terms@[q]).1.wf(),
                eval_terms(self@, ev, i as nat) == Some(acc@),
            decreases self.terms.len() - i,
        {
            let m = &self.terms[i].0;
            let ghost mv = self@[i as int].0;
            proof {
                assert(mv == mono_view(m@));
            }
            let mut term = self.terms[i].1.copy();
            let mut j: usize = 0;
            while j < m.len()
                invariant
                    ev == env_view(env@),
                    forall|q: int| 0 <= q < env@.len() ==> (#[trigger] env@[q]).1.wf(),
                    term.wf(),
                    mv == mono_view(m@),
                    i < self@.len(),
                    mv == self@[i as int].0,
                    j <= m@.len(),
                    eval_mono(mv, ev, self@[i as int].1, j as nat) == Some(term@),
                decreases m.len() - j,
            {
                proof {
                    assert(mv[j as int] == (m@[j as int].0@, m@[j as int].1 as nat));
                }
                let k = match env_get(env, &m[j].0) {
                    Some(k) => k,
                    None => {
                        proof {
                            lemma_eval_mono_none(mv, ev, self@[i as int].1, (j + 1) as nat, mv.len());
                            assert(eval_terms(self@, ev, (i + 1) as nat) is None);
                            lemma_eval_terms_none(self@, ev, (i + 1) as nat, self@.len());
                        }
                        return None;
                    },
                };
                let val = &env[k].1;
                let ghost start = term@;
                let e = m[j].1;
                let mut t: u32 = 0;
                while t < e
                    invariant
                        val.wf(),
                        term.wf(),
                        t <= e,
                        term@ == mul_times(start, val@, t as nat),
                    decreases e - t,
                {
                    term = term.mul(val);
                    t = t + 1;
                }
                j = j + 1;
            }
            acc = acc.add(&term);
            i = i + 1;
        }
        Some(acc)
    }

    /// Substitute the polynomial `repl` for the variable `name`.
    pub fn subst_var_poly(&self, name: &str, repl: &Poly) -> (p: Poly)
        requires
            self.wf(),
            repl.wf(),
            subst_poly_fits(self@, name@, repl@),
        ensures
            p.wf(),
            p@ == subst_poly_terms(self@, name@, repl@, self@.len()),
    {
        proof {
            self.lemma_view();
        }
        let mut out = Poly::zero();
        let mut i: usize = 0;
        while i < self.terms.len()
            invariant
                self.wf(),
                repl.wf(),
                subst_poly_fits(self@, name@, repl@),
                out.wf(),
                i <= self.terms@.len(),
                self@.len() == self.terms@.len(),
                forall|q: int| 0 <= q < self.terms@.len() ==> #[trigger] self@[q] == term_view(self.terms@[q]),
                out@ == subst_poly_terms(self@, name@, repl@, i as nat),
            decreases self.terms.len() - i,
        {
            let m = &self.terms[i].0;
            let ghost mv = self@[i as int].0;
            proof {
                self.lemma_mono_bounds(i as int);
                assert(mv == mono_view(m@));
                assert(mv.take(0) =~= Seq::<(Seq<char>, nat)>::empty());
                reveal(Seq::filter);
            }
            let mut e_name: u32 = 0;
            let mut rest: Vec<(String, u32)> = Vec::new();
            let mut j: usize = 0;
            while j < m.len()
                invariant
                    mv == mono_view(m@),
                    mono_fits(mv),
                    i < self@.len(),
                    mv == self@[i as int].0,
                    j <= m@.len(),
                    mono_view(rest@) == mono_without(mv.take(j as int), name@),
                    e_name == exp_total(mv.take(j as int), name@),
                decreases m.len() - j,
            {
                proof {
                    lemma_without_step(mv, name@, j as int);
                    lemma_exp_total_prefix(mv, j + 1, name@);
                    assert(exp_total(mv, name@) <= u32::MAX);
                    assert(mv[j as int] == (m@[j as int].0@, m@[j as int].1 as nat));
                }
                if string_eq_str(&m[j].0, name) {
                    e_name = e_name + m[j].1;
                } else {
                    rest.push((m[j].0.clone(), m[j].1));
                    proof {
                        assert(mono_view(rest@) =~= mono_without(mv.take(j as int), name@).push(mv[j as int]));
                    }
                }
                j = j + 1;
            }
            proof {
                assert(mv.take(mv.len() as int) =~= mv);
                lemma_without_fits(mv, name@);
            }
            let mut term = Poly::zero();
            term.add_term(&rest, self.terms[i].1.copy());
            if e_name > 0 {
                proof {
                    assert(exp_total(self@[i as int].0, name@) > 0);
                }
                let rp = repl.pow(e_name);
                term = term.mul(&rp);
            }
            out = out.add(&term);
            i = i + 1;
        }
        out
    }

    /// Shift a variable by an integer: `self[name := name + s]`.
    pub fn shift_var(&self, name: &str, s: i64) -> (p: Poly)
        requires
            self.wf(),
            subst_poly_fits(self@, name@, shift_repl(name@, s as int)),
        ensures
            p.wf(),
            p@ == subst_poly_terms(self@, name@, shift_repl(name@, s as int), self@.len()),
    {
        let repl = Poly::var(name).add(&Poly::constant(Rat::from_i64(s)));
        self.subst_var_poly(name, &repl)
    }

    /// Is every coefficient zero?
    pub fn is_zero(&self) -> (b: bool)
        requires
            self.wf(),
        ensures
            b == (forall|i: int| 0 <= i < self@.len() ==> (#[trigger] self@[i]).1.0 == 0),
            b == (self@.len() == 0),
    {
        proof {
            self.lemma_view();
            if self@.len() > 0 {
                assert(self@[0].1.0 != 0);
            }
        }
        let mut i: usize = 0;
        while i < self.terms.len()
            invariant
                self.wf(),
                i <= self.terms@.len(),
                self@.len() == self.terms@.len(),
                forall|q: int| 0 <= q < self.terms@.len() ==> #[trigger] self@[q] == term_view(self.terms@[q]),
                forall|q: int| 0 <= q < i ==> (#[trigger] self@[q]).1.0 == 0,
            decreases self.terms.len() - i,
        {
            if !self.terms[i].1.is_zero() {
                assert(self@[i as int] == term_view(self.terms@[i as int]));
                return false;
            }
            i = i + 1;
        }
        true
    }
}

/// The constant polynomial 1.
pub open spec fn poly_one() -> Seq<(Seq<(Seq<char>, nat)>, (int, nat))> {
    seq![(Seq::<(Seq<char>, nat)>::empty(), qv_one())]
}

/// `a^e`, by repeated multiplication starting from 1.
pub open spec fn poly_pow(a: Seq<(Seq<(Seq<char>, nat)>, (int, nat))>, e: nat) -> Seq<(Seq<(Seq<char>, nat)>, (int, nat))>
    decreases e,
{
    if e == 0 {
        poly_one()
    } else {
        poly_mul(poly_pow(a, (e - 1) as nat), a)
    }
}

/// No product formed while raising `a` to the power `e` overflows an exponent.
pub open spec fn pow_fits(a: Seq<(Seq<(Seq<char>, nat)>, (int, nat))>, e: nat) -> bool {
    forall|k: nat| k < e ==> #[trigger] mul_fits(poly_pow(a, k), a)
}

/// Insert a name into a sorted list of distinct names (a set in order).
pub open spec fn name_set_insert(acc: Seq<Seq<char>>, v: Seq<char>) -> Seq<Seq<char>> {
    let k = set_lb(acc, v) as int;
    if k < acc.len() && acc[k] == v {
        acc
    } else {
        acc.insert(k, v)
    }
}

/// The number of leading names that come before `v`.
pub open spec fn set_lb(acc: Seq<Seq<char>>, v: Seq<char>) -> nat
    decreases acc.len(),
{
    if acc.len() == 0 {
        0
    } else if str_lt(acc[0], v) {
        1 + set_lb(acc.drop_first(), v)
    } else {
        0
    }
}

/// The names of the first `j` entries of `m`, inserted into `acc`.
pub open spec fn vars_mono(acc: Seq<Seq<char>>, m: Seq<(Seq<char>, nat)>, j: nat) -> Seq<Seq<char>>
    decreases j,
{
    if j == 0 {
        acc
    } else {
        name_set_insert(vars_mono(acc, m, (j - 1) as nat), m[j - 1].0)
    }
}

/// The variable names of the first `i` terms, in name order without repeats.
pub open spec fn vars_terms(s: Seq<(Seq<(Seq<char>, nat)>, (int, nat))>, i: nat) -> Seq<Seq<char>>
    decreases i,
{
    if i == 0 {
        Seq::empty()
    } else {
        vars_mono(vars_terms(s, (i - 1) as nat), s[i - 1].0, s[i - 1].0.len())
    }
}

/// `*v` or `*v^e`.
pub open spec fn factor_text(x: (Seq<char>, nat)) -> Seq<char> {
    if x.1 == 1 {
        seq!['*'] + x.0
    } else {
        seq!['*'] + x.0 + seq!['^'] + decimal(x.1)
    }
}

/// The factors of the first `j` entries of a monomial.
pub open spec fn mono_text(m: Seq<(Seq<char>, nat)>, j: nat) -> Seq<char>
    decreases j,
{
    if j == 0 {
        Seq::empty()
    } else {
        mono_text(m, (j - 1) as nat) + factor_text(m[j - 1])
    }
}

/// A term's text: the coefficient, then its factors.
pub open spec fn term_text(t: (Seq<(Seq<char>, nat)>, (int, nat))) -> Seq<char> {
    rat_text(t.1) + mono_text(t.0, t.0.len())
}

/// The first `i` term texts joined by `" + "`.
pub open spec fn terms_text(s: Seq<(Seq<(Seq<char>, nat)>, (int, nat))>, i: nat) -> Seq<char>
    decreases i,
{
    if i == 0 {
        Seq::empty()
    } else if i == 1 {
        term_text(s[0])
    } else {
        terms_text(s, (i - 1) as nat) + seq![' ', '+', ' '] + term_text(s[i - 1])
    }
}

/// The canonical text: `"0"` for zero, else the terms joined by `" + "`.
pub open spec fn poly_text(s: Seq<(Seq<(Seq<char>, nat)>, (int, nat))>) -> Seq<char> {
    if forall|i: int| 0 <= i < s.len() ==> (#[trigger] s[i]).1.0 == 0 {
        seq!['0']
    } else {
        terms_text(s, s.len())
    }
}

/// The degree a term contributes in `var`, or `None` if it has another variable.
pub open spec fn uni_degree(m: Seq<(Seq<char>, nat)>, var: Seq<char>, j: nat) -> Option<nat>
    decreases j,
{
    if j == 0 {
        Some(0)
    } else {
        match uni_degree(m, var, (j - 1) as nat) {
            None => None,
            Some(d) => if m[j - 1].0 == var {
                Some(m[j - 1].1)
            } else {
                None
            },
        }
    }
}

/// Add `c` into the coefficient of degree `d`, growing the list with zeros as needed.
pub open spec fn coeff_add_at(cs: Seq<(int, nat)>, d: nat, c: (int, nat)) -> Seq<(int, nat)> {
    let grown = if cs.len() <= d { cs + zeros((d + 1 - cs.len()) as nat) } else { cs };
    grown.update(d as int, qv_add(grown[d as int], c))
}

/// The univariate coefficients of the first `i` terms, or `None` if a term
/// mentions another variable.
pub open spec fn to_uni_terms(s: Seq<(Seq<(Seq<char>, nat)>, (int, nat))>, var: Seq<char>, i: nat) -> Option<Seq<(int, nat)>>
    decreases i,
{
    if i == 0 {
        Some(Seq::empty())
    } else {
        match to_uni_terms(s, var, (i - 1) as nat) {
            None => None,
            Some(cs) => match uni_degree(s[i - 1].0, var, s[i - 1].0.len()) {
                None => None,
                Some(d) => Some(coeff_add_at(cs, d, s[i - 1].1)),
            },
        }
    }
}

/// The multivariate form of the first `i` coefficients of a univariate polynomial in `var`.
pub open spec fn multivar_terms(cs: Seq<(int, nat)>, var: Seq<char>, i: nat) -> Seq<(Seq<(Seq<char>, nat)>, (int, nat))>
    decreases i,
{
    if i == 0 {
        Seq::empty()
    } else {
        let k = i - 1;
        poly_add_term(
            multivar_terms(cs, var, (i - 1) as nat),
            if k == 0 { Seq::empty() } else { seq![(var, k as nat)] },
            cs[k],
        )
    }
}

/// `x^e` by repeated multiplication.
pub open spec fn qv_pow(x: (int, nat), e: nat) -> (int, nat)
    decreases e,
{
    if e == 0 {
        qv_one()
    } else {
        qv_mul(qv_pow(x, (e - 1) as nat), x)
    }
}

/// The entries of `m` for variables other than `name`.
pub open spec fn mono_without(m: Seq<(Seq<char>, nat)>, name: Seq<char>) -> Seq<(Seq<char>, nat)> {
    m.filter(|x: (Seq<char>, nat)| x.0 != name)
}

/// The coefficient `c` times `value^e` for each entry of `name` among the first `j` entries.
pub open spec fn subst_factor(m: Seq<(Seq<char>, nat)>, name: Seq<char>, value: (int, nat), c: (int, nat), j: nat) -> (int, nat)
    decreases j,
{
    if j == 0 {
        c
    } else {
        let f = subst_factor(m, name, value, c, (j - 1) as nat);
        if m[j - 1].0 == name {
            qv_mul(f, qv_pow(value, m[j - 1].1))
        } else {
            f
        }
    }
}

/// The first `i` terms with `name := value`, added up.
pub open spec fn subst_terms(
    s: Seq<(Seq<(Seq<char>, nat)>, (int, nat))>,
    name: Seq<char>,
    value: (int, nat),
    i: nat,
) -> Seq<(Seq<(Seq<char>, nat)>, (int, nat))>
    decreases i,
{
    if i == 0 {
        Seq::empty()
    } else {
        let t = s[i - 1];
        poly_add_term(
            subst_terms(s, name, value, (i - 1) as nat),
            mono_without(t.0, name),
            subst_factor(t.0, name, value, t.1, t.0.len()),
        )
    }
}

/// `x` multiplied by `val` `e` times.
pub open spec fn mul_times(x: (int, nat), val: (int, nat), e: nat) -> (int, nat)
    decreases e,
{
    if e == 0 {
        x
    } else {
        qv_mul(mul_times(x, val, (e - 1) as nat), val)
    }
}

/// The first binding of `v` in `env`.
pub open spec fn env_lookup(env: Seq<(Seq<char>, (int, nat))>, v: Seq<char>) -> Option<(int, nat)>
    decreases env.len(),
{
    if env.len() == 0 {
        None
    } else if env[0].0 == v {
        Some(env[0].1)
    } else {
        env_lookup(env.drop_first(), v)
    }
}

/// A term's value over its first `j` entries, starting from coefficient `t`;
/// `None` if a variable is unbound.
pub open spec fn eval_mono(m: Seq<(Seq<char>, nat)>, env: Seq<(Seq<char>, (int, nat))>, t: (int, nat), j: nat) -> Option<(int, nat)>
    decreases j,
{
    if j == 0 {
        Some(t)
    } else {
        match eval_mono(m, env, t, (j - 1) as nat) {
            None => None,
            Some(x) => match env_lookup(env, m[j - 1].0) {
                None => None,
                Some(val) => Some(mul_times(x, val, m[j - 1].1)),
            },
        }
    }
}

/// The sum of the values of the first `i` terms; `None` if a variable is unbound.
pub open spec fn eval_terms(s: Seq<(Seq<(Seq<char>, nat)>, (int, nat))>, env: Seq<(Seq<char>, (int, nat))>, i: nat) -> Option<(int, nat)>
    decreases i,
{
    if i == 0 {
        Some(qv_zero())
    } else {
        match eval_terms(s, env, (i - 1) as nat) {
            None => None,
            Some(acc) => match eval_mono(s[i - 1].0, env, s[i - 1].1, s[i - 1].0.len()) {
                None => None,
                Some(t) => Some(qv_add(acc, t)),
            },
        }
    }
}

/// The term list of the single term `c * m`.
pub open spec fn single_term(m: Seq<(Seq<char>, nat)>, c: (int, nat)) -> Seq<(Seq<(Seq<char>, nat)>, (int, nat))> {
    poly_add_term(Seq::empty(), m, c)
}

/// Term `t` with `name := r`: the rest of its monomial times `r^e`, `e` the exponent of `name`.
pub open spec fn subst_poly_term(
    t: (Seq<(Seq<char>, nat)>, (int, nat)),
    name: Seq<char>,
    r: Seq<(Seq<(Seq<char>, nat)>, (int, nat))>,
) -> Seq<(Seq<(Seq<char>, nat)>, (int, nat))> {
    let e = exp_total(t.0, name);
    let t0 = single_term(mono_without(t.0, name), t.1);
    if e > 0 {
        poly_mul(t0, poly_pow(r, e))
    } else {
        t0
    }
}

/// The sum of the first `i` substituted terms.
pub open spec fn subst_poly_terms(
    s: Seq<(Seq<(Seq<char>, nat)>, (int, nat))>,
    name: Seq<char>,
    r: Seq<(Seq<(Seq<char>, nat)>, (int, nat))>,
    i: nat,
) -> Seq<(Seq<(Seq<char>, nat)>, (int, nat))>
    decreases i,
{
    if i == 0 {
        Seq::empty()
    } else {
        poly_add(subst_poly_terms(s, name, r, (i - 1) as nat), subst_poly_term(s[i - 1], name, r))
    }
}

/// No exponent overflows while substituting `name := r` into `s`.
pub open spec fn subst_poly_fits(
    s: Seq<(Seq<(Seq<char>, nat)>, (int, nat))>,
    name: Seq<char>,
    r: Seq<(Seq<(Seq<char>, nat)>, (int, nat))>,
) -> bool {
    forall|i: int|
        0 <= i < s.len() && exp_total(#[trigger] s[i].0, name) > 0 ==> pow_fits(r, exp_total(s[i].0, name)) && mul_fits(
            single_term(mono_without(s[i].0, name), s[i].1),
            poly_pow(r, exp_total(s[i].0, name)),
        )
}

/// `name + s`.
pub open spec fn shift_repl(name: Seq<char>, s: int) -> Seq<(Seq<(Seq<char>, nat)>, (int, nat))> {
    poly_add(
        seq![(seq![(name, 1nat)], qv_one())],
        if s == 0 {
            Seq::<(Seq<(Seq<char>, nat)>, (int, nat))>::empty()
        } else {
            seq![(Seq::<(Seq<char>, nat)>::empty(), (s, 1nat))]
        },
    )
}

/// Filtering keeps a normalized monomial normalized.
proof fn lemma_filter_normal(m: Seq<(Seq<char>, nat)>, name: Seq<char>, j: nat)
    requires
        mono_normal(m),
        j <= m.len(),
    ensures
        mono_normal(mono_without(m.take(j as int), name)),
        forall|q: int, p: int| 0 <= q < mono_without(m.take(j as int), name).len() && j <= p < m.len() ==> str_lt(
            #[trigger] mono_without(m.take(j as int), name)[q].0,
            #[trigger] m[p].0,
        ),
        forall|q: int| 0 <= q < mono_without(m.take(j as int), name).len() ==> exists|p: int|
            0 <= p < j && #[trigger] mono_without(m.take(j as int), name)[q] == m[p],
    decreases j,
{
    reveal(Seq::filter);
    let f = mono_without(m.take(j as int), name);
    if j > 0 {
        lemma_filter_normal(m, name, (j - 1) as nat);
        let g = mono_without(m.take(j - 1), name);
        assert(m.take(j as int).drop_last() =~= m.take(j - 1));
        assert(m.take(j as int).last() == m[j - 1]);
        if m[j - 1].0 != name {
            assert(f =~= g.push(m[j - 1]));
            assert forall|q: int, p: int| 0 <= q < f.len() && j <= p < m.len() implies str_lt(#[trigger] f[q].0, #[trigger] m[p].0) by {
                if q < g.len() {
                    assert(f[q] == g[q]);
                    assert(str_lt(g[q].0, m[p].0));
                } else {
                    assert(str_lt(m[j - 1].0, m[p].0));
                }
            }
            assert forall|q: int| 0 <= q < f.len() implies exists|p: int| 0 <= p < j && #[trigger] f[q] == m[p] by {
                if q < g.len() {
                    assert(f[q] == g[q]);
                    let p = choose|p: int| 0 <= p < j - 1 && g[q] == m[p];
                } else {
                    assert(f[q] == m[j - 1]);
                }
            }
            assert(mono_normal(f)) by {
                assert forall|a: int, b: int| 0 <= a < b < f.len() implies str_lt(#[trigger] f[a].0, #[trigger] f[b].0) by {
                    if b < g.len() {
                        assert(f[a] == g[a]);
                        assert(f[b] == g[b]);
                    } else {
                        assert(f[a] == g[a]);
                        assert(str_lt(g[a].0, m[j - 1].0));
                    }
                }
                assert forall|a: int| 0 <= a < f.len() implies (#[trigger] f[a]).1 > 0 by {
                    if a < g.len() {
                        assert(f[a] == g[a]);
                    }
                }
            }
        } else {
            assert(f =~= g);
            assert forall|q: int, p: int| 0 <= q < f.len() && j <= p < m.len() implies str_lt(#[trigger] f[q].0, #[trigger] m[p].0) by {
                assert(str_lt(g[q].0, m[p].0));
            }
            assert forall|q: int| 0 <= q < f.len() implies exists|p: int| 0 <= p < j && #[trigger] f[q] == m[p] by {
                let p = choose|p: int| 0 <= p < j - 1 && g[q] == m[p];
            }
        }
    } else {
        assert(m.take(0) =~= Seq::<(Seq<char>, nat)>::empty());
        assert(f =~= Seq::<(Seq<char>, nat)>::empty());
    }
}

/// An environment's model: names bound to rational values.
pub open spec fn env_view(env: Seq<(String, Rat)>) -> Seq<(Seq<char>, (int, nat))> {
    env.map_values(|p: (String, Rat)| (p.0@, p.1@))
}

proof fn lemma_eval_mono_none(m: Seq<(Seq<char>, nat)>, env: Seq<(Seq<char>, (int, nat))>, t: (int, nat), j: nat, n: nat)
    requires
        eval_mono(m, env, t, j) is None,
        j <= n,
    ensures
        eval_mono(m, env, t, n) is None,
    decreases n - j,
{
    if j < n {
        lemma_eval_mono_none(m, env, t, j, (n - 1) as nat);
    }
}

proof fn lemma_eval_terms_none(s: Seq<(Seq<(Seq<char>, nat)>, (int, nat))>, env: Seq<(Seq<char>, (int, nat))>, i: nat, n: nat)
    requires
        eval_terms(s, env, i) is None,
        i <= n,
    ensures
        eval_terms(s, env, n) is None,
    decreases n - i,
{
    if i < n {
        lemma_eval_terms_none(s, env, i, (n - 1) as nat);
    }
}

/// The position of the first binding of `v` in `env`.
fn env_get(env: &Vec<(String, Rat)>, v: &String) -> (r: Option<usize>)
    ensures
        match r {
            Some(k) => k < env@.len() && env_lookup(env_view(env@), v@) == Some(env_view(env@)[k as int].1),
            None => env_lookup(env_view(env@), v@) is None,
        },
{
    let ghost ev = env_view(env@);
    let mut k: usize = 0;
    assert(ev.skip(0) =~= ev);
    while k < env.len()
        invariant
            ev == env_view(env@),
            k <= env@.len(),
            env_lookup(ev, v@) == env_lookup(ev.skip(k as int), v@),
        decreases env.len() - k,
    {
        assert(ev.skip(k as int)[0] == ev[k as int]);
        assert(ev[k as int].0 == env@[k as int].0@);
        if string_eq(&env[k].0, v) {
            return Some(k);
        }
        assert(ev.skip(k as int).drop_first() =~= ev.skip(k + 1));
        k = k + 1;
    }
    None
}

/// The filtered monomial grows by one entry, or not, as the next entry's name differs from `name`.
proof fn lemma_without_step(m: Seq<(Seq<char>, nat)>, name: Seq<char>, j: int)
    requires
        0 <= j < m.len(),
    ensures
        mono_without(m.take(j + 1), name) == if m[j].0 != name {
            mono_without(m.take(j), name).push(m[j])
        } else {
            mono_without(m.take(j), name)
        },
        exp_total(m.take(j + 1), name) == exp_total(m.take(j), name) + if m[j].0 == name {
            m[j].1
        } else {
            0
        },
{
    reveal(Seq::filter);
    assert(m.take(j + 1).drop_last() =~= m.take(j));
    assert(m.take(j + 1).last() == m[j]);
}

/// A filtered normalized monomial with `u32` exponents fits.
proof fn lemma_without_fits(m: Seq<(Seq<char>, nat)>, name: Seq<char>)
    requires
        mono_normal(m),
        forall|i: int| 0 <= i < m.len() ==> (#[trigger] m[i]).1 <= u32::MAX,
    ensures
        mono_fits(mono_without(m, name)),
        mono_normal(mono_without(m, name)),
{
    lemma_filter_normal(m, name, m.len());
    assert(m.take(m.len() as int) =~= m);
    let f = mono_without(m, name);
    assert forall|q: int| 0 <= q < f.len() implies (#[trigger] f[q]).1 <= u32::MAX by {
        let p = choose|p: int| 0 <= p < m.len() && f[q] == m[p];
    }
    lemma_normal_fits(f);
}

proof fn lemma_uni_degree_none(m: Seq<(Seq<char>, nat)>, var: Seq<char>, j: nat, n: nat)
    requires
        uni_degree(m, var, j) is None,
        j <= n,
    ensures
        uni_degree(m, var, n) is None,
    decreases n - j,
{
    if j < n {
        lemma_uni_degree_none(m, var, j, (n - 1) as nat);
    }
}

proof fn lemma_to_uni_none(s: Seq<(Seq<(Seq<char>, nat)>, (int, nat))>, var: Seq<char>, i: nat, n: nat)
    requires
        to_uni_terms(s, var, i) is None,
        i <= n,
    ensures
        to_uni_terms(s, var, n) is None,
    decreases n - i,
{
    if i < n {
        lemma_to_uni_none(s, var, i, (n - 1) as nat);
    }
}

proof fn lemma_set_lb_at(s: Seq<Seq<char>>, v: Seq<char>, k: int)
    requires
        0 <= k <= s.len(),
        forall|q: int| 0 <= q < k ==> str_lt(#[trigger] s[q], v),
        k == s.len() || !str_lt(s[k], v),
    ensures
        set_lb(s, v) == k,
    decreases k,
{
    if k > 0 {
        let t = s.drop_first();
        assert forall|q: int| 0 <= q < k - 1 implies str_lt(#[trigger] t[q], v) by {
            assert(t[q] == s[q + 1]);
        }
        if k < s.len() {
            assert(t[k - 1] == s[k]);
        }
        lemma_set_lb_at(t, v, k - 1);
        assert(str_lt(s[0], v));
    }
}

proof fn lemma_terms_ok_ops(s: Seq<(Seq<(Seq<char>, nat)>, (int, nat))>, k: int, x: (Seq<(Seq<char>, nat)>, (int, nat)))
    requires
        terms_ok(s),
        mono_normal(x.0),
        0 <= k <= s.len(),
    ensures
        k < s.len() ==> terms_ok(s.remove(k)),
        k < s.len() && x.0 == s[k].0 && x.1.0 != 0 ==> terms_ok(s.update(k, x)),
        (forall|q: int| 0 <= q < k ==> mono_lt(#[trigger] s[q].0, x.0)) && (k < s.len() ==> mono_lt(x.0, s[k].0))
            && x.1.0 != 0 ==> terms_ok(s.insert(k, x)),
{
    if k < s.len() {
        let r = s.remove(k);
        assert forall|q: int| 0 <= q < r.len() implies mono_normal(#[trigger] r[q].0) && r[q].1.0 != 0 by {
            if q < k {
                assert(r[q] == s[q]);
            } else {
                assert(r[q] == s[q + 1]);
            }
        }
        assert forall|i: int, j: int| 0 <= i < j < r.len() implies mono_lt(#[trigger] r[i].0, #[trigger] r[j].0) by {
            let i2 = if i < k { i } else { i + 1 };
            let j2 = if j < k { j } else { j + 1 };
            assert(r[i] == s[i2]);
            assert(r[j] == s[j2]);
        }
        if x.0 == s[k].0 && x.1.0 != 0 {
            let u = s.update(k, x);
            assert forall|q: int| 0 <= q < u.len() implies (#[trigger] u[q]).0 == s[q].0 && u[q].1.0 != 0 by {
                if q != k {
                    assert(u[q] == s[q]);
                }
            }
            lemma_same_keys_ok(s, u);
        }
    }
    if (forall|q: int| 0 <= q < k ==> mono_lt(#[trigger] s[q].0, x.0)) && (k < s.len() ==> mono_lt(x.0, s[k].0))
        && x.1.0 != 0 {
        let t = s.insert(k, x);
        assert forall|q: int| 0 <= q < t.len() implies mono_normal(#[trigger] t[q].0) && t[q].1.0 != 0 by {
            if q < k {
                assert(t[q] == s[q]);
            } else if q > k {
                assert(t[q] == s[q - 1]);
            }
        }
        assert forall|i: int, j: int| 0 <= i < j < t.len() implies mono_lt(#[trigger] t[i].0, #[trigger] t[j].0) by {
            if j < k {
                assert(t[i] == s[i] && t[j] == s[j]);
            } else if j == k {
                assert(t[i] == s[i]);
            } else if i < k {
                assert(t[i] == s[i]);
                assert(t[j] == s[j - 1]);
                assert(mono_lt(s[i].0, x.0));
                if j - 1 > k {
                    assert(mono_lt(s[k].0, s[j - 1].0));
                    lemma_mono_lt_trans(x.0, s[k].0, s[j - 1].0);
                }
                lemma_mono_lt_trans(s[i].0, x.0, s[j - 1].0);
            } else if i == k {
                assert(t[j] == s[j - 1]);
                if j - 1 > k {
                    assert(mono_lt(s[k].0, s[j - 1].0));
                    lemma_mono_lt_trans(x.0, s[k].0, s[j - 1].0);
                }
            } else {
                assert(t[i] == s[i - 1]);
                assert(t[j] == s[j - 1]);
            }
        }
    }
}

proof fn lemma_term_lb_at(s: Seq<(Seq<(Seq<char>, nat)>, (int, nat))>, m: Seq<(Seq<char>, nat)>, k: int)
    requires
        0 <= k <= s.len(),
        forall|q: int| 0 <= q < k ==> mono_lt(#[trigger] s[q].0, m),
        k == s.len() || !mono_lt(s[k].0, m),
    ensures
        term_lb(s, m) == k,
    decreases k,
{
    if k > 0 {
        let t = s.drop_first();
        assert forall|q: int| 0 <= q < k - 1 implies mono_lt(#[trigger] t[q].0, m) by {
            assert(t[q] == s[q + 1]);
        }
        if k < s.len() {
            assert(t[k - 1] == s[k]);
        }
        lemma_term_lb_at(t, m, k - 1);
        assert(mono_lt(s[0].0, m));
    }
}

proof fn lemma_term_lb(s: Seq<(Seq<(Seq<char>, nat)>, (int, nat))>, m: Seq<(Seq<char>, nat)>)
    ensures
        term_lb(s, m) <= s.len(),
        forall|q: int| 0 <= q < term_lb(s, m) ==> mono_lt(#[trigger] s[q].0, m),
        term_lb(s, m) < s.len() ==> !mono_lt(s[term_lb(s, m) as int].0, m),
    decreases s.len(),
{
    if s.len() > 0 && mono_lt(s[0].0, m) {
        lemma_term_lb(s.drop_first(), m);
        assert forall|q: int| 0 <= q < term_lb(s, m) implies mono_lt(#[trigger] s[q].0, m) by {
            if q > 0 {
                assert(s[q] == s.drop_first()[q - 1]);
            }
        }
        if term_lb(s, m) < s.len() {
            assert(s[term_lb(s, m) as int] == s.drop_first()[term_lb(s.drop_first(), m) as int]);
        }
    }
}

// ---------------------------------------------------------------------------
// Division: `p = q * d + r` in value
// ---------------------------------------------------------------------------

/// Two coefficient lists denote the same polynomial: equal coefficients in value.
pub open spec fn same_poly(a: Seq<(int, nat)>, b: Seq<(int, nat)>) -> bool {
    forall|k: int| 0 <= k ==> #[trigger] qv_eq(coef(a, k), coef(b, k))
}

proof fn lemma_coef_valid(s: Seq<(int, nat)>, k: int)
    requires
        valid_coeffs(s),
    ensures
        coef(s, k).1 > 0,
{
}

proof fn lemma_trim_coef(s: Seq<(int, nat)>)
    requires
        valid_coeffs(s),
    ensures
        valid_coeffs(trim(s)),
        forall|k: int| 0 <= k ==> #[trigger] qv_eq(coef(trim(s), k), coef(s, k)),
{
    lemma_trim(s);
    let t = trim(s);
    assert forall|i: int| 0 <= i < t.len() implies (#[trigger] t[i]).1 > 0 by {
        assert(t[i] == s[i]);
    }
    assert forall|k: int| 0 <= k implies #[trigger] qv_eq(coef(trim(s), k), coef(s, k)) by {
        if k < t.len() {
            assert(t[k] == s[k]);
            assert(coef(trim(s), k) == coef(s, k));
        } else if k < s.len() {
            assert(s[k].0 == 0);
            assert(coef(trim(s), k) == qv_zero());
            assert(coef(s, k) == s[k]);
            assert(0 * s[k].1 == s[k].0 * 1);
        } else {
            assert(coef(trim(s), k) == qv_zero());
            assert(coef(s, k) == qv_zero());
        }
    }
}

proof fn lemma_sub_coef(a: Seq<(int, nat)>, b: Seq<(int, nat)>)
    requires
        valid_coeffs(a),
        valid_coeffs(b),
    ensures
        valid_coeffs(uni_sub(a, b)),
        forall|k: int| 0 <= k ==> #[trigger] qv_eq(coef(uni_sub(a, b), k), qv_sub(coef(a, k), coef(b, k))),
{
    let n = if a.len() >= b.len() { a.len() } else { b.len() };
    let raw = Seq::new(n, |i: int| qv_sub(coef(a, i), coef(b, i)));
    assert forall|i: int| 0 <= i < raw.len() implies (#[trigger] raw[i]).1 > 0 by {
        lemma_coef_valid(a, i);
        lemma_coef_valid(b, i);
        lemma_pos_mul(coef(a, i).1 as int, coef(b, i).1 as int);
        lemma_reduce_value(coef(a, i).0 * coef(b, i).1 - coef(b, i).0 * coef(a, i).1, (coef(a, i).1 * coef(b, i).1) as int);
    }
    lemma_trim_coef(raw);
    assert forall|k: int| 0 <= k implies #[trigger] qv_eq(coef(uni_sub(a, b), k), qv_sub(coef(a, k), coef(b, k))) by {
        assert(qv_eq(coef(trim(raw), k), coef(raw, k)));
        if k >= n {
            lemma_zero_ops(qv_zero());
            assert(coef(a, k) == qv_zero() && coef(b, k) == qv_zero());
        }
    }
}

proof fn lemma_add_coef(a: Seq<(int, nat)>, b: Seq<(int, nat)>)
    requires
        valid_coeffs(a),
        valid_coeffs(b),
    ensures
        valid_coeffs(uni_add(a, b)),
        forall|k: int| 0 <= k ==> #[trigger] qv_eq(coef(uni_add(a, b), k), qv_add(coef(a, k), coef(b, k))),
{
    let n = if a.len() >= b.len() { a.len() } else { b.len() };
    let raw = Seq::new(n, |i: int| qv_add(coef(a, i), coef(b, i)));
    assert forall|i: int| 0 <= i < raw.len() implies (#[trigger] raw[i]).1 > 0 by {
        lemma_coef_valid(a, i);
        lemma_coef_valid(b, i);
        lemma_rep_self(coef(a, i));
        lemma_rep_self(coef(b, i));
        lemma_rep_add(coef(a, i), coef(a, i).0, coef(a, i).1 as int, coef(b, i), coef(b, i).0, coef(b, i).1 as int);
    }
    lemma_trim_coef(raw);
    assert forall|k: int| 0 <= k implies #[trigger] qv_eq(coef(uni_add(a, b), k), qv_add(coef(a, k), coef(b, k))) by {
        assert(qv_eq(coef(trim(raw), k), coef(raw, k)));
        if k >= n {
            lemma_zero_ops(qv_zero());
            assert(coef(a, k) == qv_zero() && coef(b, k) == qv_zero());
        }
    }
}

/// The coefficient of `x^k` in `factor * x^shift * d`.
pub open spec fn div_sub_at(d: Seq<(int, nat)>, shift: nat, factor: (int, nat), k: int) -> (int, nat) {
    if shift <= k < shift + d.len() {
        qv_mul(d[k - shift], factor)
    } else {
        qv_zero()
    }
}

proof fn lemma_div_sub_coef(d: Seq<(int, nat)>, shift: nat, factor: (int, nat))
    requires
        valid_coeffs(d),
        factor.1 > 0,
    ensures
        valid_coeffs(div_sub(d, shift, factor)),
        forall|k: int| 0 <= k ==> #[trigger] qv_eq(coef(div_sub(d, shift, factor), k), div_sub_at(d, shift, factor, k)),
{
    let raw = Seq::new(shift + d.len(), |k: int| if k >= shift { qv_mul(d[k - shift], factor) } else { qv_zero() });
    assert forall|i: int| 0 <= i < raw.len() implies (#[trigger] raw[i]).1 > 0 by {
        if i >= shift {
            lemma_pos_mul(d[i - shift].1 as int, factor.1 as int);
            lemma_reduce_value(d[i - shift].0 * factor.0, (d[i - shift].1 * factor.1) as int);
        }
    }
    lemma_trim_coef(raw);
    assert forall|k: int| 0 <= k implies #[trigger] qv_eq(coef(div_sub(d, shift, factor), k), div_sub_at(d, shift, factor, k)) by {
        assert(qv_eq(coef(trim(raw), k), coef(raw, k)));
    }
}

proof fn lemma_conv_valid(a: Seq<(int, nat)>, b: Seq<(int, nat)>, k: int, m: nat)
    requires
        valid_coeffs(a),
        valid_coeffs(b),
        m <= a.len(),
    ensures
        conv(a, b, k, m).1 > 0,
    decreases m,
{
    if m > 0 {
        lemma_conv_valid(a, b, k, (m - 1) as nat);
        let i = m - 1;
        if 0 <= k - i < b.len() {
            let prev = conv(a, b, k, (m - 1) as nat);
            let t = qv_mul(a[i], b[k - i]);
            lemma_pos_mul(a[i].1 as int, b[k - i].1 as int);
            lemma_reduce_value(a[i].0 * b[k - i].0, (a[i].1 * b[k - i].1) as int);
            lemma_rep_self(prev);
            lemma_rep_self(t);
            lemma_rep_add(prev, prev.0, prev.1 as int, t, t.0, t.1 as int);
        }
    }
}

proof fn lemma_conv_zeros(len: nat, b: Seq<(int, nat)>, k: int, m: nat)
    requires
        m <= len,
        valid_coeffs(b),
    ensures
        conv(zeros(len), b, k, m) == qv_zero(),
    decreases m,
{
    if m > 0 {
        lemma_conv_zeros(len, b, k, (m - 1) as nat);
        let i = m - 1;
        if 0 <= k - i < b.len() {
            assert(zeros(len)[i] == qv_zero());
            lemma_zero_ops(b[k - i]);
        }
    }
}

/// Setting the zero entry `s` of `q` to `f` bumps the convolution by `f * d[k - s]`
/// once the sum passes `s`.
proof fn lemma_conv_bump(q: Seq<(int, nat)>, d: Seq<(int, nat)>, k: int, s: int, f: (int, nat), m: nat)
    requires
        valid_coeffs(q),
        valid_coeffs(d),
        f.1 > 0,
        0 <= s < q.len(),
        q[s] == qv_zero(),
        m <= q.len(),
    ensures
        conv(q, d, k, m).1 > 0,
        ({
            let bb = if s < m && 0 <= k - s < d.len() { qv_add(qv_zero(), qv_mul(f, d[k - s])) } else { qv_zero() };
            &&& bb.1 > 0
            &&& rep(
                conv(q.update(s, f), d, k, m),
                conv(q, d, k, m).0 * bb.1 + bb.0 * conv(q, d, k, m).1,
                (conv(q, d, k, m).1 * bb.1) as int,
            )
        }),
    decreases m,
{
    let q2 = q.update(s, f);
    lemma_conv_valid(q, d, k, m);
    if m == 0 {
        assert(conv(q2, d, k, 0) == qv_zero());
    } else {
        lemma_conv_bump(q, d, k, s, f, (m - 1) as nat);
        let i = m - 1;
        let c0 = conv(q, d, k, (m - 1) as nat);
        let c2 = conv(q2, d, k, (m - 1) as nat);
        let bprev = if s < m - 1 && 0 <= k - s < d.len() { qv_add(qv_zero(), qv_mul(f, d[k - s])) } else { qv_zero() };
        lemma_conv_valid(q, d, k, (m - 1) as nat);
        if 0 <= k - i < d.len() {
            let x = qv_mul(q[i], d[k - i]);
            lemma_pos_mul(q[i].1 as int, d[k - i].1 as int);
            lemma_reduce_value(q[i].0 * d[k - i].0, (q[i].1 * d[k - i].1) as int);
            if i == s {
                let y = qv_mul(f, d[k - s]);
                lemma_zero_ops(d[k - s]);
                assert(x == qv_zero());
                assert(q2[i] == f);
                lemma_pos_mul(f.1 as int, d[k - s].1 as int);
                lemma_reduce_value(f.0 * d[k - s].0, (f.1 * d[k - s].1) as int);
                assert(rep(y, x.0 * y.1 + y.0 * x.1, (x.1 * y.1) as int));
                lemma_bump_hit_rep(c0, c2, x, y, y, bprev);
            } else {
                assert(q2[i] == q[i]);
                lemma_bump_step(c0, c2, x, bprev);
            }
        }
    }
}

/// Past the reach of `b`, the convolution stays zero.
proof fn lemma_conv_none(a: Seq<(int, nat)>, b: Seq<(int, nat)>, k: int, m: nat)
    requires
        b.len() == 0 || k - m + 1 >= b.len(),
    ensures
        conv(a, b, k, m) == qv_zero(),
    decreases m,
{
    if m > 0 {
        lemma_conv_none(a, b, k, (m - 1) as nat);
    }
}

/// The coefficients of a product are the convolutions.
proof fn lemma_mul_coef(a: Seq<(int, nat)>, b: Seq<(int, nat)>)
    requires
        valid_coeffs(a),
        valid_coeffs(b),
    ensures
        valid_coeffs(uni_mul(a, b)),
        forall|k: int| 0 <= k ==> #[trigger] qv_eq(coef(uni_mul(a, b), k), conv(a, b, k, a.len())),
{
    if a.len() == 0 || b.len() == 0 {
        assert forall|k: int| 0 <= k implies #[trigger] qv_eq(coef(uni_mul(a, b), k), conv(a, b, k, a.len())) by {
            if b.len() == 0 {
                lemma_conv_none(a, b, k, a.len());
            } else {
                assert(conv(a, b, k, 0) == qv_zero());
            }
        }
    } else {
        let l = (a.len() + b.len() - 1) as nat;
        let raw = Seq::new(l, |k: int| conv(a, b, k, a.len()));
        assert forall|i: int| 0 <= i < raw.len() implies (#[trigger] raw[i]).1 > 0 by {
            lemma_conv_valid(a, b, i, a.len());
        }
        lemma_trim_coef(raw);
        assert forall|k: int| 0 <= k implies #[trigger] qv_eq(coef(uni_mul(a, b), k), conv(a, b, k, a.len())) by {
            assert(qv_eq(coef(trim(raw), k), coef(raw, k)));
            if k >= l {
                lemma_conv_none(a, b, k, a.len());
            }
        }
    }
}

proof fn lemma_conv_prefix(a: Seq<(int, nat)>, t: Seq<(int, nat)>, b: Seq<(int, nat)>, k: int, m: nat)
    requires
        m <= a.len(),
        m <= t.len(),
        forall|i: int| 0 <= i < m ==> a[i] == t[i],
    ensures
        conv(a, b, k, m) == conv(t, b, k, m),
    decreases m,
{
    if m > 0 {
        lemma_conv_prefix(a, t, b, k, (m - 1) as nat);
    }
}

/// Trailing zero coefficients add nothing to a convolution.
proof fn lemma_conv_tail(a: Seq<(int, nat)>, b: Seq<(int, nat)>, k: int, lo: nat, m: nat)
    requires
        valid_coeffs(a),
        valid_coeffs(b),
        lo <= m <= a.len(),
        forall|i: int| lo <= i < a.len() ==> (#[trigger] a[i]).0 == 0,
    ensures
        qv_eq(conv(a, b, k, m), conv(a, b, k, lo)),
    decreases m,
{
    lemma_conv_valid(a, b, k, m);
    lemma_conv_valid(a, b, k, lo);
    if m > lo {
        lemma_conv_tail(a, b, k, lo, (m - 1) as nat);
        lemma_conv_valid(a, b, k, (m - 1) as nat);
        let i = m - 1;
        if 0 <= k - i < b.len() {
            let t = qv_mul(a[i], b[k - i]);
            lemma_pos_mul(a[i].1 as int, b[k - i].1 as int);
            lemma_reduce_value(a[i].0 * b[k - i].0, (a[i].1 * b[k - i].1) as int);
            assert(a[i].0 * b[k - i].0 == 0);
            lemma_add_zero_value(conv(a, b, k, (m - 1) as nat), t);
            lemma_qv_eq_trans(conv(a, b, k, m), conv(a, b, k, (m - 1) as nat), conv(a, b, k, lo));
        }
    } else {
        assert(conv(a, b, k, m) == conv(a, b, k, lo));
    }
}

proof fn lemma_conv_trim(a: Seq<(int, nat)>, b: Seq<(int, nat)>, k: int)
    requires
        valid_coeffs(a),
        valid_coeffs(b),
    ensures
        qv_eq(conv(trim(a), b, k, trim(a).len()), conv(a, b, k, a.len())),
{
    lemma_trim(a);
    let t = trim(a);
    assert forall|i: int| 0 <= i < t.len() implies a[i] == t[i] by {}
    lemma_conv_prefix(a, t, b, k, t.len());
    lemma_conv_tail(a, b, k, t.len(), a.len());
    lemma_conv_valid(a, b, k, t.len());
    lemma_conv_valid(a, b, k, a.len());
    assert(qv_eq(conv(a, b, k, a.len()), conv(a, b, k, t.len())));
}

/// The long-division invariant: `p = quot * d + rem` in value, coefficient by coefficient.
pub open spec fn div_inv(p: Seq<(int, nat)>, quot: Seq<(int, nat)>, rem: Seq<(int, nat)>, d: Seq<(int, nat)>) -> bool {
    forall|k: int| 0 <= k ==> #[trigger] qv_eq(coef(p, k), qv_add(conv(quot, d, k, quot.len()), coef(rem, k)))
}

proof fn lemma_qv_mul_comm(a: (int, nat), b: (int, nat))
    ensures
        qv_mul(a, b) == qv_mul(b, a),
{
    vstd::arithmetic::mul::lemma_mul_is_commutative(a.0, b.0);
    vstd::arithmetic::mul::lemma_mul_is_commutative(a.1 as int, b.1 as int);
}

proof fn lemma_qv_add_comm(a: (int, nat), b: (int, nat))
    ensures
        qv_add(a, b) == qv_add(b, a),
{
    vstd::arithmetic::mul::lemma_mul_is_commutative(a.1 as int, b.1 as int);
}

/// One step of long division keeps the invariant and shortens the remainder.
proof fn lemma_div_loop_value(p: Seq<(int, nat)>, rem: Seq<(int, nat)>, quot: Seq<(int, nat)>, d: Seq<(int, nat)>)
    requires
        valid_coeffs(p),
        valid_coeffs(rem),
        valid_coeffs(quot),
        valid_coeffs(d),
        d.len() > 0,
        d.last().0 != 0,
        is_trimmed(rem),
        div_inv(p, quot, rem, d),
        rem.len() >= d.len() ==> rem.len() - d.len() < quot.len(),
        forall|j: int| 0 <= j < quot.len() && j + d.len() <= rem.len() ==> #[trigger] quot[j] == qv_zero(),
    ensures
        div_loop(rem, quot, d).1.len() < d.len(),
        div_loop(rem, quot, d).0.len() == quot.len(),
        valid_coeffs(div_loop(rem, quot, d).0),
        valid_coeffs(div_loop(rem, quot, d).1),
        div_inv(p, div_loop(rem, quot, d).0, div_loop(rem, quot, d).1, d),
    decreases rem.len(),
{
    if rem.len() == 0 || rem.len() < d.len() {
    } else {
        let s = (rem.len() - d.len()) as nat;
        let rl = rem.last();
        let dl = d.last();
        let f = qv_div(rl, dl);
        assert(rl == rem[rem.len() - 1]);
        assert(dl == d[d.len() - 1]);
        assert(rl.0 * dl.1 != 0) by (nonlinear_arith)
            requires
                rl.0 != 0,
                dl.1 > 0,
        ;
        assert(rl.1 * dl.0 != 0) by (nonlinear_arith)
            requires
                rl.1 > 0,
                dl.0 != 0,
        ;
        lemma_reduce_value(rl.0 * dl.1, rl.1 * dl.0);
        let ds = div_sub(d, s, f);
        let nr = uni_sub(rem, ds);
        lemma_div_sub_coef(d, s, f);
        lemma_sub_coef(rem, ds);
        lemma_trim(Seq::new(s + d.len(), |k: int| if k >= s { qv_mul(d[k - s], f) } else { qv_zero() }));
        let n = if rem.len() >= ds.len() { rem.len() } else { ds.len() };
        lemma_trim(Seq::new(n, |i: int| qv_sub(coef(rem, i), coef(ds, i))));
        assert(nr.len() <= rem.len());
        // the leading coefficient cancels
        let top = rem.len() - 1;
        let y = qv_mul(dl, f);
        assert(div_sub_at(d, s, f, top) == y);
        lemma_div_mul_cancel(rl, dl);
        lemma_coef_valid(ds, top);
        lemma_pos_mul(dl.1 as int, f.1 as int);
        lemma_reduce_value(dl.0 * f.0, (dl.1 * f.1) as int);
        assert(qv_eq(coef(ds, top), y));
        lemma_sub_congr(rl, coef(ds, top), y);
        lemma_pos_mul(rl.1 as int, y.1 as int);
        lemma_reduce_value(rl.0 * y.1 - y.0 * rl.1, (rl.1 * y.1) as int);
        assert(coef(rem, top) == rl);
        assert(qv_eq(coef(nr, top), qv_sub(rl, coef(ds, top))));
        lemma_coef_valid(nr, top);
        let w = qv_sub(rl, coef(ds, top));
        assert(w.0 * (rl.1 * y.1) == 0 * w.1);
        assert(w.0 == 0) by (nonlinear_arith)
            requires
                w.0 * (rl.1 * y.1) == 0,
                rl.1 * y.1 > 0,
        ;
        assert(coef(nr, top).0 == 0) by (nonlinear_arith)
            requires
                coef(nr, top).0 * w.1 == w.0 * coef(nr, top).1,
                w.0 == 0,
                w.1 > 0,
        ;
        if nr.len() == rem.len() {
            assert(nr.last() == coef(nr, top));
        }
        assert(nr.len() < rem.len());
        let q2 = quot.update(s as int, f);
        assert(valid_coeffs(q2)) by {
            assert forall|i: int| 0 <= i < q2.len() implies (#[trigger] q2[i]).1 > 0 by {
                if i != s {
                    assert(q2[i] == quot[i]);
                }
            }
        }
        assert(quot[s as int] == qv_zero());
        assert(div_inv(p, q2, nr, d)) by {
            assert forall|k: int| 0 <= k implies #[trigger] qv_eq(coef(p, k), qv_add(conv(q2, d, k, q2.len()), coef(nr, k))) by {
                let c = conv(quot, d, k, quot.len());
                let c2 = conv(q2, d, k, q2.len());
                let r = coef(rem, k);
                let nk = coef(nr, k);
                let dk = div_sub_at(d, s, f, k);
                lemma_conv_bump(quot, d, k, s as int, f, quot.len());
                let bb = if (s as int) < quot.len() && 0 <= k - s < d.len() { qv_add(qv_zero(), qv_mul(f, d[k - s])) } else { qv_zero() };
                lemma_coef_valid(rem, k);
                lemma_coef_valid(ds, k);
                lemma_coef_valid(nr, k);
                if s <= k < s + d.len() {
                    lemma_qv_mul_comm(f, d[k - s]);
                    lemma_pos_mul(d[k - s].1 as int, f.1 as int);
                    lemma_reduce_value(d[k - s].0 * f.0, (d[k - s].1 * f.1) as int);
                    lemma_rep_self(qv_zero());
                    lemma_rep_self(dk);
                    lemma_rep_add(qv_zero(), 0, 1, dk, dk.0, dk.1 as int);
                    lemma_rep_move(bb, 0 * dk.1 + dk.0 * 1, (1 * dk.1) as int, dk.0, dk.1 as int);
                } else {
                    assert(bb == qv_zero() && dk == qv_zero());
                }
                assert(qv_eq(coef(ds, k), dk));
                lemma_sub_congr(r, coef(ds, k), dk);
                lemma_rep_of_eq(nk, qv_sub(r, coef(ds, k)), r.0 * dk.1 - dk.0 * r.1, (r.1 * dk.1) as int);
                lemma_bump_cancel(c2, c, bb, nk, r, dk);
                lemma_rep_self(c);
                lemma_rep_self(r);
                lemma_rep_add(c, c.0, c.1 as int, r, r.0, r.1 as int);
                assert(qv_eq(qv_add(c, r), qv_add(c2, nk)));
                lemma_qv_eq_trans(coef(p, k), qv_add(c, r), qv_add(c2, nk));
            }
        }
        assert forall|j: int| 0 <= j < q2.len() && j + d.len() <= nr.len() implies #[trigger] q2[j] == qv_zero() by {
            assert(q2[j] == quot[j]);
        }
        lemma_div_loop_value(p, nr, q2, d);
    }
}

/// Long division is exact: `p = q * d + r` coefficient by coefficient (in
/// value), with the remainder `r` of lower degree than the divisor `d`.
pub proof fn lemma_divmod_identity(p: Seq<(int, nat)>, d: Seq<(int, nat)>)
    requires
        valid_coeffs(p),
        valid_coeffs(d),
        is_trimmed(p),
        d.len() > 0,
        d.last().0 != 0,
    ensures
        uni_divmod(p, d).1.len() < d.len(),
        same_poly(p, uni_add(uni_mul(uni_divmod(p, d).0, d), uni_divmod(p, d).1)),
{
    let l = quot_len(p, d);
    let z = zeros(l);
    assert(valid_coeffs(z));
    assert(div_inv(p, z, p, d)) by {
        assert forall|k: int| 0 <= k implies #[trigger] qv_eq(coef(p, k), qv_add(conv(z, d, k, z.len()), coef(p, k))) by {
            lemma_conv_zeros(l, d, k, l);
            lemma_coef_valid(p, k);
            lemma_rep_self(qv_zero());
            lemma_add_zero_value(coef(p, k), qv_zero());
            lemma_qv_add_comm(qv_zero(), coef(p, k));
        }
    }
    lemma_div_loop_value(p, p, z, d);
    let big_q = div_loop(p, z, d).0;
    let r = div_loop(p, z, d).1;
    let q = trim(big_q);
    lemma_trim_coef(big_q);
    lemma_mul_coef(q, d);
    lemma_add_coef(uni_mul(q, d), r);
    assert forall|k: int| 0 <= k implies #[trigger] qv_eq(coef(p, k), coef(uni_add(uni_mul(q, d), r), k)) by {
        let cq = conv(q, d, k, q.len());
        let cbig = conv(big_q, d, k, big_q.len());
        lemma_conv_trim(big_q, d, k);
        lemma_conv_valid(q, d, k, q.len());
        lemma_conv_valid(big_q, d, k, big_q.len());
        lemma_coef_valid(uni_mul(q, d), k);
        lemma_coef_valid(r, k);
        lemma_coef_valid(p, k);
        lemma_qv_eq_trans(coef(uni_mul(q, d), k), cq, cbig);
        lemma_add_congr(coef(uni_mul(q, d), k), cbig, coef(r, k));
        let x = qv_add(cbig, coef(r, k));
        let y = qv_add(coef(uni_mul(q, d), k), coef(r, k));
        lemma_rep_self(cbig);
        lemma_rep_self(coef(r, k));
        lemma_rep_add(cbig, cbig.0, cbig.1 as int, coef(r, k), coef(r, k).0, coef(r, k).1 as int);
        lemma_rep_self(coef(uni_mul(q, d), k));
        lemma_rep_add(coef(uni_mul(q, d), k), coef(uni_mul(q, d), k).0, coef(uni_mul(q, d), k).1 as int, coef(r, k), coef(r, k).0, coef(r, k).1 as int);
        assert(qv_eq(x, y));
        lemma_qv_eq_trans(coef(p, k), x, y);
        assert(qv_eq(coef(uni_add(uni_mul(q, d), r), k), y));
        lemma_qv_eq_trans(coef(p, k), y, coef(uni_add(uni_mul(q, d), r), k));
    }
}

// ---------------------------------------------------------------------------
// `p - p = 0`
// ---------------------------------------------------------------------------

proof fn lemma_name_lb_all(m: Seq<(Seq<char>, nat)>, v: Seq<char>)
    requires
        forall|i: int| 0 <= i < m.len() ==> str_lt(#[trigger] m[i].0, v),
    ensures
        name_lb(m, v) == m.len(),
    decreases m.len(),
{
    if m.len() > 0 {
        let t = m.drop_first();
        assert forall|i: int| 0 <= i < t.len() implies str_lt(#[trigger] t[i].0, v) by {
            assert(t[i] == m[i + 1]);
        }
        lemma_name_lb_all(t, v);
        assert(str_lt(m[0].0, v));
    }
}

/// A normalized monomial is its own normal form.
proof fn lemma_norm_normal(m: Seq<(Seq<char>, nat)>)
    requires
        mono_normal(m),
    ensures
        norm(m) == m,
    decreases m.len(),
{
    if m.len() > 0 {
        let d = m.drop_last();
        assert forall|i: int, j: int| 0 <= i < j < d.len() implies str_lt(#[trigger] d[i].0, #[trigger] d[j].0) by {
            assert(d[i] == m[i] && d[j] == m[j]);
        }
        assert forall|i: int| 0 <= i < d.len() implies (#[trigger] d[i]).1 > 0 by {
            assert(d[i] == m[i]);
        }
        lemma_norm_normal(d);
        let last = m.last();
        assert(last == m[m.len() - 1]);
        assert forall|i: int| 0 <= i < d.len() implies str_lt(#[trigger] d[i].0, last.0) by {
            assert(d[i] == m[i]);
        }
        lemma_name_lb_all(d, last.0);
        assert(d.insert(d.len() as int, (last.0, last.1)) =~= m);
    }
}

proof fn lemma_prune_all(s: Seq<(Seq<(Seq<char>, nat)>, (int, nat))>)
    requires
        forall|i: int| 0 <= i < s.len() ==> (#[trigger] s[i]).1.0 != 0,
    ensures
        prune(s) == s,
    decreases s.len(),
{
    reveal(Seq::filter);
    if s.len() > 0 {
        let d = s.drop_last();
        assert forall|i: int| 0 <= i < d.len() implies (#[trigger] d[i]).1.0 != 0 by {
            assert(d[i] == s[i]);
        }
        lemma_prune_all(d);
        assert(s.last() == s[s.len() - 1]);
        assert(d.push(s.last()) =~= s);
    }
}

proof fn lemma_add_terms_cancel(a: Seq<(Seq<(Seq<char>, nat)>, (int, nat))>, i: nat)
    requires
        terms_ok(a),
        forall|q: int| 0 <= q < a.len() ==> (#[trigger] a[q]).1.1 > 0,
        i <= a.len(),
    ensures
        add_terms(a, a.map_values(|t: (Seq<(Seq<char>, nat)>, (int, nat))| (t.0, qv_neg(t.1))).take(i as int)) == a.skip(
            i as int,
        ),
    decreases i,
{
    let n = a.map_values(|t: (Seq<(Seq<char>, nat)>, (int, nat))| (t.0, qv_neg(t.1)));
    if i == 0 {
        assert(n.take(0) =~= Seq::<(Seq<(Seq<char>, nat)>, (int, nat))>::empty());
        assert(a.skip(0) =~= a);
    } else {
        let j = (i - 1) as int;
        lemma_add_terms_cancel(a, (i - 1) as nat);
        assert(n.take(i as int).drop_last() =~= n.take(j));
        assert(n.take(i as int).last() == n[j]);
        let s = a.skip(j);
        let m = a[j].0;
        let c = qv_neg(a[j].1);
        assert(n[j] == (m, c));
        assert(c.0 != 0);
        lemma_norm_normal(m);
        assert(s[0] == a[j]);
        lemma_mono_lt_irrefl(m);
        assert(term_lb(s, m) == 0);
        let v = qv_add(s[0].1, c);
        let x = a[j].1;
        assert(x.0 * x.1 + (-x.0) * x.1 == 0) by (nonlinear_arith);
        assert(x.1 > 0);
        assert(x.1 * x.1 != 0) by (nonlinear_arith)
            requires
                x.1 > 0,
        ;
        lemma_reduce_value(x.0 * x.1 + (-x.0) * x.1, (x.1 * x.1) as int);
        assert(v.0 == 0);
        assert(s.remove(0) =~= a.skip(i as int));
    }
}

/// `p - p = 0`: subtracting a polynomial from itself leaves no term.
pub proof fn lemma_sub_self(a: Seq<(Seq<(Seq<char>, nat)>, (int, nat))>)
    requires
        terms_ok(a),
        forall|q: int| 0 <= q < a.len() ==> (#[trigger] a[q]).1.1 > 0,
    ensures
        poly_add(a, poly_neg(a)) == Seq::<(Seq<(Seq<char>, nat)>, (int, nat))>::empty(),
{
    let n = a.map_values(|t: (Seq<(Seq<char>, nat)>, (int, nat))| (t.0, qv_neg(t.1)));
    assert forall|i: int| 0 <= i < n.len() implies (#[trigger] n[i]).1.0 != 0 by {
        assert(a[i].1.0 != 0);
    }
    lemma_prune_all(n);
    lemma_add_terms_cancel(a, a.len());
    assert(n.take(a.len() as int) =~= n);
    assert(a.skip(a.len() as int) =~= Seq::<(Seq<(Seq<char>, nat)>, (int, nat))>::empty());
    reveal(Seq::filter);
}

} // verus!
