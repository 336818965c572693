//! Exact rational numbers.
//!
//! A `Rat` holds a rational in lowest terms as plain values: a sign and the
//! little-endian base-2^32 digits of the numerator and of the (positive)
//! denominator. Addition, subtraction, multiplication, division and rendering
//! are done by `num-rational`; the wrappers below state what they return.

use vstd::prelude::*;
use num_bigint::{BigInt, Sign};
use num_rational::BigRational;
use crate::text::decimal;
use vstd::arithmetic::mul::{lemma_mul_is_associative, lemma_mul_is_commutative, lemma_mul_is_distributive_add_other_way};

verus! {

/// The value of little-endian base-2^32 digits.
pub open spec fn limbs_val(s: Seq<u32>) -> nat
    decreases s.len(),
{
    if s.len() == 0 {
        0
    } else {
        (s[0] as nat) + 0x1_0000_0000nat * limbs_val(s.drop_first())
    }
}

/// Digits without a most significant zero.
pub open spec fn limbs_canon(s: Seq<u32>) -> bool {
    s.len() == 0 || s.last() != 0
}

/// Greatest common divisor.
pub open spec fn gcd(a: nat, b: nat) -> nat
    decreases b,
{
    if b == 0 {
        a
    } else {
        gcd(b, a % b)
    }
}

pub open spec fn iabs(x: int) -> nat {
    if x < 0 {
        (-x) as nat
    } else {
        x as nat
    }
}

/// `n / d` (with `d != 0`) in lowest terms with a positive denominator.
pub open spec fn reduce(n: int, d: int) -> (int, nat) {
    let g = gcd(iabs(n), iabs(d));
    (if d < 0 { -(n / (g as int)) } else { n / (g as int) }, iabs(d) / g)
}

/// The sum of two rationals, as (numerator, denominator) pairs.
pub open spec fn qv_add(a: (int, nat), b: (int, nat)) -> (int, nat) {
    reduce(a.0 * b.1 + b.0 * a.1, (a.1 * b.1) as int)
}

/// The difference of two rationals.
pub open spec fn qv_sub(a: (int, nat), b: (int, nat)) -> (int, nat) {
    reduce(a.0 * b.1 - b.0 * a.1, (a.1 * b.1) as int)
}

/// The product of two rationals.
pub open spec fn qv_mul(a: (int, nat), b: (int, nat)) -> (int, nat) {
    reduce(a.0 * b.0, (a.1 * b.1) as int)
}

/// The quotient of two rationals (`b` nonzero).
pub open spec fn qv_div(a: (int, nat), b: (int, nat)) -> (int, nat) {
    reduce(a.0 * b.1, a.1 * b.0)
}

/// The negation of a rational.
pub open spec fn qv_neg(a: (int, nat)) -> (int, nat) {
    (-a.0, a.1)
}

pub open spec fn qv_zero() -> (int, nat) {
    (0, 1)
}

pub open spec fn qv_one() -> (int, nat) {
    (1, 1)
}

/// The integer `n` in decimal, with a leading `-` when negative.
pub open spec fn int_text(n: int) -> Seq<char> {
    if n < 0 {
        seq!['-'] + decimal((-n) as nat)
    } else {
        decimal(n as nat)
    }
}

/// A rational in text: `n`, or `n/d` when the denominator is not 1.
pub open spec fn rat_text(q: (int, nat)) -> Seq<char> {
    if q.1 == 1 {
        int_text(q.0)
    } else {
        int_text(q.0) + seq!['/'] + decimal(q.1)
    }
}

/// A rational number: sign, numerator digits and denominator digits.
#[derive(Clone, Debug, PartialEq, Eq)]
pub struct Rat {
    pub neg: bool,
    pub num: Vec<u32>,
    pub den: Vec<u32>,
}

impl View for Rat {
    type V = (int, nat);

    open spec fn view(&self) -> (int, nat) {
        (
            if self.neg {
                -(limbs_val(self.num@) as int)
            } else {
                limbs_val(self.num@) as int
            },
            limbs_val(self.den@),
        )
    }
}

impl Rat {
    /// Canonical: digits without leading zeros, zero not negative, a positive
    /// denominator, and lowest terms.
    pub open spec fn wf(self) -> bool {
        &&& limbs_canon(self.num@)
        &&& limbs_canon(self.den@)
        &&& (self.num@.len() == 0 ==> !self.neg)
        &&& limbs_val(self.den@) >= 1
        &&& gcd(limbs_val(self.num@), limbs_val(self.den@)) == 1
    }

    /// Whether this value is canonical (`wf`): checked field by field, and the
    /// lowest terms by comparing with the reduced form of the same value.
    pub fn is_wf(&self) -> (b: bool)
        ensures
            b == self.wf(),
    {
        let num_canon = self.num.len() == 0 || self.num[self.num.len() - 1] != 0;
        let den_canon = self.den.len() > 0 && self.den[self.den.len() - 1] != 0;
        if !num_canon || !den_canon || (self.num.len() == 0 && self.neg) {
            return false;
        }
        proof {
            lemma_limbs_zero(self.den@);
            lemma_limbs_zero(self.num@);
        }
        let z = Rat::zero();
        let r = rat_add(self, &z);
        let same = r.neg == self.neg && limbs_eq(&r.num, &self.num) && limbs_eq(&r.den, &self.den);
        proof {
            let n = self@.0;
            let d = self@.1 as int;
            assert(qv_add(self@, z@) == reduce(n, d)) by {
                assert(n * 1 + 0 * d == n);
                assert(d * 1 == d);
            }
            if self.wf() {
                assert(gcd(iabs(n), self@.1) == 1);
                assert(iabs(n) == limbs_val(self.num@));
                assert(iabs(d) == self@.1);
                assert(n / 1 == n) by (nonlinear_arith);
                assert(d / 1 == d) by (nonlinear_arith);
                assert(reduce(n, d) == (n, self@.1));
                lemma_limbs_unique(r.num@, self.num@);
                lemma_limbs_unique(r.den@, self.den@);
                lemma_limbs_zero(r.num@);
            }
        }
        same
    }

    /// Zero.
    pub fn zero() -> (r: Rat)
        ensures
            r.wf(),
            r@ == qv_zero(),
    {
        let mut den: Vec<u32> = Vec::new();
        den.push(1);
        proof {
            lemma_gcd_one(0);
            assert(limbs_val(den@.drop_first()) == 0);
        }
        Rat { neg: false, num: Vec::new(), den }
    }

    /// One.
    pub fn one() -> (r: Rat)
        ensures
            r.wf(),
            r@ == qv_one(),
    {
        Rat::from_i64(1)
    }

    /// The integer `n`.
    pub fn from_i64(n: i64) -> (r: Rat)
        ensures
            r.wf(),
            r@ == (n as int, 1nat),
    {
        let mag: u64 = if n < 0 {
            (-(n as i128)) as u64
        } else {
            n as u64
        };
        let lo = (mag % 0x1_0000_0000) as u32;
        let hi = (mag / 0x1_0000_0000) as u32;
        let mut num: Vec<u32> = Vec::new();
        if mag != 0 {
            num.push(lo);
            if hi != 0 {
                num.push(hi);
            }
        }
        let mut den: Vec<u32> = Vec::new();
        den.push(1);
        proof {
            assert(limbs_val(den@.drop_first()) == 0);
            if mag != 0 {
                let t = num@.drop_first();
                if hi != 0 {
                    assert(t.drop_first().len() == 0);
                    assert(limbs_val(t.drop_first()) == 0);
                    assert(t[0] == hi);
                    assert(limbs_val(t) == hi);
                } else {
                    assert(t.len() == 0);
                    assert(limbs_val(t) == 0);
                }
                assert(num@[0] == lo);
                assert(mag == lo + 0x1_0000_0000 * hi);
            }
            assert(limbs_val(num@) == mag);
            lemma_gcd_one(mag as nat);
        }
        Rat { neg: n < 0, num, den }
    }

    /// Is this zero?
    pub fn is_zero(&self) -> (b: bool)
        requires
            self.wf(),
        ensures
            b == (self@.0 == 0),
    {
        proof {
            lemma_limbs_zero(self.num@);
        }
        self.num.len() == 0
    }

    /// Is this negative?
    pub fn is_negative(&self) -> (b: bool)
        requires
            self.wf(),
        ensures
            b == (self@.0 < 0),
    {
        proof {
            lemma_limbs_zero(self.num@);
        }
        self.neg
    }

    /// The negation (a new value).
    pub fn neg(&self) -> (r: Rat)
        requires
            self.wf(),
        ensures
            r.wf(),
            r@ == qv_neg(self@),
    {
        let c = self.copy();
        proof {
            lemma_limbs_zero(self.num@);
        }
        Rat { neg: if c.num.len() == 0 { false } else { !c.neg }, num: c.num, den: c.den }
    }

    /// A copy.
    pub fn copy(&self) -> (r: Rat)
        ensures
            r.neg == self.neg,
            r.num@ == self.num@,
            r.den@ == self.den@,
    {
        Rat { neg: self.neg, num: copy_limbs(&self.num), den: copy_limbs(&self.den) }
    }

    /// The rational `n / d`.
    pub fn ratio(n: i64, d: i64) -> (r: Rat)
        requires
            d != 0,
        ensures
            r.wf(),
            r@ == reduce(n as int, d as int),
    {
        rat_from_ratio(n, d)
    }

    /// `self + other`.
    pub fn add(&self, other: &Rat) -> (r: Rat)
        requires
            self.wf(),
            other.wf(),
        ensures
            r.wf(),
            r@ == qv_add(self@, other@),
    {
        rat_add(self, other)
    }

    /// `self - other`.
    pub fn sub(&self, other: &Rat) -> (r: Rat)
        requires
            self.wf(),
            other.wf(),
        ensures
            r.wf(),
            r@ == qv_sub(self@, other@),
    {
        rat_sub(self, other)
    }

    /// `self * other`.
    pub fn mul(&self, other: &Rat) -> (r: Rat)
        requires
            self.wf(),
            other.wf(),
        ensures
            r.wf(),
            r@ == qv_mul(self@, other@),
    {
        rat_mul(self, other)
    }

    /// `self / other`, for a nonzero `other`.
    pub fn div(&self, other: &Rat) -> (r: Rat)
        requires
            self.wf(),
            other.wf(),
            other@.0 != 0,
        ensures
            r.wf(),
            r@ == qv_div(self@, other@),
    {
        rat_div(self, other)
    }

    /// The text form: `n` or `n/d`.
    pub fn to_text(&self) -> (s: String)
        requires
            self.wf(),
        ensures
            s@ == rat_text(self@),
    {
        rat_to_string(self)
    }
}

fn copy_limbs(v: &Vec<u32>) -> (r: Vec<u32>)
    ensures
        r@ == v@,
{
    let mut r: Vec<u32> = Vec::new();
    let mut i: usize = 0;
    while i < v.len()
        invariant
            i <= v@.len(),
            r@ == v@.take(i as int),
        decreases v.len() - i,
    {
        r.push(v[i]);
        i = i + 1;
        assert(r@ =~= v@.take(i as int));
    }
    assert(r@ =~= v@);
    r
}

/// Whether two digit sequences are equal.
fn limbs_eq(a: &Vec<u32>, b: &Vec<u32>) -> (r: bool)
    ensures
        r == (a@ == b@),
{
    if a.len() != b.len() {
        return false;
    }
    let mut i: usize = 0;
    while i < a.len()
        invariant
            i <= a@.len(),
            a@.len() == b@.len(),
            forall|j: int| 0 <= j < i ==> a@[j] == b@[j],
        decreases a.len() - i,
    {
        if a[i] != b[i] {
            return false;
        }
        i = i + 1;
    }
    assert(a@ =~= b@);
    true
}

/// Canonical digits are determined by their value.
proof fn lemma_limbs_unique(s: Seq<u32>, t: Seq<u32>)
    requires
        limbs_canon(s),
        limbs_canon(t),
        limbs_val(s) == limbs_val(t),
    ensures
        s == t,
    decreases s.len(),
{
    lemma_limbs_zero(s);
    lemma_limbs_zero(t);
    if s.len() > 0 && t.len() > 0 {
        let s1 = s.drop_first();
        let t1 = t.drop_first();
        let a = s[0] as int;
        let b = t[0] as int;
        let x = limbs_val(s1) as int;
        let y = limbs_val(t1) as int;
        assert(a == b && x == y) by (nonlinear_arith)
            requires
                a + 0x1_0000_0000 * x == b + 0x1_0000_0000 * y,
                0 <= a < 0x1_0000_0000,
                0 <= b < 0x1_0000_0000,
                x >= 0,
                y >= 0,
        ;
        if s1.len() > 0 {
            assert(s1.last() == s.last());
        }
        if t1.len() > 0 {
            assert(t1.last() == t.last());
        }
        lemma_limbs_unique(s1, t1);
        assert(s =~= seq![s[0]] + s1);
        assert(t =~= seq![t[0]] + t1);
    } else if s.len() == 0 && t.len() == 0 {
        assert(s =~= t);
    }
}

proof fn lemma_gcd_one(a: nat)
    ensures
        gcd(a, 1) == 1,
{
    assert(a % 1 == 0);
    assert(gcd(1, 0) == 1);
}

/// Canonical digits are empty exactly when their value is zero.
proof fn lemma_limbs_zero(s: Seq<u32>)
    requires
        limbs_canon(s),
    ensures
        (limbs_val(s) == 0) == (s.len() == 0),
    decreases s.len(),
{
    if s.len() > 0 {
        let t = s.drop_first();
        if t.len() > 0 {
            assert(t.last() == s.last());
            lemma_limbs_zero(t);
        } else {
            assert(s[0] == s.last());
        }
    }
}

/// `BigRational::new` of two `i64`s, in lowest terms (`num-rational` reduces
/// and makes the denominator positive).
#[verifier::external_body]
fn rat_from_ratio(n: i64, d: i64) -> (r: Rat)
    requires
        d != 0,
    ensures
        r.wf(),
        r@ == reduce(n as int, d as int),
{
    let z = BigRational::new(BigInt::from(n), BigInt::from(d));
    let (s, num) = z.numer().to_u32_digits();
    let (_, den) = z.denom().to_u32_digits();
    Rat { neg: matches!(s, Sign::Minus), num, den }
}

/// `+` on `BigRational`: the exact sum, in lowest terms.
#[verifier::external_body]
fn rat_add(a: &Rat, b: &Rat) -> (r: Rat)
    requires
        a@.1 >= 1,
        b@.1 >= 1,
    ensures
        r.wf(),
        r@ == qv_add(a@, b@),
{
    let x = BigRational::new_raw(BigInt::new(if a.neg { Sign::Minus } else { Sign::Plus }, a.num.clone()), BigInt::new(Sign::Plus, a.den.clone()));
    let y = BigRational::new_raw(BigInt::new(if b.neg { Sign::Minus } else { Sign::Plus }, b.num.clone()), BigInt::new(Sign::Plus, b.den.clone()));
    let z = x + y;
    let (s, num) = z.numer().to_u32_digits();
    let (_, den) = z.denom().to_u32_digits();
    Rat { neg: matches!(s, Sign::Minus), num, den }
}

/// `-` on `BigRational`: the exact difference, in lowest terms.
#[verifier::external_body]
fn rat_sub(a: &Rat, b: &Rat) -> (r: Rat)
    requires
        a@.1 >= 1,
        b@.1 >= 1,
    ensures
        r.wf(),
        r@ == qv_sub(a@, b@),
{
    let x = BigRational::new_raw(BigInt::new(if a.neg { Sign::Minus } else { Sign::Plus }, a.num.clone()), BigInt::new(Sign::Plus, a.den.clone()));
    let y = BigRational::new_raw(BigInt::new(if b.neg { Sign::Minus } else { Sign::Plus }, b.num.clone()), BigInt::new(Sign::Plus, b.den.clone()));
    let z = x - y;
    let (s, num) = z.numer().to_u32_digits();
    let (_, den) = z.denom().to_u32_digits();
    Rat { neg: matches!(s, Sign::Minus), num, den }
}

/// `*` on `BigRational`: the exact product, in lowest terms.
#[verifier::external_body]
fn rat_mul(a: &Rat, b: &Rat) -> (r: Rat)
    requires
        a@.1 >= 1,
        b@.1 >= 1,
    ensures
        r.wf(),
        r@ == qv_mul(a@, b@),
{
    let x = BigRational::new_raw(BigInt::new(if a.neg { Sign::Minus } else { Sign::Plus }, a.num.clone()), BigInt::new(Sign::Plus, a.den.clone()));
    let y = BigRational::new_raw(BigInt::new(if b.neg { Sign::Minus } else { Sign::Plus }, b.num.clone()), BigInt::new(Sign::Plus, b.den.clone()));
    let z = x * y;
    let (s, num) = z.numer().to_u32_digits();
    let (_, den) = z.denom().to_u32_digits();
    Rat { neg: matches!(s, Sign::Minus), num, den }
}

/// `/` on `BigRational`: the exact quotient, in lowest terms (the divisor is
/// nonzero; `num-rational` panics on a zero divisor).
#[verifier::external_body]
fn rat_div(a: &Rat, b: &Rat) -> (r: Rat)
    requires
        a@.1 >= 1,
        b@.1 >= 1,
        b@.0 != 0,
    ensures
        r.wf(),
        r@ == qv_div(a@, b@),
{
    let x = BigRational::new_raw(BigInt::new(if a.neg { Sign::Minus } else { Sign::Plus }, a.num.clone()), BigInt::new(Sign::Plus, a.den.clone()));
    let y = BigRational::new_raw(BigInt::new(if b.neg { Sign::Minus } else { Sign::Plus }, b.num.clone()), BigInt::new(Sign::Plus, b.den.clone()));
    let z = x / y;
    let (s, num) = z.numer().to_u32_digits();
    let (_, den) = z.denom().to_u32_digits();
    Rat { neg: matches!(s, Sign::Minus), num, den }
}

/// `Display` of `BigRational`: the numerator in decimal (with `-` when
/// negative), then `/` and the denominator unless the denominator is 1.
#[verifier::external_body]
fn rat_to_string(a: &Rat) -> (s: String)
    requires
        a.wf(),
    ensures
        s@ == rat_text(a@),
{
    let x = BigRational::new_raw(BigInt::new(if a.neg { Sign::Minus } else { Sign::Plus }, a.num.clone()), BigInt::new(Sign::Plus, a.den.clone()));
    format!("{}", x)
}

/// The gcd divides both arguments, and is positive unless both are zero.
pub proof fn lemma_gcd_divides(a: nat, b: nat)
    requires
        a > 0 || b > 0,
    ensures
        gcd(a, b) > 0,
        a % gcd(a, b) == 0,
        b % gcd(a, b) == 0,
    decreases b,
{
    if b > 0 {
        lemma_gcd_divides(b, a % b);
        let g = gcd(b, a % b);
        let kb = b / g;
        let kr = (a % b) / g;
        vstd::arithmetic::div_mod::lemma_fundamental_div_mod(b as int, g as int);
        vstd::arithmetic::div_mod::lemma_fundamental_div_mod((a % b) as int, g as int);
        vstd::arithmetic::div_mod::lemma_fundamental_div_mod(a as int, b as int);
        let q = a / b;
        assert(a == g * (kb * q + kr)) by (nonlinear_arith)
            requires
                b == g * kb,
                a % b == g * kr,
                a == b * q + a % b,
        ;
        vstd::arithmetic::div_mod::lemma_mod_multiples_basic((kb * q + kr) as int, g as int);
        assert((kb * q + kr) * g == g * (kb * q + kr)) by (nonlinear_arith);
    }
}

/// `reduce` keeps the value (cross-multiplied), gives a positive denominator,
/// and is zero exactly for a zero numerator.
pub proof fn lemma_reduce_value(n: int, d: int)
    requires
        d != 0,
    ensures
        reduce(n, d).1 > 0,
        reduce(n, d).0 * d == n * reduce(n, d).1,
        (reduce(n, d).0 == 0) == (n == 0),
{
    let g = gcd(iabs(n), iabs(d));
    lemma_gcd_divides(iabs(n), iabs(d));
    let gi = g as int;
    vstd::arithmetic::div_mod::lemma_fundamental_div_mod(n, gi);
    vstd::arithmetic::div_mod::lemma_fundamental_div_mod(iabs(d) as int, gi);
    assert(n % gi == 0) by {
        if n < 0 {
            vstd::arithmetic::div_mod::lemma_fundamental_div_mod(iabs(n) as int, gi);
            let k = (iabs(n) as int) / gi;
            assert(n == gi * (-k)) by (nonlinear_arith)
                requires
                    iabs(n) as int == gi * k,
                    n == -(iabs(n) as int),
            ;
            vstd::arithmetic::div_mod::lemma_mod_multiples_basic(-k, gi);
            assert((-k) * gi == gi * (-k)) by (nonlinear_arith);
        }
    }
    let qn = n / gi;
    let qd = iabs(d) as int / gi;
    assert(n == gi * qn);
    assert(iabs(d) as int == gi * qd);
    assert(qd > 0) by (nonlinear_arith)
        requires
            iabs(d) as int == gi * qd,
            gi > 0,
            iabs(d) > 0,
    ;
    assert(reduce(n, d).1 == qd);
    if d < 0 {
        assert(reduce(n, d).0 == -qn);
        assert((-qn) * d == n * qd) by (nonlinear_arith)
            requires
                n == gi * qn,
                -d == gi * qd,
        ;
    } else {
        assert(reduce(n, d).0 == qn);
        assert(qn * d == n * qd) by (nonlinear_arith)
            requires
                n == gi * qn,
                d == gi * qd,
        ;
    }
    assert((qn == 0) == (n == 0)) by (nonlinear_arith)
        requires
            n == gi * qn,
            gi > 0,
    ;
}

/// Dividing by `b` and multiplying back by `b` gives `a` again, so the
/// difference of `a` and the result is zero.
pub proof fn lemma_div_mul_cancel(a: (int, nat), b: (int, nat))
    requires
        a.1 > 0,
        b.1 > 0,
        b.0 != 0,
    ensures
        qv_sub(a, qv_mul(b, qv_div(a, b))).0 == 0,
        qv_mul(b, qv_div(a, b)).1 > 0,
{
    let f = qv_div(a, b);
    assert(a.1 * b.0 != 0) by (nonlinear_arith)
        requires
            a.1 > 0,
            b.0 != 0,
    ;
    lemma_reduce_value(a.0 * b.1, a.1 * b.0);
    let m = qv_mul(b, f);
    assert(b.1 * f.1 > 0) by (nonlinear_arith)
        requires
            b.1 > 0,
            f.1 > 0,
    ;
    lemma_reduce_value(b.0 * f.0, (b.1 * f.1) as int);
    assert(a.0 * m.1 == m.0 * a.1) by (nonlinear_arith)
        requires
            f.0 * (a.1 * b.0) == (a.0 * b.1) * f.1,
            m.0 * (b.1 * f.1) == (b.0 * f.0) * m.1,
            b.1 > 0,
            f.1 > 0,
    ;
    assert(a.1 * m.1 != 0) by (nonlinear_arith)
        requires
            a.1 > 0,
            m.1 > 0,
    ;
    lemma_reduce_value(a.0 * m.1 - m.0 * a.1, (a.1 * m.1) as int);
}

/// Zero over any denominator reduces to `0/1`.
pub proof fn lemma_reduce_zero(d: int)
    requires
        d != 0,
    ensures
        reduce(0, d) == (0int, 1nat),
{
    let a = iabs(d);
    assert(a > 0);
    assert(0nat % a == 0);
    assert(gcd(a, 0) == a);
    assert(gcd(0, a) == gcd(a, 0nat % a));
    assert(gcd(0, a) == a);
    vstd::arithmetic::div_mod::lemma_div_by_self(a as int);
    assert((0int) / (a as int) == 0);
}

// ---------------------------------------------------------------------------
// Values of rationals: `rep(x, n, d)` says `x` has the value `n / d`
// ---------------------------------------------------------------------------

/// Equality of two rationals, by cross-multiplication.
pub open spec fn qv_eq(a: (int, nat), b: (int, nat)) -> bool {
    a.0 * b.1 == b.0 * a.1
}

/// `x` has the value `num / den`.
pub open spec fn rep(x: (int, nat), num: int, den: int) -> bool {
    x.1 > 0 && den > 0 && x.0 * den == num * x.1
}

pub proof fn lemma_cancel(m: int, x: int, y: int)
    requires
        m > 0,
        x * m == y * m,
    ensures
        x == y,
{
    assert((x - y) * m == 0) by (nonlinear_arith)
        requires
            x * m == y * m,
    ;
    assert(x - y == 0) by (nonlinear_arith)
        requires
            (x - y) * m == 0,
            m > 0,
    ;
}

pub proof fn lemma_pos_mul(a: int, b: int)
    requires
        a > 0,
        b > 0,
    ensures
        a * b > 0,
{
    assert(a * b > 0) by (nonlinear_arith)
        requires
            a > 0,
            b > 0,
    ;
}

pub proof fn lemma_rep_add(x: (int, nat), n: int, d: int, y: (int, nat), m: int, e: int)
    requires
        rep(x, n, d),
        rep(y, m, e),
    ensures
        rep(qv_add(x, y), n * e + m * d, d * e),
{
    broadcast use vstd::arithmetic::mul::group_mul_properties;

    lemma_pos_mul(x.1 as int, y.1 as int);
    lemma_pos_mul(d, e);
    lemma_reduce_value(x.0 * y.1 + y.0 * x.1, (x.1 * y.1) as int);
    let z = qv_add(x, y);
    assert((x.0 * y.1 + y.0 * x.1) * (d * e) == (x.0 * d) * (y.1 * e) + (y.0 * e) * (x.1 * d));
    assert((x.0 * d) * (y.1 * e) + (y.0 * e) * (x.1 * d) == (n * x.1) * (y.1 * e) + (m * y.1) * (x.1 * d));
    assert((n * x.1) * (y.1 * e) + (m * y.1) * (x.1 * d) == (n * e + m * d) * (x.1 * y.1));
    assert((z.0 * (d * e)) * (x.1 * y.1) == (z.0 * (x.1 * y.1)) * (d * e));
    assert((z.0 * (x.1 * y.1)) * (d * e) == ((x.0 * y.1 + y.0 * x.1) * z.1) * (d * e));
    assert(((x.0 * y.1 + y.0 * x.1) * z.1) * (d * e) == ((x.0 * y.1 + y.0 * x.1) * (d * e)) * z.1);
    assert(((n * e + m * d) * (x.1 * y.1)) * z.1 == ((n * e + m * d) * z.1) * (x.1 * y.1));
    lemma_cancel((x.1 * y.1) as int, z.0 * (d * e), (n * e + m * d) * z.1);
}

pub proof fn lemma_rep_self(x: (int, nat))
    requires
        x.1 > 0,
    ensures
        rep(x, x.0, x.1 as int),
{
}

/// Two values with the same representation are equal.
pub proof fn lemma_rep_eq(x: (int, nat), y: (int, nat), n: int, d: int)
    requires
        rep(x, n, d),
        rep(y, n, d),
    ensures
        qv_eq(x, y),
{
    broadcast use vstd::arithmetic::mul::group_mul_properties;

    assert((x.0 * y.1) * d == (x.0 * d) * y.1);
    assert((x.0 * d) * y.1 == (n * x.1) * y.1);
    assert((y.0 * x.1) * d == (y.0 * d) * x.1);
    assert((y.0 * d) * x.1 == (n * y.1) * x.1);
    assert((n * x.1) * y.1 == (n * y.1) * x.1);
    lemma_cancel(d, x.0 * y.1, y.0 * x.1);
}

/// A representation may be rewritten by an equal fraction.
pub proof fn lemma_rep_move(x: (int, nat), n: int, d: int, n2: int, d2: int)
    requires
        rep(x, n, d),
        d2 > 0,
        n * d2 == n2 * d,
    ensures
        rep(x, n2, d2),
{
    broadcast use vstd::arithmetic::mul::group_mul_properties;

    assert((x.0 * d2) * d == (x.0 * d) * d2);
    assert((x.0 * d) * d2 == (n * x.1) * d2);
    assert((n * x.1) * d2 == (n * d2) * x.1);
    assert((n * d2) * x.1 == (n2 * d) * x.1);
    assert((n2 * d) * x.1 == (n2 * x.1) * d);
    lemma_cancel(d, x.0 * d2, n2 * x.1);
}

/// `S + y` with a bump `B` carried along: if `S' = S + B` in value, then
/// `S' + y = (S + y) + B` in value.
pub proof fn lemma_bump_step(s: (int, nat), sp: (int, nat), y: (int, nat), b: (int, nat))
    requires
        s.1 > 0,
        y.1 > 0,
        b.1 > 0,
        rep(sp, s.0 * b.1 + b.0 * s.1, (s.1 * b.1) as int),
    ensures
        qv_add(s, y).1 > 0,
        rep(qv_add(sp, y), qv_add(s, y).0 * b.1 + b.0 * qv_add(s, y).1, (qv_add(s, y).1 * b.1) as int),
{
    broadcast use vstd::arithmetic::mul::group_mul_properties;

    let t = qv_add(s, y);
    lemma_rep_self(s);
    lemma_rep_self(y);
    lemma_rep_add(s, s.0, s.1 as int, y, y.0, y.1 as int);
    lemma_rep_add(sp, s.0 * b.1 + b.0 * s.1, (s.1 * b.1) as int, y, y.0, y.1 as int);
    lemma_pos_mul(t.1 as int, b.1 as int);
    // t0 (s1 y1) = (s0 y1 + y0 s1) t1
    assert((t.0 * b.1 + b.0 * t.1) * ((s.1 * b.1) * y.1) == (t.0 * (s.1 * y.1)) * (b.1 * b.1) + b.0 * t.1 * s.1 * b.1 * y.1);
    assert((t.0 * (s.1 * y.1)) * (b.1 * b.1) == ((s.0 * y.1 + y.0 * s.1) * t.1) * (b.1 * b.1));
    assert(((s.0 * y.1 + y.0 * s.1) * t.1) * (b.1 * b.1) + b.0 * t.1 * s.1 * b.1 * y.1
        == ((s.0 * b.1 + b.0 * s.1) * y.1 + y.0 * (s.1 * b.1)) * (t.1 * b.1));
    lemma_rep_move(
        qv_add(sp, y),
        (s.0 * b.1 + b.0 * s.1) * y.1 + y.0 * (s.1 * b.1),
        ((s.1 * b.1) * y.1) as int,
        t.0 * b.1 + b.0 * t.1,
        (t.1 * b.1) as int,
    );
}

/// A sum of two represented values, against the sum of their own numbers.
pub proof fn lemma_rep_sum_value(t: (int, nat), nt: int, dt: int, u: (int, nat), nu: int, du: int)
    requires
        rep(t, nt, dt),
        rep(u, nu, du),
    ensures
        (nt * du + nu * dt) * (t.1 * u.1) == (t.0 * u.1 + u.0 * t.1) * (dt * du),
{
    broadcast use vstd::arithmetic::mul::group_mul_properties;

    assert((nt * du + nu * dt) * (t.1 * u.1) == (nt * t.1) * (du * u.1) + (nu * u.1) * (dt * t.1));
    assert((nt * t.1) * (du * u.1) == (t.0 * dt) * (du * u.1));
    assert((nu * u.1) * (dt * t.1) == (u.0 * du) * (dt * t.1));
    assert((t.0 * dt) * (du * u.1) + (u.0 * du) * (dt * t.1) == (t.0 * u.1 + u.0 * t.1) * (dt * du));
}

/// `(s + b) + (x + c) = (s + x) + (b + c)` for fractions, cross-multiplied.
/// `(a b)(c d) = (a c)(b d)`.
pub proof fn lemma_mul4(a: int, b: int, c: int, d: int)
    ensures
        (a * b) * (c * d) == (a * c) * (b * d),
{
    lemma_mul_is_associative(a, b, c * d);
    lemma_mul_is_associative(b, c, d);
    lemma_mul_is_commutative(b, c);
    lemma_mul_is_associative(c, b, d);
    lemma_mul_is_associative(a, c, b * d);
}

/// `(s + b) + (x + c) = (s + x) + (b + c)` for fractions, cross-multiplied.
pub proof fn lemma_four_term(s0: int, s1: int, b0: int, b1: int, x0: int, x1: int, c0: int, c1: int)
    ensures
        (s0 * b1 + b0 * s1) * (x1 * c1) + (x0 * c1 + c0 * x1) * (s1 * b1) == (s0 * x1 + x0 * s1) * (b1 * c1) + (b0 * c1 + c0
            * b1) * (s1 * x1),
        (s1 * b1) * (x1 * c1) == (s1 * x1) * (b1 * c1),
{
    lemma_mul_is_distributive_add_other_way(x1 * c1, s0 * b1, b0 * s1);
    lemma_mul_is_distributive_add_other_way(s1 * b1, x0 * c1, c0 * x1);
    lemma_mul_is_distributive_add_other_way(b1 * c1, s0 * x1, x0 * s1);
    lemma_mul_is_distributive_add_other_way(s1 * x1, b0 * c1, c0 * b1);
    lemma_mul4(s0, b1, x1, c1);
    lemma_mul4(b0, s1, x1, c1);
    lemma_mul4(x0, c1, s1, b1);
    lemma_mul4(c0, x1, s1, b1);
    lemma_mul4(s0, x1, b1, c1);
    lemma_mul4(x0, s1, b1, c1);
    lemma_mul4(b0, c1, s1, x1);
    lemma_mul4(c0, b1, s1, x1);
    lemma_mul4(s1, b1, x1, c1);
    lemma_mul_is_commutative(s0 * x1, b1 * c1);
    lemma_mul_is_commutative(b0 * x1, s1 * c1);
    lemma_mul_is_commutative(b0 * s1, c1 * x1);
    lemma_mul_is_commutative(x0 * s1, c1 * b1);
    lemma_mul_is_commutative(c0 * s1, x1 * b1);
    lemma_mul_is_commutative(c0 * b1, x1 * s1);
    lemma_mul_is_commutative(b0 * c1, s1 * x1);
    lemma_mul_is_commutative(x1, s1);
    lemma_mul_is_commutative(c1, x1);
    lemma_mul_is_commutative(b1, s1);
    lemma_mul4(b0, s1, c1, x1);
    lemma_mul4(c0, s1, b1, x1);
    lemma_mul4(x0, b1, s1, c1);
}

/// The step that adds a bumped entry `y = x + c` (in value): `S' + y` against
/// `S + x`, with the bump growing from `B` to `B + c`.
pub proof fn lemma_bump_hit_rep(s: (int, nat), sp: (int, nat), x: (int, nat), y: (int, nat), c: (int, nat), b: (int, nat))
    requires
        s.1 > 0,
        x.1 > 0,
        c.1 > 0,
        b.1 > 0,
        rep(sp, s.0 * b.1 + b.0 * s.1, (s.1 * b.1) as int),
        rep(y, x.0 * c.1 + c.0 * x.1, (x.1 * c.1) as int),
    ensures
        qv_add(s, x).1 > 0,
        qv_add(b, c).1 > 0,
        rep(
            qv_add(sp, y),
            qv_add(s, x).0 * qv_add(b, c).1 + qv_add(b, c).0 * qv_add(s, x).1,
            (qv_add(s, x).1 * qv_add(b, c).1) as int,
        ),
{
    let t = qv_add(s, x);
    let u = qv_add(b, c);
    lemma_rep_self(s);
    lemma_rep_self(x);
    lemma_rep_self(b);
    lemma_rep_self(c);
    lemma_rep_add(s, s.0, s.1 as int, x, x.0, x.1 as int);
    lemma_rep_add(b, b.0, b.1 as int, c, c.0, c.1 as int);
    let nsb = s.0 * b.1 + b.0 * s.1;
    let dsb = (s.1 * b.1) as int;
    let nxc = x.0 * c.1 + c.0 * x.1;
    let dxc = (x.1 * c.1) as int;
    lemma_rep_add(sp, nsb, dsb, y, nxc, dxc);
    let nt = s.0 * x.1 + x.0 * s.1;
    let dt = (s.1 * x.1) as int;
    let nu = b.0 * c.1 + c.0 * b.1;
    let du = (b.1 * c.1) as int;
    lemma_pos_mul(dt, du);
    lemma_four_term(s.0, s.1 as int, b.0, b.1 as int, x.0, x.1 as int, c.0, c.1 as int);
    assert((nsb * dxc + nxc * dsb) * (dt * du) == (nt * du + nu * dt) * (dsb * dxc));
    lemma_rep_move(qv_add(sp, y), nsb * dxc + nxc * dsb, dsb * dxc, nt * du + nu * dt, dt * du);
    lemma_rep_sum_value(t, nt, dt, u, nu, du);
    lemma_pos_mul(t.1 as int, u.1 as int);
    lemma_rep_move(qv_add(sp, y), nt * du + nu * dt, dt * du, t.0 * u.1 + u.0 * t.1, (t.1 * u.1) as int);
}

/// The step that adds the bumped entry: `S' + (x + c)` against `S + x`, with
/// the bump growing from `B` to `B + c`.
pub proof fn lemma_bump_hit(s: (int, nat), sp: (int, nat), x: (int, nat), c: (int, nat), b: (int, nat))
    requires
        s.1 > 0,
        x.1 > 0,
        c.1 > 0,
        b.1 > 0,
        rep(sp, s.0 * b.1 + b.0 * s.1, (s.1 * b.1) as int),
    ensures
        qv_add(s, x).1 > 0,
        qv_add(b, c).1 > 0,
        rep(
            qv_add(sp, qv_add(x, c)),
            qv_add(s, x).0 * qv_add(b, c).1 + qv_add(b, c).0 * qv_add(s, x).1,
            (qv_add(s, x).1 * qv_add(b, c).1) as int,
        ),
{
    lemma_rep_self(x);
    lemma_rep_self(c);
    lemma_rep_add(x, x.0, x.1 as int, c, c.0, c.1 as int);
    lemma_bump_hit_rep(s, sp, x, qv_add(x, c), c, b);
}


/// Rational equality is transitive (through a positive denominator).
pub proof fn lemma_qv_eq_trans(a: (int, nat), b: (int, nat), c: (int, nat))
    requires
        b.1 > 0,
        qv_eq(a, b),
        qv_eq(b, c),
    ensures
        qv_eq(a, c),
{
    lemma_mul4_swap(a.0, b.1 as int, c.1 as int);
    lemma_mul4_swap(b.0, a.1 as int, c.1 as int);
    lemma_mul4_swap(c.0, b.1 as int, a.1 as int);
    assert((a.0 * b.1) * c.1 == (b.0 * a.1) * c.1);
    assert((b.0 * c.1) * a.1 == (c.0 * b.1) * a.1);
    lemma_cancel(b.1 as int, a.0 * c.1, c.0 * a.1);
}

/// `(x y) z = (x z) y`.
pub proof fn lemma_mul4_swap(x: int, y: int, z: int)
    ensures
        (x * y) * z == (x * z) * y,
{
    lemma_mul_is_associative(x, y, z);
    lemma_mul_is_commutative(y, z);
    lemma_mul_is_associative(x, z, y);
}

/// A value equal to `y` has every representation of `y`.
pub proof fn lemma_rep_of_eq(x: (int, nat), y: (int, nat), n: int, d: int)
    requires
        x.1 > 0,
        qv_eq(x, y),
        rep(y, n, d),
    ensures
        rep(x, n, d),
{
    lemma_mul4_swap(x.0, y.1 as int, d);
    lemma_mul4_swap(y.0, x.1 as int, d);
    lemma_mul4_swap(n, y.1 as int, x.1 as int);
    assert((x.0 * y.1) * d == (y.0 * x.1) * d);
    assert((y.0 * d) * x.1 == (n * y.1) * x.1);
    lemma_cancel(y.1 as int, x.0 * d, n * x.1);
}

/// Adding `z` with numerator zero keeps the value.
pub proof fn lemma_add_zero_value(x: (int, nat), z: (int, nat))
    requires
        x.1 > 0,
        z.1 > 0,
        z.0 == 0,
    ensures
        qv_eq(qv_add(x, z), x),
        qv_add(x, z).1 > 0,
{
    lemma_rep_self(x);
    lemma_rep_self(z);
    lemma_rep_add(x, x.0, x.1 as int, z, z.0, z.1 as int);
    assert(z.0 * x.1 == 0);
    lemma_mul4_swap(x.0, z.1 as int, x.1 as int);
    lemma_mul_is_associative(x.0, x.1 as int, z.1 as int);
    lemma_rep_move(qv_add(x, z), x.0 * z.1 + z.0 * x.1, (x.1 * z.1) as int, x.0, x.1 as int);
    lemma_rep_eq(qv_add(x, z), x, x.0, x.1 as int);
}

/// `a = a'` in value gives `a + r = a' + r`.
pub proof fn lemma_add_congr(a: (int, nat), a2: (int, nat), r: (int, nat))
    requires
        a.1 > 0,
        a2.1 > 0,
        r.1 > 0,
        qv_eq(a, a2),
    ensures
        qv_eq(qv_add(a, r), qv_add(a2, r)),
{
    lemma_rep_self(a);
    lemma_rep_self(a2);
    lemma_rep_self(r);
    lemma_rep_add(a, a.0, a.1 as int, r, r.0, r.1 as int);
    lemma_rep_add(a2, a2.0, a2.1 as int, r, r.0, r.1 as int);
    lemma_pos_mul(a2.1 as int, r.1 as int);
    lemma_id_add_congr(a.0, a.1 as int, a2.0, a2.1 as int, r.0, r.1 as int);
    lemma_rep_move(qv_add(a, r), a.0 * r.1 + r.0 * a.1, (a.1 * r.1) as int, a2.0 * r.1 + r.0 * a2.1, (a2.1 * r.1) as int);
    lemma_rep_eq(qv_add(a, r), qv_add(a2, r), a2.0 * r.1 + r.0 * a2.1, (a2.1 * r.1) as int);
}

proof fn lemma_id_add_congr(a0: int, a1: int, b0: int, b1: int, r0: int, r1: int)
    requires
        a0 * b1 == b0 * a1,
    ensures
        (a0 * r1 + r0 * a1) * (b1 * r1) == (b0 * r1 + r0 * b1) * (a1 * r1),
{
    lemma_mul_is_distributive_add_other_way(b1 * r1, a0 * r1, r0 * a1);
    lemma_mul_is_distributive_add_other_way(a1 * r1, b0 * r1, r0 * b1);
    lemma_mul4(a0, r1, b1, r1);
    lemma_mul4(b0, r1, a1, r1);
    lemma_mul4(r0, a1, b1, r1);
    lemma_mul4(r0, b1, a1, r1);
    lemma_mul_is_commutative(a1, b1);
}

/// `x = y` in value gives `r - x = r - y`, with `r - y` represented by its numbers.
pub proof fn lemma_sub_congr(r: (int, nat), x: (int, nat), y: (int, nat))
    requires
        r.1 > 0,
        x.1 > 0,
        y.1 > 0,
        qv_eq(x, y),
    ensures
        qv_sub(r, x).1 > 0,
        rep(qv_sub(r, x), r.0 * y.1 - y.0 * r.1, (r.1 * y.1) as int),
{
    lemma_pos_mul(r.1 as int, x.1 as int);
    lemma_pos_mul(r.1 as int, y.1 as int);
    lemma_reduce_value(r.0 * x.1 - x.0 * r.1, (r.1 * x.1) as int);
    assert(rep(qv_sub(r, x), r.0 * x.1 - x.0 * r.1, (r.1 * x.1) as int));
    lemma_id_sub_congr(r.0, r.1 as int, x.0, x.1 as int, y.0, y.1 as int);
    lemma_rep_move(qv_sub(r, x), r.0 * x.1 - x.0 * r.1, (r.1 * x.1) as int, r.0 * y.1 - y.0 * r.1, (r.1 * y.1) as int);
}

proof fn lemma_id_sub_congr(r0: int, r1: int, x0: int, x1: int, y0: int, y1: int)
    requires
        x0 * y1 == y0 * x1,
    ensures
        (r0 * x1 - x0 * r1) * (r1 * y1) == (r0 * y1 - y0 * r1) * (r1 * x1),
{
    vstd::arithmetic::mul::lemma_mul_is_distributive_sub_other_way(r1 * y1, r0 * x1, x0 * r1);
    vstd::arithmetic::mul::lemma_mul_is_distributive_sub_other_way(r1 * x1, r0 * y1, y0 * r1);
    lemma_mul4(r0, x1, r1, y1);
    lemma_mul4(r0, y1, r1, x1);
    lemma_mul_is_commutative(x1, y1);
    lemma_mul4(x0, r1, r1, y1);
    lemma_mul4(y0, r1, r1, x1);
    lemma_mul4_swap(x0, r1, y1);
    lemma_mul_is_commutative(x0 * y1, r1);
    lemma_mul_is_commutative(y0 * x1, r1);
    lemma_mul_is_associative(r1, x0, y1);
    lemma_mul_is_associative(r1, y0, x1);
    lemma_mul4(r1, x0, r1, y1);
    lemma_mul4(r1, y0, r1, x1);
    lemma_mul_is_commutative(r1, x0);
    lemma_mul_is_commutative(r1, y0);
}

/// `(C + B) + (R - D) = C + R` when `B = D`: the bump and its removal cancel.
pub proof fn lemma_bump_cancel(cp: (int, nat), c: (int, nat), b: (int, nat), n: (int, nat), r: (int, nat), d: (int, nat))
    requires
        c.1 > 0,
        b.1 > 0,
        r.1 > 0,
        d.1 > 0,
        rep(cp, c.0 * b.1 + b.0 * c.1, (c.1 * b.1) as int),
        rep(b, d.0, d.1 as int),
        rep(n, r.0 * d.1 - d.0 * r.1, (r.1 * d.1) as int),
    ensures
        qv_eq(qv_add(cp, n), qv_add(c, r)),
{
    lemma_rep_add(cp, c.0 * b.1 + b.0 * c.1, (c.1 * b.1) as int, n, r.0 * d.1 - d.0 * r.1, (r.1 * d.1) as int);
    lemma_rep_self(c);
    lemma_rep_self(r);
    lemma_rep_add(c, c.0, c.1 as int, r, r.0, r.1 as int);
    lemma_pos_mul(c.1 as int, r.1 as int);
    lemma_id_combine(c.0, c.1 as int, b.0, b.1 as int, r.0, r.1 as int, d.0, d.1 as int);
    lemma_rep_move(
        qv_add(cp, n),
        (c.0 * b.1 + b.0 * c.1) * (r.1 * d.1) + (r.0 * d.1 - d.0 * r.1) * (c.1 * b.1),
        ((c.1 * b.1) * (r.1 * d.1)) as int,
        c.0 * r.1 + r.0 * c.1,
        (c.1 * r.1) as int,
    );
    lemma_rep_eq(qv_add(cp, n), qv_add(c, r), c.0 * r.1 + r.0 * c.1, (c.1 * r.1) as int);
}

proof fn lemma_id_combine(c0: int, c1: int, b0: int, b1: int, r0: int, r1: int, d0: int, d1: int)
    requires
        b0 * d1 == d0 * b1,
    ensures
        ((c0 * b1 + b0 * c1) * (r1 * d1) + (r0 * d1 - d0 * r1) * (c1 * b1)) * (c1 * r1) == (c0 * r1 + r0 * c1) * ((c1 * b1) * (r1
            * d1)),
{
    // the numerator is b1 d1 (c0 r1 + r0 c1)
    lemma_mul_is_distributive_add_other_way(r1 * d1, c0 * b1, b0 * c1);
    vstd::arithmetic::mul::lemma_mul_is_distributive_sub_other_way(c1 * b1, r0 * d1, d0 * r1);
    lemma_mul4(b0, c1, r1, d1);
    lemma_mul4(b0, d1, c1, r1);
    lemma_mul_is_commutative(c1, d1);
    lemma_mul4(d0, r1, c1, b1);
    lemma_mul4(d0, b1, r1, c1);
    lemma_mul_is_commutative(r1, c1);
    lemma_mul_is_commutative(c1, r1);
    assert((b0 * d1) * (c1 * r1) == (d0 * b1) * (c1 * r1));
    lemma_mul4(c0, b1, r1, d1);
    lemma_mul4(r0, d1, c1, b1);
    // (c0 r1)(b1 d1) + (r0 c1)(d1 b1) = (c0 r1 + r0 c1)(b1 d1)
    lemma_mul_is_commutative(d1, b1);
    lemma_mul_is_distributive_add_other_way(b1 * d1, c0 * r1, r0 * c1);
    // both sides are (c0 r1 + r0 c1)(b1 d1)(c1 r1)
    lemma_mul4(c1, b1, r1, d1);
    lemma_mul_is_commutative(c1 * r1, b1 * d1);
    lemma_mul_is_associative(c0 * r1 + r0 * c1, b1 * d1, c1 * r1);
    lemma_mul_is_associative(c0 * r1 + r0 * c1, c1 * r1, b1 * d1);
}

/// Sums, differences and products with zero stay the canonical zero.
pub proof fn lemma_zero_ops(x: (int, nat))
    requires
        x.1 > 0,
    ensures
        qv_add(qv_zero(), qv_zero()) == qv_zero(),
        qv_sub(qv_zero(), qv_zero()) == qv_zero(),
        qv_mul(qv_zero(), x) == qv_zero(),
{
    lemma_reduce_zero(1);
    lemma_reduce_zero(x.1 as int);
    assert(0int * 1nat + 0int * 1nat == 0);
    assert(0int * 1nat - 0int * 1nat == 0);
    assert((1nat * 1nat) as int == 1);
    assert(0int * x.0 == 0);
    assert((1nat * x.1) as int == x.1 as int);
}

} // verus!
