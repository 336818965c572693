//! Multivariate rational functions over the rationals: a [`Poly`] numerator over
//! a [`Poly`] denominator. Fractions are kept unreduced (no multivariate gcd):
//! `a/b ± c/d = (ad ± cb)/(bd)`, and an identity holds when the combined
//! numerator is the zero polynomial (given a nonzero denominator).

use vstd::prelude::*;
use crate::poly::{mul_fits, poly_add, poly_mul, poly_neg, poly_one, poly_pow, shift_repl, subst_poly_fits, subst_poly_terms, Poly};
use crate::rational::Rat;

verus! {

/// A rational function `num / den`.
#[derive(Clone, Debug, PartialEq, Eq)]
pub struct RatFunc {
    pub num: Poly,
    pub den: Poly,
}

/// No exponent overflows while raising `f` to the power `e`.
pub open spec fn rf_pow_fits(f: RatFunc, e: nat) -> bool {
    forall|k: nat| k < e ==> #[trigger] mul_fits(poly_pow(f.num@, k), f.num@) && mul_fits(poly_pow(f.den@, k), f.den@)
}

impl RatFunc {
    pub open spec fn wf(self) -> bool {
        self.num.wf() && self.den.wf()
    }

    pub fn new(num: Poly, den: Poly) -> (f: RatFunc)
        ensures
            f.num == num,
            f.den == den,
    {
        RatFunc { num, den }
    }

    /// `0 / 1`.
    pub fn zero() -> (f: RatFunc)
        ensures
            f.wf(),
            f.num@ == Seq::<(Seq<(Seq<char>, nat)>, (int, nat))>::empty(),
            f.den@ == poly_one(),
    {
        RatFunc { num: Poly::zero(), den: Poly::constant(Rat::from_i64(1)) }
    }

    /// `1 / 1`.
    pub fn one() -> (f: RatFunc)
        ensures
            f.wf(),
            f.num@ == poly_one(),
            f.den@ == poly_one(),
    {
        RatFunc { num: Poly::from_i64(1), den: Poly::from_i64(1) }
    }

    /// `p / 1`.
    pub fn from_poly(p: Poly) -> (f: RatFunc)
        ensures
            f.num == p,
            f.den.wf(),
            f.den@ == poly_one(),
    {
        RatFunc { num: p, den: Poly::from_i64(1) }
    }

    /// `v / 1`.
    pub fn from_i64(v: i64) -> (f: RatFunc)
        ensures
            f.wf(),
            f.num@ == Poly::from_i64_view(v),
            f.den@ == poly_one(),
    {
        RatFunc::from_poly(Poly::from_i64(v))
    }

    /// The product.
    pub fn mul(&self, o: &RatFunc) -> (f: RatFunc)
        requires
            self.wf(),
            o.wf(),
            mul_fits(self.num@, o.num@),
            mul_fits(self.den@, o.den@),
        ensures
            f.wf(),
            f.num@ == poly_mul(self.num@, o.num@),
            f.den@ == poly_mul(self.den@, o.den@),
    {
        RatFunc { num: self.num.mul(&o.num), den: self.den.mul(&o.den) }
    }

    /// `a/b + c/d = (ad + cb)/(bd)`.
    pub fn add(&self, o: &RatFunc) -> (f: RatFunc)
        requires
            self.wf(),
            o.wf(),
            mul_fits(self.num@, o.den@),
            mul_fits(o.num@, self.den@),
            mul_fits(self.den@, o.den@),
        ensures
            f.wf(),
            f.num@ == poly_add(poly_mul(self.num@, o.den@), poly_mul(o.num@, self.den@)),
            f.den@ == poly_mul(self.den@, o.den@),
    {
        RatFunc { num: self.num.mul(&o.den).add(&o.num.mul(&self.den)), den: self.den.mul(&o.den) }
    }

    /// `a/b - c/d = (ad - cb)/(bd)`.
    pub fn sub(&self, o: &RatFunc) -> (f: RatFunc)
        requires
            self.wf(),
            o.wf(),
            mul_fits(self.num@, o.den@),
            mul_fits(o.num@, self.den@),
            mul_fits(self.den@, o.den@),
        ensures
            f.wf(),
            f.num@ == poly_add(poly_mul(self.num@, o.den@), poly_neg(poly_mul(o.num@, self.den@))),
            f.den@ == poly_mul(self.den@, o.den@),
    {
        RatFunc { num: self.num.mul(&o.den).sub(&o.num.mul(&self.den)), den: self.den.mul(&o.den) }
    }

    /// The negation.
    pub fn neg(&self) -> (f: RatFunc)
        requires
            self.wf(),
        ensures
            f.wf(),
            f.num@ == poly_neg(self.num@),
            f.den@ == self.den@,
    {
        RatFunc { num: self.num.neg(), den: self.den.copy() }
    }

    /// `self^e`, by repeated multiplication starting from `1/1`.
    pub fn pow(&self, e: u32) -> (f: RatFunc)
        requires
            self.wf(),
            rf_pow_fits(*self, e as nat),
        ensures
            f.wf(),
            f.num@ == poly_pow(self.num@, e as nat),
            f.den@ == poly_pow(self.den@, e as nat),
    {
        let mut acc = RatFunc::one();
        let mut k: u32 = 0;
        while k < e
            invariant
                self.wf(),
                rf_pow_fits(*self, e as nat),
                k <= e,
                acc.wf(),
                acc.num@ == poly_pow(self.num@, k as nat),
                acc.den@ == poly_pow(self.den@, k as nat),
            decreases e - k,
        {
            assert(mul_fits(poly_pow(self.num@, k as nat), self.num@) && mul_fits(poly_pow(self.den@, k as nat), self.den@));
            acc = acc.mul(self);
            k = k + 1;
        }
        acc
    }

    /// `b / a`.
    pub fn recip(&self) -> (f: RatFunc)
        requires
            self.wf(),
        ensures
            f.wf(),
            f.num@ == self.den@,
            f.den@ == self.num@,
    {
        RatFunc { num: self.den.copy(), den: self.num.copy() }
    }

    /// Shift a variable by an integer in numerator and denominator.
    pub fn shift_var(&self, name: &str, s: i64) -> (f: RatFunc)
        requires
            self.wf(),
            subst_poly_fits(self.num@, name@, shift_repl(name@, s as int)),
            subst_poly_fits(self.den@, name@, shift_repl(name@, s as int)),
        ensures
            f.wf(),
            f.num@ == subst_poly_terms(self.num@, name@, shift_repl(name@, s as int), self.num@.len()),
            f.den@ == subst_poly_terms(self.den@, name@, shift_repl(name@, s as int), self.den@.len()),
    {
        RatFunc { num: self.num.shift_var(name, s), den: self.den.shift_var(name, s) }
    }

    /// Is the numerator identically zero?
    pub fn is_zero(&self) -> (b: bool)
        requires
            self.wf(),
        ensures
            b == (forall|i: int| 0 <= i < self.num@.len() ==> (#[trigger] self.num@[i]).1.0 == 0),
    {
        self.num.is_zero()
    }

    /// Is the denominator identically zero?
    pub fn den_is_zero(&self) -> (b: bool)
        requires
            self.wf(),
        ensures
            b == (forall|i: int| 0 <= i < self.den@.len() ==> (#[trigger] self.den@[i]).1.0 == 0),
    {
        self.den.is_zero()
    }
}

} // verus!
