use jeff::poly::{Poly, UniPoly};
use jeff::rational::Rat;

fn r(n: i64) -> Rat {
    Rat::from_i64(n)
}

#[test]
fn shift_var_expands_binomially() {
    // p = n^2 ; p[n := n+1] = n^2 + 2n + 1
    let n = Poly::var("n");
    let p = n.mul(&n);
    let s = p.shift_var("n", 1);
    let expect = n.mul(&n).add(&n.scale(&r(2))).add(&Poly::from_i64(1));
    assert_eq!(s, expect);
}

#[test]
fn subst_var_poly_two_vars() {
    // p = n*k ; p[k := k+1] = n*k + n
    let n = Poly::var("n");
    let k = Poly::var("k");
    let p = n.mul(&k);
    let s = p.shift_var("k", 1);
    assert_eq!(s, n.mul(&k).add(&n));
}

#[test]
fn faulhaber_difference_is_zero() {
    // S(n) = n(n+1)(2n+1)/6 ; check S(n) - S(n-1) - n^2 == 0
    let n = Poly::var("n");
    let one = Poly::from_i64(1);
    let two = Poly::from_i64(2);
    let sixth = Rat::ratio(1, 6);
    let s = |arg: &Poly| -> Poly {
        let np1 = arg.add(&one);
        let tw015 = two.mul(arg).add(&one);
        arg.mul(&np1).mul(&tw015).scale(&sixth)
    };
    let n_minus_1 = n.sub(&one);
    let diff = s(&n).sub(&s(&n_minus_1)).sub(&n.mul(&n));
    assert!(diff.is_zero(), "got {}", diff.to_canonical_string());
}

#[test]
fn faulhaber_wrong_form_is_nonzero() {
    // A deliberately wrong closed form must not verify.
    let n = Poly::var("n");
    let one = Poly::from_i64(1);
    let half = Rat::ratio(1, 2);
    let s = |arg: &Poly| arg.mul(&arg.add(&one)).scale(&half);
    let diff = s(&n).sub(&s(&n.sub(&one))).sub(&n.mul(&n));
    assert!(!diff.is_zero());
}

#[test]
fn unipoly_divmod_and_gcd() {
    // (x^2 - 1) = (x-1)(x+1)
    let p = UniPoly::from_coeffs(vec![r(-1), r(0), r(1)]);
    let d = UniPoly::from_coeffs(vec![r(-1), r(1)]); // x - 1
    let (q, rem) = p.divmod(&d).unwrap();
    assert!(rem.is_zero());
    assert_eq!(q, UniPoly::from_coeffs(vec![r(1), r(1)])); // x + 1
    let g = p.gcd(&d);
    // gcd is monic associate of (x-1)
    assert_eq!(g.degree(), Some(1));
}

#[test]
fn interpolate_recovers_triangular_closed_form() {
    // sum_{i=0}^{m} i has closed form m(m+1)/2; values 0,1,3,6 at m=0,1,2,3.
    let pts: Vec<(Rat, Rat)> = [(0, 0), (1, 1), (2, 3), (3, 6)].iter().map(|&(x, y)| (r(x), r(y))).collect();
    let s = UniPoly::interpolate(&pts);
    // S(10) must be 55
    assert_eq!(s.eval(&r(10)), r(55));
    // S(n) = (n^2 + n)/2
    assert_eq!(s.coeff(2), Rat::ratio(1, 2));
    assert_eq!(s.coeff(1), Rat::ratio(1, 2));
    assert_eq!(s.coeff(0), r(0));
}

#[test]
fn unipoly_shift() {
    // p = x^2 ; p(x+1) = x^2 + 2x + 1
    let p = UniPoly::from_coeffs(vec![r(0), r(0), r(1)]);
    let s = p.shift(1);
    assert_eq!(s, UniPoly::from_coeffs(vec![r(1), r(2), r(1)]));
}

#[test]
fn rat_arithmetic_in_lowest_terms() {
    assert_eq!(Rat::ratio(2, 4), Rat::ratio(1, 2));
    assert_eq!(Rat::ratio(3, -6), Rat::ratio(-1, 2));
    assert_eq!(Rat::ratio(1, 3).add(&Rat::ratio(1, 6)), Rat::ratio(1, 2));
    assert_eq!(Rat::ratio(1, 3).sub(&Rat::ratio(1, 3)), Rat::zero());
    assert_eq!(Rat::ratio(2, 3).mul(&Rat::ratio(3, 4)), Rat::ratio(1, 2));
    assert_eq!(Rat::ratio(1, 2).div(&Rat::ratio(1, 4)), r(2));
    assert_eq!(Rat::ratio(-7, 3).to_text(), "-7/3");
    assert_eq!(r(-12).to_text(), "-12");
    assert_eq!(r(i64::MIN).to_text(), "-9223372036854775808");
    assert_eq!(r(5).neg(), r(-5));
    assert!(Rat::zero().is_zero());
    assert!(!Rat::one().is_zero());
    // a big numerator spans two digits
    let big = r(1 << 40).mul(&r(1 << 40));
    assert_eq!(big.to_text(), "1208925819614629174706176");
}

#[test]
fn unipoly_basics() {
    let p = UniPoly::from_coeffs(vec![r(1), r(2), r(0), r(0)]);
    assert_eq!(p.degree(), Some(1));
    assert_eq!(p.leading(), r(2));
    assert_eq!(p.coeff(5), r(0));
    assert!(UniPoly::zero().is_zero());
    assert_eq!(UniPoly::zero().degree(), None);
    // (1 + 2x) * (1 - 2x) = 1 - 4x^2
    let q = UniPoly::from_coeffs(vec![r(1), r(-2)]);
    assert_eq!(p.mul(&q), UniPoly::from_coeffs(vec![r(1), r(0), r(-4)]));
    assert_eq!(p.add(&q), UniPoly::from_i64(2));
    assert_eq!(p.sub(&p), UniPoly::zero());
    assert_eq!(p.neg(), UniPoly::from_coeffs(vec![r(-1), r(-2)]));
    assert_eq!(p.scale(&r(0)), UniPoly::zero());
    assert_eq!(UniPoly::x().pow(3), UniPoly::from_coeffs(vec![r(0), r(0), r(0), r(1)]));
    // (1 + 2x) at x = 3 is 7
    assert_eq!(p.eval(&r(3)), r(7));
    assert!(q.divides(&p.mul(&q)));
    assert!(!q.divides(&p));
    assert!(UniPoly::zero().divmod(&UniPoly::zero()).is_none());
    // gcd of (x-1)(x+2) and (x-1)(x+3) is x - 1
    let a = UniPoly::from_coeffs(vec![r(-1), r(1)]).mul(&UniPoly::from_coeffs(vec![r(2), r(1)]));
    let b = UniPoly::from_coeffs(vec![r(-1), r(1)]).mul(&UniPoly::from_coeffs(vec![r(3), r(1)]));
    assert_eq!(a.gcd(&b), UniPoly::from_coeffs(vec![r(-1), r(1)]));
}

#[test]
fn poly_canonical_text_and_vars() {
    let x = Poly::var("x");
    let y = Poly::var("y");
    let p = x.mul(&x).mul(&y).scale(&Rat::ratio(3, 2)).add(&y).add(&Poly::from_i64(-4));
    assert_eq!(p.to_canonical_string(), "-4 + 3/2*x^2*y + 1*y");
    assert_eq!(p.vars(), vec!["x".to_string(), "y".to_string()]);
    assert_eq!(Poly::zero().to_canonical_string(), "0");
    assert_eq!(p.monomials().len(), 3);
    // p(x := 2) = 6y + y - 4
    let q = p.subst_var("x", &r(2));
    assert_eq!(q, y.scale(&r(7)).add(&Poly::from_i64(-4)));
    // evaluation at x = 2, y = 1 gives 3; a missing variable gives None
    let env = vec![("x".to_string(), r(2)), ("y".to_string(), r(1))];
    assert_eq!(p.eval(&env), Some(r(3)));
    assert_eq!(p.eval(&vec![("x".to_string(), r(2))]), None);
    assert!(p.sub(&p).is_zero());
    assert_eq!(p.neg().neg(), p);
}

#[test]
fn poly_unipoly_round_trip() {
    let u = UniPoly::from_coeffs(vec![r(1), r(0), r(3)]);
    let p = u.to_multivar("t");
    assert_eq!(p.to_canonical_string(), "1 + 3*t^2");
    assert_eq!(p.to_unipoly("t"), Some(u));
    assert_eq!(Poly::var("s").to_unipoly("t"), None);
    assert_eq!(Poly::var("t").pow(3).to_unipoly("t"), Some(UniPoly::x().pow(3)));
}
