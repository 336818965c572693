use jeff::poly::Poly;
use jeff::ratfun::RatFunc;

#[test]
fn add_sub_combine_to_zero() {
    // k/(k+1) - k/(k+1) = 0
    let k = Poly::var("k");
    let kp1 = k.add(&Poly::from_i64(1));
    let f = RatFunc::new(k.clone(), kp1.clone());
    let g = RatFunc::new(k, kp1);
    assert!(f.sub(&g).is_zero());
}

#[test]
fn telescoping_rational_identity() {
    // 1/k - 1/(k+1) = 1/(k(k+1))
    let k = Poly::var("k");
    let kp1 = k.add(&Poly::from_i64(1));
    let lhs = RatFunc::new(Poly::from_i64(1), k.clone()).sub(&RatFunc::new(Poly::from_i64(1), kp1.clone()));
    let rhs = RatFunc::new(Poly::from_i64(1), k.mul(&kp1));
    assert!(lhs.sub(&rhs).is_zero());
}

#[test]
fn shift_changes_value() {
    // f = 1/k ; shift k->k+1 gives 1/(k+1) ; difference is nonzero
    let k = Poly::var("k");
    let f = RatFunc::new(Poly::from_i64(1), k.clone());
    let fs = f.shift_var("k", 1);
    assert!(!f.sub(&fs).is_zero());
}

#[test]
fn ratfunc_basics() {
    let k = Poly::var("k");
    let f = RatFunc::new(k.clone(), k.add(&Poly::from_i64(2)));
    // f * f^-1 = (k(k+2)) / ((k+2)k) has a numerator equal to its denominator
    let g = f.mul(&f.recip());
    assert_eq!(g.num, g.den);
    assert!(RatFunc::zero().is_zero());
    assert!(!RatFunc::one().is_zero());
    assert!(!RatFunc::one().den_is_zero());
    assert!(f.add(&f.neg()).is_zero());
    assert_eq!(f.pow(2).num, k.mul(&k));
    assert_eq!(RatFunc::from_i64(3).num, Poly::from_i64(3));
}
