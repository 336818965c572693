use jeff::tetration::{ackermann_small, lift_guard_ok, lucas_binomial_mod_p, phi, powmod, tetration_mod, LazyBignum};

#[test]
fn tetration_mod_p_exact() {
    let p = 1_000_000_007u128;
    assert_eq!(tetration_mod(2, 3, p), 16);
    assert_eq!(tetration_mod(2, 4, p), 65536);
    let v = tetration_mod(2, 1000, p);
    assert!(v < p);
    assert_eq!(v, tetration_mod(2, 1000, p));
}

#[test]
fn totient_ladder_coprime_guarded() {
    let m = 12u128;
    assert!(lift_guard_ok(2, 6, m), "tall tower must satisfy b ≥ log₂ m guard");
    assert_eq!(tetration_mod(2, 5, m), tetration_mod(2, 6, m));
    assert_eq!(65536u128 % m, 4);
}

#[test]
fn lazy_modulus_demand_driven() {
    let mut x = LazyBignum::tetration(2, 100);
    assert!(x.residues.is_empty());
    let r7 = x.residue(2, 100, 7);
    let r13 = x.residue(2, 100, 13);
    assert_eq!(x.residues.len(), 2, "only demanded moduli stored");
    assert_eq!(x.residue(2, 100, 7), r7);
    assert!(r7 < 7 && r13 < 13);
}

#[test]
fn ackermann_small_oracle_diff() {
    let p = 1_000_000_007u128;
    assert_eq!(ackermann_small(3, 4) % p, ((1u128 << 7) - 3) % p);
    assert_eq!(ackermann_small(2, 5), 13);
    assert_eq!(ackermann_small(3, 4), 125);
}

#[test]
fn lucas_binomial_mod_p_correct() {
    assert_eq!(lucas_binomial_mod_p(10, 3, 7), 120 % 7);
    let v = lucas_binomial_mod_p(1000, 500, 13);
    assert!(v < 13);
    assert_eq!(lucas_binomial_mod_p(13, 5, 13), 0);
}

#[test]
fn powmod_and_phi_values() {
    let mut r = 1u128;
    for _ in 0..200 {
        r = r * 3 % 1_000_000_007;
    }
    assert_eq!(powmod(3, 200, 1_000_000_007), r);
    assert_eq!(powmod(5, 0, 7), 1);
    assert_eq!(powmod(5, 3, 1), 0);
    assert_eq!(phi(1), 1);
    assert_eq!(phi(12), 4);
    assert_eq!(phi(1_000_000_007), 1_000_000_006);
    assert_eq!(phi(36), 12);
}

#[test]
fn tetration_small_and_symbolic() {
    assert_eq!(tetration_mod(3, 2, 100), 27);
    assert_eq!(tetration_mod(7, 0, 5), 1);
    assert_eq!(tetration_mod(9, 9, 1), 0);
    assert!(!lift_guard_ok(2, 2, 12));
    assert!(lift_guard_ok(2, 4, 12));
    let x = LazyBignum::tetration(12, 345);
    assert_eq!(x.symbolic, "12^^345");
    assert_eq!(ackermann_small(0, 9), 10);
    assert_eq!(ackermann_small(1, 9), 11);
    assert_eq!(ackermann_small(3, 0), 5);
}
