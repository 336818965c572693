use jeff::pqc::{negacyclic_convolve, schoolbook_cyclic, schoolbook_negacyclic};

#[test]
fn negacyclic_ntt_matches_schoolbook() {
    let q = 7681u64;
    let g = 17u64;
    let a = [1u64, 2, 3, 4];
    let b = [5u64, 6, 7, 8];
    let fast = negacyclic_convolve(&a, &b, q, g).expect("2n | q-1 for n=4");
    let slow = schoolbook_negacyclic(&a, &b, q);
    assert_eq!(fast, slow, "NTT negacyclic must match schoolbook");
}

#[test]
fn negacyclic_handles_wraparound_sign() {
    // x^4 = -1: (x^3)*(x^3) = x^6 = -x^2, so the coefficient of x^2 is -1 = q-1.
    let q = 7681u64;
    let a = [0u64, 0, 0, 1];
    let b = [0u64, 0, 0, 1];
    let c = schoolbook_negacyclic(&a, &b, q);
    assert_eq!(c, vec![0, 0, q - 1, 0]);
    assert_eq!(negacyclic_convolve(&a, &b, q, 17).unwrap(), c);
}

#[test]
fn negacyclic_rejects_bad_parameters() {
    // q=13, n=4: 2n=8 does not divide q-1=12.
    assert!(negacyclic_convolve(&[1, 2, 3, 4], &[1, 1, 1, 1], 13, 2).is_none());
}

#[test]
fn schoolbook_products_by_hand() {
    // (1 + 2x)(3 + 4x) = 3 + 10x + 8x^2; mod x^2 - 1: 11 + 10x; mod x^2 + 1: -5 + 10x
    assert_eq!(schoolbook_cyclic(&[1, 2], &[3, 4], 97), vec![11, 10]);
    assert_eq!(schoolbook_negacyclic(&[1, 2], &[3, 4], 97), vec![92, 10]);
    // reduction of large inputs
    assert_eq!(schoolbook_cyclic(&[100], &[100], 7), vec![(100 * 100) % 7]);
    assert!(schoolbook_cyclic(&[], &[], 5).is_empty());
}

#[test]
fn negacyclic_convolve_other_rejections() {
    // unequal lengths, empty input, length not a power of two
    assert!(negacyclic_convolve(&[1, 2], &[1], 7681, 17).is_none());
    assert!(negacyclic_convolve(&[], &[], 7681, 17).is_none());
    assert!(negacyclic_convolve(&[1, 2, 3], &[1, 2, 3], 7681, 17).is_none());
    // psi = 1^(...) = 1 is not a primitive root: 1^n != q-1
    assert!(negacyclic_convolve(&[1, 2, 3, 4], &[1, 1, 1, 1], 7681, 1).is_none());
}
