use jeff::ordinal::{ACKERMANN_LEVEL, closed_form, closed_form_wrong, fgh_level, lex_measure, oifc_certify, oifc_certify_wrong, prefix_of_prefix_loop};
use std::cmp::Ordering;

#[test]
fn jeff_strength_lower_bound_certified() {
    let m2 = lex_measure(&[1, 2]);
    let m1 = lex_measure(&[1, 1]);
    assert_eq!(m2.ord_cmp(&m1), Ordering::Greater);
    assert!(m2.in_omega_k_fragment(), "OIFC measures are in the certifiable ω^k fragment");
    assert!(lex_measure(&[1, 0, 0]).in_omega_k_fragment());
}

#[test]
fn jeff_strength_two_tier_labeled() {
    let omega_omega = jeff::ordinal::Ord::omega_pow(jeff::ordinal::Ord::omega());
    assert!(omega_omega.is_below_epsilon0());
    assert!(!omega_omega.in_omega_k_fragment(), "ω^ω is beyond the internally-checked fragment");
}

#[test]
fn ordinal_cnf_compare_correct() {
    let omega2_plus1 = jeff::ordinal::Ord { terms: vec![(jeff::ordinal::Ord::nat_of(2), 1), (jeff::ordinal::Ord::zero(), 1)] };
    let w3_5 = jeff::ordinal::Ord { terms: vec![(jeff::ordinal::Ord::nat_of(1), 3), (jeff::ordinal::Ord::zero(), 5)] };
    let w3_4 = jeff::ordinal::Ord { terms: vec![(jeff::ordinal::Ord::nat_of(1), 3), (jeff::ordinal::Ord::zero(), 4)] };
    assert_eq!(omega2_plus1.ord_cmp(&w3_5), Ordering::Greater);
    assert_eq!(w3_5.ord_cmp(&w3_4), Ordering::Greater);
    assert_eq!(jeff::ordinal::Ord::omega().ord_cmp(&jeff::ordinal::Ord::nat_of(1_000_000)), Ordering::Greater);
}

#[test]
fn ordinal_cnf_recursive_epsilon0() {
    let w = jeff::ordinal::Ord::omega();
    let ww = jeff::ordinal::Ord::omega_pow(jeff::ordinal::Ord::omega());
    let www = jeff::ordinal::Ord::omega_pow(jeff::ordinal::Ord::omega_pow(jeff::ordinal::Ord::omega()));
    assert_eq!(ww.ord_cmp(&w), Ordering::Greater);
    assert_eq!(www.ord_cmp(&ww), Ordering::Greater);
    assert!(w.is_below_epsilon0() && ww.is_below_epsilon0() && www.is_below_epsilon0());
}

#[test]
fn lexicographic_measure_synthesized() {
    assert_eq!(lex_measure(&[2, 0]).ord_cmp(&lex_measure(&[1, 9])), Ordering::Greater);
    assert_eq!(lex_measure(&[1, 5]).ord_cmp(&lex_measure(&[1, 4])), Ordering::Greater);
}

#[test]
fn strong_induction_finite_decomposed() {
    assert!(oifc_certify(&[3, 1, 4, 1, 5, 9, 2, 6]));
}

#[test]
fn nested_fold_globally_certified() {
    for a in [vec![1, 2, 3, 4, 5], vec![-2, 7, 0, 3], vec![5; 10], vec![1]] {
        assert!(oifc_certify(&a), "OIFC must certify {a:?}");
    }
}

#[test]
fn transition2_offbyone_caught_by_ordinal() {
    let a = vec![3, 1, 4, 1, 5];
    assert!(oifc_certify(&a), "correct form certifies");
    assert!(!oifc_certify_wrong(&a), "off-by-one form must NOT certify (caught at transition 2)");
}

#[test]
fn fgh_level_inferred() {
    assert_eq!(fgh_level(&lex_measure(&[5])), 0);
    assert_eq!(fgh_level(&lex_measure(&[1, 0])), 1);
    assert_eq!(fgh_level(&jeff::ordinal::Ord { terms: vec![(jeff::ordinal::Ord::nat_of(2), 1)] }), 2);
}

#[test]
fn explosive_recursion_warned() {
    let intended = 1u64;
    let m = jeff::ordinal::Ord { terms: vec![(jeff::ordinal::Ord::nat_of(3), 1)] };
    assert!(fgh_level(&m) > intended, "explosive: level {} > intended {intended}", fgh_level(&m));
}

#[test]
fn prefix_loop_and_closed_form_agree() {
    let a = [3i64, -1, 4, 1];
    let out = prefix_of_prefix_loop(&a);
    assert_eq!(out, vec![3, 5, 11, 18]);
    for i in 0..a.len() {
        assert_eq!(closed_form(&a, i), out[i]);
    }
    assert_eq!(closed_form_wrong(&a, 2), 11 - 6);
    assert!(oifc_certify_wrong(&[0, 0, 0]));
    assert!(oifc_certify(&[]));
}

#[test]
fn ordinal_compare_is_reflexive_and_antisymmetric() {
    let a = lex_measure(&[2, 0, 7]);
    let b = lex_measure(&[2, 1, 0]);
    assert_eq!(a.ord_cmp(&a), Ordering::Equal);
    assert_eq!(a.ord_cmp(&b), Ordering::Less);
    assert_eq!(b.ord_cmp(&a), Ordering::Greater);
    assert!(jeff::ordinal::Ord::zero().is_zero());
    assert!(jeff::ordinal::Ord::nat_of(0).is_zero());
    assert_eq!(lex_measure(&[0, 0]).terms.len(), 0);
}

#[test]
fn fgh_level_infinite_exponent_is_ackermann_class() {
    let omega_omega = jeff::ordinal::Ord::omega_pow(jeff::ordinal::Ord::omega());
    assert!(fgh_level(&omega_omega) > 2);
    assert_eq!(fgh_level(&omega_omega), ACKERMANN_LEVEL);
    // a finite exponent k gives grade k
    assert_eq!(fgh_level(&jeff::ordinal::Ord::omega_pow(jeff::ordinal::Ord::nat_of(3))), 3);
}

#[test]
fn equal_comparison_means_same_notation() {
    let a = lex_measure(&[1, 0, 2]);
    let b = lex_measure(&[1, 0, 2]);
    assert_eq!(a.ord_cmp(&b), std::cmp::Ordering::Equal);
    assert_eq!(a, b);
    assert_ne!(lex_measure(&[1, 0, 3]).ord_cmp(&b), std::cmp::Ordering::Equal);
}

#[test]
fn equal_length_measures_compare_lexicographically() {
    use_lex(&[1, 2, 0], &[1, 0, 9], std::cmp::Ordering::Greater);
    use_lex(&[0, 5], &[1, 0], std::cmp::Ordering::Less);
    use_lex(&[3, 0, 4], &[3, 0, 4], std::cmp::Ordering::Equal);
}

fn use_lex(a: &[u64], b: &[u64], expected: std::cmp::Ordering) {
    assert_eq!(lex_measure(a).ord_cmp(&lex_measure(b)), expected);
    assert_eq!(a.cmp(b), expected);
}
