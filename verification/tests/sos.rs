use jeff::sos::{
    exact_ldl_psd, monomials, poly_from, prove_nonneg, prove_nonneg_with_q, require_nonneg, symmetric_from_upper,
    GateDecision, SosOutcome, SosPoly,
};
use jeff::rational::Rat;

fn poly(terms: &[(&[usize], i64)]) -> SosPoly {
    let v: Vec<(Vec<usize>, i64)> = terms.iter().map(|(e, c)| (e.to_vec(), *c)).collect();
    poly_from(&v)
}

// p1 = x^4 - 2x^3 + 4x^2 + 2 = (x^2 - x + 1)^2 + (x + 1)^2
fn p1() -> SosPoly {
    poly(&[(&[4], 1), (&[3], -2), (&[2], 4), (&[0], 2)])
}

// p2 = 2x^2 + 2xy + 2y^2
fn p2() -> SosPoly {
    poly(&[(&[2, 0], 2), (&[1, 1], 2), (&[0, 2], 2)])
}

// Motzkin M(x,y) = x^4 y^2 + x^2 y^4 - 3 x^2 y^2 + 1
fn motzkin() -> SosPoly {
    poly(&[(&[4, 2], 1), (&[2, 4], 1), (&[2, 2], -3), (&[0, 0], 1)])
}

fn scaled(q: &[Vec<f64>], denom: i64) -> Vec<Vec<i64>> {
    q.iter().map(|row| row.iter().map(|x| (x * denom as f64).round() as i64).collect()).collect()
}

fn texts(v: &[Rat]) -> Vec<String> {
    v.iter().map(|x| x.to_text()).collect()
}

#[test]
fn sos_poly_certified_exact() {
    let r = prove_nonneg(&p1(), 1, 2);
    assert!(r.is_certified(), "p1 must be certified SOS: {r:?}");
}

#[test]
fn sos_pd_quadratic_certified() {
    assert!(prove_nonneg(&p2(), 2, 1).is_certified(), "p2 (PD) must be certified");
}

#[test]
fn ldl_pivots_nonneg_exact() {
    let SosOutcome::Certified { pivots, .. } = prove_nonneg(&p1(), 1, 2) else {
        panic!("p1 should certify");
    };
    assert!(pivots.iter().all(|p| !p.is_negative()), "all pivots >= 0");
    assert_eq!(texts(&pivots), vec!["2", "4", "3/4"]);
}

#[test]
fn motzkin_defers_honestly() {
    let r = prove_nonneg(&motzkin(), 2, 3);
    assert!(!r.is_certified(), "Motzkin must NOT be certified");
    assert!(matches!(r, SosOutcome::Defer { .. }));
}

#[test]
fn indefinite_defers() {
    let p = poly(&[(&[2], 1), (&[0], -1)]);
    assert!(!prove_nonneg(&p, 1, 1).is_certified());
}

#[test]
fn rounding_failure_defers() {
    let q22 = vec![vec![1.0, 0.0], vec![0.0, 1.0]];
    let r = prove_nonneg_with_q(&p1(), 1, 1, &scaled(&q22, 1 << 16), 1 << 16);
    assert!(matches!(r, SosOutcome::Defer { .. }), "unsatisfiable identity must defer: {r:?}");
}

#[test]
fn prove_nonneg_no_longer_stub() {
    assert!(prove_nonneg(&p1(), 1, 2).is_certified());
    assert!(prove_nonneg(&p2(), 2, 1).is_certified());
    assert!(!prove_nonneg(&motzkin(), 2, 3).is_certified());
    assert!(!prove_nonneg(&poly(&[(&[2], 1), (&[0], -1)]), 1, 1).is_certified());
}

#[test]
fn precondition_gate_fires_on_sos() {
    assert!(matches!(require_nonneg(&p2(), 2, 1), GateDecision::Fire { .. }));
}

#[test]
fn precondition_gate_defers_on_nonsos() {
    assert!(matches!(require_nonneg(&motzkin(), 2, 3), GateDecision::HonestDefer { .. }));
}

#[test]
fn external_numeric_q_path_certifies() {
    let qnum = vec![vec![2.0, 0.0, 0.0], vec![0.0, 4.0, -1.0], vec![0.0, -1.0, 1.0]];
    assert!(prove_nonneg_with_q(&p1(), 1, 2, &scaled(&qnum, 1 << 16), 1 << 16).is_certified());
}

#[test]
fn monomial_basis_order() {
    let m = monomials(2, 2);
    let expect: Vec<Vec<usize>> = vec![vec![0, 0], vec![1, 0], vec![0, 1], vec![2, 0], vec![1, 1], vec![0, 2]];
    assert_eq!(m, expect);
    let m3 = monomials(3, 2);
    assert_eq!(m3.len(), 10);
    assert_eq!(m3[4], vec![2, 0, 0]);
    assert_eq!(m3[5], vec![1, 1, 0]);
    assert_eq!(m3[6], vec![1, 0, 1]);
    assert_eq!(m3[9], vec![0, 0, 2]);
    assert_eq!(monomials(0, 3), vec![Vec::<usize>::new()]);
    assert_eq!(monomials(1, 0), vec![vec![0]]);
}

#[test]
fn ldl_on_a_saddle_and_on_a_definite_matrix() {
    // [[0, 1], [1, 0]] is a saddle: zero pivot with a nonzero entry below it
    let saddle = symmetric_from_upper(&vec![vec![0, 1], vec![0, 0]], 1);
    let (psd, piv) = exact_ldl_psd(&saddle);
    assert!(!psd);
    assert_eq!(texts(&piv), vec!["0", "0"]);
    // [[2, 1], [1, 2]]: pivots 2 and 3/2
    let pd = symmetric_from_upper(&vec![vec![2, 1], vec![0, 2]], 1);
    let (psd, piv) = exact_ldl_psd(&pd);
    assert!(psd);
    assert_eq!(texts(&piv), vec!["2", "3/2"]);
    // a zero row and column is rank deficiency, still PSD
    let z = symmetric_from_upper(&vec![vec![0, 0], vec![0, 5]], 1);
    let (psd, piv) = exact_ldl_psd(&z);
    assert!(psd);
    assert_eq!(texts(&piv), vec!["0", "5"]);
    // a negative pivot
    let neg = symmetric_from_upper(&vec![vec![1, 2], vec![0, 1]], 1);
    let (psd, piv) = exact_ldl_psd(&neg);
    assert!(!psd);
    assert_eq!(texts(&piv), vec!["1", "-3"]);
}

#[test]
fn symmetric_rounding_reduces_and_mirrors() {
    let q = symmetric_from_upper(&vec![vec![2, 6], vec![99, 3]], 4);
    assert_eq!(texts(&q[0]), vec!["1/2", "3/2"]);
    assert_eq!(texts(&q[1]), vec!["3/2", "3/4"]);
}

#[test]
fn defer_reasons_and_size_mismatch() {
    match prove_nonneg(&motzkin(), 2, 3) {
        SosOutcome::Defer { reason } => {
            assert_eq!(reason, "candidate Q is not PSD over the rationals (saddle/negative pivot)")
        }
        other => panic!("unexpected {other:?}"),
    }
    // x^4 has no slot over the basis [1, x]
    match prove_nonneg(&p1(), 1, 1) {
        SosOutcome::Defer { reason } => assert_eq!(reason, "rational rounding/repair broke the exact identity"),
        other => panic!("unexpected {other:?}"),
    }
    match prove_nonneg_with_q(&p1(), 1, 2, &vec![vec![1]], 1) {
        SosOutcome::Defer { reason } => assert_eq!(reason, "supplied Q size != monomial basis size"),
        other => panic!("unexpected {other:?}"),
    }
}

#[test]
fn later_entry_overrides_and_zero_polynomial() {
    // x^2 written twice: the later coefficient 3 wins, so 3x^2 is certified
    let p = poly(&[(&[2], -1), (&[2], 3)]);
    match prove_nonneg(&p, 1, 1) {
        SosOutcome::Certified { pivots, basis_size } => {
            assert_eq!(basis_size, 2);
            assert_eq!(texts(&pivots), vec!["0", "3"]);
        }
        other => panic!("unexpected {other:?}"),
    }
    let zero = poly(&[]);
    assert!(prove_nonneg(&zero, 2, 1).is_certified());
}

#[test]
fn repair_fixes_a_rounded_q() {
    // Q supplied for p1 with the wrong x^2 split: repair moves the residual to the diagonal
    let q = vec![vec![2, 0, 0], vec![0, 5, -1], vec![0, -1, 1]];
    assert!(prove_nonneg_with_q(&p1(), 1, 2, &q, 1).is_certified());
    match require_nonneg(&p1(), 1, 2) {
        GateDecision::Fire { pivots_len } => assert_eq!(pivots_len, 3),
        other => panic!("unexpected {other:?}"),
    }
}

#[test]
fn validity_checks_find_non_canonical_coefficients() {
    assert!(p1().is_wf());
    assert!(Rat::ratio(6, -4).is_wf());
    // 2/4 is not in lowest terms; a zero digit on top is not canonical;
    // a zero denominator and a negative zero are refused too
    let half_unreduced = Rat { neg: false, num: vec![2], den: vec![4] };
    assert!(!half_unreduced.is_wf());
    assert!(!Rat { neg: false, num: vec![1, 0], den: vec![1] }.is_wf());
    assert!(!Rat { neg: false, num: vec![1], den: vec![] }.is_wf());
    assert!(!Rat { neg: true, num: vec![], den: vec![1] }.is_wf());
    let bad = SosPoly { terms: vec![(vec![0], half_unreduced)] };
    assert!(!bad.is_wf());
}
