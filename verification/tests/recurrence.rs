use jeff::rational::Rat;
use jeff::recurrence::{annihilator_matrix, surplus, verify_annihilator};

fn seq(v: &[i64]) -> Vec<Rat> {
    v.iter().map(|&x| Rat::from_i64(x)).collect()
}

fn ops(v: &[i64]) -> Vec<Rat> {
    seq(v)
}

#[test]
fn surplus_counts_the_margin() {
    assert_eq!(surplus(40, 2, 1), 40 - 2 - 6);
    assert!(surplus(4, 2, 2) < 0);
    assert_eq!(surplus(3, 0, 0), 2);
}

#[test]
fn matrix_shape_and_entries() {
    // row n, column i*(d+1)+j holds n^j * a_{n+i}
    let s = seq(&[2, 3, 5, 7, 11]);
    let m = annihilator_matrix(&s, 1, 1);
    assert_eq!(m.len(), 4);
    for row in &m {
        assert_eq!(row.len(), 4);
    }
    // n = 3: [a3, 3*a3, a4, 3*a4] = [7, 21, 11, 33]
    let texts: Vec<String> = m[3].iter().map(|x| x.to_text()).collect();
    assert_eq!(texts, vec!["7", "21", "11", "33"]);
    // n = 0: n^0 = 1, n^1 = 0
    let texts0: Vec<String> = m[0].iter().map(|x| x.to_text()).collect();
    assert_eq!(texts0, vec!["2", "0", "3", "0"]);
}

#[test]
fn matrix_empty_when_too_few_samples() {
    let s = seq(&[1, 2]);
    assert!(annihilator_matrix(&s, 2, 0).is_empty());
    assert!(annihilator_matrix(&s, 3, 1).is_empty());
}

#[test]
fn fibonacci_operator_verifies() {
    // a_n + a_{n+1} - a_{n+2} = 0
    let fib = seq(&[0, 1, 1, 2, 3, 5, 8, 13, 21, 34, 55, 89, 144, 233, 377]);
    assert!(verify_annihilator(&fib, 2, 0, &ops(&[1, 1, -1])));
    // the scaled operator verifies too
    assert!(verify_annihilator(&fib, 2, 0, &ops(&[-3, -3, 3])));
    // a wrong operator is refused
    assert!(!verify_annihilator(&fib, 2, 0, &ops(&[1, -1, 0])));
}

#[test]
fn factorial_operator_verifies() {
    // (n+1) a_n - a_{n+1} = 0 : columns [c00, c01, c10, c11] = [1, 1, -1, 0]
    let fact = seq(&[1, 1, 2, 6, 24, 120, 720, 5040, 40320, 362880]);
    assert!(verify_annihilator(&fact, 1, 1, &ops(&[1, 1, -1, 0])));
    assert!(!verify_annihilator(&fact, 1, 1, &ops(&[1, 0, -1, 0])));
}

#[test]
fn zero_or_misshapen_operator_refused() {
    let fib = seq(&[0, 1, 1, 2, 3, 5, 8]);
    assert!(!verify_annihilator(&fib, 2, 0, &ops(&[0, 0, 0])));
    assert!(!verify_annihilator(&fib, 2, 0, &ops(&[1, 1])));
    assert!(!verify_annihilator(&fib, 2, 0, &ops(&[1, 1, -1, 0])));
    // no equation rows at all
    let short = seq(&[1, 1]);
    assert!(!verify_annihilator(&short, 2, 0, &ops(&[1, 1, -1])));
}

#[test]
fn rational_operator_coefficients() {
    // a_n = 2^n: a_{n+1} - 2 a_n = 0, written as (1/2) a_{n+1} - a_n = 0
    let pow2 = seq(&[1, 2, 4, 8, 16, 32]);
    let op = vec![Rat::from_i64(-1), Rat::ratio(1, 2)];
    assert!(verify_annihilator(&pow2, 1, 0, &op));
}
