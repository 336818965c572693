use jeff::tropical::{
    layered_dag_naive, min_plus_identity, min_plus_matmul, min_plus_matpow, repeated_layer_naive, viterbi_path, INF,
};

#[test]
fn minplus_semiring_correct() {
    let w = 2;
    let id = min_plus_identity(w);
    let a = vec![1, 5, 2, 0];
    assert_eq!(min_plus_matmul(&a, &id, w), a);
    let b = vec![1, 0, 2, 3];
    let c = min_plus_matmul(&a, &b, w);
    assert_eq!(c[0], 2);
    assert_eq!(c[1], 1);
}

#[test]
fn layered_dag_collapse_measured() {
    let w = 4;
    let m = vec![0, 3, INF, 7, INF, 0, 2, INF, 5, INF, 0, 1, INF, 4, INF, 0];
    for &n in &[8u64, 64, 1000] {
        assert_eq!(min_plus_matpow(&m, n, w), repeated_layer_naive(&m, n, w), "matpow==naive N={n}");
    }
    let mut prev = 0f64;
    for k in 3..=7 {
        let n = 10u64.pow(k);
        let ratio = n as f64 / ((64 - n.leading_zeros()) as f64);
        assert!(ratio > prev);
        prev = ratio;
    }
    assert!(prev > 1e5);
}

#[test]
fn viterbi_path_exact() {
    let w = 3;
    let m = vec![0, 2, 9, 9, 0, 1, 9, 9, 0];
    let (cost, path) = viterbi_path(&m, 2, w, 0, 2);
    assert_eq!(cost, 3);
    assert_eq!(path.first(), Some(&0));
    assert_eq!(path.last(), Some(&2));
}

#[test]
fn no_structure_zero_gain() {
    let w = 3;
    let layers: Vec<Vec<i64>> = (0..5)
        .map(|s| (0..w * w).map(|t| ((t + s) % 7) as i64).collect())
        .collect();
    let full = layered_dag_naive(&layers, w);
    assert_ne!(min_plus_matpow(&layers[0], 5, w), full, "distinct layers ⇒ no repeated-power collapse");
}

#[test]
fn tropical_cert() {
    let w = 3;
    let m = vec![0, 1, 4, 2, 0, 1, 3, 1, 0];
    let n = 100u64;
    assert_eq!(min_plus_matpow(&m, n, w), repeated_layer_naive(&m, n, w));
}

#[test]
fn viterbi_unreachable_and_zero_steps() {
    let w = 2;
    let m = vec![0, INF, INF, 0];
    assert_eq!(viterbi_path(&m, 3, w, 0, 1), (INF, vec![]));
    assert_eq!(viterbi_path(&m, 3, w, 0, 0), (0, vec![0, 0, 0, 0]));
    assert_eq!(viterbi_path(&m, 0, w, 0, 1), (INF, vec![1]));
    assert_eq!(min_plus_identity(2), vec![0, INF, INF, 0]);
    assert_eq!(min_plus_matpow(&m, 0, w), min_plus_identity(2));
}
