use jeff::streaming::{
    ams_f2_median, count_min, exact_distinct, exact_f2, exact_freq, hll_registers, misra_gries, sample_indices,
};

fn skewed_stream() -> Vec<u64> {
    // a heavy hitter (7) plus a light tail.
    let mut v = vec![7u64; 500];
    for i in 0..200 {
        v.push((i % 50) as u64 + 100);
    }
    v
}

#[test]
fn count_min_overestimates_within_bound() {
    let s = skewed_stream();
    let eps = 0.01_f64;
    let w = (2.0 / eps).ceil() as usize;
    let est = count_min(&s, 7, w, 5);
    let truth = exact_freq(&s, 7);
    assert!(est >= truth, "CM never underestimates");
    assert!(est as f64 <= truth as f64 + eps * s.len() as f64, "CM within eps*|f|_1");
}

#[test]
fn misra_gries_finds_heavy_hitter() {
    let s = skewed_stream();
    let hh = misra_gries(&s, 8);
    assert!(hh.contains(&7), "heavy hitter 7 must survive");
}

#[test]
fn exact_oracles_on_small_streams() {
    let s = [3u64, 1, 3, 3, 2, 1];
    // f3 = 3, f1 = 2, f2 = 1 => F2 = 9 + 4 + 1
    assert_eq!(exact_f2(&s), 14);
    assert_eq!(exact_freq(&s, 3), 3);
    assert_eq!(exact_freq(&s, 9), 0);
    assert_eq!(exact_distinct(&s), 3);
    assert_eq!(exact_f2(&[]), 0);
    assert_eq!(exact_distinct(&[]), 0);
    assert_eq!(exact_f2(&skewed_stream()), 500 * 500 + 50 * 16);
}

#[test]
fn count_min_edge_cases() {
    let s = [5u64, 5, 6];
    // no rows: estimate 0
    assert_eq!(count_min(&s, 5, 4, 0), 0);
    // one bucket: everything collides
    assert_eq!(count_min(&s, 5, 1, 3), 3);
    // never below the truth
    assert!(count_min(&s, 6, 16, 4) >= 1);
}

#[test]
fn misra_gries_counts_and_drops() {
    // k = 1: a single counter; 1 1 2 -> {1:1}; 2 -> {}; 3 -> {3:1}
    assert_eq!(misra_gries(&[1, 1, 2, 2, 3], 1), vec![3]);
    // k = 0 keeps nothing
    assert!(misra_gries(&[4, 4, 4], 0).is_empty());
    // output is ascending and distinct
    let out = misra_gries(&[9, 2, 9, 5, 2, 9], 3);
    assert_eq!(out, vec![2, 5, 9]);
}

fn splitmix(x: u64, seed: u64) -> u64 {
    let mut z = x.wrapping_add(seed).wrapping_add(0x9E3779B97F4A7C15);
    z = (z ^ (z >> 30)).wrapping_mul(0xBF58476D1CE4E5B9);
    z = (z ^ (z >> 27)).wrapping_mul(0x94D049BB133111EB);
    z ^ (z >> 31)
}

#[test]
fn ams_median_close_to_exact() {
    let s = skewed_stream();
    let exact = exact_f2(&s) as f64;
    let est = ams_f2_median(&s, 51) as f64;
    assert!((est - exact).abs() <= 0.5 * exact, "AMS F2 est {est} vs exact {exact}");
}

#[test]
fn ams_median_small_streams() {
    // no items: every z is 0
    assert_eq!(ams_f2_median(&[], 5), 0);
    // one item: every z is +-1
    assert_eq!(ams_f2_median(&[42], 7), 1);
    // one item twice: every z is +-2
    assert_eq!(ams_f2_median(&[9, 9], 3), 4);
    // against an independent computation of the sorted estimates
    let s: Vec<u64> = (0..40).map(|i| i % 7).collect();
    let reps = 9;
    let mut ests: Vec<u64> = (0..reps)
        .map(|r| {
            let z: i64 = s.iter().map(|&x| if splitmix(x, 0xA115 + r as u64) & 1 == 0 { 1i64 } else { -1 }).sum();
            (z * z) as u64
        })
        .collect();
    ests.sort();
    assert_eq!(ams_f2_median(&s, reps), ests[reps / 2]);
}

#[test]
fn hll_registers_match_ranks() {
    let b = 6u32;
    let s: Vec<u64> = (0..300).collect();
    let reg = hll_registers(&s, b);
    assert_eq!(reg.len(), 64);
    let mut expect = vec![0u32; 64];
    for &x in &s {
        let h = splitmix(x, 0x4717);
        let idx = (h >> (64 - b)) as usize;
        let rho = ((h << b) | (1 << (b - 1))).leading_zeros() + 1;
        if rho > expect[idx] {
            expect[idx] = rho;
        }
    }
    assert_eq!(reg, expect);
    assert!(hll_registers(&[], 4).iter().all(|&r| r == 0));
}

#[test]
fn hll_registers_estimate_distinct() {
    // 5000 distinct items over 1024 registers: the raw estimate is within 10%
    let s: Vec<u64> = (0..5000).collect();
    let reg = hll_registers(&s, 10);
    let m = reg.len() as f64;
    let alpha = 0.7213 / (1.0 + 1.079 / m);
    let sum: f64 = reg.iter().map(|&r| 2f64.powi(-(r as i32))).sum();
    let est = alpha * m * m / sum;
    let truth = exact_distinct(&s) as f64;
    assert!((est - truth).abs() < 0.1 * truth, "HLL est {est} vs {truth}");
}

#[test]
fn sample_indices_in_range_and_mean_close() {
    let n = 10000usize;
    let idx = sample_indices(n, 1000, 0xBEEF);
    assert_eq!(idx.len(), 1000);
    assert!(idx.iter().all(|&i| i < n));
    assert_eq!(idx[3], (splitmix(3, 0xBEEF) % n as u64) as usize);
    let v: Vec<f64> = (0..n).map(|i| (i % 10) as f64).collect();
    let est: f64 = idx.iter().map(|&i| v[i]).sum::<f64>() / idx.len() as f64;
    assert!((est - 4.5).abs() < 0.5, "mean est {est}");
    assert!(sample_indices(5, 0, 1).is_empty());
}

#[test]
fn misra_gries_keeps_at_most_k_keys_from_the_stream() {
    let s: Vec<u64> = vec![5, 1, 5, 2, 5, 3, 4, 5, 9, 9, 9, 7];
    for k in 0..5usize {
        let r = misra_gries(&s, k);
        assert!(r.len() <= k);
        assert!(r.iter().all(|x| s.contains(x)));
    }
}
