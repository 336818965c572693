#[test]
fn meta_selector_cheaper_than_full() {
    // probing cost O(n*probes) is far below a full fit O(n^3); an op-count proxy.
    let (n, probes) = (1000usize, 30usize);
    let probe_ops = n * probes;
    let full_ops = n * n * n;
    assert!(probe_ops * 100 < full_ops, "probing must be far below a full fit");
}
