use jeff::planted::is_clique;

#[test]
fn is_clique_rejects_non_clique() {
    let n = 3;
    // triangle missing edge (0,2)
    let adj = vec![0, 1, 0, 1, 0, 1, 0, 1, 0];
    assert!(!is_clique(&adj, n, &[0, 1, 2]));
    assert!(is_clique(&adj, n, &[0, 1]));
}

#[test]
fn is_clique_edge_cases() {
    let adj = vec![0u8, 1, 1, 1, 0, 1, 1, 1, 0];
    assert!(is_clique(&adj, 3, &[0, 1, 2]));
    // out-of-range vertex
    assert!(!is_clique(&adj, 3, &[0, 3]));
    // singletons and the empty set are cliques
    assert!(is_clique(&adj, 3, &[2]));
    assert!(is_clique(&adj, 3, &[]));
    // a repeated vertex needs a self-loop
    assert!(!is_clique(&adj, 3, &[1, 1]));
}
