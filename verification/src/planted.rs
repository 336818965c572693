//! Exact certificate check for planted-clique recovery.

use vstd::prelude::*;

verus! {

/// Vertices `u` and `v` are both in range and adjacent in the `n × n` matrix.
pub open spec fn adjacent(adj: Seq<u8>, n: usize, u: usize, v: usize) -> bool {
    u < n && v < n && adj[u * n + v] == 1
}

/// Every pair `set[a], set[b]` with `a < b` is adjacent.
pub open spec fn is_clique_spec(adj: Seq<u8>, n: usize, set: Seq<usize>) -> bool {
    forall|a: int, b: int| 0 <= a < b < set.len() ==> adjacent(adj, n, #[trigger] set[a], #[trigger] set[b])
}

/// Exact certificate check: is `set` a clique of the `n × n` adjacency matrix
/// `adj` (all pairs in range and adjacent)?
pub fn is_clique(adj: &[u8], n: usize, set: &[usize]) -> (b: bool)
    requires
        n * n <= adj@.len(),
    ensures
        b == is_clique_spec(adj@, n, set@),
{
    let m = adj.len();
    let mut a: usize = 0;
    while a < set.len()
        invariant
            m == adj@.len(),
            n * n <= adj@.len(),
            a <= set@.len(),
            forall|x: int, y: int| 0 <= x < a && x < y < set@.len() ==> adjacent(adj@, n, #[trigger] set@[x], #[trigger] set@[y]),
        decreases set.len() - a,
    {
        let mut b = a + 1;
        while b < set.len()
            invariant
                m == adj@.len(),
                n * n <= adj@.len(),
                a < set@.len(),
                a + 1 <= b <= set@.len(),
                forall|x: int, y: int| 0 <= x < a && x < y < set@.len() ==> adjacent(adj@, n, #[trigger] set@[x], #[trigger] set@[y]),
                forall|y: int| a < y < b ==> adjacent(adj@, n, set@[a as int], #[trigger] set@[y]),
            decreases set.len() - b,
        {
            let u = set[a];
            let v = set[b];
            if u >= n || v >= n {
                return false;
            }
            assert(u * n + v < n * n) by (nonlinear_arith)
                requires
                    u < n,
                    v < n,
            ;
            if adj[u * n + v] != 1 {
                return false;
            }
            b = b + 1;
        }
        a = a + 1;
    }
    true
}

} // verus!
