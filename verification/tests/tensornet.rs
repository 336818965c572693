use jeff::tensornet::{contract_naive, contract_ordered, Tensor};

fn mat(data: [i64; 4]) -> Tensor {
    Tensor { indices: vec![], data: data.to_vec() }
}

#[test]
fn triangle_ordered_equals_naive() {
    // three 2x2 matrices on indices (a,b),(b,c),(c,a): closed network, 3 indices.
    let dim = 2;
    let mut m_ab = mat([1, 2, 3, 4]);
    m_ab.indices = vec![0, 1];
    let mut m_bc = mat([5, 6, 7, 8]);
    m_bc.indices = vec![1, 2];
    let mut m_ca = mat([1, 0, 1, 1]);
    m_ca.indices = vec![2, 0];
    let net = vec![m_ab, m_bc, m_ca];
    let naive = contract_naive(&net, dim, 3);
    let (ordered, width) = contract_ordered(&net, dim, 8).expect("contract");
    assert_eq!(ordered, naive, "ordered must equal naive");
    assert!(width <= 2, "triangle contraction width {width}");
}

#[test]
fn chain_ordered_equals_naive() {
    // a longer chain (matrix product trace) on 4 indices.
    let dim = 2;
    let make = |d: [i64; 4], ix: Vec<usize>| Tensor { indices: ix, data: d.to_vec() };
    let net = vec![
        make([1, 2, 0, 1], vec![0, 1]),
        make([2, 1, 1, 3], vec![1, 2]),
        make([0, 1, 1, 0], vec![2, 3]),
        make([1, 1, 0, 2], vec![3, 0]),
    ];
    let naive = contract_naive(&net, dim, 4);
    let (ordered, _w) = contract_ordered(&net, dim, 8).expect("contract");
    assert_eq!(ordered, naive);
}

#[test]
fn high_width_network_defers() {
    // a dense network forced under a tiny budget: treewidth blow-up.
    let dim = 2;
    let make = |ix: Vec<usize>| {
        let sz = 1usize << ix.len();
        Tensor { indices: ix, data: vec![1i64; sz] }
    };
    // a 4-index tensor needs width 4; budget 2 forces a defer.
    let net = vec![make(vec![0, 1, 2, 3]), make(vec![0, 1, 2, 3])];
    assert!(contract_ordered(&net, dim, 2).is_none());
}

#[test]
fn naive_trace_of_matrix_product() {
    // tr(A B) with A = [[1,2],[3,4]], B = [[5,6],[7,8]]: 1*5 + 2*7 + 3*6 + 4*8 = 69
    let a = Tensor { indices: vec![0, 1], data: vec![1, 2, 3, 4] };
    let b = Tensor { indices: vec![1, 0], data: vec![5, 6, 7, 8] };
    let net = vec![a, b];
    assert_eq!(contract_naive(&net, 2, 2), 69);
    assert_eq!(contract_ordered(&net, 2, 4), Some((69, 2)));
}

#[test]
fn naive_counts_unused_indices() {
    // a scalar network over one unused index: the sum runs over dim values of it
    let s = Tensor { indices: vec![], data: vec![7] };
    assert_eq!(contract_naive(&[s.clone()], 3, 1), 21);
    assert_eq!(contract_naive(&[s], 3, 0), 7);
}

#[test]
fn ordered_single_tensor_returns_its_entry() {
    let t = Tensor { indices: vec![0, 1, 2], data: vec![5, 1, 1, 1, 1, 1, 1, 1] };
    // one tensor is returned as is, whatever the budget
    assert_eq!(contract_ordered(&[t], 2, 0), Some((5, 3)));
}

#[test]
fn ordered_disconnected_network_multiplies() {
    // two scalars share nothing: the forced contraction multiplies them
    let a = Tensor { indices: vec![], data: vec![6] };
    let b = Tensor { indices: vec![], data: vec![7] };
    assert_eq!(contract_ordered(&[a, b], 2, 0), Some((42, 0)));
}

#[test]
fn ordered_sums_a_three_way_index_once_all_meet() {
    // index 0 is shared by three vectors: sum_i u_i v_i w_i
    let u = Tensor { indices: vec![0], data: vec![1, 2] };
    let v = Tensor { indices: vec![0], data: vec![3, 4] };
    let w = Tensor { indices: vec![0], data: vec![5, 6] };
    let net = vec![u, v, w];
    // 1*3*5 + 2*4*6 = 63
    assert_eq!(contract_naive(&net, 2, 1), 63);
    let (val, width) = contract_ordered(&net, 2, 4).expect("contract");
    assert_eq!(val, 63);
    assert_eq!(width, 1);
}

#[test]
fn ordered_defers_when_budget_below_inputs() {
    let a = Tensor { indices: vec![0, 1], data: vec![1, 1, 1, 1] };
    let b = Tensor { indices: vec![0, 1], data: vec![1, 1, 1, 1] };
    assert_eq!(contract_ordered(&[a, b], 2, 1), None);
}
