use annembed::kgraph::OutEdge;
use annembed::laplacian::{
    symmetric_edges, symmetric_triplets, transition_matrix, use_dense_repr, SymEdge,
};
use annembed::nodeparam::{NodeParam, NodeParams};

fn param(node_edges: &[(usize, f32)]) -> NodeParam<f32> {
    NodeParam::new(1.0, node_edges.iter().map(|&(n, w)| OutEdge::new(n, w)).collect())
}

// 0 -> 0 (1.0), 1 (0.5), 1 again (0.7) ; 1 -> 1 (1.0), 0 (0.2) ; 2 -> 2 (1.0), 0 (0.3)
fn small_params() -> NodeParams<f32> {
    let params = vec![
        param(&[(0, 1.0), (1, 0.5), (1, 0.7)]),
        param(&[(1, 1.0), (0, 0.2)]),
        param(&[(2, 1.0), (0, 0.3)]),
    ];
    NodeParams::new(params, 2).expect("valid params")
}

#[test]
fn node_params_reject_edge_outside_graph() {
    let params = vec![param(&[(0, 1.0), (3, 0.5)])];
    assert!(NodeParams::new(params, 1).is_none());
}

#[test]
fn self_edge_comes_first() {
    let neighbours = vec![OutEdge::new(4, 0.1f32), OutEdge::new(7, 0.2)];
    let p = NodeParam::with_self_edge(2, 0.9f32, 1.0, &neighbours, &vec![0.6, 0.3]);
    assert_eq!(p.scale, 0.9);
    let got: Vec<(usize, f32)> = p.edges.iter().map(|e| (e.node, e.weight)).collect();
    assert_eq!(got, vec![(2, 1.0), (4, 0.6), (7, 0.3)]);
}

#[test]
fn uniform_weights_on_degenerate_neighbourhood() {
    // a node whose k = 3 neighbours are all at distance 0 gets 1/(k+1) everywhere
    let neighbours = vec![OutEdge::new(1, 0.0f32), OutEdge::new(2, 0.0), OutEdge::new(3, 0.0)];
    let proba = 1.0f32 / 4.0;
    let p = NodeParam::with_self_edge(0, 1.0f32, proba, &neighbours, &vec![proba; 3]);
    assert_eq!(p.edges.len(), 4);
    assert!(p.edges.iter().all(|e| e.weight == 0.25 && !e.weight.is_nan()));
}

#[test]
fn transition_matrix_keeps_last_weight() {
    let t = transition_matrix(&small_params(), 0.0f32);
    assert_eq!(t, vec![vec![1.0, 0.7, 0.0], vec![0.2, 1.0, 0.0], vec![0.3, 0.0, 1.0]]);
}

#[test]
fn symmetric_edges_pair_each_edge_with_its_reverse() {
    let mut got: Vec<(usize, usize, f32, Option<f32>)> = symmetric_edges(&small_params())
        .iter()
        .map(|e| (e.row, e.col, e.weight, e.reverse))
        .collect();
    got.sort_by(|a, b| (a.0, a.1).cmp(&(b.0, b.1)));
    assert_eq!(
        got,
        vec![
            (0, 0, 1.0, Some(1.0)),
            (0, 1, 0.7, Some(0.2)),
            (1, 0, 0.2, Some(0.7)),
            (1, 1, 1.0, Some(1.0)),
            (2, 0, 0.3, None),
            (2, 2, 1.0, Some(1.0)),
        ]
    );
}

#[test]
fn symmetric_triplets_add_missing_transposes() {
    let edges = vec![
        SymEdge { row: 0, col: 1, weight: 0.7f32, reverse: Some(0.2) },
        SymEdge { row: 2, col: 0, weight: 0.3, reverse: None },
    ];
    let t = symmetric_triplets(&edges, &vec![0.7, 0.3]);
    // 0 -> 1 has a reverse edge, which brings its own entry (1, 0)
    assert_eq!(t.rows, vec![0, 2, 0]);
    assert_eq!(t.cols, vec![1, 0, 2]);
    assert_eq!(t.values, vec![0.7, 0.3, 0.3]);
}

#[test]
fn symmetric_kernel_holds_each_entry_once() {
    let edges = symmetric_edges(&small_params());
    let values: Vec<f32> = edges
        .iter()
        .map(|e| match e.reverse {
            Some(r) => e.weight.max(r),
            None => e.weight,
        })
        .collect();
    let t = symmetric_triplets(&edges, &values);
    let mut got: Vec<(usize, usize, f32)> =
        (0..t.rows.len()).map(|k| (t.rows[k], t.cols[k], t.values[k])).collect();
    got.sort_by(|a, b| (a.0, a.1).cmp(&(b.0, b.1)));
    assert_eq!(
        got,
        vec![
            (0, 0, 1.0),
            (0, 1, 0.7),
            (0, 2, 0.3),
            (1, 0, 0.7),
            (1, 1, 1.0),
            (2, 0, 0.3),
            (2, 2, 1.0),
        ]
    );
}

#[test]
fn dense_up_to_threshold_sparse_beyond() {
    assert!(use_dense_repr(100));
    assert!(use_dense_repr(5000));
    assert!(!use_dense_repr(5001));
    assert!(!use_dense_repr(6000));
}

#[test]
fn empty_kernel_has_empty_structure() {
    let params: NodeParams<f32> = NodeParams::new(vec![], 0).expect("empty params");
    assert!(transition_matrix(&params, 0.0f32).is_empty());
    assert!(symmetric_edges(&params).is_empty());
    let t = symmetric_triplets(&Vec::<SymEdge<f32>>::new(), &vec![]);
    assert!(t.rows.is_empty() && t.cols.is_empty() && t.values.is_empty());
}

#[test]
fn node_params_getters() {
    let p = small_params();
    assert_eq!(p.get_nb_nodes(), 3);
    assert_eq!(p.get_max_nbng(), 2);
    assert_eq!(p.get_node_param(2).edges[1].node, 0);
}
