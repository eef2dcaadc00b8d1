use annembed::hubness::{Hubness, HubnessError};
use annembed::kgraph::{KGraph, OutEdge};
use indexmap::IndexSet;

fn ids(v: &[usize]) -> IndexSet<usize> {
    v.iter().copied().collect()
}

fn edges(list: &[(usize, f32)]) -> Vec<OutEdge<f32>> {
    list.iter().map(|&(n, w)| OutEdge::new(n, w)).collect()
}

// 0 -> 1, 2 ; 1 -> 0 ; 2 -> 1, 0 ; 3 -> 1
fn small_graph() -> KGraph<f32> {
    let nbhs = vec![
        edges(&[(1, 0.5), (2, 1.0)]),
        edges(&[(0, 0.5)]),
        edges(&[(1, 0.25), (0, 1.0)]),
        edges(&[(1, 2.0)]),
    ];
    KGraph::new(2, nbhs, ids(&[10, 11, 12, 13])).expect("valid graph")
}

#[test]
fn kgraph_accepts_valid_graph() {
    let g = small_graph();
    assert_eq!(g.get_nb_nodes(), 4);
    assert_eq!(g.get_max_nbng(), 2);
    assert_eq!(g.get_out_edges_by_idx(2).len(), 2);
    assert_eq!(g.get_out_edges_by_idx(2)[1].node, 0);
    assert_eq!(g.get_indexset().get_index(3), Some(&13));
}

#[test]
fn kgraph_rejects_edge_outside_graph() {
    let nbhs = vec![edges(&[(1, 0.5)]), edges(&[(2, 0.5)])];
    assert!(KGraph::new(1, nbhs, ids(&[0, 1])).is_none());
}

#[test]
fn kgraph_rejects_empty_neighbourhood() {
    let nbhs = vec![edges(&[(1, 0.5)]), edges(&[])];
    assert!(KGraph::new(1, nbhs, ids(&[0, 1])).is_none());
}

#[test]
fn kgraph_rejects_identifier_count_mismatch() {
    let nbhs = vec![edges(&[(1, 0.5)]), edges(&[(0, 0.5)])];
    assert!(KGraph::new(1, nbhs, ids(&[0, 1, 2])).is_none());
}

#[test]
fn scale_distances_gathers_nearest_neighbour_distances() {
    let g = small_graph();
    // node 0 has neighbours 1 and 2; their nearest distances are 0.5 and 0.25,
    // and node 0's own nearest distance is 0.5.
    assert_eq!(g.scale_distances(0), vec![0.5f32, 0.25, 0.5]);
    assert_eq!(g.scale_distances(3), vec![0.5f32, 2.0]);
}

#[test]
fn hubness_counts_citations() {
    let g = small_graph();
    let h = Hubness::new(&g);
    assert_eq!(h.get_counts(), &vec![2u32, 3, 1, 0]);
}

#[test]
fn hubness_histogram_records_counts() {
    let g = small_graph();
    let h = Hubness::new(&g);
    // bound 2 * floor(sqrt(4)) = 4 covers every count
    let histo = h.get_hubness_histogram().expect("histogram");
    assert_eq!(histo.histogram.len(), 4);
    assert_eq!(histo.histogram.max(), 3);
}

#[test]
fn hubness_histogram_of_empty_graph_fails() {
    let g: KGraph<f32> = KGraph::new(0, vec![], ids(&[])).expect("empty graph");
    let h = Hubness::new(&g);
    assert!(matches!(h.get_hubness_histogram(), Err(HubnessError::HistogramCreation)));
}

#[test]
fn hubness_histogram_bound_is_twice_integer_sqrt() {
    // ten nodes on a ring, each citing its successor: every count is 1
    let nbhs: Vec<Vec<OutEdge<f32>>> = (0..10).map(|i| edges(&[((i + 1) % 10, 1.0)])).collect();
    let g = KGraph::new(1, nbhs, (0..10).collect()).expect("ring graph");
    let h = Hubness::new(&g);
    assert_eq!(h.get_counts(), &vec![1u32; 10]);
    let histo = h.get_hubness_histogram().expect("histogram");
    assert_eq!(histo.histogram.high(), 6);
    assert_eq!(histo.histogram.len(), 10);
}

#[test]
fn hubness_counts_repeated_citations() {
    // node 0 cites node 1 twice
    let nbhs = vec![edges(&[(1, 0.5), (1, 0.5)]), edges(&[(0, 0.5)])];
    let g = KGraph::new(2, nbhs, ids(&[5, 6])).expect("valid graph");
    assert_eq!(Hubness::new(&g).get_counts(), &vec![1u32, 2]);
}

#[test]
fn kgraph_from_data_ids_maps_identifiers_to_rows() {
    let lists = vec![vec![(30usize, 0.5f32), (20, 1.0)], vec![(10, 0.5)], vec![(20, 0.25)]];
    let g = KGraph::from_data_ids(2, &lists, ids(&[10, 20, 30])).expect("valid graph");
    let rows: Vec<Vec<(usize, f32)>> = g
        .get_neighbours()
        .iter()
        .map(|l| l.iter().map(|e| (e.node, e.weight)).collect())
        .collect();
    assert_eq!(rows, vec![vec![(2, 0.5), (1, 1.0)], vec![(0, 0.5)], vec![(1, 0.25)]]);
}

#[test]
fn kgraph_from_data_ids_rejects_unknown_identifier() {
    let lists = vec![vec![(30usize, 0.5f32)], vec![(10, 0.5)]];
    assert!(KGraph::from_data_ids(1, &lists, ids(&[10, 20])).is_none());
}
