use annembed::embed::{
    embedding_dimension, insertion_blocks, reindex_rows, svd_components, svd_plan, RangeRank,
    ReindexError, SvdPlan,
};
use indexmap::IndexSet;

fn ids(v: &[usize]) -> IndexSet<usize> {
    v.iter().copied().collect()
}

#[test]
fn dimension_is_asked_one_when_available() {
    assert_eq!(embedding_dimension(10, 35), 10);
    assert_eq!(embedding_dimension(4, 5), 4);
}

#[test]
fn dimension_shortfall_returns_fewer_columns() {
    assert_eq!(embedding_dimension(10, 5), 4);
    assert_eq!(embedding_dimension(10, 1), 0);
    assert_eq!(embedding_dimension(10, 0), 0);
}

#[test]
fn svd_asks_extra_components() {
    assert_eq!(svd_components(10), 35);
    assert_eq!(svd_components(usize::MAX), usize::MAX);
}

#[test]
fn svd_plan_full_for_small_dense() {
    assert_eq!(svd_plan(false, 100, 35), SvdPlan::Full);
    assert_eq!(svd_plan(false, 5000, 35), SvdPlan::Full);
}

#[test]
fn svd_plan_randomised_for_sparse_or_large() {
    assert_eq!(svd_plan(true, 6000, 35), SvdPlan::Approx(RangeRank::new(55, 5)));
    assert_eq!(svd_plan(false, 5001, 4), SvdPlan::Approx(RangeRank::new(24, 5)));
    assert_eq!(svd_plan(true, 10, 0), SvdPlan::Approx(RangeRank::new(20, 5)));
    let r = RangeRank::new(6, 5);
    assert_eq!((r.get_rank(), r.get_nbiter()), (6, 5));
}

#[test]
fn insertion_blocks_cover_rows() {
    assert_eq!(
        insertion_blocks(25000),
        vec![(0, 10000), (10000, 20000), (20000, 25000)]
    );
    assert_eq!(insertion_blocks(20000), vec![(0, 10000), (10000, 20000), (20000, 20000)]);
    assert_eq!(insertion_blocks(0), vec![(0, 0)]);
    assert_eq!(insertion_blocks(7), vec![(0, 7)]);
}

#[test]
fn reindex_round_trip() {
    let rows = vec![vec![1.0f32, 2.0], vec![3.0, 4.0], vec![5.0, 6.0]];
    let set = ids(&[2, 0, 1]);
    let out = reindex_rows(&rows, 2, &set, 0.0).expect("reindexed");
    assert_eq!(out, vec![vec![3.0, 4.0], vec![5.0, 6.0], vec![1.0, 2.0]]);
    for (i, id) in set.iter().enumerate() {
        assert_eq!(out[*id], rows[i]);
    }
}

#[test]
fn reindex_ignores_extra_identifiers() {
    let rows = vec![vec![1.0f32], vec![3.0]];
    let out = reindex_rows(&rows, 1, &ids(&[1, 0, 7]), 9.0).expect("reindexed");
    assert_eq!(out, vec![vec![3.0], vec![1.0]]);
}

#[test]
fn reindex_identifier_out_of_range() {
    let rows = vec![vec![1.0f32, 2.0], vec![3.0, 4.0]];
    assert_eq!(reindex_rows(&rows, 2, &ids(&[0, 2]), 0.0), Err(ReindexError::IdentifierOutOfRange));
}

#[test]
fn reindex_missing_identifier() {
    let rows = vec![vec![1.0f32], vec![3.0], vec![5.0]];
    assert_eq!(reindex_rows(&rows, 1, &ids(&[0, 1]), 0.0), Err(ReindexError::MissingIdentifier));
}

#[test]
fn reindex_empty_embedding() {
    let rows: Vec<Vec<f32>> = vec![];
    assert_eq!(reindex_rows(&rows, 3, &ids(&[]), 0.0), Ok(vec![]));
}

#[test]
fn embedding_has_one_to_asked_columns() {
    for asked in 1..8usize {
        for ncols in 2..12usize {
            let d = embedding_dimension(asked, ncols);
            assert!(d >= 1 && d <= asked && d < ncols);
        }
    }
}
