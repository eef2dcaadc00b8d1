//! Bookkeeping of the embedding: how many coordinates it gets, which SVD
//! serves it, and how its rows are written back in the order of the
//! callers' identifiers.

use vstd::prelude::*;

use crate::kgraph::{index_set_get, index_set_items, index_set_len};
use crate::laplacian::FULL_SVD_SIZE_LIMIT;

verus! {

/// Number of singular components asked beyond the embedding dimension.
pub const SVD_EXTRA_COMPONENTS: usize = 25;

/// Oversampling added to the target rank of the randomised SVD.
pub const RANK_OVERSAMPLING: usize = 20;

/// Subspace iterations of the randomised SVD.
pub const RANK_NB_ITER: usize = 5;

/// Number of coordinates of the embedding. The first left singular vector
/// is the trivial one and is skipped, so with `u_ncols` singular vectors at
/// most `u_ncols - 1` coordinates exist; fewer than asked are returned when
/// the SVD falls short.
pub fn embedding_dimension(asked_dim: usize, u_ncols: usize) -> (r: usize)
    ensures
        r == if u_ncols == 0 {
            0
        } else if asked_dim < u_ncols {
            asked_dim
        } else {
            (u_ncols - 1) as usize
        },
        asked_dim >= 1 && u_ncols >= 2 ==> 1 <= r <= asked_dim,
        u_ncols == 0 || r < u_ncols,
{
    if u_ncols == 0 {
        0
    } else if asked_dim < u_ncols {
        asked_dim
    } else {
        u_ncols - 1
    }
}

/// Number of singular components the driver asks for an embedding of
/// dimension `asked_dim`.
pub fn svd_components(asked_dim: usize) -> (r: usize)
    ensures
        r == if asked_dim <= usize::MAX - SVD_EXTRA_COMPONENTS {
            (asked_dim + SVD_EXTRA_COMPONENTS) as usize
        } else {
            usize::MAX
        },
{
    if asked_dim <= usize::MAX - SVD_EXTRA_COMPONENTS {
        asked_dim + SVD_EXTRA_COMPONENTS
    } else {
        usize::MAX
    }
}

/// Target of a fixed-rank range approximation: the rank asked and the
/// number of QR iterations.
#[derive(Clone, Copy, Debug, PartialEq, Eq)]
pub struct RangeRank {
    rank: usize,
    nbiter: usize,
}

impl RangeRank {
    pub closed spec fn spec_rank(&self) -> usize {
        self.rank
    }

    pub closed spec fn spec_nbiter(&self) -> usize {
        self.nbiter
    }

    pub fn new(rank: usize, nbiter: usize) -> (r: Self)
        ensures
            r.spec_rank() == rank,
            r.spec_nbiter() == nbiter,
    {
        RangeRank { rank, nbiter }
    }

    pub fn get_rank(&self) -> (r: usize)
        ensures
            r == self.spec_rank(),
    {
        self.rank
    }

    pub fn get_nbiter(&self) -> (r: usize)
        ensures
            r == self.spec_nbiter(),
    {
        self.nbiter
    }
}

/// How the singular values of the Laplacian are obtained.
#[derive(Clone, Copy, Debug, PartialEq, Eq)]
pub enum SvdPlan {
    /// Divide-and-conquer SVD of the whole dense matrix.
    Full,
    /// Randomised SVD on a range approximation of the given rank.
    Approx(RangeRank),
}

/// Rank of the range approximation for a target rank: the target plus
/// `RANK_OVERSAMPLING`, saturating.
pub open spec fn oversampled_rank(asked_dim: usize) -> usize {
    if asked_dim <= usize::MAX - RANK_OVERSAMPLING {
        (asked_dim + RANK_OVERSAMPLING) as usize
    } else {
        usize::MAX
    }
}

/// A dense Laplacian of at most `FULL_SVD_SIZE_LIMIT` rows gets a full SVD;
/// otherwise a randomised one, whose rank is the asked one plus
/// `RANK_OVERSAMPLING` (saturating), with `RANK_NB_ITER` iterations.
pub fn svd_plan(is_csr: bool, nbrow: usize, asked_dim: usize) -> (r: SvdPlan)
    ensures
        !is_csr && nbrow <= FULL_SVD_SIZE_LIMIT ==> r == SvdPlan::Full,
        is_csr || nbrow > FULL_SVD_SIZE_LIMIT ==> (r matches SvdPlan::Approx(rr)
            && rr.spec_nbiter() == RANK_NB_ITER && rr.spec_rank() == oversampled_rank(asked_dim)),
{
    if !is_csr && nbrow <= FULL_SVD_SIZE_LIMIT {
        SvdPlan::Full
    } else {
        let rank = if asked_dim <= usize::MAX - RANK_OVERSAMPLING {
            asked_dim + RANK_OVERSAMPLING
        } else {
            usize::MAX
        };
        SvdPlan::Approx(RangeRank::new(rank, RANK_NB_ITER))
    }
}

/// Rows of data inserted into a neighbour index in one parallel batch.
pub const INSERT_BLOCK_SIZE: usize = 10000;

/// The batches `[start, end)` in which `nb_row` rows are inserted: full
/// blocks of `INSERT_BLOCK_SIZE` rows from row 0 on, then one last, shorter
/// (possibly empty) batch up to `nb_row`.
pub fn insertion_blocks(nb_row: usize) -> (r: Vec<(usize, usize)>)
    ensures
        r@.len() >= 1,
        r@[0].0 == 0,
        r@.last().1 == nb_row,
        r@.last().1 - r@.last().0 < INSERT_BLOCK_SIZE,
        forall|b: int|
            0 <= b < r@.len() - 1 ==> (#[trigger] r@[b]).1 - r@[b].0 == INSERT_BLOCK_SIZE && r@[b].1
                == r@[b + 1].0,
        forall|b: int| 0 <= b < r@.len() ==> (#[trigger] r@[b]).0 <= r@[b].1,
{
    let mut blocks: Vec<(usize, usize)> = Vec::new();
    let mut start: usize = 0;
    while nb_row - start >= INSERT_BLOCK_SIZE
        invariant
            start <= nb_row,
            blocks@.len() == 0 ==> start == 0,
            blocks@.len() > 0 ==> blocks@[0].0 == 0 && blocks@.last().1 == start,
            forall|b: int|
                0 <= b < blocks@.len() ==> (#[trigger] blocks@[b]).1 - blocks@[b].0
                    == INSERT_BLOCK_SIZE,
            forall|b: int|
                0 <= b < blocks@.len() - 1 ==> (#[trigger] blocks@[b]).1 == blocks@[b + 1].0,
            forall|b: int| 0 <= b < blocks@.len() ==> (#[trigger] blocks@[b]).0 <= blocks@[b].1,
        decreases nb_row - start,
    {
        blocks.push((start, start + INSERT_BLOCK_SIZE));
        start = start + INSERT_BLOCK_SIZE;
    }
    blocks.push((start, nb_row));
    blocks
}

/// Which row of the embedding lands on output row `r` when rows
/// `0..n` are written in order at the rows named by `ids`: the last
/// one naming `r`.
pub open spec fn source_row(ids: Seq<usize>, n: int, r: int) -> Option<int>
    decreases n,
{
    if n <= 0 {
        None
    } else if ids[n - 1] == r {
        Some(n - 1)
    } else {
        source_row(ids, n - 1, r)
    }
}

/// Row `r` of the reindexed embedding: the row written last at `r`, or
/// `ncols` copies of `fill` where no row is written.
pub open spec fn reindexed_row<F>(
    rows: Seq<Seq<F>>,
    ids: Seq<usize>,
    ncols: nat,
    fill: F,
    r: int,
) -> Seq<F> {
    match source_row(ids, rows.len() as int, r) {
        Some(i) => rows[i],
        None => Seq::new(ncols, |_j: int| fill),
    }
}

proof fn lemma_source_row_range(ids: Seq<usize>, n: int, r: int)
    ensures
        source_row(ids, n, r) matches Some(a) ==> 0 <= a < n && ids[a] == r,
    decreases n,
{
    if n > 0 && ids[n - 1] != r {
        lemma_source_row_range(ids, n - 1, r);
    }
}

proof fn lemma_source_row_distinct(ids: Seq<usize>, n: int, m: int, i: int)
    requires
        0 <= i < m <= n <= ids.len(),
        forall|a: int, b: int| 0 <= a < b < n ==> ids[a] != ids[b],
    ensures
        source_row(ids, m, ids[i] as int) == Some(i),
    decreases m,
{
    if m - 1 > i {
        assert(ids[i] != ids[m - 1]);
        lemma_source_row_distinct(ids, n, m - 1, i);
    }
}

/// Reindexing is a round trip: when the identifiers of the `n` embedded
/// rows are distinct, row `ids[i]` of the reindexed embedding is row `i` of
/// the embedding, for every row `i`.
pub proof fn lemma_reindex_round_trip<F>(
    rows: Seq<Seq<F>>,
    ids: Seq<usize>,
    ncols: nat,
    fill: F,
    i: int,
)
    requires
        0 <= i < rows.len() <= ids.len(),
        forall|a: int, b: int| 0 <= a < b < rows.len() ==> ids[a] != ids[b],
    ensures
        reindexed_row(rows, ids, ncols, fill, ids[i] as int) == rows[i],
{
    lemma_source_row_distinct(ids, rows.len() as int, rows.len() as int, i);
}

pub open spec fn rows_view<F>(m: Seq<Vec<F>>) -> Seq<Seq<F>> {
    m.map_values(|v: Vec<F>| v@)
}

/// Why an embedding could not be written back in identifier order.
#[derive(Clone, Copy, Debug, PartialEq, Eq)]
pub enum ReindexError {
    /// Fewer identifiers than embedded rows.
    MissingIdentifier,
    /// An identifier is not below the number of rows.
    IdentifierOutOfRange,
}

fn copy_row<F: Copy>(row: &Vec<F>) -> (r: Vec<F>)
    ensures
        r@ == row@,
{
    let mut out: Vec<F> = Vec::with_capacity(row.len());
    let mut j: usize = 0;
    while j < row.len()
        invariant
            j <= row@.len(),
            out@ == row@.take(j as int),
        decreases row@.len() - j,
    {
        out.push(row[j]);
        proof {
            assert(out@ =~= row@.take(j + 1));
        }
        j = j + 1;
    }
    proof {
        assert(row@.take(row@.len() as int) =~= row@);
    }
    out
}

/// Writes row `i` of `embedded` at row `ids[i]` of the result, for every
/// row `i` in order; rows no identifier names are filled with `fill`.
/// Fails when there are fewer identifiers than rows, or when one of the
/// first `n` identifiers is not below the number of rows `n`.
pub fn reindex_rows<F: Copy>(
    embedded: &Vec<Vec<F>>,
    ncols: usize,
    ids: &indexmap::IndexSet<usize>,
    fill: F,
) -> (r: Result<Vec<Vec<F>>, ReindexError>)
    requires
        forall|i: int| 0 <= i < embedded@.len() ==> (#[trigger] embedded@[i])@.len() == ncols,
    ensures
        r == Err::<Vec<Vec<F>>, ReindexError>(ReindexError::MissingIdentifier) <==> index_set_items(
            *ids,
        ).len() < embedded@.len(),
        r == Err::<Vec<Vec<F>>, ReindexError>(ReindexError::IdentifierOutOfRange) <==> (
        index_set_items(*ids).len() >= embedded@.len() && exists|i: int|
            0 <= i < embedded@.len() && #[trigger] index_set_items(*ids)[i] >= embedded@.len()),
        r matches Ok(out) ==> {
            &&& out@.len() == embedded@.len()
            &&& forall|row: int| 0 <= row < out@.len() ==> (#[trigger] out@[row])@.len() == ncols
            &&& forall|row: int|
                0 <= row < out@.len() ==> (#[trigger] out@[row])@ == reindexed_row(
                    rows_view(embedded@),
                    index_set_items(*ids),
                    ncols as nat,
                    fill,
                    row,
                )
        },
{
    let ghost items = index_set_items(*ids);
    let n = embedded.len();
    if index_set_len(ids) < n {
        return Err(ReindexError::MissingIdentifier);
    }
    let mut targets: Vec<usize> = Vec::with_capacity(n);
    let mut i: usize = 0;
    while i < n
        invariant
            n == embedded@.len(),
            items == index_set_items(*ids),
            items.len() >= n,
            i <= n,
            targets@ == items.take(i as int),
            forall|a: int| 0 <= a < i ==> #[trigger] items[a] < n,
        decreases n - i,
    {
        let id = match index_set_get(ids, i) {
            Some(id) => id,
            None => {
                return Err(ReindexError::MissingIdentifier);
            },
        };
        if id >= n {
            assert(items[i as int] >= n);
            return Err(ReindexError::IdentifierOutOfRange);
        }
        targets.push(id);
        proof {
            assert(targets@ =~= items.take(i + 1));
        }
        i = i + 1;
    }
    let ghost fill_row = Seq::new(ncols as nat, |_j: int| fill);
    let mut filler: Vec<F> = Vec::with_capacity(ncols);
    let mut j: usize = 0;
    while j < ncols
        invariant
            j <= ncols,
            filler@ =~= Seq::new(j as nat, |_j: int| fill),
        decreases ncols - j,
    {
        filler.push(fill);
        j = j + 1;
    }
    let mut out: Vec<Vec<F>> = Vec::with_capacity(n);
    let mut r: usize = 0;
    while r < n
        invariant
            r <= n,
            filler@ == fill_row,
            out@.len() == r,
            forall|a: int| 0 <= a < r ==> (#[trigger] out@[a])@ == fill_row,
        decreases n - r,
    {
        out.push(copy_row(&filler));
        r = r + 1;
    }
    let mut i: usize = 0;
    while i < n
        invariant
            n == embedded@.len(),
            items == index_set_items(*ids),
            items.len() >= n,
            targets@ == items.take(n as int),
            forall|a: int| 0 <= a < n ==> #[trigger] items[a] < n,
            i <= n,
            out@.len() == n,
            forall|row: int|
                0 <= row < n ==> (#[trigger] out@[row])@ == match source_row(items, i as int, row) {
                    Some(a) => embedded@[a]@,
                    None => fill_row,
                },
        decreases n - i,
    {
        let target = targets[i];
        assert(target == items[i as int]);
        let copied = copy_row(&embedded[i]);
        out.set(target, copied);
        i = i + 1;
    }
    proof {
        assert forall|row: int| 0 <= row < out@.len() implies (#[trigger] out@[row])@
            == reindexed_row(rows_view(embedded@), items, ncols as nat, fill, row) by {
            match source_row(items, n as int, row) {
                Some(a) => {
                    lemma_source_row_range(items, n as int, row);
                    assert(rows_view(embedded@)[a] == embedded@[a]@);
                },
                None => {},
            }
        }
        assert forall|row: int| 0 <= row < out@.len() implies (#[trigger] out@[row])@.len()
            == ncols by {
            lemma_source_row_range(items, n as int, row);
        }
    }
    Ok(out)
}

} // verus!
