//! Hubness of a k-nearest-neighbour graph: how many times each node is
//! cited in the neighbourhoods of the others (Radovanovic, Nanopoulos,
//! Ivanovic, "Hubs in Space", JMLR 2010).

use vstd::prelude::*;

use crate::kgraph::{neighbourhoods_wf, KGraph, OutEdge};

verus! {

/// A histogram of citation counts over `[1, high]`, with one significant
/// figure. The proofs know it by its sample count and its highest tracked
/// value.
#[verifier::external_body]
pub struct HubnessHistogram {
    /// The recorded histogram, read by callers for quantile queries.
    pub histogram: hdrhistogram::Histogram<u32>,
}

#[verifier::external_type_specification]
#[verifier::external_body]
pub struct ExCreationError(hdrhistogram::CreationError);

#[verifier::external_type_specification]
#[verifier::external_body]
pub struct ExRecordError(hdrhistogram::RecordError);

/// Number of samples recorded in a histogram.
pub uninterp spec fn histogram_len(h: HubnessHistogram) -> nat;

/// Highest value a histogram tracks.
pub uninterp spec fn histogram_high(h: HubnessHistogram) -> nat;

/// Relies on hdrhistogram::Histogram::new_with_bounds: with a lowest value of
/// at least 1 (and at most half of `u64::MAX`) and at most 5 significant
/// figures, a highest value under twice the lowest is refused; with a lowest
/// value of 1 every other choice is accepted (its size checks cannot fail
/// there); a histogram that is built is empty and tracks every value up to
/// `high`.
#[verifier::external_body]
fn histogram_with_bounds(low: u64, high: u64, sigfig: u8) -> (r: Result<
    HubnessHistogram,
    hdrhistogram::CreationError,
>)
    ensures
        1 <= low <= u64::MAX / 2 && sigfig <= 5 && high < 2 * low ==> r.is_err(),
        low == 1 && sigfig <= 5 && high >= 2 ==> r.is_ok(),
        r matches Ok(h) ==> histogram_len(h) == 0 && histogram_high(h) == high,
{
    hdrhistogram::Histogram::<u32>::new_with_bounds(low, high, sigfig).map(
        |histogram| HubnessHistogram { histogram },
    )
}

/// Relies on hdrhistogram::Histogram::record: a value up to the highest
/// tracked one is recorded; a recorded sample adds one to the (saturating)
/// sample count, a refused one leaves it as it was; the tracked range never
/// shrinks.
#[verifier::external_body]
fn histogram_record(h: &mut HubnessHistogram, value: u64) -> (r: Result<
    (),
    hdrhistogram::RecordError,
>)
    ensures
        value <= histogram_high(*old(h)) ==> r.is_ok(),
        r.is_ok() ==> histogram_len(*final(h)) == if histogram_len(*old(h)) < u64::MAX {
            histogram_len(*old(h)) + 1
        } else {
            histogram_len(*old(h))
        },
        r.is_err() ==> histogram_len(*final(h)) == histogram_len(*old(h)),
        histogram_high(*final(h)) >= histogram_high(*old(h)),
{
    h.histogram.record(value)
}

/// Why a hubness histogram could not be produced.
#[derive(Clone, Copy, Debug, PartialEq, Eq)]
pub enum HubnessError {
    /// The histogram's bounds were refused (an empty graph gives none).
    HistogramCreation,
}

/// `r` is the integer square root of `n`.
pub open spec fn is_floor_sqrt(r: nat, n: nat) -> bool {
    r * r <= n < (r + 1) * (r + 1)
}

/// Number of entries of `s` that are at most `bound`.
pub open spec fn nb_at_most(s: Seq<u32>, bound: nat) -> nat
    decreases s.len(),
{
    if s.len() == 0 {
        0
    } else {
        nb_at_most(s.drop_last(), bound) + if s.last() <= bound {
            1nat
        } else {
            0nat
        }
    }
}

/// Upper bound of the hubness histogram over `n` nodes: twice the integer
/// square root of `n`.
pub open spec fn histogram_bound(n: nat, r: nat) -> bool {
    exists|q: nat| is_floor_sqrt(q, n) && r == 2 * q
}

fn floor_sqrt(n: u64) -> (r: u64)
    ensures
        is_floor_sqrt(r as nat, n as nat),
        r < 0x1_0000_0000,
{
    let mut r: u64 = 0;
    loop
        invariant
            r as nat * r as nat <= n as nat,
        decreases n - r,
    {
        assert(r < 0x1_0000_0000) by (nonlinear_arith)
            requires
                r as nat * r as nat <= n as nat,
                n <= u64::MAX,
        ;
        assert((r + 1) * (r + 1) <= 0x1_0000_0000 * 0x1_0000_0000) by (nonlinear_arith)
            requires
                r < 0x1_0000_0000,
        ;
        let next: u128 = (r as u128 + 1) * (r as u128 + 1);
        if next > n as u128 {
            return r;
        }
        assert(r < n) by (nonlinear_arith)
            requires
                (r + 1) * (r + 1) <= n as int,
                r >= 0,
        ;
        r = r + 1;
    }
}

/// Number of edges of `edges` that point at `node`.
pub open spec fn cited_in<F>(edges: Seq<OutEdge<F>>, node: int) -> nat
    decreases edges.len(),
{
    if edges.len() == 0 {
        0
    } else {
        cited_in(edges.drop_last(), node) + if edges.last().node == node {
            1nat
        } else {
            0nat
        }
    }
}

/// Number of edges of the whole graph that point at `node`.
pub open spec fn citations<F>(nbhs: Seq<Vec<OutEdge<F>>>, node: int) -> nat
    decreases nbhs.len(),
{
    if nbhs.len() == 0 {
        0
    } else {
        citations(nbhs.drop_last(), node) + cited_in(nbhs.last()@, node)
    }
}

/// The count kept for a node: its citations, saturated at `u32::MAX`.
pub open spec fn saturated_count(c: nat) -> u32 {
    if c <= u32::MAX {
        c as u32
    } else {
        u32::MAX
    }
}

proof fn lemma_cited_in_prefix<F>(edges: Seq<OutEdge<F>>, k: int, node: int)
    requires
        0 <= k < edges.len(),
    ensures
        cited_in(edges.take(k + 1), node) == cited_in(edges.take(k), node) + if edges[k].node
            == node {
            1nat
        } else {
            0nat
        },
{
    assert(edges.take(k + 1).drop_last() =~= edges.take(k));
}

proof fn lemma_citations_prefix<F>(nbhs: Seq<Vec<OutEdge<F>>>, i: int, node: int)
    requires
        0 <= i < nbhs.len(),
    ensures
        citations(nbhs.take(i + 1), node) == citations(nbhs.take(i), node) + cited_in(
            nbhs[i]@,
            node,
        ),
{
    assert(nbhs.take(i + 1).drop_last() =~= nbhs.take(i));
}

pub struct Hubness<'a, F> {
    /// The graph the counts were taken on.
    _kgraph: &'a KGraph<F>,
    /// Citation count of each node in the neighbourhoods of the graph.
    counts: Vec<u32>,
}

impl<'a, F: Copy> Hubness<'a, F> {
    pub closed spec fn spec_counts(&self) -> Seq<u32> {
        self.counts@
    }

    /// The graph the counts were taken on.
    pub closed spec fn spec_kgraph(&self) -> KGraph<F> {
        *self._kgraph
    }

    /// Counts, for every node, the out-edges of the graph that point at it.
    pub fn new(kgraph: &'a KGraph<F>) -> (r: Self)
        requires
            kgraph.wf(),
        ensures
            r.spec_kgraph() == *kgraph,
            r.spec_counts().len() == kgraph.spec_neighbours().len(),
            forall|m: int|
                0 <= m < r.spec_counts().len() ==> #[trigger] r.spec_counts()[m] == saturated_count(
                    citations(kgraph.spec_neighbours(), m),
                ),
    {
        let nbhs = kgraph.get_neighbours();
        let nb_nodes = nbhs.len();
        let mut counts: Vec<u32> = Vec::with_capacity(nb_nodes);
        let mut m: usize = 0;
        while m < nb_nodes
            invariant
                m <= nb_nodes,
                counts@.len() == m,
                forall|a: int| 0 <= a < m ==> #[trigger] counts@[a] == 0,
            decreases nb_nodes - m,
        {
            counts.push(0);
            m = m + 1;
        }
        let mut i: usize = 0;
        while i < nb_nodes
            invariant
                nb_nodes == nbhs@.len(),
                neighbourhoods_wf(nbhs@),
                i <= nb_nodes,
                counts@.len() == nb_nodes,
                forall|a: int|
                    0 <= a < nb_nodes ==> #[trigger] counts@[a] == saturated_count(
                        citations(nbhs@.take(i as int), a),
                    ),
            decreases nb_nodes - i,
        {
            let edges = &nbhs[i];
            let mut k: usize = 0;
            while k < edges.len()
                invariant
                    nb_nodes == nbhs@.len(),
                    neighbourhoods_wf(nbhs@),
                    i < nb_nodes,
                    edges@ == nbhs@[i as int]@,
                    k <= edges@.len(),
                    counts@.len() == nb_nodes,
                    forall|a: int|
                        0 <= a < nb_nodes ==> #[trigger] counts@[a] == saturated_count(
                            citations(nbhs@.take(i as int), a) + cited_in(edges@.take(k as int), a),
                        ),
                decreases edges@.len() - k,
            {
                let node = edges[k].node;
                proof {
                    assert(nbhs@[i as int]@[k as int].node < nb_nodes);
                    assert forall|a: int| 0 <= a < nb_nodes implies cited_in(
                        #[trigger] edges@.take(k + 1),
                        a,
                    ) == cited_in(edges@.take(k as int), a) + if a == node {
                        1nat
                    } else {
                        0nat
                    } by {
                        lemma_cited_in_prefix(edges@, k as int, a);
                    }
                }
                let c = counts[node];
                if c < u32::MAX {
                    counts.set(node, c + 1);
                }
                k = k + 1;
            }
            proof {
                assert(edges@.take(edges@.len() as int) =~= edges@);
                assert forall|a: int| 0 <= a < nb_nodes implies #[trigger] citations(
                    nbhs@.take(i + 1),
                    a,
                ) == citations(nbhs@.take(i as int), a) + cited_in(edges@, a) by {
                    lemma_citations_prefix(nbhs@, i as int, a);
                }
            }
            i = i + 1;
        }
        proof {
            assert(nbhs@.take(nb_nodes as int) =~= nbhs@);
        }
        Hubness { _kgraph: kgraph, counts }
    }

    /// Histogram of the citation counts over `[1, 2 * floor(sqrt(N))]` with
    /// one significant figure. Every count up to that bound is recorded;
    /// larger ones may be refused. Only an empty graph gives no histogram.
    pub fn get_hubness_histogram(&self) -> (r: Result<HubnessHistogram, HubnessError>)
        ensures
            r.is_err() <==> self.spec_counts().len() == 0,
            r matches Err(e) ==> e == HubnessError::HistogramCreation,
            r matches Ok(h) ==> exists|b: nat|
                {
                    &&& histogram_bound(self.spec_counts().len(), b)
                    &&& histogram_high(h) >= b
                    &&& nb_at_most(self.spec_counts(), b) <= histogram_len(h)
                    &&& histogram_len(h) <= self.spec_counts().len()
                },
    {
        let n = self.counts.len();
        let sq = floor_sqrt(n as u64);
        proof {
            if n == 0 {
                assert(sq == 0) by (nonlinear_arith)
                    requires
                        sq * sq <= 0,
                ;
            } else {
                assert(sq >= 1) by (nonlinear_arith)
                    requires
                        n as int >= 1,
                        (sq + 1) * (sq + 1) > n as int,
                        sq >= 0,
                ;
            }
        }
        let max_value = 2 * sq;
        let created = histogram_with_bounds(1, max_value, 1);
        let mut histo = match created {
            Ok(h) => h,
            Err(_) => {
                return Err(HubnessError::HistogramCreation);
            },
        };
        let mut i: usize = 0;
        while i < n
            invariant
                n == self.counts@.len(),
                i <= n,
                histogram_high(histo) >= max_value,
                nb_at_most(self.counts@.take(i as int), max_value as nat) <= histogram_len(histo),
                histogram_len(histo) <= i,
            decreases n - i,
        {
            let _recorded = histogram_record(&mut histo, self.counts[i] as u64);
            proof {
                assert(self.counts@.take(i + 1).drop_last() =~= self.counts@.take(i as int));
            }
            i = i + 1;
        }
        proof {
            assert(self.counts@.take(n as int) =~= self.counts@);
            // the bound `max_value` witnesses the postcondition
            let b = max_value as nat;
            assert(histogram_bound(n as nat, b));
            assert(nb_at_most(self.spec_counts(), b) <= histogram_len(histo));
        }
        Ok(histo)
    }

    /// The citation count of each node.
    pub fn get_counts(&self) -> (r: &Vec<u32>)
        ensures
            r@ == self.spec_counts(),
    {
        &self.counts
    }
}

} // verus!
