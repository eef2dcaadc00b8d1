//! Structure of the graph Laplacian: which storage it gets, where each
//! directed kernel weight lands in the dense transition matrix, and which
//! pairs of entries the sparse symmetrisation combines.

use vstd::prelude::*;

use crate::kgraph::OutEdge;
use crate::nodeparam::{params_wf, NodeParam, NodeParams};

verus! {

/// Largest number of nodes for which the Laplacian is stored densely.
pub const FULL_MAT_REPR: usize = 5000;

/// Largest number of rows of a dense Laplacian that gets a full SVD.
pub const FULL_SVD_SIZE_LIMIT: usize = 5000;

/// Dense storage for small graphs, compressed sparse rows beyond.
pub fn use_dense_repr(nbnodes: usize) -> (r: bool)
    ensures
        r == (nbnodes <= FULL_MAT_REPR),
{
    nbnodes <= FULL_MAT_REPR
}

/// The weight of the last edge of `edges` towards `j`, if any: writing the
/// edges in order into a matrix row leaves this value at column `j`.
pub open spec fn find_weight<F>(edges: Seq<OutEdge<F>>, j: int) -> Option<F>
    decreases edges.len(),
{
    if edges.len() == 0 {
        None
    } else if edges.last().node == j {
        Some(edges.last().weight)
    } else {
        find_weight(edges.drop_last(), j)
    }
}

/// `k` is the last position of an edge towards `j`.
pub open spec fn is_last_to<F>(edges: Seq<OutEdge<F>>, k: int, j: int) -> bool {
    &&& 0 <= k < edges.len()
    &&& edges[k].node == j
    &&& forall|m: int| k < m < edges.len() ==> #[trigger] edges[m].node != j
}

pub open spec fn weight_or<F>(w: Option<F>, zero: F) -> F {
    match w {
        Some(v) => v,
        None => zero,
    }
}

proof fn lemma_find_weight_last<F>(edges: Seq<OutEdge<F>>, k: int, j: int)
    requires
        is_last_to(edges, k, j),
    ensures
        find_weight(edges, j) == Some(edges[k].weight),
    decreases edges.len(),
{
    if k < edges.len() - 1 {
        assert(edges.last().node != j);
        let d = edges.drop_last();
        assert(is_last_to(d, k, j)) by {
            assert forall|m: int| k < m < d.len() implies #[trigger] d[m].node != j by {
                assert(d[m] == edges[m]);
            }
        }
        lemma_find_weight_last(d, k, j);
    }
}

proof fn lemma_find_weight_none<F>(edges: Seq<OutEdge<F>>, j: int)
    requires
        forall|k: int| 0 <= k < edges.len() ==> #[trigger] edges[k].node != j,
    ensures
        find_weight(edges, j).is_none(),
    decreases edges.len(),
{
    if edges.len() > 0 {
        let d = edges.drop_last();
        assert forall|k: int| 0 <= k < d.len() implies #[trigger] d[k].node != j by {
            assert(d[k] == edges[k]);
        }
        lemma_find_weight_none(d, j);
    }
}

/// The last position of an edge towards `j`, `None` if there is none.
fn last_position<F: Copy>(edges: &Vec<OutEdge<F>>, j: usize) -> (r: Option<usize>)
    ensures
        r matches Some(k) ==> is_last_to(edges@, k as int, j as int),
        r.is_none() ==> forall|k: int| 0 <= k < edges@.len() ==> #[trigger] edges@[k].node != j,
        r matches Some(k) ==> find_weight(edges@, j as int) == Some(edges@[k as int].weight),
        r.is_none() ==> find_weight(edges@, j as int).is_none(),
{
    let mut k: usize = edges.len();
    while k > 0
        invariant
            k <= edges@.len(),
            forall|m: int| k <= m < edges@.len() ==> #[trigger] edges@[m].node != j,
        decreases k,
    {
        if edges[k - 1].node == j {
            proof {
                lemma_find_weight_last(edges@, k - 1, j as int);
            }
            return Some(k - 1);
        }
        k = k - 1;
    }
    proof {
        lemma_find_weight_none(edges@, j as int);
    }
    None
}

/// Row `i` of the directed transition matrix: at column `j` the weight of
/// the last edge of `i` towards `j`, `zero` where there is none.
pub fn transition_row<F: Copy>(param: &NodeParam<F>, n: usize, zero: F) -> (r: Vec<F>)
    requires
        forall|k: int| 0 <= k < param.edges@.len() ==> #[trigger] param.edges@[k].node < n,
    ensures
        r@.len() == n,
        forall|j: int| 0 <= j < n ==> #[trigger] r@[j] == weight_or(find_weight(param.edges@, j), zero),
{
    let mut row: Vec<F> = Vec::with_capacity(n);
    let mut j: usize = 0;
    while j < n
        invariant
            j <= n,
            row@.len() == j,
            forall|a: int| 0 <= a < j ==> #[trigger] row@[a] == zero,
        decreases n - j,
    {
        row.push(zero);
        j = j + 1;
    }
    let edges = &param.edges;
    let mut k: usize = 0;
    while k < edges.len()
        invariant
            edges@ == param.edges@,
            forall|kk: int| 0 <= kk < edges@.len() ==> #[trigger] edges@[kk].node < n,
            k <= edges@.len(),
            row@.len() == n,
            forall|a: int|
                0 <= a < n ==> #[trigger] row@[a] == weight_or(
                    find_weight(edges@.take(k as int), a),
                    zero,
                ),
        decreases edges@.len() - k,
    {
        let e = edges[k];
        row.set(e.node, e.weight);
        proof {
            let t = edges@.take(k + 1);
            assert(t.drop_last() =~= edges@.take(k as int));
            assert(t.last() == e);
        }
        k = k + 1;
    }
    proof {
        assert(edges@.take(edges@.len() as int) =~= edges@);
    }
    row
}

/// The directed transition matrix of the kernel, by rows: entry `(i, j)`
/// holds the weight of the last edge of `i` towards `j`, `zero` where
/// there is none.
pub fn transition_matrix<F: Copy>(params: &NodeParams<F>, zero: F) -> (r: Vec<Vec<F>>)
    requires
        params.wf(),
    ensures
        r@.len() == params.spec_params().len(),
        forall|i: int|
            0 <= i < r@.len() ==> (#[trigger] r@[i])@.len() == params.spec_params().len(),
        forall|i: int, j: int|
            0 <= i < r@.len() && 0 <= j < r@.len() ==> #[trigger] r@[i]@[j] == weight_or(
                find_weight(params.spec_params()[i].edges@, j),
                zero,
            ),
{
    let n = params.get_nb_nodes();
    let mut rows: Vec<Vec<F>> = Vec::with_capacity(n);
    let mut i: usize = 0;
    while i < n
        invariant
            n == params.spec_params().len(),
            params.wf(),
            i <= n,
            rows@.len() == i,
            forall|a: int| 0 <= a < i ==> (#[trigger] rows@[a])@.len() == n,
            forall|a: int, j: int|
                0 <= a < i && 0 <= j < n ==> #[trigger] rows@[a]@[j] == weight_or(
                    find_weight(params.spec_params()[a].edges@, j),
                    zero,
                ),
        decreases n - i,
    {
        let param = params.get_node_param(i);
        assert(forall|k: int|
            0 <= k < param.edges@.len() ==> #[trigger] param.edges@[k].node < n) by {
            assert(params_wf(params.spec_params()));
        }
        let row = transition_row(param, n, zero);
        rows.push(row);
        i = i + 1;
    }
    rows
}

/// One directed kernel edge `row -> col` after duplicates are merged (the
/// last edge wins), with the weight of the reverse edge `col -> row` if the
/// graph has one. The sparse symmetrisation combines the two weights.
#[derive(Clone, Copy, Debug)]
pub struct SymEdge<F> {
    pub row: usize,
    pub col: usize,
    pub weight: F,
    pub reverse: Option<F>,
}

/// `e` is the merged edge `e.row -> e.col` of the kernel `params`.
pub open spec fn is_sym_edge_of<F>(params: Seq<NodeParam<F>>, e: SymEdge<F>) -> bool {
    &&& e.row < params.len()
    &&& e.col < params.len()
    &&& find_weight(params[e.row as int].edges@, e.col as int) == Some(e.weight)
    &&& e.reverse == find_weight(params[e.col as int].edges@, e.row as int)
}

/// Some entry of `out` from position `lo` on is the edge `i -> j`.
pub open spec fn covers<F>(out: Seq<SymEdge<F>>, lo: int, i: int, j: int) -> bool {
    exists|p: int| lo <= p < out.len() && #[trigger] out[p].row == i && out[p].col == j
}

proof fn lemma_find_weight_some<F>(edges: Seq<OutEdge<F>>, j: int)
    requires
        find_weight(edges, j).is_some(),
    ensures
        exists|k: int| #[trigger] is_last_to(edges, k, j),
    decreases edges.len(),
{
    let n = edges.len() as int;
    if edges.last().node == j {
        assert(is_last_to(edges, n - 1, j));
    } else {
        let d = edges.drop_last();
        lemma_find_weight_some(d, j);
        let k = choose|k: int| #[trigger] is_last_to(d, k, j);
        assert forall|m: int| k < m < n implies #[trigger] edges[m].node != j by {
            if m < n - 1 {
                assert(d[m] == edges[m]);
            }
        }
        assert(is_last_to(edges, k, j));
    }
}

/// `edges` lists the merged directed edges of the kernel `params`: each
/// entry is one, every edge of the kernel is among them, and no pair
/// `(row, col)` comes twice.
pub open spec fn is_merged_edges_of<F>(params: Seq<NodeParam<F>>, edges: Seq<SymEdge<F>>) -> bool {
    &&& forall|p: int| 0 <= p < edges.len() ==> is_sym_edge_of(params, #[trigger] edges[p])
    &&& forall|i: int, j: int|
        0 <= i < params.len() && (#[trigger] find_weight(params[i].edges@, j)).is_some() ==> covers(
            edges,
            0,
            i,
            j,
        )
    &&& forall|p: int, q: int|
        0 <= p < q < edges.len() ==> (#[trigger] edges[p]).row != (#[trigger] edges[q]).row
            || edges[p].col != edges[q].col
}

/// The merged directed edges of the kernel, each pair `(row, col)` once,
/// with the weight of its reverse edge where there is one.
pub fn symmetric_edges<F: Copy>(params: &NodeParams<F>) -> (r: Vec<SymEdge<F>>)
    requires
        params.wf(),
    ensures
        is_merged_edges_of(params.spec_params(), r@),
{
    let ghost ps = params.spec_params();
    let n = params.get_nb_nodes();
    let mut out: Vec<SymEdge<F>> = Vec::new();
    let mut i: usize = 0;
    while i < n
        invariant
            ps == params.spec_params(),
            n == ps.len(),
            params_wf(ps),
            i <= n,
            forall|p: int| 0 <= p < out@.len() ==> is_sym_edge_of(ps, #[trigger] out@[p]),
            forall|p: int| 0 <= p < out@.len() ==> (#[trigger] out@[p]).row < i,
            forall|a: int, j: int|
                0 <= a < i && (#[trigger] find_weight(ps[a].edges@, j)).is_some() ==> covers(
                    out@,
                    0,
                    a,
                    j,
                ),
            forall|p: int, q: int|
                0 <= p < q < out@.len() ==> (#[trigger] out@[p]).row != (#[trigger] out@[q]).row
                    || out@[p].col != out@[q].col,
        decreases n - i,
    {
        let edges = &params.get_node_param(i).edges;
        let ghost start = out@.len() as int;
        let mut k: usize = 0;
        while k < edges.len()
            invariant
                ps == params.spec_params(),
                n == ps.len(),
                params_wf(ps),
                i < n,
                edges@ == ps[i as int].edges@,
                k <= edges@.len(),
                0 <= start <= out@.len(),
                forall|p: int| 0 <= p < out@.len() ==> is_sym_edge_of(ps, #[trigger] out@[p]),
                forall|p: int| 0 <= p < start ==> (#[trigger] out@[p]).row < i,
                forall|p: int|
                    start <= p < out@.len() ==> (#[trigger] out@[p]).row == i && exists|kk: int|
                        0 <= kk < k && #[trigger] is_last_to(edges@, kk, out@[p].col as int),
                forall|a: int, j: int|
                    0 <= a < i && (#[trigger] find_weight(ps[a].edges@, j)).is_some() ==> covers(
                        out@,
                        0,
                        a,
                        j,
                    ),
                forall|kk: int|
                    0 <= kk < k && #[trigger] is_last_to(edges@, kk, edges@[kk].node as int)
                        ==> covers(out@, start, i as int, edges@[kk].node as int),
                forall|p: int, q: int|
                    0 <= p < q < out@.len() ==> (#[trigger] out@[p]).row != (#[trigger] out@[q]).row
                        || out@[p].col != out@[q].col,
            decreases edges@.len() - k,
        {
            let j = edges[k].node;
            assert(j < n) by {
                assert(ps[i as int].edges@[k as int].node < ps.len());
            }
            let last = last_position(edges, j);
            if last == Some(k) {
                let rev_edges = &params.get_node_param(j).edges;
                let reverse = match last_position(rev_edges, i) {
                    Some(m) => Some(rev_edges[m].weight),
                    None => None,
                };
                let e = SymEdge { row: i, col: j, weight: edges[k].weight, reverse };
                let ghost old_out = out@;
                out.push(e);
                proof {
                    assert(out@ == old_out.push(e));
                    assert(is_sym_edge_of(ps, e));
                    assert forall|p: int, q: int|
                        0 <= p < q < out@.len() implies (#[trigger] out@[p]).row != (
                        #[trigger] out@[q]).row || out@[p].col != out@[q].col by {
                        if q == old_out.len() && p >= start {
                            assert(out@[p] == old_out[p]);
                            let kk = choose|kk: int|
                                0 <= kk < k && #[trigger] is_last_to(
                                    edges@,
                                    kk,
                                    old_out[p].col as int,
                                );
                            if old_out[p].col == j {
                                assert(edges@[k as int].node == j);
                            }
                        }
                    }
                    assert forall|p: int|
                        start <= p < out@.len() implies (#[trigger] out@[p]).row == i && exists|
                            kk: int,
                        |
                            0 <= kk < k + 1 && #[trigger] is_last_to(
                                edges@,
                                kk,
                                out@[p].col as int,
                            ) by {
                        if p < old_out.len() {
                            let kk = choose|kk: int|
                                0 <= kk < k && #[trigger] is_last_to(
                                    edges@,
                                    kk,
                                    old_out[p].col as int,
                                );
                            assert(is_last_to(edges@, kk, out@[p].col as int));
                        } else {
                            assert(is_last_to(edges@, k as int, out@[p].col as int));
                        }
                    }
                    assert forall|a: int, jj: int|
                        0 <= a < i && (#[trigger] find_weight(ps[a].edges@, jj)).is_some()
                            implies covers(out@, 0, a, jj) by {
                        let p = choose|p: int|
                            0 <= p < old_out.len() && #[trigger] old_out[p].row == a
                                && old_out[p].col == jj;
                        assert(out@[p] == old_out[p]);
                    }
                    assert forall|kk: int|
                        0 <= kk < k + 1 && #[trigger] is_last_to(
                            edges@,
                            kk,
                            edges@[kk].node as int,
                        ) implies covers(out@, start, i as int, edges@[kk].node as int) by {
                        if kk < k {
                            let p = choose|p: int|
                                start <= p < old_out.len() && #[trigger] old_out[p].row == i
                                    && old_out[p].col == edges@[kk].node;
                            assert(out@[p] == old_out[p]);
                        } else {
                            assert(out@[old_out.len() as int] == e);
                        }
                    }
                }
            } else {
                proof {
                    assert forall|p: int|
                        start <= p < out@.len() implies (#[trigger] out@[p]).row == i && exists|
                            kk: int,
                        |
                            0 <= kk < k + 1 && #[trigger] is_last_to(
                                edges@,
                                kk,
                                out@[p].col as int,
                            ) by {
                        let kk = choose|kk: int|
                            0 <= kk < k && #[trigger] is_last_to(edges@, kk, out@[p].col as int);
                        assert(is_last_to(edges@, kk, out@[p].col as int));
                    }
                    assert forall|kk: int|
                        0 <= kk < k + 1 && #[trigger] is_last_to(
                            edges@,
                            kk,
                            edges@[kk].node as int,
                        ) implies covers(out@, start, i as int, edges@[kk].node as int) by {
                        if kk == k {
                            match last {
                                Some(l) => {
                                    assert(l != k);
                                    assert(is_last_to(edges@, l as int, j as int));
                                },
                                None => {},
                            }
                        }
                    }
                }
            }
            k = k + 1;
        }
        proof {
            assert forall|a: int, j: int|
                0 <= a < i + 1 && (#[trigger] find_weight(ps[a].edges@, j)).is_some() implies covers(
                out@,
                0,
                a,
                j,
            ) by {
                if a == i {
                    lemma_find_weight_some(edges@, j);
                    let kk = choose|kk: int| #[trigger] is_last_to(edges@, kk, j);
                    assert(is_last_to(edges@, kk, edges@[kk].node as int));
                    let p = choose|p: int|
                        start <= p < out@.len() && #[trigger] out@[p].row == i && out@[p].col
                            == edges@[kk].node;
                }
            }
        }
        i = i + 1;
    }
    out
}

/// Coordinate (triplet) form of a sparse matrix.
#[derive(Clone, Debug)]
pub struct Triplets<F> {
    pub rows: Vec<usize>,
    pub cols: Vec<usize>,
    pub values: Vec<F>,
}

/// The entries of a triplet form, as `(row, col, value)`.
pub open spec fn triplets_view<F>(t: Triplets<F>) -> Seq<(usize, usize, F)> {
    Seq::new(t.rows@.len(), |k: int| (t.rows@[k], t.cols@[k], t.values@[k]))
}

/// The entries of the symmetrised kernel, merged edge by merged edge: edge
/// `p` gives `(row, col, values[p])`, and, when the graph has no reverse
/// edge, also its transpose `(col, row, values[p])`. An edge with a reverse
/// gets its transpose from that reverse edge.
pub open spec fn kernel_triplets<F>(edges: Seq<SymEdge<F>>, values: Seq<F>) -> Seq<
    (usize, usize, F),
>
    decreases edges.len(),
{
    if edges.len() == 0 {
        Seq::empty()
    } else {
        let p = edges.len() - 1;
        let e = edges[p];
        let with_edge = kernel_triplets(edges.drop_last(), values).push((e.row, e.col, values[p]));
        if e.reverse.is_none() {
            with_edge.push((e.col, e.row, values[p]))
        } else {
            with_edge
        }
    }
}

/// Entry `tr` comes from merged edge `p`: it is the edge itself, or its
/// transpose when the edge has no reverse.
pub open spec fn from_edge<F>(
    edges: Seq<SymEdge<F>>,
    values: Seq<F>,
    p: int,
    tr: (usize, usize, F),
) -> bool {
    ||| tr == (edges[p].row, edges[p].col, values[p])
    ||| (edges[p].reverse.is_none() && tr == (edges[p].col, edges[p].row, values[p]))
}

/// `s` holds the entry `tr`.
pub open spec fn has_entry<F>(s: Seq<(usize, usize, F)>, tr: (usize, usize, F)) -> bool {
    exists|t: int| 0 <= t < s.len() && #[trigger] s[t] == tr
}

/// Mutually reverse merged edges carry the same combined value.
pub open spec fn values_symmetric<F>(edges: Seq<SymEdge<F>>, values: Seq<F>) -> bool {
    forall|p: int, q: int|
        0 <= p < edges.len() && 0 <= q < edges.len() && (#[trigger] edges[p]).row
            == (#[trigger] edges[q]).col && edges[p].col == edges[q].row ==> values[p] == values[q]
}

/// Entry `tr` comes from some merged edge.
pub open spec fn has_origin<F>(edges: Seq<SymEdge<F>>, values: Seq<F>, tr: (usize, usize, F)) -> bool {
    exists|p: int| 0 <= p < edges.len() && #[trigger] from_edge(edges, values, p, tr)
}

proof fn lemma_kernel_triplets_origin<F>(edges: Seq<SymEdge<F>>, values: Seq<F>)
    ensures
        forall|t: int|
            0 <= t < kernel_triplets(edges, values).len() ==> has_origin(
                edges,
                values,
                #[trigger] kernel_triplets(edges, values)[t],
            ),
    decreases edges.len(),
{
    if edges.len() > 0 {
        let d = edges.drop_last();
        let last = edges.len() - 1;
        lemma_kernel_triplets_origin(d, values);
        let kd = kernel_triplets(d, values);
        let k = kernel_triplets(edges, values);
        assert forall|t: int| 0 <= t < k.len() implies has_origin(edges, values, #[trigger] k[t]) by {
            if t < kd.len() {
                assert(k[t] == kd[t]);
                let p = choose|p: int| 0 <= p < d.len() && #[trigger] from_edge(d, values, p, kd[t]);
                assert(d[p] == edges[p]);
                assert(from_edge(edges, values, p, k[t]));
            } else {
                assert(from_edge(edges, values, last, k[t]));
            }
        }
    }
}

proof fn lemma_kernel_triplets_present<F>(edges: Seq<SymEdge<F>>, values: Seq<F>)
    ensures
        forall|p: int|
            0 <= p < edges.len() ==> has_entry(
                kernel_triplets(edges, values),
                (#[trigger] edges[p].row, edges[p].col, values[p]),
            ),
        forall|p: int|
            0 <= p < edges.len() && (#[trigger] edges[p]).reverse.is_none() ==> has_entry(
                kernel_triplets(edges, values),
                (edges[p].col, edges[p].row, values[p]),
            ),
    decreases edges.len(),
{
    if edges.len() > 0 {
        let d = edges.drop_last();
        let last = edges.len() - 1;
        lemma_kernel_triplets_present(d, values);
        let kd = kernel_triplets(d, values);
        let k = kernel_triplets(edges, values);
        assert forall|tr: (usize, usize, F)| has_entry(kd, tr) implies has_entry(k, tr) by {
            let t = choose|t: int| 0 <= t < kd.len() && #[trigger] kd[t] == tr;
            assert(k[t] == kd[t]);
        }
        assert(k[kd.len() as int] == (edges[last].row, edges[last].col, values[last]));
        if edges[last].reverse.is_none() {
            assert(k[kd.len() as int + 1] == (edges[last].col, edges[last].row, values[last]));
        }
        assert forall|p: int| 0 <= p < edges.len() implies has_entry(
            k,
            (#[trigger] edges[p].row, edges[p].col, values[p]),
        ) by {
            if p < last {
                assert(d[p] == edges[p]);
            }
        }
        assert forall|p: int|
            0 <= p < edges.len() && (#[trigger] edges[p]).reverse.is_none() implies has_entry(
            k,
            (edges[p].col, edges[p].row, values[p]),
        ) by {
            if p < last {
                assert(d[p] == edges[p]);
            }
        }
    }
}

/// No two merged edges have the same `(row, col)`, and an edge without a
/// reverse has no opposite edge among them (a self-edge is its own
/// opposite).
pub open spec fn edges_unique<F>(edges: Seq<SymEdge<F>>) -> bool {
    &&& forall|p: int, q: int|
        0 <= p < q < edges.len() ==> (#[trigger] edges[p]).row != (#[trigger] edges[q]).row
            || edges[p].col != edges[q].col
    &&& forall|p: int, q: int|
        0 <= p < edges.len() && 0 <= q < edges.len() && (#[trigger] edges[p]).reverse.is_none()
            ==> !((#[trigger] edges[q]).row == edges[p].col && edges[q].col == edges[p].row)
}

proof fn lemma_kernel_triplets_unique<F>(edges: Seq<SymEdge<F>>, values: Seq<F>)
    requires
        edges_unique(edges),
    ensures
        forall|t1: int, t2: int|
            0 <= t1 < t2 < kernel_triplets(edges, values).len() ==> (#[trigger] kernel_triplets(
                edges,
                values,
            )[t1]).0 != (#[trigger] kernel_triplets(edges, values)[t2]).0 || kernel_triplets(
                edges,
                values,
            )[t1].1 != kernel_triplets(edges, values)[t2].1,
    decreases edges.len(),
{
    if edges.len() > 0 {
        let d = edges.drop_last();
        let last = edges.len() - 1;
        let e = edges[last];
        assert(edges_unique(d)) by {
            assert forall|p: int, q: int|
                0 <= p < d.len() && 0 <= q < d.len() && (#[trigger] d[p]).reverse.is_none()
                    implies !((#[trigger] d[q]).row == d[p].col && d[q].col == d[p].row) by {
                assert(d[p] == edges[p] && d[q] == edges[q]);
            }
            assert forall|p: int, q: int| 0 <= p < q < d.len() implies (#[trigger] d[p]).row
                != (#[trigger] d[q]).row || d[p].col != d[q].col by {
                assert(d[p] == edges[p] && d[q] == edges[q]);
            }
        }
        lemma_kernel_triplets_unique(d, values);
        lemma_kernel_triplets_origin(d, values);
        let kd = kernel_triplets(d, values);
        let k = kernel_triplets(edges, values);
        let n = kd.len() as int;
        // no older entry sits at the new edge's place or at its transpose
        assert forall|t: int| 0 <= t < n implies !((#[trigger] kd[t]).0 == e.row && kd[t].1 == e.col)
            && (e.reverse.is_none() ==> !(kd[t].0 == e.col && kd[t].1 == e.row)) by {
            let q = choose|q: int| 0 <= q < d.len() && #[trigger] from_edge(d, values, q, kd[t]);
            assert(d[q] == edges[q]);
            assert(edges[last] == e);
        }
        if e.reverse.is_none() {
            assert(!(e.row == e.col)) by {
                assert(edges[last] == e);
            }
        }
        assert forall|t1: int, t2: int| 0 <= t1 < t2 < k.len() implies (#[trigger] k[t1]).0 != (
        #[trigger] k[t2]).0 || k[t1].1 != k[t2].1 by {
            if t2 < n {
                assert(k[t1] == kd[t1] && k[t2] == kd[t2]);
            } else if t1 < n {
                assert(k[t1] == kd[t1]);
            }
        }
    }
}

/// The sparse symmetrised kernel, given the merged edges of the kernel and
/// values that agree on mutually reverse edges, is symmetric: each entry
/// `(i, j)` comes once, its transpose `(j, i)` is there with the same value,
/// and every directed edge `i -> j` of the kernel has its entry.
pub proof fn lemma_sparse_kernel_symmetric<F>(
    params: Seq<NodeParam<F>>,
    edges: Seq<SymEdge<F>>,
    values: Seq<F>,
)
    requires
        is_merged_edges_of(params, edges),
        values.len() == edges.len(),
        values_symmetric(edges, values),
    ensures
        forall|t1: int, t2: int|
            0 <= t1 < t2 < kernel_triplets(edges, values).len() ==> (#[trigger] kernel_triplets(
                edges,
                values,
            )[t1]).0 != (#[trigger] kernel_triplets(edges, values)[t2]).0 || kernel_triplets(
                edges,
                values,
            )[t1].1 != kernel_triplets(edges, values)[t2].1,
        forall|t: int|
            0 <= t < kernel_triplets(edges, values).len() ==> has_entry(
                kernel_triplets(edges, values),
                (
                    (#[trigger] kernel_triplets(edges, values)[t]).1,
                    kernel_triplets(edges, values)[t].0,
                    kernel_triplets(edges, values)[t].2,
                ),
            ),
        forall|i: int, j: int|
            0 <= i < params.len() && (#[trigger] find_weight(params[i].edges@, j)).is_some()
                ==> exists|t: int|
                0 <= t < kernel_triplets(edges, values).len() && #[trigger] kernel_triplets(
                    edges,
                    values,
                )[t].0 == i && kernel_triplets(edges, values)[t].1 == j,
{
    let k = kernel_triplets(edges, values);
    // an edge without a reverse has no opposite edge
    assert forall|p: int, q: int|
        0 <= p < edges.len() && 0 <= q < edges.len() && (#[trigger] edges[p]).reverse.is_none()
            implies !((#[trigger] edges[q]).row == edges[p].col && edges[q].col == edges[p].row) by {
        assert(is_sym_edge_of(params, edges[p]));
        assert(is_sym_edge_of(params, edges[q]));
    }
    lemma_kernel_triplets_unique(edges, values);
    lemma_kernel_triplets_origin(edges, values);
    lemma_kernel_triplets_present(edges, values);
    assert forall|t: int| 0 <= t < k.len() implies has_entry(
        k,
        ((#[trigger] k[t]).1, k[t].0, k[t].2),
    ) by {
        let p = choose|p: int| 0 <= p < edges.len() && #[trigger] from_edge(edges, values, p, k[t]);
        let e = edges[p];
        if k[t] == (e.row, e.col, values[p]) {
            if e.reverse.is_none() {
                assert(has_entry(k, (e.col, e.row, values[p])));
            } else {
                assert(is_sym_edge_of(params, e));
                assert(find_weight(params[e.col as int].edges@, e.row as int).is_some());
                assert(covers(edges, 0, e.col as int, e.row as int));
                let q = choose|q: int|
                    0 <= q < edges.len() && #[trigger] edges[q].row == e.col && edges[q].col
                        == e.row;
                assert(values[q] == values[p]);
                assert(has_entry(k, (edges[q].row, edges[q].col, values[q])));
            }
        } else {
            assert(has_entry(k, (e.row, e.col, values[p])));
        }
    }
    assert forall|i: int, j: int|
        0 <= i < params.len() && (#[trigger] find_weight(params[i].edges@, j)).is_some()
            implies exists|t: int| 0 <= t < k.len() && #[trigger] k[t].0 == i && k[t].1 == j by {
        let p = choose|p: int| 0 <= p < edges.len() && #[trigger] edges[p].row == i && edges[p].col == j;
        assert(has_entry(k, (edges[p].row, edges[p].col, values[p])));
        let t = choose|t: int| 0 <= t < k.len() && #[trigger] k[t] == (edges[p].row, edges[p].col, values[p]);
        assert(k[t].0 == i && k[t].1 == j);
    }
}

/// The symmetrised kernel in triplet form, `kernel_triplets` of the merged
/// edges and their combined values: each edge once, and the transpose of
/// every edge that has no reverse edge.
pub fn symmetric_triplets<F: Copy>(edges: &Vec<SymEdge<F>>, values: &Vec<F>) -> (r: Triplets<F>)
    requires
        values@.len() == edges@.len(),
    ensures
        r.rows@.len() == r.cols@.len(),
        r.rows@.len() == r.values@.len(),
        triplets_view(r) == kernel_triplets(edges@, values@),
{
    let m = edges.len();
    let mut rows: Vec<usize> = Vec::new();
    let mut cols: Vec<usize> = Vec::new();
    let mut vals: Vec<F> = Vec::new();
    let mut p: usize = 0;
    while p < m
        invariant
            m == edges@.len(),
            values@.len() == m,
            p <= m,
            rows@.len() == cols@.len(),
            rows@.len() == vals@.len(),
            rows@.len() == kernel_triplets(edges@.take(p as int), values@).len(),
            forall|t: int|
                0 <= t < rows@.len() ==> (rows@[t], cols@[t], vals@[t]) == #[trigger] kernel_triplets(
                    edges@.take(p as int),
                    values@,
                )[t],
        decreases m - p,
    {
        let e = edges[p];
        let v = values[p];
        proof {
            assert(edges@.take(p + 1).drop_last() =~= edges@.take(p as int));
            assert(edges@.take(p + 1)[p as int] == e);
        }
        rows.push(e.row);
        cols.push(e.col);
        vals.push(v);
        if e.reverse.is_none() {
            rows.push(e.col);
            cols.push(e.row);
            vals.push(v);
        }
        p = p + 1;
    }
    proof {
        assert(edges@.take(m as int) =~= edges@);
    }
    let r = Triplets { rows, cols, values: vals };
    proof {
        assert(triplets_view(r) =~= kernel_triplets(edges@, values@));
    }
    r
}

} // verus!
