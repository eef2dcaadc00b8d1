//! k-nearest-neighbour graph over points with caller-visible identifiers.

use vstd::prelude::*;

verus! {

#[verifier::external_type_specification]
#[verifier::external_body]
#[verifier::reject_recursive_types(T)]
#[verifier::reject_recursive_types(S)]
pub struct ExIndexSet<T, S>(indexmap::IndexSet<T, S>);

/// The identifiers held by an ordered set, in insertion order.
pub uninterp spec fn index_set_items(s: indexmap::IndexSet<usize>) -> Seq<usize>;

/// Relies on indexmap::IndexSet::len: the number of values in the set.
#[verifier::external_body]
pub(crate) fn index_set_len(s: &indexmap::IndexSet<usize>) -> (r: usize)
    ensures
        r == index_set_items(*s).len(),
{
    s.len()
}

/// Relies on indexmap::IndexSet::get_index: the value at a position, if the
/// position is below the length.
#[verifier::external_body]
pub(crate) fn index_set_get(s: &indexmap::IndexSet<usize>, i: usize) -> (r: Option<usize>)
    ensures
        i < index_set_items(*s).len() ==> r == Some(index_set_items(*s)[i as int]),
        i >= index_set_items(*s).len() ==> r.is_none(),
{
    s.get_index(i).copied()
}

/// Relies on indexmap::IndexSet::get_index_of: the position of a value held
/// by the set, `None` for a value it does not hold.
#[verifier::external_body]
pub(crate) fn index_set_position(s: &indexmap::IndexSet<usize>, v: usize) -> (r: Option<usize>)
    ensures
        r matches Some(i) ==> i < index_set_items(*s).len() && index_set_items(*s)[i as int] == v,
        r.is_none() ==> forall|i: int|
            0 <= i < index_set_items(*s).len() ==> #[trigger] index_set_items(*s)[i] != v,
{
    s.get_index_of(&v)
}

/// An edge towards `node`. Before the kernel is built `weight` is a
/// distance, afterwards a transition weight.
#[derive(Clone, Copy, Debug)]
pub struct OutEdge<F> {
    pub node: usize,
    pub weight: F,
}

impl<F: Copy> OutEdge<F> {
    pub fn new(node: usize, weight: F) -> (r: Self)
        ensures
            r.node == node,
            r.weight == weight,
    {
        OutEdge { node, weight }
    }
}

/// Well-formed neighbourhoods over `n` nodes: one non-empty list per node,
/// every edge pointing at a node of the graph.
pub open spec fn neighbourhoods_wf<F>(nbhs: Seq<Vec<OutEdge<F>>>) -> bool {
    &&& forall|i: int| 0 <= i < nbhs.len() ==> #[trigger] nbhs[i]@.len() > 0
    &&& forall|i: int, k: int|
        0 <= i < nbhs.len() && 0 <= k < nbhs[i]@.len() ==> #[trigger] nbhs[i]@[k].node < nbhs.len()
}

/// The k-nearest-neighbour graph: for each node, its out-edges (the caller
/// gives them by increasing distance; the first is the nearest neighbour),
/// and the ordered set that gives each row its caller identifier.
pub struct KGraph<F> {
    max_nbng: usize,
    neighbours: Vec<Vec<OutEdge<F>>>,
    node_set: indexmap::IndexSet<usize>,
}

impl<F: Copy> KGraph<F> {
    pub closed spec fn spec_neighbours(&self) -> Seq<Vec<OutEdge<F>>> {
        self.neighbours@
    }

    pub closed spec fn spec_ids(&self) -> Seq<usize> {
        index_set_items(self.node_set)
    }

    pub closed spec fn spec_max_nbng(&self) -> usize {
        self.max_nbng
    }

    pub open spec fn wf(&self) -> bool {
        &&& neighbourhoods_wf(self.spec_neighbours())
        &&& self.spec_ids().len() == self.spec_neighbours().len()
    }

    /// Builds a graph from its neighbourhoods and its row identifiers;
    /// `None` unless every list is non-empty, every edge points at a row,
    /// and there is exactly one identifier per row.
    pub fn new(
        max_nbng: usize,
        neighbours: Vec<Vec<OutEdge<F>>>,
        node_set: indexmap::IndexSet<usize>,
    ) -> (r: Option<Self>)
        ensures
            r.is_some() <==> (neighbourhoods_wf(neighbours@) && index_set_items(node_set).len()
                == neighbours@.len()),
            r matches Some(g) ==> {
                &&& g.spec_neighbours() == neighbours@
                &&& g.spec_ids() == index_set_items(node_set)
                &&& g.spec_max_nbng() == max_nbng
                &&& g.wf()
            },
    {
        let n = neighbours.len();
        if index_set_len(&node_set) != n {
            return None;
        }
        let mut i: usize = 0;
        while i < n
            invariant
                n == neighbours@.len(),
                i <= n,
                forall|a: int| 0 <= a < i ==> #[trigger] neighbours@[a]@.len() > 0,
                forall|a: int, k: int|
                    0 <= a < i && 0 <= k < neighbours@[a]@.len() ==> #[trigger] neighbours@[a]@[k].node
                        < n,
            decreases n - i,
        {
            let edges = &neighbours[i];
            if edges.len() == 0 {
                return None;
            }
            let mut k: usize = 0;
            while k < edges.len()
                invariant
                    n == neighbours@.len(),
                    i < n,
                    edges@ == neighbours@[i as int]@,
                    k <= edges@.len(),
                    forall|kk: int| 0 <= kk < k ==> #[trigger] edges@[kk].node < n,
                decreases edges@.len() - k,
            {
                if edges[k].node >= n {
                    return None;
                }
                k = k + 1;
            }
            i = i + 1;
        }
        Some(KGraph { max_nbng, neighbours, node_set })
    }

    /// Builds a graph from neighbourhoods given by caller identifiers: each
    /// `(id, distance)` of row `i` becomes an edge towards the row that
    /// `node_set` gives `id`. `None` when an identifier is not in the set,
    /// a neighbourhood is empty, or the rows and identifiers differ in number.
    pub fn from_data_ids(
        max_nbng: usize,
        lists: &Vec<Vec<(usize, F)>>,
        node_set: indexmap::IndexSet<usize>,
    ) -> (r: Option<Self>)
        ensures
            r.is_some() <==> {
                &&& index_set_items(node_set).len() == lists@.len()
                &&& forall|i: int| 0 <= i < lists@.len() ==> #[trigger] lists@[i]@.len() > 0
                &&& forall|i: int, k: int|
                    0 <= i < lists@.len() && 0 <= k < lists@[i]@.len() ==> index_set_items(
                        node_set,
                    ).contains(#[trigger] lists@[i]@[k].0)
            },
            r matches Some(g) ==> {
                &&& g.wf()
                &&& g.spec_ids() == index_set_items(node_set)
                &&& g.spec_max_nbng() == max_nbng
                &&& g.spec_neighbours().len() == lists@.len()
                &&& forall|i: int| 0 <= i < lists@.len() ==> (#[trigger] g.spec_neighbours()[i])@.len()
                    == lists@[i]@.len()
                &&& forall|i: int, k: int|
                    0 <= i < lists@.len() && 0 <= k < lists@[i]@.len() ==> {
                        &&& g.spec_ids()[(#[trigger] g.spec_neighbours()[i]@[k]).node as int]
                            == lists@[i]@[k].0
                        &&& g.spec_neighbours()[i]@[k].weight == lists@[i]@[k].1
                    }
            },
    {
        let ghost items = index_set_items(node_set);
        let n = lists.len();
        let mut neighbours: Vec<Vec<OutEdge<F>>> = Vec::with_capacity(n);
        let mut i: usize = 0;
        while i < n
            invariant
                items == index_set_items(node_set),
                n == lists@.len(),
                i <= n,
                neighbours@.len() == i,
                forall|a: int| 0 <= a < i ==> (#[trigger] neighbours@[a])@.len() == lists@[a]@.len(),
                forall|a: int, k: int|
                    0 <= a < i && 0 <= k < lists@[a]@.len() ==> {
                        &&& (#[trigger] neighbours@[a]@[k]).node < items.len()
                        &&& items[neighbours@[a]@[k].node as int] == lists@[a]@[k].0
                        &&& neighbours@[a]@[k].weight == lists@[a]@[k].1
                        &&& items.contains(lists@[a]@[k].0)
                    },
            decreases n - i,
        {
            let list = &lists[i];
            let mut edges: Vec<OutEdge<F>> = Vec::with_capacity(list.len());
            let mut k: usize = 0;
            while k < list.len()
                invariant
                    items == index_set_items(node_set),
                    n == lists@.len(),
                    i < n,
                    list@ == lists@[i as int]@,
                    k <= list@.len(),
                    edges@.len() == k,
                    forall|kk: int|
                        0 <= kk < k ==> {
                            &&& (#[trigger] edges@[kk]).node < items.len()
                            &&& items[edges@[kk].node as int] == list@[kk].0
                            &&& edges@[kk].weight == list@[kk].1
                            &&& items.contains(list@[kk].0)
                        },
                decreases list@.len() - k,
            {
                let (id, dist) = list[k];
                match index_set_position(&node_set, id) {
                    Some(pos) => {
                        edges.push(OutEdge::new(pos, dist));
                    },
                    None => {
                        return None;
                    },
                }
                k = k + 1;
            }
            neighbours.push(edges);
            i = i + 1;
        }
        let g = KGraph::new(max_nbng, neighbours, node_set);
        proof {
            if g.is_some() {
                assert forall|a: int| 0 <= a < lists@.len() implies #[trigger] lists@[a]@.len()
                    > 0 by {
                    assert(neighbours@[a]@.len() > 0);
                }
                assert forall|a: int, k: int|
                    0 <= a < lists@.len() && 0 <= k < lists@[a]@.len() implies items.contains(
                        #[trigger] lists@[a]@[k].0,
                    ) by {
                    let _ = neighbours@[a]@[k];
                }
            }
            if g.is_none() {
                if items.len() == n {
                    assert(!neighbourhoods_wf(neighbours@));
                    if forall|a: int| 0 <= a < n ==> #[trigger] neighbours@[a]@.len() > 0 {
                        assert forall|a: int, k: int|
                            0 <= a < n && 0 <= k < neighbours@[a]@.len() implies #[trigger] neighbours@[a]@[k].node
                            < n by {
                            assert(lists@[a]@.len() == neighbours@[a]@.len());
                        }
                    }
                    let a = choose|a: int| 0 <= a < n && !(#[trigger] neighbours@[a]@.len() > 0);
                    assert(lists@[a]@.len() == 0);
                }
            }
        }
        g
    }

    /// Number of nodes.
    pub fn get_nb_nodes(&self) -> (r: usize)
        ensures
            r == self.spec_neighbours().len(),
    {
        self.neighbours.len()
    }

    /// Largest number of neighbours the graph was built for.
    pub fn get_max_nbng(&self) -> (r: usize)
        ensures
            r == self.spec_max_nbng(),
    {
        self.max_nbng
    }

    /// All neighbourhoods, indexed by row.
    pub fn get_neighbours(&self) -> (r: &Vec<Vec<OutEdge<F>>>)
        ensures
            r@ == self.spec_neighbours(),
    {
        &self.neighbours
    }

    /// The out-edges of one row.
    pub fn get_out_edges_by_idx(&self, node: usize) -> (r: &Vec<OutEdge<F>>)
        requires
            node < self.spec_neighbours().len(),
        ensures
            r@ == self.spec_neighbours()[node as int]@,
    {
        &self.neighbours[node]
    }

    /// The distances that average into the local scale of `node`: for each
    /// neighbour of `node`, the distance from that neighbour to its own
    /// nearest neighbour, then the distance from `node` to its nearest
    /// neighbour.
    pub fn scale_distances(&self, node: usize) -> (r: Vec<F>)
        requires
            self.wf(),
            node < self.spec_neighbours().len(),
        ensures
            r@.len() == self.spec_neighbours()[node as int]@.len() + 1,
            forall|m: int|
                0 <= m < self.spec_neighbours()[node as int]@.len() ==> #[trigger] r@[m]
                    == self.spec_neighbours()[self.spec_neighbours()[node as int]@[m].node as int]@[0].weight,
            r@.last() == self.spec_neighbours()[node as int]@[0].weight,
    {
        let nbhs = &self.neighbours;
        let edges = &nbhs[node];
        let mut out: Vec<F> = Vec::new();
        let mut m: usize = 0;
        while m < edges.len()
            invariant
                neighbourhoods_wf(nbhs@),
                node < nbhs@.len(),
                edges@ == nbhs@[node as int]@,
                m <= edges@.len(),
                out@.len() == m,
                forall|a: int|
                    0 <= a < m ==> #[trigger] out@[a] == nbhs@[edges@[a].node as int]@[0].weight,
            decreases edges@.len() - m,
        {
            let y = edges[m].node;
            assert(y < nbhs@.len()) by {
                assert(nbhs@[node as int]@[m as int].node < nbhs@.len());
            }
            assert(nbhs@[y as int]@.len() > 0);
            out.push(nbhs[y][0].weight);
            m = m + 1;
        }
        assert(edges@.len() > 0);
        out.push(edges[0].weight);
        out
    }

    /// The identifiers of the rows, in row order.
    pub fn get_indexset(&self) -> (r: &indexmap::IndexSet<usize>)
        ensures
            index_set_items(*r) == self.spec_ids(),
    {
        &self.node_set
    }
}

} // verus!
