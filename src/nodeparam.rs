//! Per-node kernel parameters: a local scale and the weighted out-edges of
//! the node, its own self-edge first.

use vstd::prelude::*;

use crate::kgraph::OutEdge;

verus! {

/// Kernel parameters of one node.
#[derive(Clone, Debug)]
pub struct NodeParam<F> {
    /// Local scale of distances around the node.
    pub scale: F,
    /// Weighted out-edges of the node.
    pub edges: Vec<OutEdge<F>>,
}

impl<F: Copy> NodeParam<F> {
    pub fn new(scale: F, edges: Vec<OutEdge<F>>) -> (r: Self)
        ensures
            r.scale == scale,
            r.edges@ == edges@,
    {
        NodeParam { scale, edges }
    }

    /// The parameters of `node`: its self-edge with `self_weight` first, then
    /// one edge towards each neighbour, carrying the weight at the same
    /// position of `weights`.
    pub fn with_self_edge(
        node: usize,
        scale: F,
        self_weight: F,
        neighbours: &Vec<OutEdge<F>>,
        weights: &Vec<F>,
    ) -> (r: Self)
        requires
            weights@.len() == neighbours@.len(),
        ensures
            r.scale == scale,
            r.edges@.len() == neighbours@.len() + 1,
            r.edges@[0].node == node,
            r.edges@[0].weight == self_weight,
            forall|m: int|
                0 <= m < neighbours@.len() ==> (#[trigger] r.edges@[m + 1]).node == neighbours@[m].node
                    && r.edges@[m + 1].weight == weights@[m],
    {
        let mut edges: Vec<OutEdge<F>> = Vec::new();
        edges.push(OutEdge::new(node, self_weight));
        let mut m: usize = 0;
        while m < neighbours.len()
            invariant
                weights@.len() == neighbours@.len(),
                m <= neighbours@.len(),
                edges@.len() == m + 1,
                edges@[0].node == node,
                edges@[0].weight == self_weight,
                forall|a: int|
                    0 <= a < m ==> (#[trigger] edges@[a + 1]).node == neighbours@[a].node
                        && edges@[a + 1].weight == weights@[a],
            decreases neighbours@.len() - m,
        {
            edges.push(OutEdge::new(neighbours[m].node, weights[m]));
            m = m + 1;
        }
        NodeParam { scale, edges }
    }
}

/// Edge lists over `n` nodes whose edges all point at one of the nodes.
pub open spec fn params_wf<F>(params: Seq<NodeParam<F>>) -> bool {
    forall|i: int, k: int|
        0 <= i < params.len() && 0 <= k < params[i].edges@.len() ==> #[trigger] params[i].edges@[k].node
            < params.len()
}

/// The kernel parameters of all nodes of a graph.
pub struct NodeParams<F> {
    params: Vec<NodeParam<F>>,
    max_nbng: usize,
}

impl<F: Copy> NodeParams<F> {
    pub closed spec fn spec_params(&self) -> Seq<NodeParam<F>> {
        self.params@
    }

    pub closed spec fn spec_max_nbng(&self) -> usize {
        self.max_nbng
    }

    pub open spec fn wf(&self) -> bool {
        params_wf(self.spec_params())
    }

    /// Gathers the parameters of all nodes; `None` when an edge points
    /// outside the nodes.
    pub fn new(params: Vec<NodeParam<F>>, max_nbng: usize) -> (r: Option<Self>)
        ensures
            r.is_some() <==> params_wf(params@),
            r matches Some(p) ==> p.spec_params() == params@ && p.spec_max_nbng() == max_nbng
                && p.wf(),
    {
        let n = params.len();
        let mut i: usize = 0;
        while i < n
            invariant
                n == params@.len(),
                i <= n,
                forall|a: int, k: int|
                    0 <= a < i && 0 <= k < params@[a].edges@.len() ==> #[trigger] params@[a].edges@[k].node
                        < n,
            decreases n - i,
        {
            let edges = &params[i].edges;
            let mut k: usize = 0;
            while k < edges.len()
                invariant
                    n == params@.len(),
                    i < n,
                    edges@ == params@[i as int].edges@,
                    k <= edges@.len(),
                    forall|kk: int| 0 <= kk < k ==> #[trigger] edges@[kk].node < n,
                decreases edges@.len() - k,
            {
                if edges[k].node >= n {
                    return None;
                }
                k = k + 1;
            }
            i = i + 1;
        }
        Some(NodeParams { params, max_nbng })
    }

    pub fn get_nb_nodes(&self) -> (r: usize)
        ensures
            r == self.spec_params().len(),
    {
        self.params.len()
    }

    pub fn get_max_nbng(&self) -> (r: usize)
        ensures
            r == self.spec_max_nbng(),
    {
        self.max_nbng
    }

    pub fn get_node_param(&self, i: usize) -> (r: &NodeParam<F>)
        requires
            i < self.spec_params().len(),
        ensures
            *r == self.spec_params()[i as int],
    {
        &self.params[i]
    }
}

} // verus!
