//! The graph value that the builder produces and the aggregator rewrites.
//!
//! The storage is petgraph's stable directed graph: node identities stay valid
//! across removals, which the aggregator depends on.  Verified code never sees
//! inside that storage; it works against the two content maps `graph_nodes` and
//! `graph_edges`, and reaches the storage only through the trusted wrappers
//! below.

use petgraph::visit::EdgeRef;
use petgraph::visit::IntoEdgeReferences;
use vstd::prelude::*;

verus! {

/// The petgraph storage behind a control-flow graph: node weights are ordered
/// address lists, edge weights are branch tags, indices are `usize`.
pub type RawGraph = petgraph::stable_graph::StableDiGraph<Vec<u64>, u64, usize>;

#[verifier::external_type_specification]
#[verifier::external_body]
#[verifier::reject_recursive_types(N)]
#[verifier::reject_recursive_types(E)]
#[verifier::reject_recursive_types(Ty)]
#[verifier::reject_recursive_types(Ix)]
pub struct ExStableGraph<N, E, Ty, Ix>(petgraph::stable_graph::StableGraph<N, E, Ty, Ix>);

#[verifier::external_type_specification]
#[verifier::external_body]
pub struct ExDirected(petgraph::Directed);

/// What the storage holds: for each live node id, its ordered address list.
pub uninterp spec fn graph_nodes(g: RawGraph) -> Map<usize, Seq<u64>>;

/// What the storage holds: for each ordered pair of node ids joined by an
/// edge, that edge's tag.  Every graph of this module is touched only through
/// the wrappers below, which insert edges with `update_edge` alone, so an
/// ordered pair carries at most one edge and the map loses nothing.
pub uninterp spec fn graph_edges(g: RawGraph) -> Map<(usize, usize), u64>;

/// `edges` with every edge that touches node `v` dropped.
pub open spec fn edges_without(
    edges: Map<(usize, usize), u64>,
    v: usize,
) -> Map<(usize, usize), u64> {
    Map::new(
        |k: (usize, usize)| edges.dom().contains(k) && k.0 != v && k.1 != v,
        |k: (usize, usize)| edges[k],
    )
}

/// Edge overwrite: inserting an edge for the same ordered node pair twice
/// leaves exactly one edge between the pair, carrying the second tag.  This is
/// the law the builder relies on when an oracle lists the same successor
/// twice: `update_edge` writes the edge map exactly like `Map::insert`.
pub proof fn lemma_edge_overwrite(
    edges: Map<(usize, usize), u64>,
    a: usize,
    b: usize,
    t1: u64,
    t2: u64,
)
    ensures
        edges.insert((a, b), t1).insert((a, b), t2).dom() == edges.dom().insert((a, b)),
        edges.insert((a, b), t1).insert((a, b), t2)[(a, b)] == t2,
{
    assert(edges.insert((a, b), t1).insert((a, b), t2).dom() =~= edges.dom().insert((a, b)));
}

/// A directed graph whose nodes carry ordered instruction-address lists and
/// whose edges carry branch tags.  Node ids stay valid across removals.
pub struct ControlFlowGraph {
    inner: RawGraph,
}

impl View for ControlFlowGraph {
    type V = (Map<usize, Seq<u64>>, Map<(usize, usize), u64>);

    closed spec fn view(&self) -> Self::V {
        (graph_nodes(self.inner), graph_edges(self.inner))
    }
}

impl ControlFlowGraph {
    /// The node contents: live node id -> ordered address list.
    pub open spec fn nodes(&self) -> Map<usize, Seq<u64>> {
        self@.0
    }

    /// The edge contents: ordered pair of live node ids -> tag.
    pub open spec fn edges(&self) -> Map<(usize, usize), u64> {
        self@.1
    }

    /// Every edge joins two live nodes.  All constructors and mutators of this
    /// type keep this; it is stated explicitly because the content maps alone
    /// do not carry it.
    pub open spec fn wf(&self) -> bool {
        forall|k: (usize, usize)| #[trigger]
            self.edges().dom().contains(k) ==> self.nodes().dom().contains(k.0)
                && self.nodes().dom().contains(k.1)
    }

    /// Relies on StableGraph::with_capacity: a fresh graph has no nodes and no
    /// edges.
    #[verifier::external_body]
    pub(crate) fn empty() -> (r: ControlFlowGraph)
        ensures
            r@ == (Map::<usize, Seq<u64>>::empty(), Map::<(usize, usize), u64>::empty()),
    {
        ControlFlowGraph { inner: petgraph::stable_graph::StableGraph::with_capacity(0, 0) }
    }

    /// Relies on StableGraph::add_node: it stores the weight under a node id
    /// that is not currently live and touches no edge.  With `usize` indices
    /// the id-space limit is out of reach (the backing vector would overflow
    /// allocation first), so no input panics.
    #[verifier::external_body]
    fn add_node_raw(&mut self, w: Vec<u64>) -> (r: usize)
        ensures
            !graph_nodes(old(self).inner).dom().contains(r),
            graph_nodes(final(self).inner) == graph_nodes(old(self).inner).insert(r, w@),
            graph_edges(final(self).inner) == graph_edges(old(self).inner),
    {
        self.inner.add_node(w).index()
    }

    /// Relies on StableGraph::update_edge: if the ordered pair already has an
    /// edge its tag is overwritten, otherwise the edge is added; nodes are
    /// untouched.  It panics only when an endpoint is not live, which the
    /// precondition rules out (the edge-count limit is unreachable with
    /// `usize` indices, as for `add_node_raw`).
    #[verifier::external_body]
    fn update_edge_raw(&mut self, a: usize, b: usize, tag: u64)
        requires
            graph_nodes(old(self).inner).dom().contains(a),
            graph_nodes(old(self).inner).dom().contains(b),
        ensures
            graph_nodes(final(self).inner) == graph_nodes(old(self).inner),
            graph_edges(final(self).inner) == graph_edges(old(self).inner).insert((a, b), tag),
    {
        let ia = petgraph::stable_graph::NodeIndex::<usize>::new(a);
        let ib = petgraph::stable_graph::NodeIndex::<usize>::new(b);
        self.inner.update_edge(ia, ib, tag);
    }

    /// Relies on StableGraph::remove_node: it returns the weight of the removed
    /// node, drops every edge that touches it, and leaves every other node id
    /// valid.  It returns None only when the node is not live, which the
    /// precondition rules out.
    #[verifier::external_body]
    fn remove_node_raw(&mut self, v: usize) -> (r: Vec<u64>)
        requires
            graph_nodes(old(self).inner).dom().contains(v),
        ensures
            r@ == graph_nodes(old(self).inner)[v],
            graph_nodes(final(self).inner) == graph_nodes(old(self).inner).remove(v),
            graph_edges(final(self).inner) == edges_without(graph_edges(old(self).inner), v),
    {
        let iv = petgraph::stable_graph::NodeIndex::<usize>::new(v);
        self.inner.remove_node(iv).unwrap()
    }

    /// Relies on StableGraph::node_weight_mut: it hands out the stored address
    /// list of a live node, to which the argument is appended in place; edges
    /// are untouched.  The precondition rules out the None case.
    #[verifier::external_body]
    fn append_node_raw(&mut self, v: usize, mut w: Vec<u64>)
        requires
            graph_nodes(old(self).inner).dom().contains(v),
        ensures
            graph_nodes(final(self).inner) == graph_nodes(old(self).inner).insert(
                v,
                graph_nodes(old(self).inner)[v] + w@,
            ),
            graph_edges(final(self).inner) == graph_edges(old(self).inner),
    {
        let iv = petgraph::stable_graph::NodeIndex::<usize>::new(v);
        self.inner.node_weight_mut(iv).unwrap().append(&mut w);
    }

    /// Relies on StableGraph::node_indices: it yields every live node id
    /// exactly once, in increasing index order.
    #[verifier::external_body]
    fn node_ids_raw(&self) -> (r: Vec<usize>)
        ensures
            forall|i: int, j: int| 0 <= i < j < r@.len() ==> r@[i] < r@[j],
            forall|v: usize| r@.contains(v) <==> graph_nodes(self.inner).dom().contains(v),
    {
        self.inner.node_indices().map(|i| i.index()).collect()
    }

    /// Relies on StableGraph::node_weight: Some exactly on live node ids, with
    /// the stored address list (cloned).
    #[verifier::external_body]
    fn node_addrs_raw(&self, v: usize) -> (r: Option<Vec<u64>>)
        ensures
            match r {
                Some(w) => graph_nodes(self.inner).dom().contains(v) && w@ == graph_nodes(
                    self.inner,
                )[v],
                None => !graph_nodes(self.inner).dom().contains(v),
            },
    {
        let iv = petgraph::stable_graph::NodeIndex::<usize>::new(v);
        self.inner.node_weight(iv).cloned()
    }

    /// Relies on StableGraph::neighbors_directed with Incoming: it yields the
    /// source of each edge into `v`, one per edge, and an empty iterator when
    /// `v` is not live.  An ordered pair carries at most one edge here (see
    /// `graph_edges`), so distinct edges into `v` have distinct sources and
    /// the list has no duplicates.
    #[verifier::external_body]
    fn in_neighbors_raw(&self, v: usize) -> (r: Vec<usize>)
        ensures
            r@.no_duplicates(),
            forall|p: usize| r@.contains(p) <==> graph_edges(self.inner).dom().contains((p, v)),
    {
        let iv = petgraph::stable_graph::NodeIndex::<usize>::new(v);
        self.inner.neighbors_directed(iv, petgraph::Direction::Incoming).map(|n| n.index()).collect()
    }

    /// Relies on StableGraph::neighbors_directed with Outgoing: it yields the
    /// target of each edge out of `v`, one per edge, and an empty iterator when
    /// `v` is not live.  An ordered pair carries at most one edge here (see
    /// `graph_edges`), so distinct edges out of `v` have distinct targets and
    /// the list has no duplicates.
    #[verifier::external_body]
    fn out_neighbors_raw(&self, v: usize) -> (r: Vec<usize>)
        ensures
            r@.no_duplicates(),
            forall|s: usize| r@.contains(s) <==> graph_edges(self.inner).dom().contains((v, s)),
    {
        let iv = petgraph::stable_graph::NodeIndex::<usize>::new(v);
        self.inner.neighbors_directed(iv, petgraph::Direction::Outgoing).map(|n| n.index()).collect()
    }

    /// Relies on petgraph's edge_references: it yields each edge exactly once,
    /// as source id, target id and tag.
    #[verifier::external_body]
    fn edge_triples_raw(&self) -> (r: Vec<(usize, usize, u64)>)
        ensures
            forall|i: int, j: int| 0 <= i < j < r@.len()
                ==> (r@[i].0, r@[i].1) != (r@[j].0, r@[j].1),
            forall|t: (usize, usize, u64)| r@.contains(t)
                <==> (graph_edges(self.inner).dom().contains((t.0, t.1)) && graph_edges(
                    self.inner,
                )[(t.0, t.1)] == t.2),
    {
        self.inner
            .edge_references()
            .map(|e| (e.source().index(), e.target().index(), *e.weight()))
            .collect()
    }

    /// Add a node holding the address list `w`; its fresh id is returned.
    pub(crate) fn add_node(&mut self, w: Vec<u64>) -> (r: usize)
        ensures
            !old(self).nodes().dom().contains(r),
            final(self).nodes() == old(self).nodes().insert(r, w@),
            final(self).edges() == old(self).edges(),
    {
        self.add_node_raw(w)
    }

    /// Insert an edge from `a` to `b` tagged `tag`; if the ordered pair already
    /// has an edge, its tag is overwritten (last write wins).
    pub(crate) fn update_edge(&mut self, a: usize, b: usize, tag: u64)
        requires
            old(self).nodes().dom().contains(a),
            old(self).nodes().dom().contains(b),
        ensures
            final(self).nodes() == old(self).nodes(),
            final(self).edges() == old(self).edges().insert((a, b), tag),
    {
        self.update_edge_raw(a, b, tag)
    }

    /// Remove the live node `v`, with every edge that touches it, and return
    /// its address list.
    pub(crate) fn remove_node(&mut self, v: usize) -> (r: Vec<u64>)
        requires
            old(self).nodes().dom().contains(v),
        ensures
            r@ == old(self).nodes()[v],
            final(self).nodes() == old(self).nodes().remove(v),
            final(self).edges() == edges_without(old(self).edges(), v),
    {
        self.remove_node_raw(v)
    }

    /// Append `w` to the address list of the live node `v`.
    pub(crate) fn append_node(&mut self, v: usize, w: Vec<u64>)
        requires
            old(self).nodes().dom().contains(v),
        ensures
            final(self).nodes() == old(self).nodes().insert(v, old(self).nodes()[v] + w@),
            final(self).edges() == old(self).edges(),
    {
        self.append_node_raw(v, w)
    }

    /// The sources of the edges into `v`, one entry per edge.
    pub(crate) fn in_neighbors(&self, v: usize) -> (r: Vec<usize>)
        ensures
            r@.no_duplicates(),
            forall|p: usize| r@.contains(p) <==> self.edges().dom().contains((p, v)),
    {
        self.in_neighbors_raw(v)
    }

    /// The targets of the edges out of `v`, one entry per edge.
    pub(crate) fn out_neighbors(&self, v: usize) -> (r: Vec<usize>)
        ensures
            r@.no_duplicates(),
            forall|s: usize| r@.contains(s) <==> self.edges().dom().contains((v, s)),
    {
        self.out_neighbors_raw(v)
    }

    /// Every live node id, in increasing order.
    pub fn node_ids(&self) -> (r: Vec<usize>)
        ensures
            forall|i: int, j: int| 0 <= i < j < r@.len() ==> r@[i] < r@[j],
            forall|v: usize| r@.contains(v) <==> self.nodes().dom().contains(v),
    {
        self.node_ids_raw()
    }

    /// The address list of a node: Some exactly on live node ids.
    pub fn node_addrs(&self, v: usize) -> (r: Option<Vec<u64>>)
        ensures
            match r {
                Some(w) => self.nodes().dom().contains(v) && w@ == self.nodes()[v],
                None => !self.nodes().dom().contains(v),
            },
    {
        self.node_addrs_raw(v)
    }

    /// Every edge, once, as (source id, target id, tag).
    pub fn edge_triples(&self) -> (r: Vec<(usize, usize, u64)>)
        ensures
            forall|i: int, j: int| 0 <= i < j < r@.len()
                ==> (r@[i].0, r@[i].1) != (r@[j].0, r@[j].1),
            forall|t: (usize, usize, u64)| r@.contains(t)
                <==> (self.edges().dom().contains((t.0, t.1)) && self.edges()[(t.0, t.1)] == t.2),
    {
        self.edge_triples_raw()
    }
}

} // verus!
