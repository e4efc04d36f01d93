//! The dependency graph store: `petgraph`'s acyclic directed graph, seen
//! through a model of its nodes (in index order), its edges (in insertion
//! order) and the order in which it lists its nodes.

use petgraph::acyclic::{Acyclic, AcyclicEdgeError};
use petgraph::data::Build;
use petgraph::graph::{DiGraph, NodeIndex};
use petgraph::visit::{Dfs, Reversed, Walker};
use vstd::prelude::*;

use crate::command::block::CommandBlock;
use crate::paths::{edge_set, is_node_permutation, reaches, respects_edges};

verus! {

/// The graph store: `petgraph`'s acyclic directed graph with one node per
/// command block and an edge `a -> b` when `a` must run before `b`.
///
/// Verus cannot read `Acyclic`'s declaration (its parameter is bounded by a
/// trait of `petgraph`), so the graph is held in this opaque struct and
/// reached only through the functions below.
#[verifier::external_body]
#[derive(Debug)]
pub struct Dag {
    graph: Acyclic<DiGraph<CommandBlock, ()>>,
}

/// The node weights of the store, in node-index order.
pub uninterp spec fn dag_nodes(g: Dag) -> Seq<CommandBlock>;

/// The edges of the store, as (source, target) node indices, in the order in
/// which they were added (which is their edge-index order).
pub uninterp spec fn dag_edges(g: Dag) -> Seq<(usize, usize)>;

/// The order in which `Acyclic::nodes_iter` yields the node indices of the
/// store: the topological order that the store maintains.
pub uninterp spec fn dag_order(g: Dag) -> Seq<usize>;

/// Creates an empty store (`Acyclic::new`).
///
/// Trusted: the new graph has no nodes and no edges.
#[verifier::external_body]
pub fn dag_new() -> (g: Dag)
    ensures
        dag_nodes(g) == Seq::<CommandBlock>::empty(),
        dag_edges(g) == Seq::<(usize, usize)>::empty(),
{
    Dag { graph: Acyclic::new() }
}

/// Adds a node (`Build::add_node` of `Acyclic`, which calls `Graph::add_node`).
///
/// Trusted: the new node gets the next index, its weight is `block`, and the
/// edges stay as they were. `Graph::add_node` panics when the node count
/// reaches the `u32` index limit, which `requires` rules out.
#[verifier::external_body]
pub fn dag_add_node(g: &mut Dag, block: CommandBlock) -> (i: usize)
    requires
        dag_nodes(*old(g)).len() < u32::MAX,
    ensures
        i == dag_nodes(*old(g)).len(),
        dag_nodes(*final(g)) == dag_nodes(*old(g)).push(block),
        dag_edges(*final(g)) == dag_edges(*old(g)),
{
    g.graph.add_node(block).index()
}

/// Why the store refused an edge.
pub enum EdgeRefusal {
    /// The edge would close a cycle.
    Cycle,
    /// The edge would join a node to itself.
    SelfLoop,
    /// The underlying graph could not add the edge.
    InvalidEdge,
}

/// Adds the edge `a -> b` (`Acyclic::try_add_edge`), unless it would close a
/// cycle.
///
/// Trusted: a self-loop is refused as `SelfLoop`; otherwise the edge is
/// refused (as `Cycle`) exactly when `a` can already be reached from `b`, and
/// an accepted edge is appended to the edge list. The nodes never change, and
/// a refusal leaves the edges as they were. `try_add_edge` panics on node
/// indices that are not in the graph, and `Graph::add_edge` at the `u32`
/// edge-index limit; `requires` rules both out.
#[verifier::external_body]
pub fn dag_try_add_edge(g: &mut Dag, a: usize, b: usize) -> (r: Result<(), EdgeRefusal>)
    requires
        a < dag_nodes(*old(g)).len(),
        b < dag_nodes(*old(g)).len(),
        dag_edges(*old(g)).len() < u32::MAX,
    ensures
        dag_nodes(*final(g)) == dag_nodes(*old(g)),
        a == b ==> r matches Err(EdgeRefusal::SelfLoop),
        a != b ==> (r is Ok <==> !reaches(edge_set(dag_edges(*old(g))), b as int, a as int)),
        a != b && r is Err ==> r matches Err(EdgeRefusal::Cycle),
        r is Ok ==> dag_edges(*final(g)) == dag_edges(*old(g)).push((a, b)),
        r is Err ==> dag_edges(*final(g)) == dag_edges(*old(g)),
{
    match g.graph.try_add_edge(NodeIndex::new(a), NodeIndex::new(b), ()) {
        Ok(_) => Ok(()),
        Err(AcyclicEdgeError::Cycle(_)) => Err(EdgeRefusal::Cycle),
        Err(AcyclicEdgeError::SelfLoop) => Err(EdgeRefusal::SelfLoop),
        Err(AcyclicEdgeError::InvalidEdge) => Err(EdgeRefusal::InvalidEdge),
    }
}

/// The weight of node `i` (`Index` on the underlying `Graph`).
///
/// Trusted: the result is the `i`-th node weight. Indexing panics on an index
/// that is not in the graph, which `requires` rules out.
#[verifier::external_body]
pub fn dag_node(g: &Dag, i: usize) -> (r: &CommandBlock)
    requires
        i < dag_nodes(*g).len(),
    ensures
        *r == dag_nodes(*g)[i as int],
{
    &g.graph.inner()[NodeIndex::new(i)]
}

/// The number of nodes (`Graph::node_count`).
///
/// Trusted: the result is the length of the node list.
#[verifier::external_body]
pub fn dag_node_count(g: &Dag) -> (r: usize)
    ensures
        r == dag_nodes(*g).len(),
{
    g.graph.inner().node_count()
}

/// The number of edges (`Graph::edge_count`).
///
/// Trusted: the result is the length of the edge list.
#[verifier::external_body]
pub fn dag_edge_count(g: &Dag) -> (r: usize)
    ensures
        r == dag_edges(*g).len(),
{
    g.graph.inner().edge_count()
}

/// The node indices in the store's topological order (`Acyclic::nodes_iter`).
///
/// Trusted: the result is the order that `dag_order` names; it lists every
/// node once, and every edge goes forward in it (the store keeps its order
/// topological on each accepted edge).
#[verifier::external_body]
pub fn dag_topological_order(g: &Dag) -> (r: Vec<usize>)
    ensures
        r@ == dag_order(*g),
        is_node_permutation(r@, dag_nodes(*g).len()),
        respects_edges(r@, edge_set(dag_edges(*g))),
{
    g.graph.nodes_iter().map(|n| n.index()).collect()
}

/// The nodes from which `t` can be reached, `t` included: a depth-first
/// search from `t` over the reversed edges (`Dfs::new` on `Reversed`, walked
/// to the end).
///
/// Trusted: every such node is listed once, and no other. The order of the
/// list is the search's and is not stated. The search panics on a start node
/// that is not in the graph, which `requires` rules out.
#[verifier::external_body]
pub fn dag_ancestors(g: &Dag, t: usize) -> (r: Vec<usize>)
    requires
        t < dag_nodes(*g).len(),
    ensures
        r@.no_duplicates(),
        forall|i: int| 0 <= i < r@.len() ==> #[trigger] r@[i] < dag_nodes(*g).len(),
        forall|v: int|
            0 <= v < dag_nodes(*g).len() ==> (r@.contains(v as usize) <==> reaches(
                edge_set(dag_edges(*g)),
                v,
                t as int,
            )),
{
    let rev = Reversed(&g.graph);
    Dfs::new(rev, NodeIndex::new(t)).iter(rev).map(|n| n.index()).collect()
}

/// Takes the store apart into its node weights (`Acyclic::into_inner`, then
/// `Graph::into_nodes_edges`).
///
/// Trusted: the result lists the node weights in node-index order.
#[verifier::external_body]
pub fn dag_into_nodes(g: Dag) -> (r: Vec<CommandBlock>)
    ensures
        r@ == dag_nodes(g),
{
    g.graph.into_inner().into_nodes_edges().0.into_iter().map(|n| n.weight).collect()
}

} // verus!
