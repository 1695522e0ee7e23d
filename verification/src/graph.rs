//! The dependency graph: a `petgraph` stable graph whose nodes carry package
//! references and whose edges carry nothing.

use petgraph::stable_graph::{NodeIndex, StableGraph};
use petgraph::Directed;
use vstd::multiset::Multiset;
use vstd::prelude::*;

verus! {

#[verifier::external_type_specification]
#[verifier::external_body]
#[verifier::reject_recursive_types(N)]
#[verifier::reject_recursive_types(E)]
#[verifier::reject_recursive_types(Ty)]
#[verifier::reject_recursive_types(Ix)]
pub struct ExStableGraph<N, E, Ty, Ix>(StableGraph<N, E, Ty, Ix>);

#[verifier::external_type_specification]
#[verifier::external_body]
pub struct ExDirected(Directed);

/// The graph of a registry: node weights are package references, edges carry
/// nothing.
pub type PackageGraph = StableGraph<u32, ()>;

/// The nodes that `graph` holds: each node index with the weight of its node.
pub uninterp spec fn graph_nodes(graph: PackageGraph) -> Map<int, u32>;

/// The edges that `graph` holds, each as the node indices of its source and
/// its target; parallel edges count separately.
pub uninterp spec fn graph_edges(graph: PackageGraph) -> Multiset<(int, int)>;

/// The nodes of a graph without nodes.
pub open spec fn no_nodes() -> Map<int, u32> {
    Map::empty()
}

/// The edges of a graph without edges.
pub open spec fn no_edges() -> Multiset<(int, int)> {
    Multiset::empty()
}

/// `StableGraph::new`: a directed graph without nodes and without edges.
#[verifier::external_body]
pub(crate) fn new_graph() -> (graph: PackageGraph)
    ensures
        graph_nodes(graph) == no_nodes(),
        graph_edges(graph) == no_edges(),
{
    StableGraph::new()
}

/// `StableGraph::add_node`: adds a node that carries `weight` and returns its
/// index, which no node had before. Nothing else changes. The call panics
/// where the graph holds as many nodes as its index type can number, which
/// the precondition excludes.
#[verifier::external_body]
pub(crate) fn add_node(graph: &mut PackageGraph, weight: u32) -> (index: usize)
    requires
        graph_nodes(*old(graph)).dom().finite(),
        graph_nodes(*old(graph)).dom().len() < u32::MAX,
    ensures
        !graph_nodes(*old(graph)).dom().contains(index as int),
        graph_nodes(*final(graph)) == graph_nodes(*old(graph)).insert(index as int, weight),
        graph_edges(*final(graph)) == graph_edges(*old(graph)),
{
    graph.add_node(weight).index()
}

/// `StableGraph::add_edge`: adds one edge from the node `from` to the node
/// `to`, beside any edge that already joins them. Nothing else changes. The
/// call panics where one of the nodes does not exist or the graph holds as
/// many edges as its index type can number, which the preconditions exclude.
#[verifier::external_body]
pub(crate) fn add_edge(graph: &mut PackageGraph, from: usize, to: usize)
    requires
        graph_nodes(*old(graph)).dom().contains(from as int),
        graph_nodes(*old(graph)).dom().contains(to as int),
        graph_edges(*old(graph)).len() < u32::MAX,
    ensures
        graph_edges(*final(graph)) == graph_edges(*old(graph)).insert((from as int, to as int)),
        graph_nodes(*final(graph)) == graph_nodes(*old(graph)),
{
    graph.add_edge(NodeIndex::new(from), NodeIndex::new(to), ());
}

/// `StableGraph::edge_count`: the number of edges in the graph.
#[verifier::external_body]
pub(crate) fn edge_count(graph: &PackageGraph) -> (count: usize)
    ensures
        count == graph_edges(*graph).len(),
{
    graph.edge_count()
}

} // verus!
