//! The routing graph as a `petgraph` directed graph, and what the rest of
//! the library assumes of it.
//!
//! Verus does not look inside a `petgraph` graph. The library speaks of one
//! through two sequences, the nodes in index order and the edges in index
//! order, and reaches it only through the functions of this file. Each of
//! those makes one call into `petgraph`; its contract says what that call
//! does to the two sequences and is taken on trust.

use vstd::prelude::*;
use std::collections::HashSet;
use crate::routing::costs::{costs_bounded, step_cost};
use crate::routing::topology::{DeviceTopology, RoutingGraphNode};
use petgraph::graph::NodeIndex;
use petgraph::visit::{EdgeRef, NodeFiltered};

verus! {

/// `petgraph::graph::Graph`, of which nothing is known but what the
/// functions below state.
#[verifier::external_type_specification]
#[verifier::external_body]
#[verifier::reject_recursive_types(N)]
#[verifier::reject_recursive_types(E)]
#[verifier::reject_recursive_types(Ty)]
#[verifier::reject_recursive_types(Ix)]
pub struct ExGraph<N, E, Ty, Ix>(petgraph::graph::Graph<N, E, Ty, Ix>);

/// `petgraph::Directed`, the marker of a graph with directed edges.
#[verifier::external_type_specification]
#[verifier::external_body]
pub struct ExDirected(petgraph::Directed);

/// The base cost of using an edge of the routing graph.
pub type RoutingGraphEdge = u32;

/// A graph connecting routing elements.
pub type RoutingGraph = petgraph::graph::Graph<
    RoutingGraphNode,
    RoutingGraphEdge,
    petgraph::Directed,
    u32,
>;

/// An edge of the routing graph: the indices of the two nodes it joins, and
/// its base cost.
#[derive(Debug, Clone, Copy, PartialEq, Eq, Structural)]
pub struct Edge {
    pub source: usize,
    pub target: usize,
    pub weight: u32,
}

/// The nodes of a routing graph, each at its index.
pub uninterp spec fn routing_nodes(graph: RoutingGraph) -> Seq<RoutingGraphNode>;

/// The edges of a routing graph, each at its index.
pub uninterp spec fn routing_edges(graph: RoutingGraph) -> Seq<Edge>;

/// `Graph::new`: a graph without nodes or edges.
#[verifier::external_body]
pub(crate) fn new_graph() -> (graph: RoutingGraph)
    ensures
        routing_nodes(graph) == Seq::<RoutingGraphNode>::empty(),
        routing_edges(graph) == Seq::<Edge>::empty(),
{
    petgraph::graph::Graph::new()
}

/// `Graph::add_node`: appends a node and returns its index. `petgraph`
/// panics when the index would not fit in 32 bits, so the graph must hold
/// fewer than `u32::MAX` nodes.
#[verifier::external_body]
pub(crate) fn add_node(graph: &mut RoutingGraph, node: RoutingGraphNode) -> (index: usize)
    requires
        routing_nodes(*old(graph)).len() < u32::MAX,
    ensures
        index == routing_nodes(*old(graph)).len(),
        routing_nodes(*final(graph)) == routing_nodes(*old(graph)).push(node),
        routing_edges(*final(graph)) == routing_edges(*old(graph)),
{
    graph.add_node(node).index()
}

/// `Graph::add_edge`: appends an edge between two nodes of the graph.
/// `petgraph` panics when either node is missing or when the edge's index
/// would not fit in 32 bits.
#[verifier::external_body]
pub(crate) fn add_edge(graph: &mut RoutingGraph, source: usize, target: usize, weight: u32)
    requires
        source < routing_nodes(*old(graph)).len(),
        target < routing_nodes(*old(graph)).len(),
        routing_edges(*old(graph)).len() < u32::MAX,
    ensures
        routing_nodes(*final(graph)) == routing_nodes(*old(graph)),
        routing_edges(*final(graph)) == routing_edges(*old(graph)).push(
            Edge { source, target, weight },
        ),
{
    graph.add_edge(NodeIndex::new(source), NodeIndex::new(target), weight);
}

/// `Graph::node_count`. Node indices have 32 bits, and the largest is kept
/// free, so there are at most `u32::MAX` nodes.
#[verifier::external_body]
pub(crate) fn node_count(graph: &RoutingGraph) -> (count: usize)
    ensures
        count == routing_nodes(*graph).len(),
        count <= u32::MAX,
{
    graph.node_count()
}

/// Whether `out` holds exactly those of `edges` that leave `node`, and each
/// of them ends at one of `node_count` nodes.
pub open spec fn leaves_node(edges: Seq<Edge>, node_count: nat, node: int, out: Seq<Edge>) -> bool {
    &&& forall|e: Edge| #[trigger] out.contains(e) <==> edges.contains(e) && e.source == node
    &&& forall|i: int| 0 <= i < out.len() ==> (#[trigger] out[i]).target < node_count
}

/// `Graph::edges`: the edges that leave a node. The order in which
/// `petgraph` walks them is left open.
#[verifier::external_body]
pub(crate) fn out_edges(graph: &RoutingGraph, node: usize) -> (out: Vec<Edge>)
    requires
        node < routing_nodes(*graph).len(),
    ensures
        leaves_node(routing_edges(*graph), routing_nodes(*graph).len(), node as int, out@),
{
    graph.edges(NodeIndex::new(node)).map(
        |e| Edge { source: e.source().index(), target: e.target().index(), weight: *e.weight() },
    ).collect()
}

/// Whether `edges` holds an edge from node `source` to node `target`.
pub open spec fn has_edge(edges: Seq<Edge>, source: int, target: int) -> bool {
    exists|k: int|
        0 <= k < edges.len() && (#[trigger] edges[k]).source == source && edges[k].target
            == target
}

/// Whether a walk can pass through `node`: an edge leads to it, and an edge
/// leaves it.
pub open spec fn passes(edges: Seq<Edge>, node: int) -> bool {
    &&& exists|k: int| 0 <= k < edges.len() && (#[trigger] edges[k]).target == node
    &&& exists|k: int| 0 <= k < edges.len() && (#[trigger] edges[k]).source == node
}

/// Whether each of `walk` but the last is joined to the next by an edge.
pub open spec fn is_walk(edges: Seq<Edge>, walk: Seq<usize>) -> bool {
    walk.len() >= 1 && forall|i: int|
        0 <= i < walk.len() - 1 ==> has_edge(edges, (#[trigger] walk[i]) as int, walk[i + 1] as int)
}

/// Whether a walk leads from some node of `from` to `to`.
pub open spec fn reaches(edges: Seq<Edge>, from: Set<usize>, to: usize) -> bool {
    exists|walk: Seq<usize>| #[trigger]
        is_walk(edges, walk) && from.contains(walk[0]) && walk.last() == to
}

/// Whether `route` is a walk from `source` to `sink` over nodes of the graph.
pub open spec fn is_route(
    edges: Seq<Edge>,
    node_count: nat,
    route: Seq<usize>,
    source: usize,
    sink: usize,
) -> bool {
    &&& is_walk(edges, route)
    &&& route[0] == source
    &&& route.last() == sink
    &&& forall|i: int| 0 <= i < route.len() ==> (#[trigger] route[i]) < node_count
}

/// Whether `hops`, a sequence of edge indices, leads from `source` to
/// `target` edge by edge without leaving the nodes of `within`. No hop at all
/// leads from a node to itself.
pub open spec fn is_path_within(
    edges: Seq<Edge>,
    within: Set<usize>,
    hops: Seq<int>,
    source: usize,
    target: usize,
) -> bool {
    &&& within.contains(source)
    &&& forall|i: int|
        0 <= i < hops.len() ==> 0 <= (#[trigger] hops[i]) < edges.len() && within.contains(
            edges[hops[i]].target,
        )
    &&& forall|i: int|
        0 <= i < hops.len() - 1 ==> edges[#[trigger] hops[i]].target == edges[hops[i + 1]].source
    &&& if hops.len() == 0 {
        source == target
    } else {
        edges[hops[0]].source == source && edges[hops.last()].target == target
    }
}

/// The sum of the base costs of the edges `hops`.
pub open spec fn path_weight(edges: Seq<Edge>, hops: Seq<int>) -> int
    decreases hops.len(),
{
    if hops.len() == 0 {
        0
    } else {
        path_weight(edges, hops.drop_last()) + edges[hops.last()].weight
    }
}

/// Whether `distance` is the least weight of a path from `source` to
/// `target` within `within`.
pub open spec fn is_distance_within(
    edges: Seq<Edge>,
    within: Set<usize>,
    source: usize,
    target: usize,
    distance: int,
) -> bool {
    &&& exists|hops: Seq<int>| #[trigger]
        is_path_within(edges, within, hops, source, target) && path_weight(edges, hops) == distance
    &&& forall|hops: Seq<int>| #[trigger]
        is_path_within(edges, within, hops, source, target) ==> path_weight(edges, hops)
            >= distance
}

/// Whether `distances` lists, for every node that a path from `source`
/// reaches within `within`, the least weight of such a path, and lists no
/// other node.
pub open spec fn are_distances_within(
    edges: Seq<Edge>,
    node_count: nat,
    within: Set<usize>,
    source: usize,
    distances: Seq<(usize, u64)>,
) -> bool {
    &&& forall|i: int|
        0 <= i < distances.len() ==> (#[trigger] distances[i]).0 < node_count
            && is_distance_within(edges, within, source, distances[i].0, distances[i].1 as int)
    &&& forall|target: usize, hops: Seq<int>| #[trigger]
        is_path_within(edges, within, hops, source, target) ==> exists|i: int|
            0 <= i < distances.len() && (#[trigger] distances[i]).0 == target
}

/// The route that `petgraph::algo::astar` finds from `source` to `sink` when
/// an edge costs its base cost plus the use cost of the node it leads to,
/// and the distance to the sink is estimated by `estimate_distance`.
pub uninterp spec fn astar_route(
    graph: RoutingGraph,
    topology: DeviceTopology,
    history: Seq<u64>,
    present: Seq<u64>,
    source: int,
    sink: int,
) -> Option<Seq<usize>>;

/// `petgraph::algo::astar`, with the cost of an edge computed by
/// `step_cost` and the estimate by `estimate_distance`.
///
/// The route found depends on the graph and the costs alone, and is named
/// `astar_route`. When one is found, it is a walk in the graph from `source`
/// to `sink`. The search gives up only when it has followed every edge that
/// leaves a node it has met, so that none is found only where no walk leads
/// from `source` to `sink`. `petgraph` adds up the costs along a walk and adds an estimate
/// to the sum; with the use costs bounded as required, and at most
/// `u32::MAX` nodes, no such sum leaves 128 bits.
#[verifier::external_body]
pub(crate) fn astar(
    graph: &RoutingGraph,
    topology: &DeviceTopology,
    history: &Vec<u64>,
    present: &Vec<u64>,
    source: usize,
    sink: usize,
) -> (route: Option<Vec<usize>>)
    requires
        source < routing_nodes(*graph).len(),
        sink < routing_nodes(*graph).len(),
        history@.len() == routing_nodes(*graph).len(),
        present@.len() == routing_nodes(*graph).len(),
        costs_bounded(history@, present@),
    ensures
        (match route {
            Some(nodes) => Some(nodes@),
            None => None,
        }) == astar_route(*graph, *topology, history@, present@, source as int, sink as int),
        route matches Some(nodes) ==> is_route(
            routing_edges(*graph),
            routing_nodes(*graph).len(),
            nodes@,
            source,
            sink,
        ),
        route is None ==> !reaches(routing_edges(*graph), set![source], sink),
{
    let goal = NodeIndex::new(sink);
    petgraph::algo::astar(
        graph,
        NodeIndex::new(source),
        |node| node == goal,
        |edge| step_cost(history, present, edge.target().index(), *edge.weight()),
        |node| topology.estimate_distance(graph[node], graph[goal]),
    ).map(|(_, nodes)| nodes.into_iter().map(|node| node.index()).collect())
}

/// `petgraph::algo::dijkstra` on the part of the graph that lies within
/// `members` (`petgraph::visit::NodeFiltered`), from `source`, with every
/// edge at its base cost.
///
/// `petgraph` returns, for every node that a path reaches, the length of the
/// shortest one. The result lists each such node with that length, in no
/// particular order. A path has fewer than `u32::MAX` edges, each at a cost
/// of at most `u32::MAX`, so that no length leaves 64 bits.
#[verifier::external_body]
pub(crate) fn dijkstra_within(graph: &RoutingGraph, members: &HashSet<usize>, source: usize) -> (distances:
    Vec<(usize, u64)>)
    requires
        source < routing_nodes(*graph).len(),
        members@.contains(source),
    ensures
        are_distances_within(
            routing_edges(*graph),
            routing_nodes(*graph).len(),
            members@,
            source,
            distances@,
        ),
{
    let part = NodeFiltered::from_fn(graph, |node: NodeIndex| members.contains(&node.index()));
    petgraph::algo::dijkstra(&part, NodeIndex::new(source), None, |edge| u64::from(*edge.weight()))
        .into_iter().map(|(node, distance)| (node.index(), distance)).collect()
}

} // verus!
