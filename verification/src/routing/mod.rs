//! Placement and routing: the fabric, the placement of a design on it, and
//! the router that connects what was placed.

pub mod anneal;
pub mod costs;
pub mod fabric;
pub mod graph;
pub mod index;
pub mod netlist;
pub mod pathfinder;
pub mod placement;
pub mod queue;
pub mod topology;
pub mod tree;
pub mod wave;

pub use crate::routing::index::NodeIndexMap;
pub use crate::routing::graph::RoutingGraph;
pub use crate::routing::netlist::RoutingNetList;
pub use crate::routing::placement::{RoutingConfiguration, RoutingError};
pub use crate::routing::topology::DeviceTopology;

use vstd::prelude::*;
use crate::implementation::{impl_edges, impl_graph_is_legal, impl_nodes, ImplGraph};
use crate::routing::graph::{routing_edges, routing_nodes};
use crate::routing::pathfinder::{
    lemma_empty_netlist_is_routed, pathfinder, spec_pathfinder, NetListScore, PathfinderResult,
    Verdict,
};
use crate::routing::placement::{kind_count, nothing_to_route};

verus! {

/// The number of rounds that the router is given when a design is routed.
pub const ROUTING_ROUNDS: u16 = 100;

/// A design that is placed and routed: the routing graph of the device with
/// the map of its nodes, the placement, and the routes with their score.
pub struct RoutedDesign {
    pub graph: RoutingGraph,
    pub node_index_map: NodeIndexMap,
    pub configuration: RoutingConfiguration,
    pub score: NetListScore,
    pub netlist: RoutingNetList,
}

/// Routes a design as `configuration` places it: the netlist of the
/// placement is routed over the graph, and the design fails to route where
/// the router leaves nodes shared or cannot reach a sink.
pub fn route_placed(
    graph: &RoutingGraph,
    node_index_map: &NodeIndexMap,
    impl_graph: &ImplGraph,
    configuration: &RoutingConfiguration,
    max_iterations: u16,
) -> (routed: Result<(NetListScore, RoutingNetList), RoutingError>)
    requires
        configuration.well_formed(),
        configuration.places(impl_nodes(*impl_graph)),
        impl_graph_is_legal(*impl_graph),
        node_index_map.topology() == configuration.topology(),
        configuration.topology().is_fabric(*graph),
    ensures
        ({
            let nets = configuration.spec_netlist(
                impl_nodes(*impl_graph),
                impl_edges(*impl_graph),
                impl_edges(*impl_graph).len() as int,
            );
            match spec_pathfinder(*graph, configuration.topology(), nets, max_iterations as int) {
                Ok(Verdict::Routed { total, routes }) => routed matches Ok((score, netlist)) && (
                PathfinderResult::Routed { score, netlist }).describes(
                    Seq::new(nets.len(), |i: int| nets[i].0),
                    Verdict::Routed { total, routes },
                ) && (PathfinderResult::Routed { score, netlist }).routes_stand(
                    routing_edges(*graph),
                    routing_nodes(*graph).len(),
                    nets,
                ),
                _ => routed == Err::<(NetListScore, RoutingNetList), RoutingError>(
                    RoutingError::FailedToRoute,
                ),
            }
        }),
{
    let netlist = configuration.generate_netlist(impl_graph, node_index_map);
    let topology = node_index_map.device();
    assert(netlist.sources() =~= Seq::new(netlist@.len(), |i: int| netlist@[i].0));
    match pathfinder(graph, &netlist, &topology, max_iterations) {
        Ok(PathfinderResult::Routed { score, netlist }) => Ok((score, netlist)),
        Ok(PathfinderResult::NotRouted { .. }) => Err(RoutingError::FailedToRoute),
        Err(_) => Err(RoutingError::FailedToRoute),
    }
}

/// Whether the router leaves the design unrouted as `placement` places it
/// on the device, over `graph`.
pub open spec fn leaves_unrouted(
    impl_graph: ImplGraph,
    topology: DeviceTopology,
    placement: RoutingConfiguration,
    graph: RoutingGraph,
) -> bool {
    let nodes = impl_nodes(impl_graph);
    let edges = impl_edges(impl_graph);
    &&& topology.is_fabric(graph)
    &&& placement.well_formed()
    &&& placement.topology() == topology
    &&& placement.places(nodes)
    &&& !(spec_pathfinder(
        graph,
        topology,
        placement.spec_netlist(nodes, edges, edges.len() as int),
        ROUTING_ROUNDS as int,
    ) matches Ok(Verdict::Routed { .. }))
}

/// Places the logic cells and module ports of a design on a device at
/// random, makes one move, and routes the design as it is then placed. A
/// design that fits the device and has nothing to route is always routed;
/// another fails to route only where the router leaves it unrouted as it
/// was placed.
pub fn route_design(impl_graph: ImplGraph, topology: DeviceTopology) -> (routed: Result<
    RoutedDesign,
    RoutingError,
>)
    requires
        topology.spec_fits(),
        impl_graph_is_legal(impl_graph),
    ensures
        ({
            let nodes = impl_nodes(impl_graph);
            let cells = kind_count(nodes, true, nodes.len() as int);
            let ports = kind_count(nodes, false, nodes.len() as int);
            if cells > topology.logic_cell_count() {
                routed matches Err(error) && error == (RoutingError::NotEnoughLogicCells {
                    needed: cells as usize,
                    available: topology.logic_cell_count() as usize,
                })
            } else if ports > topology.io_block_count() {
                routed matches Err(error) && error == (RoutingError::NotEnoughIoBlocks {
                    needed: ports as usize,
                    available: topology.io_block_count() as usize,
                })
            } else {
                match routed {
                    Ok(design) => {
                        let nets = design.configuration.spec_netlist(
                            nodes,
                            impl_edges(impl_graph),
                            impl_edges(impl_graph).len() as int,
                        );
                        &&& topology.is_fabric(design.graph)
                        &&& design.node_index_map.topology() == topology
                        &&& design.configuration.well_formed()
                        &&& design.configuration.topology() == topology
                        &&& design.configuration.places(nodes)
                        &&& spec_pathfinder(design.graph, topology, nets, ROUTING_ROUNDS as int)
                            matches Ok(Verdict::Routed { total, routes }) && (
                        PathfinderResult::Routed {
                            score: design.score,
                            netlist: design.netlist,
                        }).describes(
                            Seq::new(nets.len(), |i: int| nets[i].0),
                            Verdict::Routed { total, routes },
                        ) && (PathfinderResult::Routed {
                            score: design.score,
                            netlist: design.netlist,
                        }).routes_stand(routing_edges(design.graph), routing_nodes(design.graph).len(), nets)
                    },
                    Err(error) => {
                        &&& error == RoutingError::FailedToRoute
                        &&& exists|placement: RoutingConfiguration, graph: RoutingGraph|
                            leaves_unrouted(impl_graph, topology, placement, graph)
                    },
                }
            }
        }),
        ({
            let nodes = impl_nodes(impl_graph);
            kind_count(nodes, true, nodes.len() as int) <= topology.logic_cell_count()
                && kind_count(nodes, false, nodes.len() as int) <= topology.io_block_count()
                && nothing_to_route(nodes, impl_edges(impl_graph)) ==> routed is Ok
        }),
{
    let (graph, node_index_map) = topology.build_graph();
    let mut configuration = match RoutingConfiguration::initial(&topology, &impl_graph) {
        Ok(configuration) => configuration,
        Err(error) => {
            return Err(error);
        },
    };
    configuration.mutate();
    proof {
        let nodes = impl_nodes(impl_graph);
        let edges = impl_edges(impl_graph);
        if nothing_to_route(nodes, edges) {
            configuration.lemma_nothing_to_route(nodes, edges, edges.len() as int);
            lemma_empty_netlist_is_routed(graph, topology, ROUTING_ROUNDS as int);
        }
    }
    match route_placed(&graph, &node_index_map, &impl_graph, &configuration, ROUTING_ROUNDS) {
        Ok((score, netlist)) => Ok(
            RoutedDesign { graph, node_index_map, configuration, score, netlist },
        ),
        Err(error) => {
            assert(leaves_unrouted(impl_graph, topology, configuration, graph));
            Err(error)
        },
    }
}

} // verus!
