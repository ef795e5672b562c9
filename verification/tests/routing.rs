use petgraph::graph::NodeIndex;
use rand::Rng;
use std::collections::HashSet;
use toolchain::implementation::{ImplGraph, ImplGraphEdge, ImplGraphNode, LogicCell};
use toolchain::routing::anneal::{
    acceptance, accepts, energy, is_better, select_best, wide_product, Acceptance,
};
use toolchain::routing::netlist::RoutingNetList;
use toolchain::routing::costs::{
    congestion, is_converged, occupy_nodes, raise_history, step_cost, use_cost,
};
use toolchain::routing::pathfinder::{
    connect, pathfinder, pathfinder_with_history, route_net, route_round, score_netlist, settle,
    NetListScore, PathfinderResult, Unreachable,
};
use toolchain::routing::tree::RoutingTree;
use toolchain::routing::wave::wave_reaches;
use toolchain::routing::placement::{
    assign_at_random, occupied_positions, other_positions, swap_positions, swap_positions_at,
    RoutingConfiguration, RoutingError,
};
use toolchain::routing::queue::PriorityQueue;
use toolchain::routing::topology::{
    CardinalDirection, DeviceTopology, IoBlockCoordinates, LogicCellCoordinates, RoutingGraphNode,
};
use toolchain::routing::{route_design, route_placed, RoutingGraph};
use toolchain::synthesis::{
    LookUpTable, LookUpTableInput, LookUpTableMask, ModulePort, ModulePortDirection,
};

fn logic_cell(name: &str) -> ImplGraphNode {
    ImplGraphNode::LogicCell(LogicCell {
        lut: LookUpTable { name: name.to_string(), mask: LookUpTableMask::new(0xaaaa) },
        ff: None,
    })
}

fn module_port(name: &str, direction: ModulePortDirection) -> ImplGraphNode {
    ImplGraphNode::ModulePort(ModulePort { name: name.to_string(), direction })
}

fn pass_through() -> ImplGraph {
    let mut graph = ImplGraph::new();
    let input = graph.add_node(module_port("in", ModulePortDirection::Input));
    let cell = graph.add_node(logic_cell("$lut$0"));
    let output = graph.add_node(module_port("out", ModulePortDirection::Output));
    graph.add_edge(input, cell, ImplGraphEdge::LogicCellInput(LookUpTableInput::A));
    graph.add_edge(cell, output, ImplGraphEdge::ModulePortInput);
    graph
}

fn io(direction: CardinalDirection, position: usize) -> RoutingGraphNode {
    RoutingGraphNode::IoBlock { coords: IoBlockCoordinates { direction, position } }
}

fn nodes_of(netlist: &RoutingNetList) -> Vec<HashSet<usize>> {
    (0..netlist.len()).map(|i| netlist.net(i).sinks.iter().copied().collect()).collect()
}

fn assert_routes_stand(graph: &RoutingGraph, nets: &RoutingNetList, routed: &RoutingNetList) {
    assert_eq!(routed.len(), nets.len());
    let sets = nodes_of(routed);
    for i in 0..sets.len() {
        for j in (i + 1)..sets.len() {
            assert!(sets[i].is_disjoint(&sets[j]), "routes {} and {} share a node", i, j);
        }
    }
    for i in 0..nets.len() {
        let net = nets.net(i);
        assert_eq!(routed.net(i).source, net.source);
        assert!(sets[i].contains(&net.source));
        // Every sink is reached from the source over nodes of the route.
        let mut reached: HashSet<usize> = HashSet::new();
        let mut open = vec![net.source];
        reached.insert(net.source);
        while let Some(node) = open.pop() {
            for next in graph.neighbors(NodeIndex::new(node)) {
                if sets[i].contains(&next.index()) && reached.insert(next.index()) {
                    open.push(next.index());
                }
            }
        }
        for sink in net.sinks.iter() {
            assert!(reached.contains(sink), "sink {} of net {} is not reached", sink, i);
            assert!(sets[i].contains(sink));
        }
        // Between its source and its sinks a route passes through switch
        // blocks and I/O blocks only.
        for node in routed.net(i).sinks.iter() {
            assert!(*node < graph.node_count());
            if *node == net.source || net.sinks.contains(node) {
                continue;
            }
            assert!(!matches!(
                graph[NodeIndex::new(*node)],
                RoutingGraphNode::LogicCellInput { .. } | RoutingGraphNode::LogicCellOutput { .. }
            ));
        }
    }
}

#[test]
fn empty_design_is_routed() {
    let design = route_design(ImplGraph::new(), DeviceTopology { width: 2, height: 2 }).unwrap();
    assert_eq!(design.netlist.len(), 0);
    assert_eq!(design.score, NetListScore { total: 0, nets: 0 });
}

#[test]
fn pass_through_is_routed() {
    for _ in 0..20 {
        let design = route_design(pass_through(), DeviceTopology { width: 2, height: 2 }).unwrap();
        assert_eq!(design.netlist.len(), 2);
        assert_eq!(design.score.nets, 2);
        assert!(design.score.total >= 2);
        let mut io_blocks = 0;
        let mut outputs = HashSet::new();
        let mut inputs = HashSet::new();
        for i in 0..design.netlist.len() {
            for node in design.netlist.net(i).sinks.iter() {
                match design.graph[NodeIndex::new(*node)] {
                    RoutingGraphNode::IoBlock { .. } => io_blocks += 1,
                    RoutingGraphNode::LogicCellOutput { coords } => {
                        outputs.insert(coords);
                    }
                    RoutingGraphNode::LogicCellInput { coords, input } => {
                        assert_eq!(input, LookUpTableInput::A);
                        inputs.insert(coords);
                    }
                    _ => {}
                }
            }
        }
        assert_eq!(io_blocks, 2);
        assert_eq!(outputs.len(), 1);
        assert_eq!(inputs, outputs);
    }
}

#[test]
fn too_many_logic_cells() {
    let mut graph = ImplGraph::new();
    for i in 0..5 {
        graph.add_node(logic_cell(&format!("$lut${}", i)));
    }
    match route_design(graph, DeviceTopology { width: 2, height: 2 }) {
        Err(error) => assert_eq!(error, RoutingError::NotEnoughLogicCells { needed: 5, available: 4 }),
        Ok(_) => panic!("five logic cells were placed on four"),
    }
}

#[test]
fn too_many_module_ports() {
    let mut graph = ImplGraph::new();
    for i in 0..9 {
        graph.add_node(module_port(&format!("p{}", i), ModulePortDirection::Input));
    }
    match route_design(graph, DeviceTopology { width: 1, height: 1 }) {
        Err(error) => assert_eq!(error, RoutingError::NotEnoughIoBlocks { needed: 9, available: 8 }),
        Ok(_) => panic!("nine ports were placed on eight I/O blocks"),
    }
}

#[test]
fn logic_cells_are_counted_before_ports() {
    let mut graph = ImplGraph::new();
    for i in 0..9 {
        graph.add_node(module_port(&format!("p{}", i), ModulePortDirection::Input));
    }
    graph.add_node(logic_cell("a"));
    graph.add_node(logic_cell("b"));
    match route_design(graph, DeviceTopology { width: 1, height: 1 }) {
        Err(error) => assert_eq!(error, RoutingError::NotEnoughLogicCells { needed: 2, available: 1 }),
        Ok(_) => panic!("two logic cells were placed on one"),
    }
}

#[test]
fn two_nets_across_one_switch_block() {
    let topology = DeviceTopology { width: 2, height: 2 };
    let (graph, map) = topology.build_graph();
    let mut nets = RoutingNetList::new();
    // West to east and north to south: both lead across the block in the middle.
    nets.insert(
        map.get(io(CardinalDirection::West, 1)).unwrap(),
        map.get(io(CardinalDirection::East, 1)).unwrap(),
    );
    nets.insert(
        map.get(io(CardinalDirection::North, 1)).unwrap(),
        map.get(io(CardinalDirection::South, 1)).unwrap(),
    );
    match pathfinder(&graph, &nets, &topology, 3) {
        Ok(PathfinderResult::Routed { score, netlist }) => {
            assert_eq!(score.nets, 2);
            assert_routes_stand(&graph, &nets, &netlist);
        }
        Ok(PathfinderResult::NotRouted { congestion }) => panic!("congestion {}", congestion),
        Err(unreachable) => panic!("{:?}", unreachable),
    }
}

#[test]
fn dense_netlist_is_not_routed() {
    let topology = DeviceTopology { width: 3, height: 3 };
    let (graph, map) = topology.build_graph();
    let blocks = topology.iter_io_block_coords();
    let mut nets = RoutingNetList::new();
    for from in blocks.iter() {
        for to in blocks.iter() {
            if from != to {
                nets.insert(
                    map.get(RoutingGraphNode::IoBlock { coords: *from }).unwrap(),
                    map.get(RoutingGraphNode::IoBlock { coords: *to }).unwrap(),
                );
            }
        }
    }
    assert_eq!(nets.len(), 16);
    match pathfinder(&graph, &nets, &topology, 2) {
        Ok(PathfinderResult::NotRouted { congestion }) => assert!(congestion > 0),
        Ok(PathfinderResult::Routed { .. }) => panic!("sixteen nets into every I/O block were routed"),
        Err(unreachable) => panic!("{:?}", unreachable),
    }
}

#[test]
fn a_net_with_several_sinks() {
    let topology = DeviceTopology { width: 2, height: 2 };
    let (graph, map) = topology.build_graph();
    let source = map
        .get(RoutingGraphNode::LogicCellOutput { coords: LogicCellCoordinates { x: 0, y: 0 } })
        .unwrap();
    let mut nets = RoutingNetList::new();
    for (x, y, input) in [(1, 1, LookUpTableInput::A), (1, 0, LookUpTableInput::D), (0, 1, LookUpTableInput::B)] {
        let sink = map
            .get(RoutingGraphNode::LogicCellInput { coords: LogicCellCoordinates { x, y }, input })
            .unwrap();
        nets.insert(source, sink);
    }
    nets.insert(source, map.get(io(CardinalDirection::South, 2)).unwrap());
    assert_eq!(nets.len(), 1);
    assert_eq!(nets.net(0).sinks.len(), 4);
    match pathfinder(&graph, &nets, &topology, 1) {
        Ok(PathfinderResult::Routed { score, netlist }) => {
            assert_routes_stand(&graph, &nets, &netlist);
            assert_eq!(score.nets, 1);
            // The farthest sink is at least three edges away: a corner, an
            // output and the sink.
            assert!(score.total >= 3);
        }
        Ok(PathfinderResult::NotRouted { congestion }) => panic!("congestion {}", congestion),
        Err(unreachable) => panic!("{:?}", unreachable),
    }
}

#[test]
fn a_sink_that_nothing_drives_is_reported() {
    let topology = DeviceTopology { width: 1, height: 1 };
    let (graph, map) = topology.build_graph();
    // Nothing leads to the output of a logic cell.
    let source = map.get(io(CardinalDirection::North, 0)).unwrap();
    let sink = map
        .get(RoutingGraphNode::LogicCellOutput { coords: LogicCellCoordinates { x: 0, y: 0 } })
        .unwrap();
    let mut nets = RoutingNetList::new();
    nets.insert(source, sink);
    match pathfinder(&graph, &nets, &topology, 4) {
        Err(unreachable) => assert_eq!(unreachable, Unreachable { source, sink }),
        Ok(_) => panic!("the output of a logic cell was reached"),
    }
}

#[test]
fn routing_is_repeatable() {
    let topology = DeviceTopology { width: 2, height: 2 };
    let (graph, map) = topology.build_graph();
    let mut nets = RoutingNetList::new();
    nets.insert(
        map.get(io(CardinalDirection::West, 0)).unwrap(),
        map.get(io(CardinalDirection::East, 2)).unwrap(),
    );
    nets.insert(
        map.get(io(CardinalDirection::North, 2)).unwrap(),
        map.get(io(CardinalDirection::South, 0)).unwrap(),
    );
    let routes = |result: Result<PathfinderResult, Unreachable>| match result {
        Ok(PathfinderResult::Routed { score, netlist }) => {
            (score, (0..netlist.len()).map(|i| netlist.net(i).sinks.clone()).collect::<Vec<_>>())
        }
        _ => panic!("not routed"),
    };
    let first = routes(pathfinder(&graph, &nets, &topology, 10));
    let second = routes(pathfinder(&graph, &nets, &topology, 10));
    assert_eq!(first, second);
}

#[test]
fn lower_channels_are_preferred() {
    let topology = DeviceTopology { width: 1, height: 1 };
    let (graph, map) = topology.build_graph();
    let source = map.get(io(CardinalDirection::West, 0)).unwrap();
    let sink = map.get(io(CardinalDirection::West, 1)).unwrap();
    let mut nets = RoutingNetList::new();
    nets.insert(source, sink);
    match pathfinder(&graph, &nets, &topology, 1) {
        Ok(PathfinderResult::Routed { score, netlist }) => {
            // I/O block, input, output south, input north of the next block,
            // output west, I/O block: five edges, all on channel A.
            assert_eq!(score, NetListScore { total: 5, nets: 1 });
            assert_eq!(netlist.net(0).sinks.len(), 6);
        }
        _ => panic!("not routed"),
    }
}

#[test]
fn initial_placement_places_every_node_once() {
    let topology = DeviceTopology { width: 2, height: 2 };
    let (graph, map) = topology.build_graph();
    let design = pass_through();
    for _ in 0..20 {
        let mut configuration = RoutingConfiguration::initial(&topology, &design).unwrap();
        for _ in 0..10 {
            configuration.mutate();
            let nets = configuration.generate_netlist(&design, &map);
            assert_eq!(nets.len(), 2);
            let input = match graph[NodeIndex::new(nets.net(0).source)] {
                RoutingGraphNode::IoBlock { coords } => coords,
                other => panic!("{:?}", other),
            };
            let cell = match graph[NodeIndex::new(nets.net(1).source)] {
                RoutingGraphNode::LogicCellOutput { coords } => coords,
                other => panic!("{:?}", other),
            };
            assert_eq!(nets.net(0).sinks.len(), 1);
            assert_eq!(
                graph[NodeIndex::new(nets.net(0).sinks[0])],
                RoutingGraphNode::LogicCellInput { coords: cell, input: LookUpTableInput::A }
            );
            match graph[NodeIndex::new(nets.net(1).sinks[0])] {
                RoutingGraphNode::IoBlock { coords } => assert_ne!(coords, input),
                other => panic!("{:?}", other),
            }
            assert!(route_placed(&graph, &map, &design, &configuration, 10).is_ok());
        }
    }
}

#[test]
fn clock_edges_are_not_routed() {
    let topology = DeviceTopology { width: 1, height: 1 };
    let (_, map) = topology.build_graph();
    let mut design = ImplGraph::new();
    let clock = design.add_node(module_port("clk", ModulePortDirection::Input));
    let cell = design.add_node(logic_cell("$lut$0"));
    design.add_edge(clock, cell, ImplGraphEdge::LogicCellClock);
    let configuration = RoutingConfiguration::initial(&topology, &design).unwrap();
    assert_eq!(configuration.generate_netlist(&design, &map).len(), 0);
}

#[test]
fn random_assignment_is_injective() {
    for _ in 0..50 {
        let assigned = assign_at_random(&vec![7, 3, 9], 5);
        assert_eq!(assigned.len(), 5);
        let mut nodes: Vec<usize> = assigned.iter().flatten().copied().collect();
        nodes.sort();
        assert_eq!(nodes, vec![3, 7, 9]);
    }
    assert_eq!(assign_at_random(&vec![], 3), vec![None, None, None]);
    let full = assign_at_random(&vec![1, 2], 2);
    assert!(full == vec![Some(1), Some(2)] || full == vec![Some(2), Some(1)]);
}

#[test]
fn swap_exchanges_two_places() {
    let mut assigned = vec![Some(4), None, Some(6)];
    swap_positions_at(&mut assigned, 0, 2);
    assert_eq!(assigned, vec![Some(6), None, Some(4)]);
    swap_positions_at(&mut assigned, 0, 1);
    assert_eq!(assigned, vec![None, Some(6), Some(4)]);
    assert_eq!(occupied_positions(&assigned), vec![1, 2]);
    assert_eq!(other_positions(4, 2), vec![0, 1, 3]);
    assert_eq!(other_positions(1, 0), Vec::<usize>::new());
}

#[test]
fn moves_keep_the_nodes() {
    for _ in 0..50 {
        let before = vec![Some(4), None, Some(6), None];
        let mut after = before.clone();
        swap_positions(&mut after);
        assert_ne!(after, before);
        let mut nodes: Vec<usize> = after.iter().flatten().copied().collect();
        nodes.sort();
        assert_eq!(nodes, vec![4, 6]);
        assert_eq!(after.len(), 4);
    }
    let mut empty: Vec<Option<usize>> = vec![None, None];
    swap_positions(&mut empty);
    assert_eq!(empty, vec![None, None]);
    let mut single = vec![Some(1)];
    swap_positions(&mut single);
    assert_eq!(single, vec![Some(1)]);
}

#[test]
fn queue_pops_cheapest_first() {
    let mut queue = PriorityQueue::new();
    queue.push(10, 5);
    queue.push(11, 3);
    queue.push(12, 5);
    queue.push(13, 0);
    queue.push(14, 3);
    assert!(queue.contains(12));
    assert!(!queue.contains(15));
    assert_eq!(queue.pop(), Some(13));
    assert!(!queue.contains(13));
    assert_eq!(queue.pop(), Some(11));
    assert_eq!(queue.pop(), Some(14));
    assert_eq!(queue.pop(), Some(10));
    assert_eq!(queue.pop(), Some(12));
    assert_eq!(queue.pop(), None);
    let mut seeded = PriorityQueue::from_nodes(&vec![3, 1, 2]);
    assert_eq!(seeded.pop(), Some(3));
    seeded.push(9, 0);
    assert_eq!(seeded.pop(), Some(1));
    assert_eq!(seeded.pop(), Some(2));
    assert_eq!(seeded.pop(), Some(9));
}

#[test]
fn queue_forgets_a_popped_node() {
    let mut queue = PriorityQueue::new();
    queue.push(1, 7);
    queue.push(1, 2);
    assert_eq!(queue.pop(), Some(1));
    // The node still waits once, but is no longer reported.
    assert!(!queue.contains(1));
    assert_eq!(queue.pop(), Some(1));
    assert_eq!(queue.pop(), None);
}

#[test]
fn tree_absorbs_the_interior_of_a_route() {
    let mut tree = RoutingTree::new(5);
    tree.absorb_route(&vec![5, 8, 9, 2]);
    assert_eq!(tree.nodes(), &vec![5, 8, 9]);
    tree.absorb_route(&vec![5, 9, 3, 8, 7]);
    assert_eq!(tree.nodes(), &vec![5, 8, 9, 3]);
    tree.absorb_route(&vec![5, 7]);
    tree.absorb_route(&vec![5]);
    tree.absorb_route(&vec![]);
    assert_eq!(tree.nodes(), &vec![5, 8, 9, 3]);
    tree.absorb(&vec![7, 5, 1]);
    assert_eq!(tree.into_nodes(), vec![5, 8, 9, 3, 7, 1]);
}

#[test]
fn better_verdicts() {
    let routed = |total: u128, nets: usize| PathfinderResult::Routed {
        score: NetListScore { total, nets },
        netlist: RoutingNetList::new(),
    };
    let congested = |congestion: u64| PathfinderResult::NotRouted { congestion };
    assert!(is_better(&routed(100, 2), &congested(0)));
    assert!(!is_better(&congested(0), &routed(100, 2)));
    assert!(is_better(&routed(7, 2), &routed(11, 3)));
    assert!(!is_better(&routed(11, 3), &routed(7, 2)));
    assert!(!is_better(&routed(6, 2), &routed(9, 3)));
    assert!(is_better(&congested(3), &congested(4)));
    assert!(!is_better(&congested(4), &congested(4)));
    assert!(is_better(&routed(0, 0), &routed(1, 5)));
    assert!(is_better(&routed(u128::MAX - 1, 7), &routed(u128::MAX, 7)));
}

#[test]
fn a_shorter_placement_is_always_accepted() {
    let routed = |total: u128, nets: usize| PathfinderResult::Routed {
        score: NetListScore { total, nets },
        netlist: RoutingNetList::new(),
    };
    let congested = |congestion: u64| PathfinderResult::NotRouted { congestion };
    assert_eq!(acceptance(&routed(12, 2), &routed(10, 2)), Acceptance::Always);
    assert_eq!(acceptance(&routed(12, 2), &routed(12, 2)), Acceptance::Always);
    assert_eq!(acceptance(&routed(12, 2), &routed(13, 2)), Acceptance::Metropolis);
    assert_eq!(acceptance(&routed(12, 2), &congested(0)), Acceptance::Never);
    assert_eq!(acceptance(&congested(9), &routed(1000, 2)), Acceptance::Always);
    assert_eq!(acceptance(&congested(9), &congested(9)), Acceptance::Always);
    assert_eq!(acceptance(&congested(9), &congested(10)), Acceptance::Metropolis);
    assert!(accepts(&routed(12, 2), &routed(10, 2), false));
    assert!(!accepts(&routed(12, 2), &congested(1), true));
    assert!(accepts(&routed(12, 2), &routed(13, 2), true));
    assert!(!accepts(&routed(12, 2), &routed(13, 2), false));
}

#[test]
fn best_reply_is_selected() {
    let routed = |total: u128| {
        Some(PathfinderResult::Routed {
            score: NetListScore { total, nets: 4 },
            netlist: RoutingNetList::new(),
        })
    };
    let congested = |congestion: u64| Some(PathfinderResult::NotRouted { congestion });
    assert_eq!(select_best(&vec![]), None);
    assert_eq!(select_best(&vec![None, None]), None);
    assert_eq!(select_best(&vec![None, congested(3), congested(2), congested(2)]), Some(2));
    assert_eq!(select_best(&vec![congested(1), routed(50), None, routed(40), routed(40)]), Some(3));
}

#[test]
fn wide_products() {
    assert_eq!(wide_product(0, 0), (0, 0));
    assert_eq!(wide_product(3, 5), (0, 15));
    assert_eq!(wide_product(1 << 64, 2), (2, 0));
    assert_eq!(wide_product(u128::MAX, 1), (u128::MAX >> 64, u64::MAX));
    assert_eq!(wide_product(u128::MAX, u64::MAX), (u128::MAX - (1 << 64), 1));
}

#[test]
fn use_costs() {
    let history = vec![0, 3, 7];
    let present = vec![1, 2, 5];
    assert_eq!(use_cost(&history, &present, 0), 1);
    assert_eq!(use_cost(&history, &present, 1), 8);
    assert_eq!(use_cost(&history, &present, 2), 40);
    assert_eq!(step_cost(&history, &present, 2, 4), 44);
    assert_eq!(use_cost(&vec![u64::MAX], &vec![u64::MAX], 0), (1u128 << 64) * u64::MAX as u128);
}

#[test]
fn present_costs_count_the_nets() {
    let mut present = vec![1, 1, 1, 1];
    occupy_nodes(&mut present, &vec![2, 0]);
    assert_eq!(present, vec![2, 1, 2, 1]);
    assert!(is_converged(&present));
    assert_eq!(congestion(&present), 0);
    occupy_nodes(&mut present, &vec![2]);
    occupy_nodes(&mut present, &vec![3, 2, 0]);
    assert_eq!(present, vec![3, 1, 4, 2]);
    assert!(!is_converged(&present));
    assert_eq!(congestion(&present), 3);
    assert!(is_converged(&vec![]));
    assert_eq!(congestion(&vec![]), 0);
}

#[test]
fn historical_costs_never_fall() {
    let mut history = vec![0, 4, 9];
    let before = history.clone();
    raise_history(&mut history, &vec![1, 3, 2]);
    assert_eq!(history, vec![1, 7, 11]);
    for (old, new) in before.iter().zip(history.iter()) {
        assert!(new >= old);
    }
}

#[test]
fn wave_meets_what_can_be_reached() {
    let topology = DeviceTopology { width: 1, height: 1 };
    let (graph, map) = topology.build_graph();
    let count = graph.node_count();
    let history = vec![0; count];
    let present = vec![1; count];
    let pad = map.get(io(CardinalDirection::North, 0)).unwrap();
    let other = map.get(io(CardinalDirection::East, 1)).unwrap();
    let input = map
        .get(RoutingGraphNode::LogicCellInput {
            coords: LogicCellCoordinates { x: 0, y: 0 },
            input: LookUpTableInput::C,
        })
        .unwrap();
    let output = map
        .get(RoutingGraphNode::LogicCellOutput { coords: LogicCellCoordinates { x: 0, y: 0 } })
        .unwrap();
    assert!(wave_reaches(&graph, &history, &present, &vec![pad], other));
    assert!(wave_reaches(&graph, &history, &present, &vec![pad], pad));
    assert!(wave_reaches(&graph, &history, &present, &vec![pad], input));
    assert!(!wave_reaches(&graph, &history, &present, &vec![pad], output));
    // Nothing leaves the input of a logic cell.
    assert!(!wave_reaches(&graph, &history, &present, &vec![input], pad));
    assert!(wave_reaches(&graph, &history, &present, &vec![input, output], pad));
    assert!(!wave_reaches(&graph, &history, &present, &vec![], pad));
}

#[test]
fn nets_are_connected_sink_by_sink() {
    let topology = DeviceTopology { width: 1, height: 1 };
    let (graph, map) = topology.build_graph();
    let count = graph.node_count();
    let history = vec![0; count];
    let present = vec![1; count];
    let source = map.get(io(CardinalDirection::West, 0)).unwrap();
    let near = map.get(io(CardinalDirection::North, 0)).unwrap();
    let far = map.get(io(CardinalDirection::East, 1)).unwrap();
    let output = map
        .get(RoutingGraphNode::LogicCellOutput { coords: LogicCellCoordinates { x: 0, y: 0 } })
        .unwrap();

    let mut tree = RoutingTree::new(source);
    assert!(connect(&graph, &topology, &history, &present, source, &mut tree, near));
    // I/O block, input west, output north, I/O block: the two in the middle
    // are added.
    assert_eq!(tree.nodes().len(), 3);
    assert_eq!(tree.nodes()[0], source);
    assert!(!tree.contains(near));
    let before = tree.nodes().clone();
    assert!(!connect(&graph, &topology, &history, &present, source, &mut tree, output));
    assert_eq!(tree.nodes(), &before);
    assert_eq!(tree.longest_path(&graph, source, &vec![]), 0);

    let routed = route_net(&graph, &topology, &history, &present, source, &vec![near, far]).unwrap();
    assert_eq!(&routed.nodes()[..3], &before[..]);
    assert!(routed.nodes().len() > 3);
    match route_net(&graph, &topology, &history, &present, source, &vec![near, output, far]) {
        Err(unreachable) => assert_eq!(unreachable, Unreachable { source, sink: output }),
        Ok(_) => panic!("the output of a logic cell was reached"),
    }
    let alone = route_net(&graph, &topology, &history, &present, source, &vec![]).unwrap();
    assert_eq!(alone.nodes(), &vec![source]);
}

#[test]
fn a_round_routes_every_net_and_counts_the_use() {
    let topology = DeviceTopology { width: 1, height: 1 };
    let (graph, map) = topology.build_graph();
    let history = vec![0; graph.node_count()];
    let mut nets = RoutingNetList::new();
    nets.insert(
        map.get(io(CardinalDirection::West, 0)).unwrap(),
        map.get(io(CardinalDirection::North, 0)).unwrap(),
    );
    nets.insert(
        map.get(io(CardinalDirection::West, 1)).unwrap(),
        map.get(io(CardinalDirection::South, 0)).unwrap(),
    );
    let (trees, present) = route_round(&graph, &topology, &history, &nets).unwrap();
    assert_eq!(trees.len(), 2);
    // Before the sinks are added no sink is reached within its tree; the
    // score of the trees with their sinks is taken below.
    let mut with_sinks = Vec::new();
    for (i, tree) in trees.iter().enumerate() {
        let mut route = RoutingTree::new(tree.nodes()[0]);
        route.absorb(tree.nodes());
        route.absorb(&nets.net(i).sinks);
        with_sinks.push(route);
    }
    assert_eq!(score_netlist(&graph, &nets, &with_sinks), NetListScore { total: 6, nets: 2 });
    assert_eq!(present.len(), graph.node_count());
    let used: usize = trees.iter().map(|tree| tree.nodes().len()).sum();
    assert_eq!(present.iter().map(|cost| (cost - 1) as usize).sum::<usize>(), used);
    assert!(is_converged(&present));
    match settle(&graph, &nets, trees) {
        PathfinderResult::Routed { score, netlist } => {
            // Each net: I/O block, input, output, I/O block.
            assert_eq!(score, NetListScore { total: 6, nets: 2 });
            assert_routes_stand(&graph, &nets, &netlist);
            assert_eq!(netlist.net(0).sinks.len(), 4);
        }
        PathfinderResult::NotRouted { congestion } => panic!("congestion {}", congestion),
    }
}

#[test]
fn routes_that_share_a_sink_are_not_routed() {
    let topology = DeviceTopology { width: 1, height: 1 };
    let (graph, map) = topology.build_graph();
    let sink = map.get(io(CardinalDirection::East, 0)).unwrap();
    let mut nets = RoutingNetList::new();
    nets.insert(map.get(io(CardinalDirection::West, 0)).unwrap(), sink);
    nets.insert(map.get(io(CardinalDirection::West, 1)).unwrap(), sink);
    match pathfinder(&graph, &nets, &topology, 8) {
        Ok(PathfinderResult::NotRouted { congestion }) => assert!(congestion >= 1),
        Ok(PathfinderResult::Routed { .. }) => panic!("two nets ended at one I/O block"),
        Err(unreachable) => panic!("{:?}", unreachable),
    }
}

#[test]
fn netlist_keeps_sources_and_sinks_in_order() {
    let mut nets = RoutingNetList::new();
    assert_eq!(nets.len(), 0);
    nets.insert(5, 9);
    nets.insert(3, 9);
    nets.insert(5, 1);
    nets.insert(5, 9);
    assert_eq!(nets.len(), 2);
    assert_eq!((nets.net(0).source, &nets.net(0).sinks), (5, &vec![9, 1]));
    assert_eq!((nets.net(1).source, &nets.net(1).sinks), (3, &vec![9]));
    assert_eq!(nets.position(3), Some(1));
    assert_eq!(nets.position(9), None);
    nets.push_net(7, vec![7, 8]);
    assert_eq!(nets.len(), 3);
    assert_eq!(nets.net(2).sinks, vec![7, 8]);
}

#[test]
fn two_drivers_of_one_port_fail_to_route() {
    let mut graph = ImplGraph::new();
    let first = graph.add_node(module_port("a", ModulePortDirection::Input));
    let second = graph.add_node(module_port("b", ModulePortDirection::Input));
    let output = graph.add_node(module_port("y", ModulePortDirection::Output));
    graph.add_edge(first, output, ImplGraphEdge::ModulePortInput);
    graph.add_edge(second, output, ImplGraphEdge::ModulePortInput);
    match route_design(graph, DeviceTopology { width: 1, height: 1 }) {
        Err(error) => assert_eq!(error, RoutingError::FailedToRoute),
        Ok(_) => panic!("two routes ended at one I/O block"),
    }
}

#[test]
fn placement_knows_where_a_node_is() {
    let topology = DeviceTopology { width: 2, height: 2 };
    let design = pass_through();
    let mut configuration = RoutingConfiguration::initial(&topology, &design).unwrap();
    for _ in 0..5 {
        let cell = configuration.logic_cell_of(1).unwrap();
        assert!(cell.x < 2 && cell.y < 2);
        assert_eq!(configuration.logic_cell_of(0), None);
        assert_eq!(configuration.io_block_at(1), None);
        let input = configuration.io_block_at(0).unwrap();
        let output = configuration.io_block_at(2).unwrap();
        assert_ne!(input, output);
        let copy = configuration.snapshot();
        assert_eq!(copy.logic_cell_of(1), Some(cell));
        assert_eq!(copy.io_block_at(2), Some(output));
        configuration.mutate();
        assert_eq!(copy.logic_cell_of(1), Some(cell));
    }
}

#[test]
fn energy_of_a_placement() {
    match energy(Ok(PathfinderResult::NotRouted { congestion: 3 })) {
        PathfinderResult::NotRouted { congestion } => assert_eq!(congestion, 3),
        _ => panic!("routed"),
    }
    match energy(Err(Unreachable { source: 1, sink: 2 })) {
        PathfinderResult::NotRouted { congestion } => assert_eq!(congestion, u64::MAX),
        _ => panic!("routed"),
    }
    let routed = PathfinderResult::Routed {
        score: NetListScore { total: 9, nets: 2 },
        netlist: RoutingNetList::new(),
    };
    match energy(Ok(routed)) {
        PathfinderResult::Routed { score, .. } => assert_eq!(score.total, 9),
        _ => panic!("not routed"),
    }
}

#[test]
fn random_designs_route_or_fail_cleanly() {
    let mut rng = rand::thread_rng();
    let topology = DeviceTopology { width: 3, height: 3 };
    let mut routed = 0;
    for _ in 0..60 {
        let mut graph = ImplGraph::new();
        let inputs: Vec<_> = (0..rng.gen_range(1, 5))
            .map(|i| graph.add_node(module_port(&format!("i{}", i), ModulePortDirection::Input)))
            .collect();
        let cells: Vec<_> =
            (0..rng.gen_range(1, 9)).map(|i| graph.add_node(logic_cell(&format!("c{}", i)))).collect();
        let outputs: Vec<_> = (0..rng.gen_range(1, 5))
            .map(|i| graph.add_node(module_port(&format!("o{}", i), ModulePortDirection::Output)))
            .collect();
        let mut drivers = inputs.clone();
        for cell in cells.iter() {
            // Every input of a cell has at most one driver.
            for input in LookUpTableInput::iter() {
                if rng.gen_range(0, 3) == 0 {
                    let driver = drivers[rng.gen_range(0, drivers.len())];
                    graph.add_edge(driver, *cell, ImplGraphEdge::LogicCellInput(input));
                }
            }
            drivers.push(*cell);
        }
        for output in outputs.iter() {
            let driver = drivers[rng.gen_range(0, drivers.len())];
            graph.add_edge(driver, *output, ImplGraphEdge::ModulePortInput);
        }
        let edges = graph.edge_count();
        match route_design(graph, topology) {
            Ok(design) => {
                routed += 1;
                let nets = design.netlist.len();
                assert!(nets <= edges);
                assert_eq!(design.score.nets, nets);
                let sets = nodes_of(&design.netlist);
                for i in 0..sets.len() {
                    assert!(sets[i].contains(&design.netlist.net(i).source));
                    for j in (i + 1)..sets.len() {
                        assert!(sets[i].is_disjoint(&sets[j]));
                    }
                }
            }
            Err(error) => assert_eq!(error, RoutingError::FailedToRoute),
        }
    }
    assert!(routed > 0);
}

#[test]
fn ports_that_just_fit_are_placed() {
    let mut graph = ImplGraph::new();
    for i in 0..8 {
        graph.add_node(module_port(&format!("p{}", i), ModulePortDirection::Input));
    }
    match route_design(graph, DeviceTopology { width: 1, height: 1 }) {
        Ok(design) => {
            assert_eq!(design.netlist.len(), 0);
            assert_eq!(design.score, NetListScore { total: 0, nets: 0 });
        }
        Err(error) => panic!("eight ports on eight I/O blocks: {:?}", error),
    }
}

#[test]
fn a_design_with_nothing_to_route_is_routed() {
    for _ in 0..20 {
        let mut design = ImplGraph::new();
        let clock = design.add_node(module_port("clk", ModulePortDirection::Input));
        let first = design.add_node(logic_cell("$lut$0"));
        let second = design.add_node(logic_cell("$lut$1"));
        design.add_edge(clock, first, ImplGraphEdge::LogicCellClock);
        design.add_edge(clock, second, ImplGraphEdge::LogicCellClock);
        match route_design(design, DeviceTopology { width: 2, height: 1 }) {
            Ok(routed) => {
                assert_eq!(routed.netlist.len(), 0);
                assert_eq!(routed.score, NetListScore { total: 0, nets: 0 });
            }
            Err(error) => panic!("nothing was to be routed: {:?}", error),
        }
    }
}

#[test]
fn every_cell_of_a_full_device_is_taken_once() {
    let topology = DeviceTopology { width: 2, height: 2 };
    let mut design = ImplGraph::new();
    for i in 0..4 {
        design.add_node(logic_cell(&format!("$lut${}", i)));
    }
    for i in 0..10 {
        design.add_node(module_port(&format!("p{}", i), ModulePortDirection::Input));
    }
    for _ in 0..20 {
        let mut configuration = RoutingConfiguration::initial(&topology, &design).unwrap();
        configuration.mutate();
        let mut cells = HashSet::new();
        for id in 0..4 {
            let coords = configuration.logic_cell_of(id).unwrap();
            assert!(coords.x < 2 && coords.y < 2);
            assert!(cells.insert((coords.x, coords.y)));
            assert!(configuration.io_block_at(id).is_none());
        }
        assert_eq!(cells.len(), 4);
        let mut blocks = HashSet::new();
        for id in 4..14 {
            let coords = configuration.io_block_at(id).unwrap();
            assert!(coords.position <= 2);
            assert!(blocks.insert(coords));
            assert!(configuration.logic_cell_of(id).is_none());
        }
        assert_eq!(blocks.len(), 10);
    }
}

#[test]
fn the_first_sink_out_of_reach_is_reported() {
    let topology = DeviceTopology { width: 1, height: 1 };
    let (graph, map) = topology.build_graph();
    let cell = LogicCellCoordinates { x: 0, y: 0 };
    let pad = map.get(io(CardinalDirection::North, 0)).unwrap();
    let other = map.get(io(CardinalDirection::West, 1)).unwrap();
    let output = map.get(RoutingGraphNode::LogicCellOutput { coords: cell }).unwrap();
    // Every sink of the first net is reached; the second sink of the second
    // net is the output of a logic cell, to which nothing leads.
    let mut nets = RoutingNetList::new();
    nets.insert(pad, map.get(io(CardinalDirection::East, 1)).unwrap());
    nets.insert(other, map.get(io(CardinalDirection::South, 0)).unwrap());
    nets.insert(other, output);
    nets.insert(other, map.get(io(CardinalDirection::East, 0)).unwrap());
    match pathfinder(&graph, &nets, &topology, 4) {
        Err(unreachable) => assert_eq!(unreachable, Unreachable { source: other, sink: output }),
        Ok(_) => panic!("the output of a logic cell was reached"),
    }
    let count = graph.node_count();
    let mut history = vec![3; count];
    match pathfinder_with_history(&graph, &nets, &topology, &mut history, 4) {
        Err(unreachable) => assert_eq!(unreachable, Unreachable { source: other, sink: output }),
        Ok(_) => panic!("the output of a logic cell was reached"),
    }
    assert_eq!(history, vec![3; count]);
}

#[test]
fn the_router_carries_the_historical_costs() {
    let topology = DeviceTopology { width: 2, height: 2 };
    let (graph, map) = topology.build_graph();
    let source = map.get(io(CardinalDirection::West, 0)).unwrap();
    let sink = map.get(io(CardinalDirection::East, 2)).unwrap();
    let mut nets = RoutingNetList::new();
    nets.insert(source, sink);
    let count = graph.node_count();
    let mut history = vec![0; count];
    let first = pathfinder_with_history(&graph, &nets, &topology, &mut history, 8).unwrap();
    let plain = pathfinder(&graph, &nets, &topology, 8).unwrap();
    let route: Vec<usize> = match (first, plain) {
        (
            PathfinderResult::Routed { score, netlist },
            PathfinderResult::Routed { score: other_score, netlist: other },
        ) => {
            assert_eq!(score, other_score);
            assert_eq!(netlist.net(0).sinks, other.net(0).sinks);
            netlist.net(0).sinks.clone()
        }
        _ => panic!("one net alone was not routed"),
    };
    assert_eq!(route[0], source);
    assert!(route.contains(&sink));
    // One round was made: a node of the tree was used once, the sink is no
    // node of the tree, and nothing else was used.
    for node in 0..count {
        let expected = if route.contains(&node) && node != sink { 2 } else { 1 };
        assert_eq!(history[node], expected, "node {}", node);
    }
    let before = history.clone();
    let second = pathfinder_with_history(&graph, &nets, &topology, &mut history, 8).unwrap();
    assert!(matches!(second, PathfinderResult::Routed { .. }));
    for node in 0..count {
        assert!(history[node] > before[node]);
    }
}
