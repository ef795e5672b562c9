use petgraph::graph::NodeIndex;
use petgraph::visit::EdgeRef;
use std::collections::HashSet;
use toolchain::routing::topology::{
    CardinalDirection, DeviceTopology, IntercardinalDirection, IoBlockCoordinates,
    LogicCellCoordinates, RoutingGraphNode, SwitchBlockChannel, SwitchBlockCoordinates,
    SwitchBlockCorner, SwitchBlockPort,
};
use toolchain::synthesis::LookUpTableInput;

fn port(x: usize, y: usize, side: CardinalDirection, channel: SwitchBlockChannel) -> SwitchBlockPort {
    SwitchBlockPort { coords: SwitchBlockCoordinates { x, y }, side, channel }
}

#[test]
fn directions_turn_round() {
    assert_eq!(CardinalDirection::North.opposite(), CardinalDirection::South);
    assert_eq!(CardinalDirection::South.opposite(), CardinalDirection::North);
    assert_eq!(CardinalDirection::West.opposite(), CardinalDirection::East);
    assert_eq!(CardinalDirection::East.opposite(), CardinalDirection::West);
    assert_eq!(IntercardinalDirection::Northwest.opposite(), IntercardinalDirection::Southeast);
    assert_eq!(IntercardinalDirection::Northeast.opposite(), IntercardinalDirection::Southwest);
    assert_eq!(IntercardinalDirection::Southwest.opposite(), IntercardinalDirection::Northeast);
    assert_eq!(IntercardinalDirection::Southeast.opposite(), IntercardinalDirection::Northwest);
    assert_eq!(CardinalDirection::North.name(), "north");
    assert_eq!(CardinalDirection::East.name(), "east");
}

#[test]
fn channel_costs_rise() {
    assert_eq!(SwitchBlockChannel::A.cost(), 1);
    assert_eq!(SwitchBlockChannel::B.cost(), 2);
    assert_eq!(SwitchBlockChannel::C.cost(), 3);
    assert_eq!(SwitchBlockChannel::D.cost(), 4);
}

#[test]
fn coordinate_counts() {
    for (width, height) in [(1usize, 1usize), (2, 2), (3, 1), (4, 5)] {
        let topology = DeviceTopology { width, height };
        assert_eq!(topology.iter_logic_cell_coords().len(), width * height);
        assert_eq!(topology.iter_switch_block_coords().len(), (width + 1) * (height + 1));
        assert_eq!(topology.iter_io_block_coords().len(), 2 * (width + 1) + 2 * (height + 1));
    }
}

#[test]
fn coordinates_in_order() {
    let topology = DeviceTopology { width: 2, height: 1 };
    assert_eq!(
        topology.iter_switch_block_coords(),
        vec![
            SwitchBlockCoordinates { x: 0, y: 0 },
            SwitchBlockCoordinates { x: 0, y: 1 },
            SwitchBlockCoordinates { x: 1, y: 0 },
            SwitchBlockCoordinates { x: 1, y: 1 },
            SwitchBlockCoordinates { x: 2, y: 0 },
            SwitchBlockCoordinates { x: 2, y: 1 },
        ]
    );
    assert_eq!(
        topology.iter_logic_cell_coords(),
        vec![LogicCellCoordinates { x: 0, y: 0 }, LogicCellCoordinates { x: 1, y: 0 }]
    );
    let io = topology.iter_io_block_coords();
    assert_eq!(io[0], IoBlockCoordinates { direction: CardinalDirection::North, position: 0 });
    assert_eq!(io[3], IoBlockCoordinates { direction: CardinalDirection::South, position: 0 });
    assert_eq!(io[6], IoBlockCoordinates { direction: CardinalDirection::West, position: 0 });
    assert_eq!(io[9], IoBlockCoordinates { direction: CardinalDirection::East, position: 1 });
}

#[test]
fn neighbours_of_a_corner_block() {
    let topology = DeviceTopology { width: 2, height: 2 };
    let corner = SwitchBlockCoordinates { x: 0, y: 0 };
    assert_eq!(
        topology.adjacent_switch_blocks(corner),
        vec![
            (CardinalDirection::South, SwitchBlockCoordinates { x: 0, y: 1 }),
            (CardinalDirection::East, SwitchBlockCoordinates { x: 1, y: 0 }),
        ]
    );
    assert_eq!(
        topology.adjacent_logic_cells(corner),
        vec![(IntercardinalDirection::Southeast, LogicCellCoordinates { x: 0, y: 0 })]
    );
    assert_eq!(
        topology.adjacent_io_blocks(corner),
        vec![
            (
                CardinalDirection::North,
                IoBlockCoordinates { direction: CardinalDirection::North, position: 0 }
            ),
            (
                CardinalDirection::West,
                IoBlockCoordinates { direction: CardinalDirection::West, position: 0 }
            ),
        ]
    );
}

#[test]
fn neighbours_of_an_inner_block() {
    let topology = DeviceTopology { width: 2, height: 2 };
    let inner = SwitchBlockCoordinates { x: 1, y: 1 };
    assert_eq!(
        topology.adjacent_switch_blocks(inner),
        vec![
            (CardinalDirection::North, SwitchBlockCoordinates { x: 1, y: 0 }),
            (CardinalDirection::South, SwitchBlockCoordinates { x: 1, y: 2 }),
            (CardinalDirection::West, SwitchBlockCoordinates { x: 0, y: 1 }),
            (CardinalDirection::East, SwitchBlockCoordinates { x: 2, y: 1 }),
        ]
    );
    assert_eq!(
        topology.adjacent_logic_cells(inner),
        vec![
            (IntercardinalDirection::Northwest, LogicCellCoordinates { x: 0, y: 0 }),
            (IntercardinalDirection::Northeast, LogicCellCoordinates { x: 1, y: 0 }),
            (IntercardinalDirection::Southwest, LogicCellCoordinates { x: 0, y: 1 }),
            (IntercardinalDirection::Southeast, LogicCellCoordinates { x: 1, y: 1 }),
        ]
    );
    assert!(topology.adjacent_io_blocks(inner).is_empty());
}

#[test]
fn distance_estimate() {
    let topology = DeviceTopology { width: 2, height: 2 };
    let cell = RoutingGraphNode::LogicCellOutput { coords: LogicCellCoordinates { x: 1, y: 0 } };
    let input = RoutingGraphNode::SwitchBlockInput(port(
        0,
        2,
        CardinalDirection::North,
        SwitchBlockChannel::A,
    ));
    let north = RoutingGraphNode::IoBlock {
        coords: IoBlockCoordinates { direction: CardinalDirection::North, position: 2 },
    };
    let east = RoutingGraphNode::IoBlock {
        coords: IoBlockCoordinates { direction: CardinalDirection::East, position: 1 },
    };
    assert_eq!(topology.get_absolute_xy_coords(cell), (4, 2));
    assert_eq!(topology.get_absolute_xy_coords(input), (1, 5));
    assert_eq!(topology.get_absolute_xy_coords(north), (5, 0));
    assert_eq!(topology.get_absolute_xy_coords(east), (3, 3));
    assert_eq!(topology.estimate_distance(cell, cell), 0);
    assert_eq!(topology.estimate_distance(cell, input), 6);
    assert_eq!(topology.estimate_distance(input, cell), 6);
    assert_eq!(topology.estimate_distance(north, east), 5);
    assert!(
        topology.estimate_distance(cell, east)
            <= topology.estimate_distance(cell, input) + topology.estimate_distance(input, east)
    );
}

#[test]
fn connectivity_table() {
    let out = RoutingGraphNode::SwitchBlockOutput(port(
        1,
        1,
        CardinalDirection::North,
        SwitchBlockChannel::B,
    ));
    let same_side = RoutingGraphNode::SwitchBlockInput(port(
        1,
        1,
        CardinalDirection::North,
        SwitchBlockChannel::A,
    ));
    let other_side = RoutingGraphNode::SwitchBlockInput(port(
        1,
        1,
        CardinalDirection::West,
        SwitchBlockChannel::A,
    ));
    let corner = RoutingGraphNode::SwitchBlockCorner(SwitchBlockCorner {
        coords: SwitchBlockCoordinates { x: 1, y: 1 },
        direction: IntercardinalDirection::Northwest,
    });
    let cell_out = RoutingGraphNode::LogicCellOutput { coords: LogicCellCoordinates { x: 0, y: 0 } };
    let northwest = RoutingGraphNode::LogicCellInput {
        coords: LogicCellCoordinates { x: 0, y: 0 },
        input: LookUpTableInput::A,
    };
    let northeast = RoutingGraphNode::LogicCellInput {
        coords: LogicCellCoordinates { x: 1, y: 0 },
        input: LookUpTableInput::A,
    };
    let io = RoutingGraphNode::IoBlock {
        coords: IoBlockCoordinates { direction: CardinalDirection::North, position: 1 },
    };
    assert!(cell_out.can_connect_to(corner));
    assert!(corner.can_connect_to(out));
    assert!(other_side.can_connect_to(out));
    assert!(!same_side.can_connect_to(out));
    assert!(out.can_connect_to(same_side));
    assert!(out.can_connect_to(northeast));
    assert!(!out.can_connect_to(northwest));
    assert!(out.can_connect_to(io));
    assert!(io.can_connect_to(other_side));
    assert!(!io.can_connect_to(out));
    assert!(!corner.can_connect_to(other_side));
    assert!(!cell_out.can_connect_to(out));
    assert!(!northeast.can_connect_to(out));
}

#[test]
fn fits_only_small_devices() {
    assert!(DeviceTopology { width: 10, height: 10 }.fits());
    assert!(DeviceTopology { width: 1999, height: 3999 }.fits());
    assert!(!DeviceTopology { width: 2000, height: 3999 }.fits());
    assert!(!DeviceTopology { width: usize::MAX, height: 0 }.fits());
    assert!(!DeviceTopology { width: 8_000_000, height: 8_000_000 }.fits());
}

#[test]
fn every_edge_is_in_the_connectivity_table() {
    for (width, height) in [(1usize, 1usize), (2, 2), (3, 2)] {
        let topology = DeviceTopology { width, height };
        let (graph, _) = topology.build_graph();
        assert!(graph.edge_count() > 0);
        for edge in graph.edge_references() {
            let source = graph[edge.source()];
            let target = graph[edge.target()];
            assert!(source.can_connect_to(target), "{:?} -> {:?}", source, target);
            assert!(*edge.weight() >= 1);
        }
    }
}

#[test]
fn graph_of_one_cell() {
    let topology = DeviceTopology { width: 1, height: 1 };
    let (graph, map) = topology.build_graph();
    assert_eq!(graph.node_count(), 36 * 4 + 5 + 8);
    // Per block: 192 inside, 64 from corners, 8 to two neighbours, 16 to and
    // from two I/O blocks. The cell: one edge to each of four corners; its
    // inputs are fed by three blocks, one of them on two sides.
    assert_eq!(graph.edge_count(), 4 * (192 + 64 + 8 + 16) + 4 + 4 * 16);
    let mut seen = HashSet::new();
    for edge in graph.edge_references() {
        assert!(seen.insert((edge.source(), edge.target())), "parallel edge");
    }
    for index in graph.node_indices() {
        assert_eq!(map.get(graph[index]), Some(index.index()));
    }
    let outside = RoutingGraphNode::LogicCellOutput { coords: LogicCellCoordinates { x: 1, y: 0 } };
    assert_eq!(map.get(outside), None);
}

#[test]
fn edges_between_neighbours_keep_the_channel() {
    let topology = DeviceTopology { width: 2, height: 2 };
    let (graph, map) = topology.build_graph();
    let out = map
        .get(RoutingGraphNode::SwitchBlockOutput(port(
            1,
            1,
            CardinalDirection::East,
            SwitchBlockChannel::C,
        )))
        .unwrap();
    let facing = map
        .get(RoutingGraphNode::SwitchBlockInput(port(
            2,
            1,
            CardinalDirection::West,
            SwitchBlockChannel::C,
        )))
        .unwrap();
    let edge = graph.find_edge(NodeIndex::new(out), NodeIndex::new(facing)).unwrap();
    assert_eq!(graph[edge], 3);
    let other_channel = map
        .get(RoutingGraphNode::SwitchBlockInput(port(
            2,
            1,
            CardinalDirection::West,
            SwitchBlockChannel::A,
        )))
        .unwrap();
    assert!(graph.find_edge(NodeIndex::new(out), NodeIndex::new(other_channel)).is_none());
}

#[test]
fn northwest_cell_is_not_fed() {
    let topology = DeviceTopology { width: 2, height: 2 };
    let (graph, map) = topology.build_graph();
    for input in LookUpTableInput::iter() {
        let cell = map
            .get(RoutingGraphNode::LogicCellInput { coords: LogicCellCoordinates { x: 0, y: 0 }, input })
            .unwrap();
        let mut feeders = 0;
        for edge in graph.edges_directed(NodeIndex::new(cell), petgraph::Direction::Incoming) {
            match graph[edge.source()] {
                RoutingGraphNode::SwitchBlockOutput(port) => {
                    assert_ne!(port.coords, SwitchBlockCoordinates { x: 1, y: 1 });
                    feeders += 1;
                }
                other => panic!("{:?} feeds a logic cell", other),
            }
        }
        // North side of the block to the south-west, west side of the block
        // to the north-east, south and east side of the block to the
        // north-west, four channels each.
        assert_eq!(feeders, 16);
    }
}
