use petgraph::visit::EdgeRef;
use toolchain::bitstream::{generate_bitstream, BitstreamError};
use toolchain::implementation::{
    implement_design, implement_edge, sanity_check_flip_flops, ImplError, ImplGraph, ImplGraphEdge,
    ImplGraphNode,
};
use toolchain::routing::placement::{RoutingConfiguration, RoutingError};
use toolchain::routing::topology::{
    CardinalDirection, DeviceTopology, IoBlockCoordinates, LogicCellCoordinates,
    SwitchBlockCoordinates,
};
use toolchain::routing::route_design;
use toolchain::synthesis::{
    Design, DesignGraph, DesignGraphEdge, DesignGraphNode, FlipFlop, FlipFlopConfig, FlipFlopInput,
    FlipFlopTrigger, LookUpTable, LookUpTableConfig, LookUpTableInput, LookUpTableMask, ModulePort,
    ModulePortConfig, ModulePortDirection, NetId, SynthesisError, YosysCell, YosysLutParameter,
    YosysModule, YosysPort,
};
use toolchain::text::{decimal, last_part, same_text};
use toolchain::toolchain::ToolchainError;

fn port(name: &str, direction: ModulePortDirection, net: u32) -> ModulePortConfig {
    ModulePortConfig { name: name.to_string(), direction, net: NetId(net) }
}

fn lut(name: &str, inputs: [Option<u32>; 4], output: u32) -> LookUpTableConfig {
    LookUpTableConfig {
        name: name.to_string(),
        mask: LookUpTableMask::new(0x8000),
        inputs: inputs.map(|net| net.map(NetId)),
        output: NetId(output),
    }
}

fn ff(name: &str, clock: u32, data: u32, output: u32) -> FlipFlopConfig {
    FlipFlopConfig {
        name: name.to_string(),
        trigger: FlipFlopTrigger::RisingEdge,
        clock: NetId(clock),
        data: NetId(data),
        output: NetId(output),
    }
}

/// Two inputs into a look-up table, registered, and an inverter on the register.
fn registered_and() -> Design {
    Design {
        name: "registered_and".to_string(),
        ports: vec![
            port("clk", ModulePortDirection::Input, 1),
            port("a", ModulePortDirection::Input, 2),
            port("b", ModulePortDirection::Input, 3),
            port("q", ModulePortDirection::Output, 5),
            port("nq", ModulePortDirection::Output, 6),
        ],
        flip_flops: vec![ff("$dff_pos$1", 1, 4, 5)],
        lookup_tables: vec![
            lut("$lut$1", [Some(2), Some(3), None, None], 4),
            lut("$lut$2", [Some(5), None, None, None], 6),
        ],
    }
}

fn edges_of(graph: &DesignGraph) -> Vec<(usize, usize, DesignGraphEdge)> {
    let mut edges: Vec<_> = graph
        .edge_references()
        .map(|edge| (edge.source().index(), edge.target().index(), *edge.weight()))
        .collect();
    edges.sort_by_key(|edge| (edge.0, edge.1, format!("{:?}", edge.2)));
    edges
}

fn impl_edges_of(graph: &ImplGraph) -> Vec<(usize, usize, ImplGraphEdge)> {
    graph
        .edge_references()
        .map(|edge| (edge.source().index(), edge.target().index(), *edge.weight()))
        .collect()
}

#[test]
fn design_graph_joins_drivers_and_inputs() {
    let graph = registered_and().into_graph().unwrap();
    assert_eq!(graph.node_count(), 8);
    let names: Vec<String> = graph.node_indices().map(|node| graph[node].name()).collect();
    assert_eq!(names, vec!["clk", "a", "b", "q", "nq", "$dff_pos$1", "$lut$1", "$lut$2"]);
    assert_eq!(
        edges_of(&graph),
        vec![
            (0, 5, DesignGraphEdge::FlipFlopInput(FlipFlopInput::Clock)),
            (1, 6, DesignGraphEdge::LookUpTableInput(LookUpTableInput::A)),
            (2, 6, DesignGraphEdge::LookUpTableInput(LookUpTableInput::B)),
            (5, 3, DesignGraphEdge::ModulePortInput),
            (5, 7, DesignGraphEdge::LookUpTableInput(LookUpTableInput::A)),
            (6, 5, DesignGraphEdge::FlipFlopInput(FlipFlopInput::Data)),
            (7, 4, DesignGraphEdge::ModulePortInput),
        ]
    );
    for edge in graph.edge_references() {
        assert!(edge.weight().can_connect_to(&graph[edge.target()]));
    }
}

#[test]
fn undriven_output_is_reported() {
    let mut design = registered_and();
    design.ports.push(port("loose", ModulePortDirection::Output, 99));
    design.ports.push(port("looser", ModulePortDirection::Output, 98));
    match design.into_graph() {
        Err(SynthesisError::ModulePortUndriven { port }) => assert_eq!(port, "loose"),
        Ok(_) => panic!("an undriven port was accepted"),
    }
}

#[test]
fn unread_nets_make_no_edge() {
    let design = Design {
        name: "unread".to_string(),
        ports: vec![port("a", ModulePortDirection::Input, 2)],
        flip_flops: vec![],
        lookup_tables: vec![lut("$lut$1", [None, None, None, Some(7)], 3)],
    };
    let graph = design.into_graph().unwrap();
    assert_eq!(graph.node_count(), 2);
    assert_eq!(graph.edge_count(), 0);
}

#[test]
fn design_edges_and_their_targets() {
    let table = DesignGraphNode::LookUpTable(LookUpTable {
        name: "t".to_string(),
        mask: LookUpTableMask::new(1),
    });
    let register = DesignGraphNode::FlipFlop(FlipFlop {
        name: "r".to_string(),
        trigger: FlipFlopTrigger::FallingEdge,
    });
    let input =
        DesignGraphNode::ModulePort(ModulePort { name: "i".to_string(), direction: ModulePortDirection::Input });
    let output =
        DesignGraphNode::ModulePort(ModulePort { name: "o".to_string(), direction: ModulePortDirection::Output });
    let to_table = DesignGraphEdge::LookUpTableInput(LookUpTableInput::C);
    let to_register = DesignGraphEdge::FlipFlopInput(FlipFlopInput::Data);
    assert!(to_table.can_connect_to(&table));
    assert!(!to_table.can_connect_to(&register));
    assert!(to_register.can_connect_to(&register));
    assert!(!to_register.can_connect_to(&output));
    assert!(DesignGraphEdge::ModulePortInput.can_connect_to(&output));
    assert!(!DesignGraphEdge::ModulePortInput.can_connect_to(&input));
    assert!(!DesignGraphEdge::ModulePortInput.can_connect_to(&table));
    assert_eq!(table.name(), "t");
    assert_eq!(register.name(), "r");
    assert_eq!(output.name(), "o");
}

#[test]
fn look_up_table_and_flip_flop_are_fused() {
    let design_graph = registered_and().into_graph().unwrap();
    let graph = implement_design(design_graph).unwrap();
    // One cell for the table with its register, one for the inverter, and
    // the five ports.
    assert_eq!(graph.node_count(), 7);
    let mut cells = 0;
    let mut ports = Vec::new();
    for node in graph.node_indices() {
        match &graph[node] {
            ImplGraphNode::LogicCell(cell) => {
                cells += 1;
                match cell.lut.name.as_str() {
                    "$lut$1" => assert_eq!(cell.ff.as_ref().unwrap().name, "$dff_pos$1"),
                    "$lut$2" => assert!(cell.ff.is_none()),
                    other => panic!("unexpected cell {}", other),
                }
            }
            ImplGraphNode::ModulePort(port) => ports.push(port.name.clone()),
        }
    }
    assert_eq!(cells, 2);
    ports.sort();
    assert_eq!(ports, vec!["a", "b", "clk", "nq", "q"]);
    let name = |index: usize| match &graph[petgraph::graph::NodeIndex::new(index)] {
        ImplGraphNode::LogicCell(cell) => cell.lut.name.clone(),
        ImplGraphNode::ModulePort(port) => port.name.clone(),
    };
    let mut edges: Vec<(String, String, ImplGraphEdge)> = impl_edges_of(&graph)
        .into_iter()
        .map(|(source, target, weight)| (name(source), name(target), weight))
        .collect();
    edges.sort_by_key(|edge| (edge.0.clone(), edge.1.clone()));
    assert_eq!(
        edges,
        vec![
            ("$lut$1".to_string(), "$lut$2".to_string(), ImplGraphEdge::LogicCellInput(LookUpTableInput::A)),
            ("$lut$1".to_string(), "q".to_string(), ImplGraphEdge::ModulePortInput),
            ("$lut$2".to_string(), "nq".to_string(), ImplGraphEdge::ModulePortInput),
            ("a".to_string(), "$lut$1".to_string(), ImplGraphEdge::LogicCellInput(LookUpTableInput::A)),
            ("b".to_string(), "$lut$1".to_string(), ImplGraphEdge::LogicCellInput(LookUpTableInput::B)),
            ("clk".to_string(), "$lut$1".to_string(), ImplGraphEdge::LogicCellClock),
        ]
    );
    for edge in graph.edge_references() {
        assert!(edge.weight().can_connect_to(&graph[edge.target()]));
    }
}

#[test]
fn flip_flop_alone_stands_behind_a_passthrough() {
    let design = Design {
        name: "register".to_string(),
        ports: vec![
            port("clk", ModulePortDirection::Input, 1),
            port("d", ModulePortDirection::Input, 2),
            port("q", ModulePortDirection::Output, 3),
        ],
        flip_flops: vec![ff("$dff_pos$7", 1, 2, 3)],
        lookup_tables: vec![],
    };
    let graph = implement_design(design.into_graph().unwrap()).unwrap();
    assert_eq!(graph.node_count(), 4);
    let cell = graph
        .node_indices()
        .find_map(|node| match &graph[node] {
            ImplGraphNode::LogicCell(cell) => Some((node, cell)),
            _ => None,
        })
        .unwrap();
    assert_eq!(cell.1.lut.name, "$lut$passthrough");
    assert_eq!(cell.1.lut.mask.get(), 0xaaaa);
    assert_eq!(cell.1.ff.as_ref().unwrap().name, "$dff_pos$7");
    let into_cell: Vec<ImplGraphEdge> = graph
        .edges_directed(cell.0, petgraph::Direction::Incoming)
        .map(|edge| *edge.weight())
        .collect();
    assert_eq!(into_cell.len(), 2);
    assert!(into_cell.contains(&ImplGraphEdge::LogicCellClock));
    assert!(into_cell.contains(&ImplGraphEdge::LogicCellInput(LookUpTableInput::A)));
}

#[test]
fn table_with_two_readers_is_not_fused() {
    let mut design = registered_and();
    // The first table also drives an output: it keeps its own cell.
    design.ports.push(port("early", ModulePortDirection::Output, 4));
    let graph = implement_design(design.into_graph().unwrap()).unwrap();
    let cells: Vec<_> = graph
        .node_indices()
        .filter_map(|node| match &graph[node] {
            ImplGraphNode::LogicCell(cell) => {
                Some((cell.lut.name.clone(), cell.ff.as_ref().map(|ff| ff.name.clone())))
            }
            _ => None,
        })
        .collect();
    assert_eq!(cells.len(), 3);
    assert!(cells.contains(&("$lut$1".to_string(), None)));
    assert!(cells.contains(&("$lut$2".to_string(), None)));
    assert!(cells.contains(&("$lut$passthrough".to_string(), Some("$dff_pos$1".to_string()))));
}

#[test]
fn edges_of_the_implementation() {
    assert_eq!(
        implement_edge(DesignGraphEdge::LookUpTableInput(LookUpTableInput::C)),
        ImplGraphEdge::LogicCellInput(LookUpTableInput::C)
    );
    assert_eq!(implement_edge(DesignGraphEdge::ModulePortInput), ImplGraphEdge::ModulePortInput);
    assert_eq!(
        implement_edge(DesignGraphEdge::FlipFlopInput(FlipFlopInput::Clock)),
        ImplGraphEdge::LogicCellClock
    );
    assert_eq!(
        implement_edge(DesignGraphEdge::FlipFlopInput(FlipFlopInput::Data)),
        ImplGraphEdge::LogicCellInput(LookUpTableInput::A)
    );
}

#[test]
fn clock_from_a_look_up_table_is_refused() {
    let design = Design {
        name: "gated".to_string(),
        ports: vec![
            port("a", ModulePortDirection::Input, 1),
            port("d", ModulePortDirection::Input, 2),
            port("q", ModulePortDirection::Output, 4),
        ],
        flip_flops: vec![ff("$dff_pos$1", 3, 2, 4)],
        lookup_tables: vec![lut("$lut$9", [Some(1), None, None, None], 3)],
    };
    let graph = design.into_graph().unwrap();
    match sanity_check_flip_flops(&graph) {
        Err(ImplError::FlipFlopClockSource { ff, clock_source }) => {
            assert_eq!(ff, "$dff_pos$1");
            assert_eq!(clock_source, "$lut$9");
        }
        other => panic!("{:?}", other),
    }
    assert!(implement_design(graph).is_err());
}

#[test]
fn two_clocks_are_refused() {
    let design = Design {
        name: "two_clocks".to_string(),
        ports: vec![
            port("clk1", ModulePortDirection::Input, 1),
            port("clk2", ModulePortDirection::Input, 2),
            port("d", ModulePortDirection::Input, 3),
            port("q1", ModulePortDirection::Output, 4),
            port("q2", ModulePortDirection::Output, 5),
        ],
        flip_flops: vec![ff("$dff_pos$1", 1, 3, 4), ff("$dff_pos$2", 2, 3, 5)],
        lookup_tables: vec![],
    };
    match implement_design(design.into_graph().unwrap()) {
        Err(ImplError::MultipleClockDomains { ff, expected_clock_source, actual_clock_source }) => {
            assert_eq!(ff, "$dff_pos$2");
            assert_eq!(expected_clock_source, "clk1");
            assert_eq!(actual_clock_source, "clk2");
        }
        other => panic!("{:?}", other.map(|graph| graph.node_count())),
    }
}

#[test]
fn design_without_flip_flops_needs_no_clock() {
    let design = Design {
        name: "wire".to_string(),
        ports: vec![port("a", ModulePortDirection::Input, 1), port("y", ModulePortDirection::Output, 2)],
        flip_flops: vec![],
        lookup_tables: vec![lut("$lut$1", [Some(1), None, None, None], 2)],
    };
    let graph = design.into_graph().unwrap();
    assert!(sanity_check_flip_flops(&graph).is_ok());
    let implemented = implement_design(graph).unwrap();
    assert_eq!(implemented.node_count(), 3);
    assert_eq!(implemented.edge_count(), 2);
}

#[test]
fn implementation_edges_and_their_targets() {
    let cell = ImplGraphNode::LogicCell(toolchain::implementation::LogicCell {
        lut: LookUpTable { name: "t".to_string(), mask: LookUpTableMask::new(1) },
        ff: None,
    });
    let input =
        ImplGraphNode::ModulePort(ModulePort { name: "i".to_string(), direction: ModulePortDirection::Input });
    let output =
        ImplGraphNode::ModulePort(ModulePort { name: "o".to_string(), direction: ModulePortDirection::Output });
    assert!(ImplGraphEdge::LogicCellInput(LookUpTableInput::B).can_connect_to(&cell));
    assert!(ImplGraphEdge::LogicCellClock.can_connect_to(&cell));
    assert!(!ImplGraphEdge::LogicCellClock.can_connect_to(&output));
    assert!(ImplGraphEdge::ModulePortInput.can_connect_to(&output));
    assert!(!ImplGraphEdge::ModulePortInput.can_connect_to(&input));
    assert!(!ImplGraphEdge::ModulePortInput.can_connect_to(&cell));
}

#[test]
fn whole_flow_on_a_small_device() {
    let graph = implement_design(registered_and().into_graph().unwrap()).unwrap();
    let routed = route_design(graph, DeviceTopology { width: 3, height: 3 }).unwrap();
    // Four nets are routed: the clock is not.
    assert_eq!(routed.netlist.len(), 4);
    assert_eq!(routed.score.nets, 4);
    assert!(generate_bitstream(&routed.configuration).is_ok());
}

#[test]
fn ports_are_read_bit_by_bit() {
    let single =
        YosysPort { name: "clk".to_string(), direction: "input".to_string(), bits: vec![2] };
    let bits = ModulePortConfig::read(&single);
    assert_eq!(bits.len(), 1);
    assert_eq!(bits[0].name, "clk");
    assert_eq!(bits[0].direction, ModulePortDirection::Input);
    assert_eq!(bits[0].net, NetId(2));
    let wide = YosysPort {
        name: "data".to_string(),
        direction: "output".to_string(),
        bits: (0..12).map(|i| 100 + i).collect(),
    };
    let bits = ModulePortConfig::read(&wide);
    assert_eq!(bits.len(), 12);
    assert_eq!(bits[0].name, "data[0]");
    assert_eq!(bits[11].name, "data[11]");
    assert_eq!(bits[11].net, NetId(111));
    assert_eq!(bits[5].direction, ModulePortDirection::Output);
    let none = YosysPort { name: "none".to_string(), direction: "input".to_string(), bits: vec![] };
    assert!(ModulePortConfig::read(&none).is_empty());
}

fn cell(name: &str, kind: &str) -> YosysCell {
    YosysCell {
        name: name.to_string(),
        kind: kind.to_string(),
        lut: None,
        a: vec![],
        y: None,
        c: None,
        d: None,
        q: None,
    }
}

#[test]
fn cells_are_read_by_their_type() {
    let mut table = cell("$abc$129$auto$blifparse.cc:515:parse_blif$130", "$lut");
    table.lut = Some(YosysLutParameter::BitString("0110".to_string()));
    table.a = vec![4, 5];
    table.y = Some(6);
    let read = LookUpTableConfig::try_read(&table).unwrap();
    assert_eq!(read.name, "$lut$130");
    assert_eq!(read.mask.get(), 0x6666);
    assert_eq!(read.inputs, [Some(NetId(4)), Some(NetId(5)), None, None]);
    assert_eq!(read.output, NetId(6));
    assert!(FlipFlopConfig::try_read(&table).is_none());

    table.lut = Some(YosysLutParameter::Number { value: 0b1000, width: 4 });
    assert_eq!(LookUpTableConfig::try_read(&table).unwrap().mask.get(), 0x8888);

    let mut register = cell("$auto$simplemap.cc:420:simplemap_dff$77", "$_DFF_N_");
    register.c = Some(2);
    register.d = Some(6);
    register.q = Some(7);
    let read = FlipFlopConfig::try_read(&register).unwrap();
    assert_eq!(read.name, "$dff_neg$77");
    assert_eq!(read.trigger, FlipFlopTrigger::FallingEdge);
    assert_eq!((read.clock, read.data, read.output), (NetId(2), NetId(6), NetId(7)));
    assert!(LookUpTableConfig::try_read(&register).is_none());
    register.kind = "$_DFF_P_".to_string();
    let read = FlipFlopConfig::try_read(&register).unwrap();
    assert_eq!(read.name, "$dff_pos$77");
    assert_eq!(read.trigger, FlipFlopTrigger::RisingEdge);

    let other = cell("plain", "$mux");
    assert!(LookUpTableConfig::try_read(&other).is_none());
    assert!(FlipFlopConfig::try_read(&other).is_none());
}

#[test]
fn module_is_read_into_a_design() {
    let mut table = cell("$lut$x$3", "$lut");
    table.lut = Some(YosysLutParameter::Number { value: 2, width: 2 });
    table.a = vec![2];
    table.y = Some(4);
    let mut register = cell("$ff$9", "$_DFF_P_");
    register.c = Some(1);
    register.d = Some(4);
    register.q = Some(5);
    let module = YosysModule {
        name: "blink".to_string(),
        ports: vec![
            YosysPort { name: "clk".to_string(), direction: "input".to_string(), bits: vec![1] },
            YosysPort { name: "io".to_string(), direction: "input".to_string(), bits: vec![2, 3] },
            YosysPort { name: "led".to_string(), direction: "output".to_string(), bits: vec![5] },
        ],
        cells: vec![register, cell("ignored", "$mux"), table],
    };
    let design = Design::read(&module);
    assert_eq!(design.name, "blink");
    let ports: Vec<&str> = design.ports.iter().map(|port| port.name.as_str()).collect();
    assert_eq!(ports, vec!["clk", "io[0]", "io[1]", "led"]);
    assert_eq!(design.flip_flops.len(), 1);
    assert_eq!(design.flip_flops[0].name, "$dff_pos$9");
    assert_eq!(design.lookup_tables.len(), 1);
    assert_eq!(design.lookup_tables[0].name, "$lut$3");
    assert_eq!(design.lookup_tables[0].mask.get(), 0xaaaa);
    let graph = implement_design(design.into_graph().unwrap()).unwrap();
    assert_eq!(graph.node_count(), 4);
}

#[test]
fn configurations_become_nodes() {
    let port = ModulePort::from(port("p", ModulePortDirection::Output, 3));
    assert_eq!((port.name.as_str(), port.direction), ("p", ModulePortDirection::Output));
    let register = FlipFlop::from(ff("r", 1, 2, 3));
    assert_eq!((register.name.as_str(), register.trigger), ("r", FlipFlopTrigger::RisingEdge));
    let table = LookUpTable::from(lut("t", [None; 4], 3));
    assert_eq!((table.name.as_str(), table.mask.get()), ("t", 0x8000));
}

#[test]
fn numbers_and_names() {
    assert_eq!(decimal(0), "0");
    assert_eq!(decimal(7), "7");
    assert_eq!(decimal(10), "10");
    assert_eq!(decimal(4096), "4096");
    assert_eq!(decimal(usize::MAX), usize::MAX.to_string());
    assert!(same_text("$lut", "$lut"));
    assert!(!same_text("$lut", "$luT"));
    assert!(!same_text("$lut", "$lut "));
    assert!(same_text("", ""));
    assert_eq!(last_part("a$b$c", '$'), "c");
    assert_eq!(last_part("abc", '$'), "abc");
    assert_eq!(last_part("abc$", '$'), "");
    assert_eq!(last_part("", '$'), "");
    assert_eq!(LogicCellCoordinates { x: 3, y: 12 }.name(), "$cell[3,12]");
    assert_eq!(SwitchBlockCoordinates { x: 0, y: 100 }.name(), "$junction[0,100]");
    assert_eq!(
        IoBlockCoordinates { direction: CardinalDirection::West, position: 9 }.name(),
        "$io_west[9]"
    );
}

#[test]
fn errors_and_their_messages() {
    let error = ToolchainError::from_routing(RoutingError::NotEnoughLogicCells { needed: 5, available: 4 });
    assert_eq!(error.phase(), "Routing");
    assert_eq!(error.message(), "Need 5 logic cells, but there are only 4 available");
    let error = ToolchainError::from_routing(RoutingError::NotEnoughIoBlocks { needed: 17, available: 16 });
    assert_eq!(error.message(), "Need 17 I/O blocks, but there are only 16 available");
    let error = ToolchainError::from_routing(RoutingError::FailedToRoute);
    assert_eq!(error.message(), "Unable to route the design");
    let error = ToolchainError::from_synthesis(SynthesisError::ModulePortUndriven { port: "led".to_string() });
    assert_eq!(error.phase(), "Synthesis");
    assert_eq!(error.message(), "Module port \"led\" is undriven");
    let error = ToolchainError::from_implementation(ImplError::FlipFlopClockSource {
        ff: "ff".to_string(),
        clock_source: "lut".to_string(),
    });
    assert_eq!(error.phase(), "Implementation");
    assert_eq!(error.message(), "\"ff\" clocked from non-module-input \"lut\"");
    let error = ToolchainError::from_implementation(ImplError::MultipleClockDomains {
        ff: "ff".to_string(),
        expected_clock_source: "clk".to_string(),
        actual_clock_source: "clk2".to_string(),
    });
    assert_eq!(
        error.message(),
        "\"ff\" should be clocked by main clock source \"clk\", not by \"clk2\""
    );
    let error = ToolchainError::from_bitstream(BitstreamError::Unsupported);
    assert_eq!(error.phase(), "Bitstream generation");
    assert!(!error.message().is_empty());
}

#[test]
fn initial_placement_counts() {
    let topology = DeviceTopology { width: 2, height: 2 };
    let graph = implement_design(registered_and().into_graph().unwrap()).unwrap();
    assert!(RoutingConfiguration::initial(&topology, &graph).is_ok());
    let small = DeviceTopology { width: 1, height: 1 };
    match RoutingConfiguration::initial(&small, &graph) {
        Err(error) => assert_eq!(error, RoutingError::NotEnoughLogicCells { needed: 2, available: 1 }),
        Ok(_) => panic!("two cells were placed on one"),
    }
}

#[test]
fn whole_flow_on_a_larger_device() {
    let graph = implement_design(registered_and().into_graph().unwrap()).unwrap();
    let topology = DeviceTopology { width: 10, height: 10 };
    let routed = route_design(graph, topology).unwrap();
    assert_eq!(routed.graph.node_count(), 36 * 121 + 5 * 100 + 44);
    assert_eq!(routed.netlist.len(), 4);
    for i in 0..routed.netlist.len() {
        let net = routed.netlist.net(i);
        assert!(net.sinks.contains(&net.source));
        assert!(net.sinks.len() >= 4);
    }
}
